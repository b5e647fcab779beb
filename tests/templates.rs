use one_pager::templates::{classify, get_available_languages, scan_templates, Scope, TemplateEntry};

fn entry(path: &str, name: &str, parent: &str, depth: usize) -> TemplateEntry {
    TemplateEntry {
        path: path.to_string(),
        file_name: name.to_string(),
        parent_name: parent.to_string(),
        depth,
    }
}

fn langs(codes: &[&str]) -> Vec<String> {
    codes.iter().map(|c| c.to_string()).collect()
}

#[test]
fn lock_file_is_never_listed() {
    let e = entry("/t/FR/~$deck.pptx", "~$deck.pptx", "FR", 2);
    assert!(classify(&e, &langs(&["FR"])).is_none());
    let e = entry("/t/~$deck.pptx", "~$deck.pptx", "t", 1);
    assert!(classify(&e, &langs(&["FR"])).is_none());
}

#[test]
fn deep_file_outside_language_folder_is_excluded() {
    let e = entry("/t/other/deck.pptx", "deck.pptx", "other", 2);
    assert!(classify(&e, &langs(&["FR", "EN"])).is_none());
    let e = entry("/t/FR/sub/deck.pptx", "deck.pptx", "sub", 3);
    assert!(classify(&e, &langs(&["FR"])).is_none());
}

#[test]
fn root_file_is_always_listed() {
    let e = entry("/t/deck.pptx", "deck.pptx", "t", 1);
    let t = classify(&e, &langs(&[])).unwrap();
    assert!(t.universal);
    let t = classify(&e, &langs(&["FR", "DE"])).unwrap();
    assert!(t.universal);
    assert_eq!(t.path, "/t/deck.pptx");
}

#[test]
fn language_folder_matches_without_case() {
    let e = entry("/t/fr/deck.pptx", "deck.pptx", "fr", 2);
    let t = classify(&e, &langs(&["FR"])).unwrap();
    assert!(!t.universal);
    assert_eq!(t.folder, "fr");
    assert!(classify(&e, &langs(&["EN"])).is_none());
}

#[test]
fn only_template_extension_is_listed() {
    assert!(classify(&entry("/t/a.docx", "a.docx", "t", 1), &langs(&[])).is_none());
    assert!(classify(&entry("/t/.pptx", ".pptx", "t", 1), &langs(&[])).is_none());
    assert!(classify(&entry("/t/a.PPTX", "a.PPTX", "t", 1), &langs(&[])).is_none());
}

#[test]
fn file_name_markers_classify() {
    let l = langs(&[]);
    let t = classify(&entry("/t/x_PM_RM_a.pptx", "x_PM_RM_a.pptx", "t", 1), &l).unwrap();
    assert_eq!(t.scope, Scope::RestrictedAlt);
    let t = classify(&entry("/t/x_PM_a.pptx", "x_PM_a.pptx", "t", 1), &l).unwrap();
    assert_eq!(t.scope, Scope::RestrictedOnly);
    assert!(!t.prior_period);
    let t = classify(&entry("/t/PreviousYear.pptx", "PreviousYear.pptx", "t", 1), &l).unwrap();
    assert_eq!(t.scope, Scope::Unrestricted);
    assert!(t.prior_period);
}

#[test]
fn scan_keeps_order_and_filters() {
    let entries = vec![
        entry("/t", "t", "", 0),
        entry("/t/a.pptx", "a.pptx", "t", 1),
        entry("/t/FR", "FR", "t", 1),
        entry("/t/FR/b.pptx", "b.pptx", "FR", 2),
        entry("/t/IT/c.pptx", "c.pptx", "IT", 2),
        entry("/t/FR/~$b.pptx", "~$b.pptx", "FR", 2),
    ];
    let found = scan_templates(&entries, &langs(&["FR"]));
    let names: Vec<&str> = found.iter().map(|t| t.file_name.as_str()).collect();
    assert_eq!(names, vec!["a.pptx", "b.pptx"]);
}

#[test]
fn available_languages_need_a_template() {
    let folders = vec![
        ("EN".to_string(), vec!["x.pptx".to_string()]),
        ("FR".to_string(), vec!["notes.txt".to_string()]),
        ("ES".to_string(), vec!["a.txt".to_string(), "b.pptx".to_string()]),
        ("XX".to_string(), vec!["c.pptx".to_string()]),
    ];
    assert_eq!(get_available_languages(&folders), vec!["EN".to_string(), "ES".to_string()]);
    assert!(get_available_languages(&vec![]).is_empty());
}
