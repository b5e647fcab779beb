use one_pager::planner::{check_lang_match, plan_tasks, GenTask, RowGroup};
use one_pager::record::CsvRecord;
use one_pager::templates::{Scope, TemplateFile};

fn row(pairs: &[(&str, &str)]) -> CsvRecord {
    let mut r = CsvRecord::new();
    for (k, v) in pairs {
        r.insert(k.to_string(), v.to_string());
    }
    r
}

fn template(folder: &str, prior: bool, scope: Scope) -> TemplateFile {
    TemplateFile {
        path: format!("/t/{}/deck.pptx", folder),
        file_name: "deck.pptx".to_string(),
        folder: folder.to_string(),
        universal: false,
        prior_period: prior,
        scope,
    }
}

fn current(rows: Vec<CsvRecord>) -> Vec<RowGroup> {
    vec![RowGroup { prior_period: false, rows }]
}

#[test]
fn test_lang_match_basic() {
    assert!(check_lang_match("French", "FR"));
}

#[test]
fn lang_match_by_code_and_name() {
    assert!(check_lang_match("FR, EN", "EN"));
    assert!(check_lang_match("Spanish", "ES"));
    assert!(!check_lang_match("German", "FR"));
    assert!(check_lang_match("Dutch", "Dutch"));
    assert!(!check_lang_match("", "IT"));
}

#[test]
fn do_not_generate_row_gets_no_task() {
    let groups = current(vec![row(&[("PM only or PM-RM", "Do not generate OP")])]);
    let templates = vec![
        template("FR", false, Scope::Unrestricted),
        template("EN", false, Scope::RestrictedAlt),
        template("DE", false, Scope::RestrictedOnly),
    ];
    assert!(plan_tasks(&groups, &templates).is_empty());
}

#[test]
fn multi_language_row_pairs_with_both_folders() {
    let groups = current(vec![row(&[("Language", "French, English")])]);
    let templates = vec![
        template("FR", false, Scope::Unrestricted),
        template("EN", false, Scope::Unrestricted),
        template("DE", false, Scope::Unrestricted),
    ];
    let tasks = plan_tasks(&groups, &templates);
    assert_eq!(
        tasks,
        vec![
            GenTask { group: 0, template: 0, row: 0 },
            GenTask { group: 0, template: 1, row: 0 },
        ]
    );
}

#[test]
fn row_without_language_pairs_with_every_template() {
    let groups = current(vec![row(&[("Nom du client", "ACME")])]);
    let templates = vec![
        template("FR", false, Scope::Unrestricted),
        template("EN", false, Scope::Unrestricted),
        template("XX", false, Scope::Unrestricted),
    ];
    assert_eq!(plan_tasks(&groups, &templates).len(), 3);
}

#[test]
fn empty_language_value_matches_nothing() {
    let groups = current(vec![row(&[("Language", "")])]);
    let templates = vec![template("FR", false, Scope::Unrestricted)];
    assert!(plan_tasks(&groups, &templates).is_empty());
}

#[test]
fn scope_status_must_suit_the_template() {
    let groups = current(vec![
        row(&[("PM only or PM-RM", "PM-RM")]),
        row(&[("PM only or PM-RM", "PM only")]),
        row(&[("PM only or PM-RM", "other")]),
    ]);
    let templates = vec![
        template("FR", false, Scope::RestrictedAlt),
        template("FR", false, Scope::RestrictedOnly),
        template("FR", false, Scope::Unrestricted),
    ];
    let tasks = plan_tasks(&groups, &templates);
    assert_eq!(
        tasks,
        vec![
            GenTask { group: 0, template: 0, row: 0 },
            GenTask { group: 0, template: 1, row: 1 },
            GenTask { group: 0, template: 2, row: 0 },
            GenTask { group: 0, template: 2, row: 1 },
            GenTask { group: 0, template: 2, row: 2 },
        ]
    );
}

#[test]
fn prior_period_templates_take_prior_period_rows() {
    let groups = vec![
        RowGroup { prior_period: false, rows: vec![row(&[])] },
        RowGroup { prior_period: true, rows: vec![row(&[]), row(&[])] },
    ];
    let templates = vec![
        template("FR", true, Scope::Unrestricted),
        template("FR", false, Scope::Unrestricted),
    ];
    let tasks = plan_tasks(&groups, &templates);
    assert_eq!(
        tasks,
        vec![
            GenTask { group: 0, template: 1, row: 0 },
            GenTask { group: 1, template: 0, row: 0 },
            GenTask { group: 1, template: 0, row: 1 },
        ]
    );
}

#[test]
fn unfiltered_rows_pair_with_every_template() {
    let groups = current(vec![row(&[("Nom du client", "A")]), row(&[]), row(&[("Org ID", "9")])]);
    let templates = vec![
        template("FR", false, Scope::Unrestricted),
        template("t", false, Scope::Unrestricted),
    ];
    assert_eq!(plan_tasks(&groups, &templates).len(), 6);
}
