use one_pager::planner::RowGroup;
use one_pager::record::CsvRecord;
use one_pager::run::{check_templates, make_groups, plan_generation, progress_due, summarize};
use one_pager::templates::{Scope, TemplateFile};

fn template() -> TemplateFile {
    TemplateFile {
        path: "/t/deck.pptx".to_string(),
        file_name: "deck.pptx".to_string(),
        folder: "t".to_string(),
        universal: true,
        prior_period: false,
        scope: Scope::Unrestricted,
    }
}

#[test]
fn no_templates_is_an_error() {
    assert_eq!(check_templates(&vec![]), Err("No templates found for selected languages".to_string()));
    assert!(check_templates(&vec![template()]).is_ok());
    let groups = vec![RowGroup { prior_period: false, rows: vec![CsvRecord::new()] }];
    assert_eq!(
        plan_generation(&vec![], &groups).unwrap_err(),
        "No templates found for selected languages"
    );
}

#[test]
fn no_data_is_an_error() {
    assert_eq!(plan_generation(&vec![template()], &vec![]).unwrap_err(), "No CSV files loaded");
}

#[test]
fn no_tasks_is_an_error() {
    let groups = vec![RowGroup { prior_period: true, rows: vec![CsvRecord::new()] }];
    assert_eq!(
        plan_generation(&vec![template()], &groups).unwrap_err(),
        "No tasks generated (check Filters)"
    );
}

#[test]
fn one_template_one_row_gives_one_task() {
    let groups = make_groups(Some(vec![CsvRecord::new()]), None);
    assert_eq!(plan_generation(&vec![template()], &groups).unwrap().len(), 1);
}

#[test]
fn groups_follow_the_given_files() {
    let g = make_groups(Some(vec![]), Some(vec![CsvRecord::new()]));
    assert_eq!(g.len(), 2);
    assert!(!g[0].prior_period);
    assert!(g[1].prior_period);
    assert_eq!(g[1].rows.len(), 1);
    assert!(make_groups(None, None).is_empty());
}

#[test]
fn progress_every_fifth_and_last() {
    let due: Vec<usize> = (1..=12).filter(|&c| progress_due(c, 12)).collect();
    assert_eq!(due, vec![5, 10, 12]);
    assert!(progress_due(3, 3));
}

#[test]
fn stats_count_every_task() {
    let s = summarize(&vec![true, false, true, true], 1500);
    assert_eq!(s.total_files, 4);
    assert_eq!(s.success_count, 3);
    assert_eq!(s.error_count, 1);
    assert_eq!(s.elapsed_millis, 1500);
    let s = summarize(&vec![true], 0);
    assert_eq!((s.total_files, s.success_count, s.error_count), (1, 1, 0));
}
