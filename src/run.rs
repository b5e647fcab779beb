//! Run-level decisions: configuration checks before any output, progress cadence, and
//! the final statistics.
use crate::planner::{is_plan, plan_tasks, GenTask, RowGroup};
use crate::record::CsvRecord;
use crate::templates::TemplateFile;
use vstd::prelude::*;
use vstd::string::*;

verus! {

/// What one run is asked to do.
#[derive(Clone, Debug)]
pub struct GenConfig {
    /// The current-period data file, if any.
    pub standard_csv: Option<String>,
    /// The prior-period data file, if any.
    pub prev_year_csv: Option<String>,
    pub template_dir: String,
    pub output_dir: String,
    /// Selected language codes.
    pub languages: Vec<String>,
    /// Column name to the exact placeholder tag that stands for it.
    pub mappings: Vec<(String, String)>,
}

/// The outcome of a run.
#[derive(Clone, Copy, Debug)]
pub struct GenStats {
    pub total_files: u32,
    pub elapsed_millis: u64,
    pub success_count: u32,
    pub error_count: u32,
}

pub open spec fn no_templates_message() -> Seq<char> {
    "No templates found for selected languages"@
}

pub open spec fn no_data_message() -> Seq<char> {
    "No CSV files loaded"@
}

pub open spec fn no_tasks_message() -> Seq<char> {
    "No tasks generated (check Filters)"@
}

/// Fails when no template was found; checked before any data is loaded.
pub fn check_templates(templates: &Vec<TemplateFile>) -> (r: Result<(), String>)
    ensures
        r is Ok <==> templates@.len() > 0,
        r matches Err(e) ==> e@ == no_templates_message(),
{
    if templates.len() == 0 {
        return Err(String::from_str("No templates found for selected languages"));
    }
    Ok(())
}

/// The tasks of a run, or why there are none: no template was found, no data file was
/// loaded, or no pairing survived the filters. Nothing is to be written on failure.
pub fn plan_generation(templates: &Vec<TemplateFile>, groups: &Vec<RowGroup>) -> (r: Result<Vec<GenTask>, String>)
    ensures
        templates@.len() == 0 ==> (r matches Err(e) && e@ == no_templates_message()),
        templates@.len() > 0 && groups@.len() == 0 ==> (r matches Err(e) && e@ == no_data_message()),
        templates@.len() > 0 && groups@.len() > 0 ==> match r {
            Ok(tasks) => tasks@.len() > 0 && is_plan(groups@, templates@, tasks@),
            Err(e) => e@ == no_tasks_message() && forall|tasks: Seq<GenTask>|
                is_plan(groups@, templates@, tasks) ==> tasks.len() == 0,
        },
{
    check_templates(templates)?;
    if groups.len() == 0 {
        return Err(String::from_str("No CSV files loaded"));
    }
    let tasks = plan_tasks(groups, templates);
    if tasks.len() == 0 {
        proof {
            assert forall|other: Seq<GenTask>| is_plan(groups@, templates@, other) implies other.len()
                == 0 by {
                if other.len() > 0 {
                    let x = other[0];
                    assert(crate::planner::present(tasks@, x));
                }
            }
        }
        return Err(String::from_str("No tasks generated (check Filters)"));
    }
    Ok(tasks)
}

/// Progress is reported after every fifth completion and after the last one.
pub open spec fn progress_due_spec(done: nat, total: nat) -> bool {
    done % 5 == 0 || done == total
}

/// Whether progress is to be reported once `done` of `total` tasks have completed.
pub fn progress_due(done: usize, total: usize) -> (r: bool)
    ensures
        r == progress_due_spec(done as nat, total as nat),
{
    done % 5 == 0 || done == total
}

/// Number of `true` outcomes.
pub open spec fn count_ok(outcomes: Seq<bool>) -> nat
    decreases outcomes.len(),
{
    if outcomes.len() == 0 {
        0
    } else {
        count_ok(outcomes.drop_last()) + if outcomes.last() {
            1nat
        } else {
            0nat
        }
    }
}

proof fn lemma_count_ok_bound(outcomes: Seq<bool>)
    ensures
        count_ok(outcomes) <= outcomes.len(),
    decreases outcomes.len(),
{
    if outcomes.len() > 0 {
        lemma_count_ok_bound(outcomes.drop_last());
    }
}

/// The statistics of a run whose tasks ended with these outcomes (`true` for success):
/// every task counted once, as a success or as a failure.
pub fn summarize(outcomes: &Vec<bool>, elapsed_millis: u64) -> (r: GenStats)
    requires
        outcomes@.len() <= u32::MAX,
    ensures
        r.total_files == outcomes@.len(),
        r.success_count == count_ok(outcomes@),
        r.error_count == outcomes@.len() - count_ok(outcomes@),
        r.elapsed_millis == elapsed_millis,
{
    let mut ok: u32 = 0;
    let mut i: usize = 0;
    while i < outcomes.len()
        invariant
            i <= outcomes@.len(),
            outcomes@.len() <= u32::MAX,
            ok == count_ok(outcomes@.take(i as int)),
        decreases outcomes@.len() - i,
    {
        assert(outcomes@.take(i + 1).drop_last() =~= outcomes@.take(i as int));
        proof {
            lemma_count_ok_bound(outcomes@.take(i as int));
        }
        if outcomes[i] {
            ok = ok + 1;
        }
        i = i + 1;
    }
    assert(outcomes@.take(i as int) =~= outcomes@);
    proof {
        lemma_count_ok_bound(outcomes@);
    }
    let total = outcomes.len() as u32;
    GenStats { total_files: total, elapsed_millis, success_count: ok, error_count: total - ok }
}


/// The row groups of a run: the current-period rows first, then the prior-period rows,
/// each only where its data file was given.
pub fn make_groups(standard: Option<Vec<CsvRecord>>, previous_year: Option<Vec<CsvRecord>>) -> (r: Vec<RowGroup>)
    ensures
        r@.len() == (if standard is Some { 1int } else { 0int }) + (if previous_year is Some { 1int } else { 0int }),
        standard matches Some(rows) ==> !r@[0].prior_period && r@[0].rows == rows,
        previous_year matches Some(rows) ==> r@.last().prior_period && r@.last().rows == rows,
{
    let mut groups: Vec<RowGroup> = Vec::new();
    match standard {
        Some(rows) => groups.push(RowGroup { prior_period: false, rows }),
        None => {},
    }
    match previous_year {
        Some(rows) => groups.push(RowGroup { prior_period: true, rows }),
        None => {},
    }
    groups
}

} // verus!
