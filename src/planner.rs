//! Task planning: which rows pair with which templates.
use crate::record::{lookup, CsvRecord, FieldsView};
use crate::templates::{bytes_of, template_view, Scope, TemplateFile, TemplateView};
use crate::text::{contains, contains_exec};
use vstd::arithmetic::div_mod::{lemma_fundamental_div_mod, lemma_mod_pos_bound};
use vstd::prelude::*;
use vstd::string::*;

verus! {

/// The column that tells which scope a row belongs to.
pub open spec fn scope_column() -> Seq<char> {
    "PM only or PM-RM"@
}

/// The scope status of a row that no template is made for.
pub open spec fn skip_status() -> Seq<char> {
    "Do not generate OP"@
}

/// The scope status that restricted-and-alternate templates need.
pub open spec fn alt_status() -> Seq<char> {
    "PM-RM"@
}

/// The scope status that restricted-only templates need.
pub open spec fn only_status() -> Seq<char> {
    "PM only"@
}

/// The column that lists a row's languages.
pub open spec fn language_column() -> Seq<char> {
    "Language"@
}

/// Language codes with the name a row may use for them.
pub open spec fn language_table() -> FieldsView {
    seq![
        ("FR"@, "French"@),
        ("EN"@, "English"@),
        ("DE"@, "German"@),
        ("IT"@, "Italian"@),
        ("ES"@, "Spanish"@),
    ]
}

/// The name a row uses for a language code: the table's name, or the code itself.
pub open spec fn language_name(code: Seq<char>) -> Seq<char> {
    match lookup(language_table(), code) {
        Some(name) => name,
        None => code,
    }
}

/// A row's language text names the language of a template folder: it contains the
/// language's name or its code.
pub open spec fn lang_matches(row_val: Seq<char>, folder: Seq<char>) -> bool {
    contains(bytes_of(row_val), bytes_of(language_name(folder))) || contains(
        bytes_of(row_val),
        bytes_of(folder),
    )
}

/// The row's scope status lets a template of this scope be made for it.
pub open spec fn scope_allows(row: FieldsView, scope: Scope) -> bool {
    match lookup(row, scope_column()) {
        None => true,
        Some(v) => v != skip_status() && (scope == Scope::RestrictedAlt ==> v == alt_status()) && (
        scope == Scope::RestrictedOnly ==> v == only_status()),
    }
}

/// The row's languages, if it lists any, include the template folder's language.
pub open spec fn language_allows(row: FieldsView, folder: Seq<char>) -> bool {
    match lookup(row, language_column()) {
        None => true,
        Some(l) => lang_matches(l, folder),
    }
}

/// A row of a group (prior-period or not) pairs with a template.
pub open spec fn eligible(group_prior: bool, row: FieldsView, t: TemplateView) -> bool {
    &&& group_prior == t.4
    &&& scope_allows(row, t.5)
    &&& language_allows(row, t.2)
}

/// Rows of one origin: the current period's or the prior period's.
#[derive(Clone, Debug)]
pub struct RowGroup {
    pub prior_period: bool,
    pub rows: Vec<CsvRecord>,
}

/// One output to make: a template and a row, by position.
#[derive(PartialEq, Eq, Structural, Clone, Copy, Debug)]
pub struct GenTask {
    pub group: usize,
    pub template: usize,
    pub row: usize,
}

pub open spec fn lex_lt(a: GenTask, b: GenTask) -> bool {
    a.group < b.group || (a.group == b.group && (a.template < b.template || (a.template
        == b.template && a.row < b.row)))
}

pub open spec fn in_range(groups: Seq<RowGroup>, templates: Seq<TemplateFile>, x: GenTask) -> bool {
    x.group < groups.len() && x.template < templates.len() && x.row < groups[x.group as int].rows@.len()
}

pub open spec fn task_eligible(groups: Seq<RowGroup>, templates: Seq<TemplateFile>, x: GenTask) -> bool {
    eligible(
        groups[x.group as int].prior_period,
        groups[x.group as int].rows@[x.row as int].fields(),
        template_view(templates[x.template as int]),
    )
}

pub open spec fn present(tasks: Seq<GenTask>, x: GenTask) -> bool {
    exists|k: int| 0 <= k < tasks.len() && tasks[k] == x
}

/// `tasks` is the plan for these groups and templates: exactly the eligible pairs, each
/// once, ordered by group, then template, then row.
pub open spec fn is_plan(groups: Seq<RowGroup>, templates: Seq<TemplateFile>, tasks: Seq<GenTask>) -> bool {
    &&& forall|k: int|
        0 <= k < tasks.len() ==> in_range(groups, templates, #[trigger] tasks[k]) && task_eligible(
            groups,
            templates,
            tasks[k],
        )
    &&& forall|x: GenTask|
        in_range(groups, templates, x) && #[trigger] task_eligible(groups, templates, x) ==> present(
            tasks,
            x,
        )
    &&& forall|k1: int, k2: int| 0 <= k1 < k2 < tasks.len() ==> lex_lt(tasks[k1], tasks[k2])
}

/// Whether a row's language text names the language of a template folder: it contains
/// the language's name (French for FR, English for EN, German for DE, Italian for IT,
/// Spanish for ES) or the folder name itself.
pub fn check_lang_match(row_val: &str, folder_lang: &str) -> (r: bool)
    ensures
        r == lang_matches(row_val@, folder_lang@),
{
    let name = language_name_exec(folder_lang);
    let hay = row_val.as_bytes();
    contains_exec(hay, name.as_str().as_bytes()) || contains_exec(hay, folder_lang.as_bytes())
}

fn language_name_exec(code: &str) -> (r: String)
    ensures
        r@ == language_name(code@),
{
    let table = vec![
        (String::from_str("FR"), String::from_str("French")),
        (String::from_str("EN"), String::from_str("English")),
        (String::from_str("DE"), String::from_str("German")),
        (String::from_str("IT"), String::from_str("Italian")),
        (String::from_str("ES"), String::from_str("Spanish")),
    ];
    let ghost tv = table@.map_values(|p: (String, String)| (p.0@, p.1@));
    assert(tv =~= language_table());
    let key = String::from_str(code);
    let mut i: usize = table.len();
    assert(tv.take(i as int) =~= tv);
    while i > 0
        invariant
            i <= table@.len(),
            tv == table@.map_values(|p: (String, String)| (p.0@, p.1@)),
            tv == language_table(),
            key@ == code@,
            lookup(tv, code@) == lookup(tv.take(i as int), code@),
        decreases i,
    {
        assert(tv.take(i as int).drop_last() =~= tv.take(i - 1));
        if table[i - 1].0 == key {
            return table[i - 1].1.clone();
        }
        i = i - 1;
    }
    key
}

/// Whether a row's scope status lets a template of scope `scope` be made for it.
pub fn scope_allows_exec(row: &CsvRecord, scope: Scope) -> (r: bool)
    ensures
        r == scope_allows(row.fields(), scope),
{
    match row.get("PM only or PM-RM") {
        None => true,
        Some(v) => {
            if *v == String::from_str("Do not generate OP") {
                return false;
            }
            match scope {
                Scope::RestrictedAlt => *v == String::from_str("PM-RM"),
                Scope::RestrictedOnly => *v == String::from_str("PM only"),
                Scope::Unrestricted => true,
            }
        },
    }
}

/// Whether a row of a group (prior-period or not) pairs with a template.
pub fn is_eligible(group_prior: bool, row: &CsvRecord, t: &TemplateFile) -> (r: bool)
    ensures
        r == eligible(group_prior, row.fields(), template_view(*t)),
{
    if group_prior != t.prior_period {
        return false;
    }
    if !scope_allows_exec(row, t.scope) {
        return false;
    }
    match row.get("Language") {
        None => true,
        Some(l) => check_lang_match(l.as_str(), t.folder.as_str()),
    }
}

/// Every pairing of a row with a template that is eligible, each once, ordered by group,
/// then template, then row. A template marked prior-period pairs only with the
/// prior-period group and the others only with the other group; a row's scope status and
/// language list, where it has them, must suit the template.
pub fn plan_tasks(groups: &Vec<RowGroup>, templates: &Vec<TemplateFile>) -> (r: Vec<GenTask>)
    ensures
        is_plan(groups@, templates@, r@),
{
    let ghost gs = groups@;
    let ghost ts = templates@;
    let mut tasks: Vec<GenTask> = Vec::new();
    let mut g: usize = 0;
    while g < groups.len()
        invariant
            g <= gs.len(),
            gs == groups@,
            ts == templates@,
            forall|k: int|
                0 <= k < tasks@.len() ==> in_range(gs, ts, #[trigger] tasks@[k]) && task_eligible(
                    gs,
                    ts,
                    tasks@[k],
                ) && tasks@[k].group < g,
            forall|x: GenTask|
                in_range(gs, ts, x) && #[trigger] task_eligible(gs, ts, x) && x.group < g
                    ==> present(tasks@, x),
            forall|k1: int, k2: int|
                0 <= k1 < k2 < tasks@.len() ==> lex_lt(tasks@[k1], tasks@[k2]),
        decreases gs.len() - g,
    {
        let group = &groups[g];
        let mut t: usize = 0;
        while t < templates.len()
            invariant
                g < gs.len(),
                t <= ts.len(),
                gs == groups@,
                ts == templates@,
                *group == gs[g as int],
                forall|k: int|
                    0 <= k < tasks@.len() ==> in_range(gs, ts, #[trigger] tasks@[k])
                        && task_eligible(gs, ts, tasks@[k]) && (tasks@[k].group < g || (
                    tasks@[k].group == g && tasks@[k].template < t)),
                forall|x: GenTask|
                    in_range(gs, ts, x) && #[trigger] task_eligible(gs, ts, x) && (x.group < g || (
                    x.group == g && x.template < t)) ==> present(tasks@, x),
                forall|k1: int, k2: int|
                    0 <= k1 < k2 < tasks@.len() ==> lex_lt(tasks@[k1], tasks@[k2]),
            decreases ts.len() - t,
        {
            let tmpl = &templates[t];
            let mut ri: usize = 0;
            while ri < group.rows.len()
                invariant
                    g < gs.len(),
                    t < ts.len(),
                    ri <= gs[g as int].rows@.len(),
                    gs == groups@,
                    ts == templates@,
                    *group == gs[g as int],
                    *tmpl == ts[t as int],
                    forall|k: int|
                        0 <= k < tasks@.len() ==> in_range(gs, ts, #[trigger] tasks@[k])
                            && task_eligible(gs, ts, tasks@[k]) && lex_lt(
                            tasks@[k],
                            GenTask { group: g, template: t, row: ri },
                        ),
                    forall|x: GenTask|
                        in_range(gs, ts, x) && #[trigger] task_eligible(gs, ts, x) && lex_lt(
                            x,
                            GenTask { group: g, template: t, row: ri },
                        ) ==> present(tasks@, x),
                    forall|k1: int, k2: int|
                        0 <= k1 < k2 < tasks@.len() ==> lex_lt(tasks@[k1], tasks@[k2]),
                decreases gs[g as int].rows@.len() - ri,
            {
                let cur = GenTask { group: g, template: t, row: ri };
                let ghost before = tasks@;
                if is_eligible(group.prior_period, &group.rows[ri], tmpl) {
                    tasks.push(cur);
                    assert forall|x: GenTask|
                        in_range(gs, ts, x) && #[trigger] task_eligible(gs, ts, x) && lex_lt(
                            x,
                            GenTask { group: g, template: t, row: (ri + 1) as usize },
                        ) implies present(tasks@, x) by {
                        if x == cur {
                            assert(tasks@[before.len() as int] == x);
                        } else {
                            assert(lex_lt(x, cur));
                            let k = choose|k: int| 0 <= k < before.len() && before[k] == x;
                            assert(tasks@[k] == x);
                        }
                    }
                } else {
                    assert forall|x: GenTask|
                        in_range(gs, ts, x) && #[trigger] task_eligible(gs, ts, x) && lex_lt(
                            x,
                            GenTask { group: g, template: t, row: (ri + 1) as usize },
                        ) implies present(tasks@, x) by {
                        assert(x != cur);
                    }
                }
                ri = ri + 1;
            }
            t = t + 1;
        }
        g = g + 1;
    }
    tasks
}


/// A row whose scope status is the "do not generate" one is in no task, whatever the
/// templates.
pub proof fn lemma_skipped_row_never_planned(
    groups: Seq<RowGroup>,
    templates: Seq<TemplateFile>,
    tasks: Seq<GenTask>,
    g: int,
    r: int,
)
    requires
        is_plan(groups, templates, tasks),
        0 <= g < groups.len(),
        0 <= r < groups[g].rows@.len(),
        lookup(groups[g].rows@[r].fields(), scope_column()) == Some(skip_status()),
    ensures
        forall|k: int|
            0 <= k < tasks.len() ==> !(#[trigger] tasks[k].group == g && tasks[k].row == r),
{
    assert forall|k: int| 0 <= k < tasks.len() implies !(#[trigger] tasks[k].group == g
        && tasks[k].row == r) by {
        assert(in_range(groups, templates, tasks[k]) && task_eligible(groups, templates, tasks[k]));
    }
}

/// A row without a language column pairs with every template of its period whose scope
/// its status suits, whatever the template's language folder.
pub proof fn lemma_no_language_column_pairs_everywhere(
    groups: Seq<RowGroup>,
    templates: Seq<TemplateFile>,
    tasks: Seq<GenTask>,
    x: GenTask,
)
    requires
        is_plan(groups, templates, tasks),
        in_range(groups, templates, x),
        lookup(groups[x.group as int].rows@[x.row as int].fields(), language_column()) is None,
        groups[x.group as int].prior_period == templates[x.template as int].prior_period,
        scope_allows(groups[x.group as int].rows@[x.row as int].fields(), templates[x.template as int].scope),
    ensures
        present(tasks, x),
{
    assert(task_eligible(groups, templates, x));
}


/// Position of a task of the first group when the plan holds every pairing.
pub open spec fn full_rank(x: GenTask, m: int) -> int {
    x.template * m + x.row
}

proof fn lemma_rank_is_index(groups: Seq<RowGroup>, templates: Seq<TemplateFile>, tasks: Seq<GenTask>, k: int)
    requires
        is_plan(groups, templates, tasks),
        groups.len() == 1,
        templates.len() <= usize::MAX,
        groups[0].rows@.len() <= usize::MAX,
        forall|x: GenTask| in_range(groups, templates, x) ==> #[trigger] task_eligible(groups, templates, x),
        0 <= k < tasks.len(),
    ensures
        full_rank(tasks[k], groups[0].rows@.len() as int) == k,
    decreases k,
{
    let m = groups[0].rows@.len() as int;
    let n = templates.len() as int;
    assert forall|k1: int, k2: int| 0 <= k1 < k2 < tasks.len() implies #[trigger] full_rank(
        tasks[k1],
        m,
    ) < #[trigger] full_rank(tasks[k2], m) by {
        let a = tasks[k1];
        let b = tasks[k2];
        assert(in_range(groups, templates, a) && in_range(groups, templates, b));
        assert(lex_lt(a, b));
        let (ta, ra, tb, rb) = (a.template as int, a.row as int, b.template as int, b.row as int);
        assert(ta * m + ra < tb * m + rb) by (nonlinear_arith)
            requires
                ta < tb || (ta == tb && ra < rb),
                0 <= ra < m,
                0 <= rb,
                0 <= ta,
        ;
    }
    let x = tasks[k];
    assert(in_range(groups, templates, x));
    let r = full_rank(x, m);
    assert(r >= k) by {
        if k > 0 {
            lemma_rank_is_index(groups, templates, tasks, k - 1);
        } else {
            assert(x.template * m >= 0) by (nonlinear_arith)
                requires
                    m >= 0,
            ;
        }
    }
    if r > k {
        assert(m > 0);
        lemma_fundamental_div_mod(k, m);
        lemma_mod_pos_bound(k, m);
        let q = k / m;
        let rem = k % m;
        let (xt, xr) = (x.template as int, x.row as int);
        assert(q < n) by (nonlinear_arith)
            requires
                k == m * q + rem,
                0 <= rem < m,
                k < xt * m + xr,
                xt < n,
                xr < m,
        ;
        assert(q >= 0) by (nonlinear_arith)
            requires
                k == m * q + rem,
                0 <= rem < m,
                k >= 0,
        ;
        let y = GenTask { group: 0, template: q as usize, row: rem as usize };
        assert(in_range(groups, templates, y));
        assert(task_eligible(groups, templates, y));
        let j = choose|j: int| 0 <= j < tasks.len() && tasks[j] == y;
        assert(y.template as int == q && y.row as int == rem);
        assert(q * m + rem == k) by (nonlinear_arith)
            requires
                k == m * q + rem,
        ;
        assert(full_rank(y, m) == k);
        if j < k {
            lemma_rank_is_index(groups, templates, tasks, j);
        }
    }
}

/// When one group of m rows meets n templates and every pairing is eligible (rows
/// without language or scope-status column, all in the templates' period), the plan holds
/// exactly m × n tasks.
pub proof fn lemma_full_plan_count(groups: Seq<RowGroup>, templates: Seq<TemplateFile>, tasks: Seq<GenTask>)
    requires
        is_plan(groups, templates, tasks),
        groups.len() == 1,
        templates.len() <= usize::MAX,
        groups[0].rows@.len() <= usize::MAX,
        forall|i: int| 0 <= i < templates.len() ==> #[trigger] templates[i].prior_period == groups[0].prior_period,
        forall|r: int|
            0 <= r < groups[0].rows@.len() ==> lookup(#[trigger] groups[0].rows@[r].fields(), language_column()) is None
                && lookup(groups[0].rows@[r].fields(), scope_column()) is None,
    ensures
        tasks.len() == groups[0].rows@.len() * templates.len(),
{
    let m = groups[0].rows@.len() as int;
    let n = templates.len() as int;
    assert forall|x: GenTask| in_range(groups, templates, x) implies #[trigger] task_eligible(
        groups,
        templates,
        x,
    ) by {
        assert(templates[x.template as int].prior_period == groups[0].prior_period);
        assert(lookup(groups[0].rows@[x.row as int].fields(), language_column()) is None);
    }
    if m > 0 && n > 0 {
        let last = GenTask { group: 0, template: (n - 1) as usize, row: (m - 1) as usize };
        assert(in_range(groups, templates, last));
        assert(task_eligible(groups, templates, last));
        let j = choose|j: int| 0 <= j < tasks.len() && tasks[j] == last;
        lemma_rank_is_index(groups, templates, tasks, j);
        lemma_rank_is_index(groups, templates, tasks, tasks.len() - 1);
        let y = tasks[tasks.len() - 1];
        assert(in_range(groups, templates, y));
        let (yt, yr) = (y.template as int, y.row as int);
        assert(yt * m + yr < m * n) by (nonlinear_arith)
            requires
                0 <= yt < n,
                0 <= yr < m,
        ;
        assert((n - 1) * m + (m - 1) == m * n - 1) by (nonlinear_arith);
        assert(last.template as int == n - 1 && last.row as int == m - 1);
        assert(full_rank(last, m) == m * n - 1);
        assert(j == m * n - 1);
        assert(tasks.len() - 1 == full_rank(y, m));
        assert(m * n == groups[0].rows@.len() * templates.len());
    } else {
        if tasks.len() > 0 {
            assert(in_range(groups, templates, tasks[0]));
        }
        assert(m * n == 0) by (nonlinear_arith)
            requires
                m == 0 || n == 0,
        ;
    }
}

} // verus!
