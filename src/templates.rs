//! Template discovery: which files under the template root are templates, and how each
//! one is classified.
use crate::text::{
    contains, contains_exec, ends_with, ends_with_exec, eq_ignore_ascii_case,
    eq_ignore_ascii_case_exec, lower_ascii, lower_ascii_exec, starts_with, starts_with_exec,
};
use vstd::prelude::*;
use vstd::string::*;
use vstd::utf8::encode_utf8;

verus! {

/// The UTF-8 bytes of a text.
pub open spec fn bytes_of(s: Seq<char>) -> Seq<u8> {
    encode_utf8(s)
}

/// `.pptx`
pub open spec fn template_ext() -> Seq<u8> {
    seq![46u8, 112u8, 112u8, 116u8, 120u8]
}

/// `~$`, the prefix of the transient lock files that an editor leaves beside an open file.
pub open spec fn lock_prefix() -> Seq<u8> {
    seq![126u8, 36u8]
}

/// `PM_RM`
pub open spec fn restricted_alt_marker() -> Seq<u8> {
    seq![80u8, 77u8, 95u8, 82u8, 77u8]
}

/// `_PM_`
pub open spec fn restricted_marker() -> Seq<u8> {
    seq![95u8, 80u8, 77u8, 95u8]
}

/// `previousyear`
pub open spec fn prior_marker() -> Seq<u8> {
    seq![112u8, 114u8, 101u8, 118u8, 105u8, 111u8, 117u8, 115u8, 121u8, 101u8, 97u8, 114u8]
}

/// The name has the template extension: it ends in `.pptx` and has something before it.
pub open spec fn has_template_ext(name: Seq<u8>) -> bool {
    name.len() > template_ext().len() && ends_with(name, template_ext())
}

pub open spec fn is_lock_file(name: Seq<u8>) -> bool {
    starts_with(name, lock_prefix())
}

/// The restricted sub-population a template targets, from its file name.
#[derive(PartialEq, Eq, Structural, Clone, Copy, Debug)]
pub enum Scope {
    /// Every row.
    Unrestricted,
    /// Rows whose scope status is the restricted-and-alternate one.
    RestrictedAlt,
    /// Rows whose scope status is the restricted-only one.
    RestrictedOnly,
}

pub open spec fn scope_of(name: Seq<u8>) -> Scope {
    if contains(name, restricted_alt_marker()) {
        Scope::RestrictedAlt
    } else if contains(name, restricted_marker()) {
        Scope::RestrictedOnly
    } else {
        Scope::Unrestricted
    }
}

/// The template is meant for the prior-period data set.
pub open spec fn is_prior_name(name: Seq<u8>) -> bool {
    contains(lower_ascii(name), prior_marker())
}

/// A file or folder found under the template root.
#[derive(Clone, Debug)]
pub struct TemplateEntry {
    /// Full path, handed back untouched.
    pub path: String,
    /// Last component of the path.
    pub file_name: String,
    /// Name of the folder that holds it.
    pub parent_name: String,
    /// Number of path components below the root: 1 for a file directly under it.
    pub depth: usize,
}

/// A discovered template with its classification.
#[derive(Clone, Debug)]
pub struct TemplateFile {
    pub path: String,
    pub file_name: String,
    /// Name of the folder that holds it: a language code for a language template.
    pub folder: String,
    /// Placed directly under the root rather than in a selected language folder.
    pub universal: bool,
    /// Meant for the prior-period data set.
    pub prior_period: bool,
    pub scope: Scope,
}

pub type EntryView = (Seq<char>, Seq<char>, Seq<char>, nat);

pub type TemplateView = (Seq<char>, Seq<char>, Seq<char>, bool, bool, Scope);

pub open spec fn entry_view(e: TemplateEntry) -> EntryView {
    (e.path@, e.file_name@, e.parent_name@, e.depth as nat)
}

pub open spec fn template_view(t: TemplateFile) -> TemplateView {
    (t.path@, t.file_name@, t.folder@, t.universal, t.prior_period, t.scope)
}

pub open spec fn langs_view(languages: Seq<String>) -> Seq<Seq<u8>> {
    languages.map_values(|s: String| bytes_of(s@))
}

/// The folder name is one of the selected language codes, ASCII case aside.
pub open spec fn in_selected(folder: Seq<u8>, langs: Seq<Seq<u8>>) -> bool {
    exists|i: int| 0 <= i < langs.len() && eq_ignore_ascii_case(langs[i], folder)
}

/// A template file that is kept: it has the template extension, is no lock file, and
/// sits in a selected language folder or directly under the root.
pub open spec fn accepted(e: EntryView, langs: Seq<Seq<u8>>) -> bool {
    let name = bytes_of(e.1);
    &&& has_template_ext(name)
    &&& !is_lock_file(name)
    &&& (in_selected(bytes_of(e.2), langs) || e.3 == 1)
}

pub open spec fn classified(e: EntryView, langs: Seq<Seq<u8>>) -> TemplateView {
    let name = bytes_of(e.1);
    (e.0, e.1, e.2, !in_selected(bytes_of(e.2), langs), is_prior_name(name), scope_of(name))
}

/// The accepted entries, classified, in the order found.
pub open spec fn scan_spec(entries: Seq<EntryView>, langs: Seq<Seq<u8>>) -> Seq<TemplateView>
    decreases entries.len(),
{
    if entries.len() == 0 {
        Seq::empty()
    } else {
        let rest = scan_spec(entries.drop_last(), langs);
        if accepted(entries.last(), langs) {
            rest.push(classified(entries.last(), langs))
        } else {
            rest
        }
    }
}

pub fn has_template_ext_exec(name: &[u8]) -> (r: bool)
    ensures
        r == has_template_ext(name@),
{
    let ext: &[u8] = &[46u8, 112u8, 112u8, 116u8, 120u8];
    assert(ext@ == template_ext());
    name.len() > ext.len() && ends_with_exec(name, ext)
}

/// The scope a template targets, from its file name; the alternate marker is looked for
/// first, since it holds the other one's letters.
pub fn scope_of_exec(name: &[u8]) -> (r: Scope)
    ensures
        r == scope_of(name@),
{
    let alt: &[u8] = &[80u8, 77u8, 95u8, 82u8, 77u8];
    let only: &[u8] = &[95u8, 80u8, 77u8, 95u8];
    assert(alt@ == restricted_alt_marker());
    assert(only@ == restricted_marker());
    if contains_exec(name, alt) {
        Scope::RestrictedAlt
    } else if contains_exec(name, only) {
        Scope::RestrictedOnly
    } else {
        Scope::Unrestricted
    }
}

pub fn is_prior_name_exec(name: &[u8]) -> (r: bool)
    ensures
        r == is_prior_name(name@),
{
    let marker: &[u8] = &[
        112u8,
        114u8,
        101u8,
        118u8,
        105u8,
        111u8,
        117u8,
        115u8,
        121u8,
        101u8,
        97u8,
        114u8,
    ];
    assert(marker@ == prior_marker());
    let lower = lower_ascii_exec(name);
    contains_exec(lower.as_slice(), marker)
}

fn in_selected_exec(folder: &[u8], languages: &Vec<String>) -> (r: bool)
    ensures
        r == in_selected(folder@, langs_view(languages@)),
{
    let ghost langs = langs_view(languages@);
    let mut i: usize = 0;
    while i < languages.len()
        invariant
            i <= languages@.len(),
            langs == langs_view(languages@),
            forall|k: int| 0 <= k < i ==> !eq_ignore_ascii_case(langs[k], folder@),
        decreases languages@.len() - i,
    {
        let code = languages[i].as_str().as_bytes();
        assert(code@ == langs[i as int]);
        if eq_ignore_ascii_case_exec(code, folder) {
            return true;
        }
        i = i + 1;
    }
    false
}

/// The classified template for an entry, or `None` when the entry is no template to use.
pub fn classify(e: &TemplateEntry, languages: &Vec<String>) -> (r: Option<TemplateFile>)
    ensures
        r is Some <==> accepted(entry_view(*e), langs_view(languages@)),
        r matches Some(t) ==> template_view(t) == classified(entry_view(*e), langs_view(languages@)),
{
    let name = e.file_name.as_str().as_bytes();
    let lock: &[u8] = &[126u8, 36u8];
    assert(lock@ == lock_prefix());
    if !has_template_ext_exec(name) || starts_with_exec(name, lock) {
        return None;
    }
    let selected = in_selected_exec(e.parent_name.as_str().as_bytes(), languages);
    if !selected && e.depth != 1 {
        return None;
    }
    Some(
        TemplateFile {
            path: e.path.clone(),
            file_name: e.file_name.clone(),
            folder: e.parent_name.clone(),
            universal: !selected,
            prior_period: is_prior_name_exec(name),
            scope: scope_of_exec(name),
        },
    )
}

/// The templates among the entries found under the template root, in the order found:
/// files with the template extension that are no lock files and sit either in a folder
/// named like a selected language (ASCII case aside) or directly under the root.
pub fn scan_templates(entries: &Vec<TemplateEntry>, languages: &Vec<String>) -> (r: Vec<TemplateFile>)
    ensures
        r@.map_values(|t: TemplateFile| template_view(t)) == scan_spec(
            entries@.map_values(|e: TemplateEntry| entry_view(e)),
            langs_view(languages@),
        ),
{
    let ghost ev = entries@.map_values(|e: TemplateEntry| entry_view(e));
    let ghost langs = langs_view(languages@);
    let mut out: Vec<TemplateFile> = Vec::new();
    let mut i: usize = 0;
    assert(ev.take(0) =~= Seq::<EntryView>::empty());
    assert(out@.map_values(|t: TemplateFile| template_view(t)) =~= Seq::<TemplateView>::empty());
    while i < entries.len()
        invariant
            i <= entries@.len(),
            ev == entries@.map_values(|e: TemplateEntry| entry_view(e)),
            langs == langs_view(languages@),
            out@.map_values(|t: TemplateFile| template_view(t)) == scan_spec(ev.take(i as int), langs),
        decreases entries@.len() - i,
    {
        assert(ev.take(i + 1).drop_last() =~= ev.take(i as int));
        assert(ev.take(i + 1).last() == entry_view(entries@[i as int]));
        match classify(&entries[i], languages) {
            Some(t) => {
                out.push(t);
                assert(out@.map_values(|t: TemplateFile| template_view(t)) =~= scan_spec(
                    ev.take(i as int),
                    langs,
                ).push(classified(ev[i as int], langs)));
            },
            None => {},
        }
        i = i + 1;
    }
    assert(ev.take(i as int) =~= ev);
    out
}


/// The language codes a template root may have folders for.
pub open spec fn known_codes() -> Seq<Seq<char>> {
    seq![seq!['F', 'R'], seq!['E', 'N'], seq!['D', 'E'], seq!['I', 'T'], seq!['E', 'S']]
}

/// The known language codes, in their fixed order.
pub fn known_languages() -> (r: Vec<String>)
    ensures
        r@.map_values(|s: String| s@) == known_codes(),
{
    proof {
        reveal_strlit("FR");
        reveal_strlit("EN");
        reveal_strlit("DE");
        reveal_strlit("IT");
        reveal_strlit("ES");
        assert("FR"@ =~= seq!['F', 'R']);
        assert("EN"@ =~= seq!['E', 'N']);
        assert("DE"@ =~= seq!['D', 'E']);
        assert("IT"@ =~= seq!['I', 'T']);
        assert("ES"@ =~= seq!['E', 'S']);
    }
    let r = vec![
        String::from_str("FR"),
        String::from_str("EN"),
        String::from_str("DE"),
        String::from_str("IT"),
        String::from_str("ES"),
    ];
    assert(r@.map_values(|s: String| s@) =~= known_codes());
    r
}

/// A folder as listed: its name and the names of what it holds.
pub type FolderView = (Seq<char>, Seq<Seq<char>>);

pub open spec fn folders_view(folders: Seq<(String, Vec<String>)>) -> Seq<FolderView> {
    folders.map_values(|f: (String, Vec<String>)| (f.0@, f.1@.map_values(|s: String| s@)))
}

/// Some listed folder named exactly `code` holds a name with the template extension.
pub open spec fn has_templates_for(folders: Seq<FolderView>, code: Seq<char>) -> bool {
    exists|i: int, j: int|
        0 <= i < folders.len() && folders[i].0 == code && 0 <= j < folders[i].1.len()
            && has_template_ext(bytes_of(#[trigger] folders[i].1[j]))
}

/// The codes among `codes` whose folder holds a template, in order.
pub open spec fn available_spec(codes: Seq<Seq<char>>, folders: Seq<FolderView>) -> Seq<Seq<char>>
    decreases codes.len(),
{
    if codes.len() == 0 {
        codes
    } else {
        let rest = available_spec(codes.drop_last(), folders);
        if has_templates_for(folders, codes.last()) {
            rest.push(codes.last())
        } else {
            rest
        }
    }
}

fn folder_has_template(names: &Vec<String>) -> (r: bool)
    ensures
        r == exists|j: int|
            0 <= j < names@.len() && has_template_ext(bytes_of(#[trigger] names@[j]@)),
{
    let mut j: usize = 0;
    while j < names.len()
        invariant
            j <= names@.len(),
            forall|k: int| 0 <= k < j ==> !has_template_ext(bytes_of(#[trigger] names@[k]@)),
        decreases names@.len() - j,
    {
        if has_template_ext_exec(names[j].as_str().as_bytes()) {
            return true;
        }
        j = j + 1;
    }
    false
}

fn has_templates_for_exec(folders: &Vec<(String, Vec<String>)>, code: &String) -> (r: bool)
    ensures
        r == has_templates_for(folders_view(folders@), code@),
{
    let ghost fv = folders_view(folders@);
    let mut i: usize = 0;
    while i < folders.len()
        invariant
            i <= folders@.len(),
            fv == folders_view(folders@),
            forall|k: int, j: int|
                0 <= k < i && fv[k].0 == code@ && 0 <= j < fv[k].1.len() ==> !has_template_ext(
                    bytes_of(#[trigger] fv[k].1[j]),
                ),
        decreases folders@.len() - i,
    {
        assert(fv[i as int].1 == folders@[i as int].1@.map_values(|s: String| s@));
        if folders[i].0 == *code {
            let found = folder_has_template(&folders[i].1);
            if found {
                proof {
                    let j = choose|j: int|
                        0 <= j < folders@[i as int].1@.len() && has_template_ext(
                            bytes_of(#[trigger] folders@[i as int].1@[j]@),
                        );
                    assert(fv[i as int].1[j] == folders@[i as int].1@[j]@);
                }
                return true;
            }
            assert forall|j: int| 0 <= j < fv[i as int].1.len() implies !has_template_ext(
                bytes_of(#[trigger] fv[i as int].1[j]),
            ) by {
                assert(fv[i as int].1[j] == folders@[i as int].1@[j]@);
            }
        }
        i = i + 1;
    }
    false
}

/// The known language codes that have a folder holding at least one template. `folders`
/// lists the folders found under the template root: each one's name and the names of
/// what it holds.
pub fn get_available_languages(folders: &Vec<(String, Vec<String>)>) -> (r: Vec<String>)
    ensures
        r@.map_values(|s: String| s@) == available_spec(known_codes(), folders_view(folders@)),
{
    let codes = known_languages();
    let ghost cv = codes@.map_values(|s: String| s@);
    let mut out: Vec<String> = Vec::new();
    let mut i: usize = 0;
    assert(cv.take(0) =~= Seq::<Seq<char>>::empty());
    assert(out@.map_values(|s: String| s@) =~= Seq::<Seq<char>>::empty());
    while i < codes.len()
        invariant
            i <= codes@.len(),
            cv == codes@.map_values(|s: String| s@),
            out@.map_values(|s: String| s@) == available_spec(cv.take(i as int), folders_view(folders@)),
        decreases codes@.len() - i,
    {
        assert(cv.take(i + 1).drop_last() =~= cv.take(i as int));
        if has_templates_for_exec(folders, &codes[i]) {
            out.push(codes[i].clone());
            assert(out@.map_values(|s: String| s@) =~= available_spec(
                cv.take(i as int),
                folders_view(folders@),
            ).push(cv[i as int]));
        }
        i = i + 1;
    }
    assert(cv.take(i as int) =~= cv);
    out
}


/// The listed templates are exactly the accepted entries, classified: each listed one
/// comes from an accepted entry, and each accepted entry is listed.
pub proof fn lemma_scan_members(entries: Seq<EntryView>, langs: Seq<Seq<u8>>)
    ensures
        forall|k: int|
            0 <= k < scan_spec(entries, langs).len() ==> exists|j: int|
                0 <= j < entries.len() && accepted(entries[j], langs) && #[trigger] scan_spec(
                    entries,
                    langs,
                )[k] == classified(entries[j], langs),
        forall|j: int|
            0 <= j < entries.len() && #[trigger] accepted(entries[j], langs) ==> exists|k: int|
                0 <= k < scan_spec(entries, langs).len() && scan_spec(entries, langs)[k]
                    == classified(entries[j], langs),
    decreases entries.len(),
{
    if entries.len() > 0 {
        let init = entries.drop_last();
        lemma_scan_members(init, langs);
        let rest = scan_spec(init, langs);
        let all = scan_spec(entries, langs);
        assert forall|k: int| 0 <= k < all.len() implies exists|j: int|
            0 <= j < entries.len() && accepted(entries[j], langs) && #[trigger] all[k]
                == classified(entries[j], langs) by {
            if k < rest.len() {
                let j = choose|j: int|
                    0 <= j < init.len() && accepted(init[j], langs) && rest[k] == classified(
                        init[j],
                        langs,
                    );
                assert(entries[j] == init[j]);
            } else {
                assert(all[k] == classified(entries[entries.len() - 1], langs));
            }
        }
        assert forall|j: int| 0 <= j < entries.len() && #[trigger] accepted(entries[j], langs) implies exists|k: int|
            0 <= k < all.len() && all[k] == classified(entries[j], langs) by {
            if j < init.len() {
                assert(init[j] == entries[j]);
                assert(accepted(init[j], langs));
                let k = choose|k: int| 0 <= k < rest.len() && rest[k] == classified(init[j], langs);
                assert(all[k] == rest[k]);
            } else {
                assert(all[rest.len() as int] == classified(entries[j], langs));
            }
        }
    }
}

/// No listed template is a lock file, whatever folder it sits in.
pub proof fn lemma_lock_files_never_listed(entries: Seq<EntryView>, langs: Seq<Seq<u8>>)
    ensures
        forall|k: int|
            0 <= k < scan_spec(entries, langs).len() ==> !is_lock_file(
                bytes_of(#[trigger] scan_spec(entries, langs)[k].1),
            ),
{
    lemma_scan_members(entries, langs);
    assert forall|k: int| 0 <= k < scan_spec(entries, langs).len() implies !is_lock_file(
        bytes_of(#[trigger] scan_spec(entries, langs)[k].1),
    ) by {
        let j = choose|j: int|
            0 <= j < entries.len() && accepted(entries[j], langs) && scan_spec(entries, langs)[k]
                == classified(entries[j], langs);
    }
}

/// A file deeper than directly under the root, in a folder that is no selected language,
/// is not accepted, so it is not listed (see `lemma_scan_members`).
pub proof fn lemma_deep_unselected_excluded(e: EntryView, langs: Seq<Seq<u8>>)
    requires
        e.3 >= 2,
        !in_selected(bytes_of(e.2), langs),
    ensures
        !accepted(e, langs),
{
}

/// A path none of whose entries is accepted (for instance, a file below a folder that is
/// no selected language, deeper than directly under the root) is not among the listed
/// templates.
pub proof fn lemma_unaccepted_path_not_listed(entries: Seq<EntryView>, langs: Seq<Seq<u8>>, path: Seq<char>)
    requires
        forall|i: int| 0 <= i < entries.len() && (#[trigger] entries[i]).0 == path ==> !accepted(
            entries[i],
            langs,
        ),
    ensures
        forall|k: int|
            0 <= k < scan_spec(entries, langs).len() ==> (#[trigger] scan_spec(entries, langs)[k]).0
                != path,
{
    lemma_scan_members(entries, langs);
    assert forall|k: int| 0 <= k < scan_spec(entries, langs).len() implies (#[trigger] scan_spec(
        entries,
        langs,
    )[k]).0 != path by {
        let i = choose|i: int|
            0 <= i < entries.len() && accepted(entries[i], langs) && scan_spec(entries, langs)[k]
                == classified(entries[i], langs);
        assert(entries[i].0 == classified(entries[i], langs).0);
    }
}

/// A template file directly under the root that is no lock file is listed, whatever
/// languages are selected.
pub proof fn lemma_root_file_listed(entries: Seq<EntryView>, langs: Seq<Seq<u8>>, j: int)
    requires
        0 <= j < entries.len(),
        entries[j].3 == 1,
        has_template_ext(bytes_of(entries[j].1)),
        !is_lock_file(bytes_of(entries[j].1)),
    ensures
        exists|k: int|
            0 <= k < scan_spec(entries, langs).len() && scan_spec(entries, langs)[k] == classified(
                entries[j],
                langs,
            ),
{
    lemma_scan_members(entries, langs);
    assert(accepted(entries[j], langs));
}

} // verus!
