//! Placeholder substitution in a template archive, and the naming of its output.
use crate::archive::{
    entry_data, pack_archive, pack_data, unpack_archive, zip_packed, zip_unpacked, ArchiveEntry,
    EntryData, PackData, PackEntry,
};
use crate::record::{lookup, CsvRecord, FieldsView};
use crate::templates::{bytes_of, is_prior_name, is_prior_name_exec};
use crate::text::{
    append_bytes, contains, ends_with, ends_with_exec, escape_xml, escape_xml_exec, replace_all,
    replace_bytes,
};
use vstd::prelude::*;
use vstd::string::*;
use vstd::utf8::valid_utf8;

verus! {

/// The text that `String::from_utf8_lossy` makes of these bytes.
pub uninterp spec fn utf8_lossy(bytes: Seq<u8>) -> Seq<char>;

/// The text that `str::to_uppercase` makes of this text.
pub uninterp spec fn upper_of(s: Seq<char>) -> Seq<char>;

/// Relies on `String::from_utf8_lossy`: the text of the bytes, each invalid sequence
/// replaced by U+FFFD; valid UTF-8 decodes to the text it encodes.
#[verifier::external_body]
fn decode_lossy(bytes: &[u8]) -> (r: String)
    ensures
        r@ == utf8_lossy(bytes@),
        valid_utf8(bytes@) ==> bytes_of(r@) == bytes@,
{
    String::from_utf8_lossy(bytes).into_owned()
}

/// Relies on `str::to_uppercase`: the result depends on the text alone.
#[verifier::external_body]
fn uppercase(s: &str) -> (r: String)
    ensures
        r@ == upper_of(s@),
{
    s.to_uppercase()
}

/// Relies on `regex::Regex::new` and `regex::Regex::replace_all` with an empty
/// replacement: the one character class this is called with compiles, and each of its
/// matches is one character of the class, so every such character is removed.
#[verifier::external_body]
fn remove_matches(pattern: &str, text: &str) -> (r: Option<String>)
    requires
        pattern@ == unsafe_chars_pattern(),
    ensures
        r is Some,
        r matches Some(s) ==> s@ == sanitized(text@),
{
    regex::Regex::new(pattern).ok().map(|re| re.replace_all(text, "").into_owned())
}

// ---- placeholder substitution ----

/// `<<`
pub open spec fn open_tag() -> Seq<u8> {
    seq![60u8, 60u8]
}

/// `>>`
pub open spec fn close_tag() -> Seq<u8> {
    seq![62u8, 62u8]
}

/// `<<key>>`
pub open spec fn plain_tag(key: Seq<u8>) -> Seq<u8> {
    open_tag() + key + close_tag()
}

/// `&lt;&lt;key&gt;&gt;`, the placeholder as it stands in XML markup.
pub open spec fn escaped_tag(key: Seq<u8>) -> Seq<u8> {
    escape_xml(open_tag()) + escape_xml(key) + escape_xml(close_tag())
}

/// Text and whether any replacement has happened in it.
pub type TextState = (Seq<u8>, bool);

/// Replaces `pat` by `to` and notes whether it occurred.
pub open spec fn step(st: TextState, pat: Seq<u8>, to: Seq<u8>) -> TextState {
    (replace_all(st.0, pat, to), st.1 || (pat.len() > 0 && contains(st.0, pat)))
}

/// The four spellings of one column's placeholder, each replaced by the escaped value:
/// plain and escaped, with the column name as given and uppercased (`upper`).
pub open spec fn implicit_step(st: TextState, key: Seq<char>, upper: Seq<char>, value: Seq<char>) -> TextState {
    let k = bytes_of(key);
    let u = bytes_of(upper);
    let v = escape_xml(bytes_of(value));
    step(step(step(step(st, plain_tag(k), v), escaped_tag(k), v), plain_tag(u), v), escaped_tag(u), v)
}

/// The placeholders of every column of the row, column by column; `uppers[i]` is the
/// uppercased name of column `i`.
pub open spec fn implicit_pass(st: TextState, row: FieldsView, uppers: Seq<Seq<char>>) -> TextState
    decreases row.len(),
{
    if row.len() == 0 {
        st
    } else {
        implicit_step(
            implicit_pass(st, row.drop_last(), uppers),
            row.last().0,
            uppers[row.len() - 1],
            row.last().1,
        )
    }
}

/// The uppercased column names of a row.
pub open spec fn uppers_of(row: FieldsView) -> Seq<Seq<char>> {
    row.map_values(|p: (Seq<char>, Seq<char>)| upper_of(p.0))
}

/// One explicit mapping from a column to a tag: where the row has the column, the tag as
/// given and escaped is replaced by the escaped value.
pub open spec fn explicit_step(st: TextState, column: Seq<char>, tag: Seq<char>, row: FieldsView) -> TextState {
    match lookup(row, column) {
        Some(value) => {
            let v = escape_xml(bytes_of(value));
            step(step(st, bytes_of(tag), v), escape_xml(bytes_of(tag)), v)
        },
        None => st,
    }
}

/// Every explicit mapping, in order.
pub open spec fn explicit_pass(st: TextState, mappings: FieldsView, row: FieldsView) -> TextState
    decreases mappings.len(),
{
    if mappings.len() == 0 {
        st
    } else {
        explicit_step(
            explicit_pass(st, mappings.drop_last(), row),
            mappings.last().0,
            mappings.last().1,
            row,
        )
    }
}

/// The text after both passes, and whether anything was replaced.
pub open spec fn substituted(text: Seq<u8>, row: FieldsView, mappings: FieldsView) -> TextState {
    substituted_with(text, row, uppers_of(row), mappings)
}

/// The text after both passes, given the uppercased column names.
pub open spec fn substituted_with(
    text: Seq<u8>,
    row: FieldsView,
    uppers: Seq<Seq<char>>,
    mappings: FieldsView,
) -> TextState {
    explicit_pass(implicit_pass((text, false), row, uppers), mappings, row)
}

pub open spec fn mappings_view(mappings: Seq<(String, String)>) -> FieldsView {
    mappings.map_values(|p: (String, String)| (p.0@, p.1@))
}

fn apply(text: Vec<u8>, changed: bool, pat: &[u8], to: &[u8]) -> (r: (Vec<u8>, bool))
    ensures
        (r.0@, r.1) == step((text@, changed), pat@, to@),
{
    let (out, found) = replace_bytes(text.as_slice(), pat, to);
    (out, changed || found)
}

fn plain_tag_exec(key: &[u8]) -> (r: Vec<u8>)
    ensures
        r@ == plain_tag(key@),
{
    let mut out: Vec<u8> = Vec::new();
    append_bytes(&mut out, &[60u8, 60u8]);
    append_bytes(&mut out, key);
    append_bytes(&mut out, &[62u8, 62u8]);
    out
}

fn escaped_tag_exec(key: &[u8]) -> (r: Vec<u8>)
    ensures
        r@ == escaped_tag(key@),
{
    let mut out = escape_xml_exec(&[60u8, 60u8]);
    let k = escape_xml_exec(key);
    append_bytes(&mut out, k.as_slice());
    let c = escape_xml_exec(&[62u8, 62u8]);
    append_bytes(&mut out, c.as_slice());
    out
}

fn implicit_step_exec(text: Vec<u8>, changed: bool, key: &String, upper: &String, value: &String) -> (r: (Vec<u8>, bool))
    ensures
        (r.0@, r.1) == implicit_step((text@, changed), key@, upper@, value@),
{
    let k = key.as_str().as_bytes();
    let u = upper.as_str().as_bytes();
    let v = escape_xml_exec(value.as_str().as_bytes());
    let t1 = plain_tag_exec(k);
    let t2 = escaped_tag_exec(k);
    let t3 = plain_tag_exec(u);
    let t4 = escaped_tag_exec(u);
    let (x, c) = apply(text, changed, t1.as_slice(), v.as_slice());
    let (x, c) = apply(x, c, t2.as_slice(), v.as_slice());
    let (x, c) = apply(x, c, t3.as_slice(), v.as_slice());
    apply(x, c, t4.as_slice(), v.as_slice())
}

/// Replaces the placeholders of a markup text: first, for every column of the row, the
/// placeholder `<<column>>` and its XML-escaped spelling, with the column name as given
/// and uppercased; then, for every mapping whose column the row has, the mapped tag as
/// given and escaped. Each is replaced by the row's value, XML-escaped. Also says whether
/// any replacement happened.
pub fn substitute_placeholders(text: &[u8], row: &CsvRecord, mappings: &Vec<(String, String)>) -> (r: (Vec<u8>, bool))
    ensures
        (r.0@, r.1) == substituted(text@, row.fields(), mappings_view(mappings@)),
{
    let ghost fields = row.fields();
    let mut uppers: Vec<String> = Vec::new();
    let mut i: usize = 0;
    while i < row.len()
        invariant
            i <= fields.len(),
            fields == row.fields(),
            uppers@.len() == i,
            forall|k: int| 0 <= k < i ==> (#[trigger] uppers@[k])@ == upper_of(fields[k].0),
        decreases fields.len() - i,
    {
        let (k, _) = row.field(i);
        uppers.push(uppercase(k.as_str()));
        i = i + 1;
    }
    assert(uppers@.map_values(|s: String| s@) =~= uppers_of(fields));
    substitute_with_uppercase(text, row, &uppers, mappings)
}

/// Placeholder substitution as `substitute_placeholders` does it, given the uppercased
/// column names: `uppers[i]` stands for column `i`.
pub fn substitute_with_uppercase(
    text: &[u8],
    row: &CsvRecord,
    uppers: &Vec<String>,
    mappings: &Vec<(String, String)>,
) -> (r: (Vec<u8>, bool))
    requires
        uppers@.len() == row.fields().len(),
    ensures
        (r.0@, r.1) == substituted_with(
            text@,
            row.fields(),
            uppers@.map_values(|s: String| s@),
            mappings_view(mappings@),
        ),
{
    let ghost uv = uppers@.map_values(|s: String| s@);
    let mut cur: Vec<u8> = Vec::new();
    append_bytes(&mut cur, text);
    let mut changed = false;
    let ghost fields = row.fields();
    let mut i: usize = 0;
    assert(fields.take(0) =~= Seq::<(Seq<char>, Seq<char>)>::empty());
    while i < row.len()
        invariant
            i <= fields.len(),
            fields == row.fields(),
            uppers@.len() == fields.len(),
            uv == uppers@.map_values(|s: String| s@),
            (cur@, changed) == implicit_pass((text@, false), fields.take(i as int), uv),
        decreases fields.len() - i,
    {
        assert(fields.take(i + 1).drop_last() =~= fields.take(i as int));
        let (k, v) = row.field(i);
        let (x, c) = implicit_step_exec(cur, changed, k, &uppers[i], v);
        cur = x;
        changed = c;
        i = i + 1;
    }
    assert(fields.take(i as int) =~= fields);
    let ghost after_implicit = (cur@, changed);
    let ghost mv = mappings_view(mappings@);
    let mut j: usize = 0;
    assert(mv.take(0) =~= Seq::<(Seq<char>, Seq<char>)>::empty());
    while j < mappings.len()
        invariant
            j <= mv.len(),
            mv == mappings_view(mappings@),
            fields == row.fields(),
            (cur@, changed) == explicit_pass(after_implicit, mv.take(j as int), fields),
        decreases mv.len() - j,
    {
        assert(mv.take(j + 1).drop_last() =~= mv.take(j as int));
        let column = &mappings[j].0;
        let tag = &mappings[j].1;
        match row.get(column.as_str()) {
            Some(value) => {
                let v = escape_xml_exec(value.as_str().as_bytes());
                let t = tag.as_str().as_bytes();
                let te = escape_xml_exec(t);
                let (x, c) = apply(cur, changed, t, v.as_slice());
                let (x, c) = apply(x, c, te.as_slice(), v.as_slice());
                cur = x;
                changed = c;
            },
            None => {},
        }
        j = j + 1;
    }
    assert(mv.take(j as int) =~= mv);
    (cur, changed)
}

// ---- archive rewriting ----

/// `.xml`
pub open spec fn xml_suffix() -> Seq<u8> {
    seq![46u8, 120u8, 109u8, 108u8]
}

/// The entry holds XML markup.
pub open spec fn is_markup(name: Seq<char>) -> bool {
    ends_with(bytes_of(name), xml_suffix())
}

/// The Unix mode given to an entry that records none: read-write for the owner, read
/// for others.
pub open spec fn default_mode() -> u32 {
    0o644u32
}

/// The content an entry is written with: for markup where some placeholder was replaced,
/// the substituted text; otherwise the entry's own bytes.
pub open spec fn rewritten_content(e: EntryData, row: FieldsView, mappings: FieldsView) -> Seq<u8> {
    if is_markup(e.0) {
        let st = substituted(bytes_of(utf8_lossy(e.3)), row, mappings);
        if st.1 {
            st.0
        } else {
            e.3
        }
    } else {
        e.3
    }
}

/// An entry as written: same name and compression method, its mode or the default one,
/// and the rewritten content.
pub open spec fn rewritten_entry(e: EntryData, row: FieldsView, mappings: FieldsView) -> PackData {
    (
        e.0,
        e.1,
        match e.2 {
            Some(m) => m,
            None => default_mode(),
        },
        rewritten_content(e, row, mappings),
    )
}

/// The archive for a template and a row: the template's entries rewritten, packed; or
/// the first error of reading or writing.
pub open spec fn rewritten_archive(template: Seq<u8>, row: FieldsView, mappings: FieldsView) -> Result<Seq<u8>, Seq<char>> {
    match zip_unpacked(template) {
        Err(e) => Err(e),
        Ok(entries) => zip_packed(entries.map_values(|e: EntryData| rewritten_entry(e, row, mappings))),
    }
}

fn rewrite_entry(e: &ArchiveEntry, row: &CsvRecord, mappings: &Vec<(String, String)>) -> (r: PackEntry)
    ensures
        pack_data(r) == rewritten_entry(entry_data(*e), row.fields(), mappings_view(mappings@)),
{
    let mode = match e.unix_mode {
        Some(m) => m,
        None => 0o644u32,
    };
    let xml: &[u8] = &[46u8, 120u8, 109u8, 108u8];
    assert(xml@ == xml_suffix());
    let mut content: Vec<u8> = Vec::new();
    if ends_with_exec(e.name.as_str().as_bytes(), xml) {
        let text = decode_lossy(e.content.as_slice());
        let (out, changed) = substitute_placeholders(text.as_str().as_bytes(), row, mappings);
        if changed {
            content = out;
        } else {
            append_bytes(&mut content, e.content.as_slice());
        }
    } else {
        append_bytes(&mut content, e.content.as_slice());
    }
    PackEntry { name: e.name.clone(), method: e.method, mode, content }
}

/// Every entry of an archive rewritten for the row, in order (see `rewrite_archive`).
pub fn rewrite_entries(entries: &Vec<ArchiveEntry>, row: &CsvRecord, mappings: &Vec<(String, String)>) -> (r: Vec<PackEntry>)
    ensures
        r@.len() == entries@.len(),
        forall|k: int|
            0 <= k < r@.len() ==> pack_data(#[trigger] r@[k]) == rewritten_entry(
                entry_data(entries@[k]),
                row.fields(),
                mappings_view(mappings@),
            ),
{
    let mut out: Vec<PackEntry> = Vec::new();
    let mut i: usize = 0;
    while i < entries.len()
        invariant
            i <= entries@.len(),
            out@.len() == i,
            forall|k: int|
                0 <= k < i ==> pack_data(#[trigger] out@[k]) == rewritten_entry(
                    entry_data(entries@[k]),
                    row.fields(),
                    mappings_view(mappings@),
                ),
        decreases entries@.len() - i,
    {
        let p = rewrite_entry(&entries[i], row, mappings);
        out.push(p);
        i = i + 1;
    }
    out
}

/// The output archive for a template and a row. Every entry of the template is kept in
/// order with its name and compression method, and its Unix mode (0o644 where it has
/// none). A markup entry (name ending in `.xml`) is decoded as text and its placeholders
/// substituted; it is written with the new text only if some replacement happened, and
/// byte for byte as it was otherwise, as is every other entry. An archive that cannot be
/// read or written gives the error.
pub fn rewrite_archive(template: &[u8], row: &CsvRecord, mappings: &Vec<(String, String)>) -> (r: Result<Vec<u8>, String>)
    ensures
        match r {
            Ok(b) => rewritten_archive(template@, row.fields(), mappings_view(mappings@)) == Ok::<Seq<u8>, Seq<char>>(b@),
            Err(e) => rewritten_archive(template@, row.fields(), mappings_view(mappings@)) == Err::<Seq<u8>, Seq<char>>(e@),
        },
{
    let entries = match unpack_archive(template) {
        Ok(v) => v,
        Err(e) => {
            return Err(e);
        },
    };
    let out = rewrite_entries(&entries, row, mappings);
    assert(out@.map_values(|e: PackEntry| pack_data(e)) =~= entries@.map_values(
        |e: ArchiveEntry| entry_data(e),
    ).map_values(|e: EntryData| rewritten_entry(e, row.fields(), mappings_view(mappings@))));
    match pack_archive(&out) {
        Ok(b) => Ok(b),
        Err(e) => Err(e),
    }
}


// ---- output naming ----

/// The column that names the client.
pub open spec fn client_column() -> Seq<char> {
    "Nom du client"@
}

/// The column that holds the organisation id.
pub open spec fn org_column() -> Seq<char> {
    "Org ID"@
}

/// The column that holds the date, written day/month/year.
pub open spec fn date_column() -> Seq<char> {
    "JJ/MM/AAAA"@
}

/// The characters that cannot stand in a file name: back and forward slash, asterisk,
/// question mark, colon, double quote, angle brackets and pipe.
pub open spec fn unsafe_chars_pattern() -> Seq<char> {
    "[\\\\/*?:\"<>|]"@
}

/// A character that cannot stand in a file name.
pub open spec fn is_unsafe_char(c: char) -> bool {
    c == '\\' || c == '/' || c == '*' || c == '?' || c == ':' || c == '"' || c == '<' || c
        == '>' || c == '|'
}

pub open spec fn value_or(v: Option<Seq<char>>, fallback: Seq<char>) -> Seq<char> {
    match v {
        Some(x) => x,
        None => fallback,
    }
}

/// The text with the characters that cannot stand in a file name removed.
pub open spec fn sanitized(s: Seq<char>) -> Seq<char> {
    s.filter(|c: char| !is_unsafe_char(c))
}

pub open spec fn client_part(row: FieldsView) -> Seq<char> {
    sanitized(value_or(lookup(row, client_column()), "Unknown"@))
}

pub open spec fn org_part(row: FieldsView) -> Seq<char> {
    value_or(lookup(row, org_column()), "000"@)
}

/// The text with every slash written as a dash.
pub open spec fn dashed(s: Seq<char>) -> Seq<char> {
    s.map_values(|c: char| if c == '/' { '-' } else { c })
}

pub open spec fn date_part(row: FieldsView) -> Seq<char> {
    match lookup(row, date_column()) {
        Some(d) => dashed(d),
        None => "00-00-0000"@,
    }
}

/// The suffix that tells prior-period output from the other.
pub open spec fn period_suffix(template_name: Seq<char>) -> Seq<char> {
    if is_prior_name(bytes_of(template_name)) {
        "previous_year"@
    } else {
        "previous_quarter"@
    }
}

/// The folder of a row's outputs: `<client>_<org id>`.
pub open spec fn output_folder(row: FieldsView) -> Seq<char> {
    client_part(row) + "_"@ + org_part(row)
}

/// The output file name: `<date>_<org id>_<client>_<suffix>.pptx`.
pub open spec fn output_file(row: FieldsView, template_name: Seq<char>) -> Seq<char> {
    date_part(row) + "_"@ + org_part(row) + "_"@ + client_part(row) + "_"@ + period_suffix(
        template_name,
    ) + ".pptx"@
}

fn value_or_exec(v: Option<&String>, fallback: &str) -> (r: String)
    ensures
        r@ == value_or(
            match v {
                Some(x) => Some(x@),
                None => None,
            },
            fallback@,
        ),
{
    match v {
        Some(x) => x.clone(),
        None => String::from_str(fallback),
    }
}

/// The text with the characters that cannot stand in a file name removed.
pub fn sanitize_file_part(s: &str) -> (r: String)
    ensures
        r@ == sanitized(s@),
{
    match remove_matches("[\\\\/*?:\"<>|]", s) {
        Some(t) => t,
        None => String::from_str(s),
    }
}

/// The text with every slash written as a dash.
pub fn dash_slashes(s: &str) -> (r: String)
    ensures
        r@ == dashed(s@),
{
    proof {
        reveal_strlit("-");
    }
    let n = s.unicode_len();
    let mut out = String::new();
    let mut i: usize = 0;
    while i < n
        invariant
            i <= n,
            n == s@.len(),
            "-"@ == seq!['-'],
            out@ == dashed(s@.take(i as int)),
        decreases n - i,
    {
        if s.get_char(i) == '/' {
            out.append("-");
        } else {
            out.append(s.substring_char(i, i + 1));
        }
        assert(out@ =~= dashed(s@.take(i + 1)));
        i = i + 1;
    }
    assert(s@.take(n as int) =~= s@);
    out
}

/// Where the output of a row and a template goes: the folder `<client>_<org id>` and the
/// file name `<date>_<org id>_<client>_<suffix>.pptx`. The client is the client column
/// with the characters that cannot stand in a file name removed (`Unknown` without the
/// column); the org id is its column (`000` without it); the date is its column with
/// slashes written as dashes (`00-00-0000` without it); the suffix is `previous_year` for
/// a prior-period template and `previous_quarter` otherwise.
pub fn output_location(row: &CsvRecord, template_name: &str) -> (r: (String, String))
    ensures
        r.0@ == output_folder(row.fields()),
        r.1@ == output_file(row.fields(), template_name@),
{
    let client_raw = value_or_exec(row.get("Nom du client"), "Unknown");
    let client = sanitize_file_part(client_raw.as_str());
    let org = value_or_exec(row.get("Org ID"), "000");
    let date = match row.get("JJ/MM/AAAA") {
        Some(d) => dash_slashes(d.as_str()),
        None => String::from_str("00-00-0000"),
    };
    let mut folder = client.clone();
    folder.append("_");
    folder.append(org.as_str());
    let suffix = if is_prior_name_exec(template_name.as_bytes()) {
        "previous_year"
    } else {
        "previous_quarter"
    };
    let mut file = date;
    file.append("_");
    file.append(org.as_str());
    file.append("_");
    file.append(client.as_str());
    file.append("_");
    file.append(suffix);
    file.append(".pptx");
    (folder, file)
}

/// The output of one task: where it goes and the archive bytes.
#[derive(Clone, Debug)]
pub struct PptxOutput {
    pub folder: String,
    pub file_name: String,
    pub archive: Vec<u8>,
}

/// Makes the output of one task: the template archive (named `template_name`, with bytes
/// `template`) rewritten for the row, with the folder and file name it goes to. Fails
/// with the archive error when the template cannot be read or the output written.
pub fn process_single_pptx(
    template_name: &str,
    template: &[u8],
    row: &CsvRecord,
    mappings: &Vec<(String, String)>,
) -> (r: Result<PptxOutput, String>)
    ensures
        match r {
            Ok(o) => {
                &&& o.folder@ == output_folder(row.fields())
                &&& o.file_name@ == output_file(row.fields(), template_name@)
                &&& rewritten_archive(template@, row.fields(), mappings_view(mappings@)) == Ok::<
                    Seq<u8>,
                    Seq<char>,
                >(o.archive@)
            },
            Err(e) => rewritten_archive(template@, row.fields(), mappings_view(mappings@)) == Err::<
                Seq<u8>,
                Seq<char>,
            >(e@),
        },
{
    let (folder, file_name) = output_location(row, template_name);
    match rewrite_archive(template, row, mappings) {
        Ok(archive) => Ok(PptxOutput { folder, file_name, archive }),
        Err(e) => Err(e),
    }
}

} // verus!
