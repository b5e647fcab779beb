//! Loading delimited text into rows keyed by the header's column names.
use crate::normalize::{clean_value, normalized};
use crate::record::{insert_field, lookup, without_key, CsvRecord, FieldsView};
use vstd::prelude::*;

verus! {

/// One record as the reader gives it: its fields, or the reader's error message.
pub type RecordView = Result<Seq<Seq<char>>, Seq<char>>;

/// The records that the `csv` reader yields on `input` with this delimiter, the header
/// line included, each read without trimming and with any number of fields.
pub uninterp spec fn csv_records(input: Seq<u8>, delimiter: u8) -> Seq<RecordView>;

pub open spec fn record_view(r: Result<Vec<String>, String>) -> RecordView {
    match r {
        Ok(v) => Ok(v@.map_values(|s: String| s@)),
        Err(e) => Err(e@),
    }
}

/// Relies on `csv::ReaderBuilder` and `csv::Reader::records`: all records of `input`
/// read with `delimiter`, none taken as header, records of any length accepted; each
/// error message is the reader's error rendered as text.
#[verifier::external_body]
fn read_records(input: &[u8], delimiter: u8) -> (r: Vec<Result<Vec<String>, String>>)
    ensures
        r@.len() == csv_records(input@, delimiter).len(),
        forall|i: int| 0 <= i < r@.len() ==> record_view(#[trigger] r@[i]) == csv_records(input@, delimiter)[i],
{
    csv::ReaderBuilder::new().delimiter(delimiter).has_headers(false).flexible(true)
        .from_reader(input).records()
        .map(|x| x.map(|rec| rec.iter().map(|f| f.to_string()).collect()).map_err(|e| e.to_string()))
        .collect()
}

/// The first line (up to the first line feed) holds a semicolon.
pub open spec fn first_line_has_semicolon(input: Seq<u8>) -> bool {
    exists|i: int|
        0 <= i < input.len() && input[i] == 59u8 && forall|j: int| 0 <= j < i ==> input[j] != 10u8
}

/// Semicolon when the first line holds one, else comma.
pub open spec fn delimiter_for(input: Seq<u8>) -> u8 {
    if first_line_has_semicolon(input) {
        59u8
    } else {
        44u8
    }
}

/// The delimiter of a delimited text, judged from its first line alone.
pub fn detect_delimiter(input: &[u8]) -> (r: u8)
    ensures
        r == delimiter_for(input@),
{
    let mut i: usize = 0;
    while i < input.len()
        invariant
            i <= input@.len(),
            forall|j: int| 0 <= j < i ==> input@[j] != 10u8 && input@[j] != 59u8,
        decreases input@.len() - i,
    {
        if input[i] == 59u8 {
            return 59u8;
        }
        if input[i] == 10u8 {
            assert forall|k: int|
                0 <= k < input@.len() && input@[k] == 59u8 implies exists|j: int|
                0 <= j < k && input@[j] == 10u8 by {
                assert(k > i);
            }
            return 44u8;
        }
        i = i + 1;
    }
    44u8
}

/// A row from the header and one record: the column names paired with the normalized
/// fields, up to the shorter of the two.
pub open spec fn row_from(header: Seq<Seq<char>>, fields: Seq<Seq<char>>, n: nat) -> FieldsView
    decreases n,
{
    if n == 0 {
        Seq::empty()
    } else {
        insert_field(
            row_from(header, fields, (n - 1) as nat),
            header[n - 1],
            normalized(fields[n - 1]),
        )
    }
}

pub open spec fn min_len(a: nat, b: nat) -> nat {
    if a < b {
        a
    } else {
        b
    }
}

pub open spec fn build_row(header: Seq<Seq<char>>, fields: Seq<Seq<char>>) -> FieldsView {
    row_from(header, fields, min_len(header.len(), fields.len()))
}

/// The rows of the data records, or the first record's error.
pub open spec fn rows_result(header: Seq<Seq<char>>, recs: Seq<RecordView>) -> Result<
    Seq<FieldsView>,
    Seq<char>,
>
    decreases recs.len(),
{
    if recs.len() == 0 {
        Ok(Seq::empty())
    } else {
        match rows_result(header, recs.drop_last()) {
            Err(e) => Err(e),
            Ok(rows) => match recs.last() {
                Err(e) => Err(e),
                Ok(f) => Ok(rows.push(build_row(header, f))),
            },
        }
    }
}

/// The outcome of reading at most `limit` data rows of `input`.
pub open spec fn table_result(input: Seq<u8>, limit: nat) -> Result<Seq<FieldsView>, Seq<char>> {
    table_from(csv_records(input, delimiter_for(input)), limit)
}

/// The outcome of taking at most `limit` data rows from records whose first one is the
/// header.
pub open spec fn table_from(recs: Seq<RecordView>, limit: nat) -> Result<Seq<FieldsView>, Seq<char>> {
    if recs.len() == 0 {
        Ok(Seq::empty())
    } else {
        match recs[0] {
            Err(e) => Err(e),
            Ok(header) => rows_result(header, recs.subrange(1, 1 + min_len(limit, (recs.len() - 1) as nat) as int)),
        }
    }
}

/// The outcome of reading every data row of `input`.
pub open spec fn all_rows_result(input: Seq<u8>) -> Result<Seq<FieldsView>, Seq<char>> {
    let recs = csv_records(input, delimiter_for(input));
    table_result(input, recs.len())
}

pub open spec fn rows_view(r: Result<Vec<CsvRecord>, String>) -> Result<Seq<FieldsView>, Seq<char>> {
    match r {
        Ok(v) => Ok(v@.map_values(|x: CsvRecord| x.fields())),
        Err(e) => Err(e@),
    }
}

/// A row from the header's column names and one record's fields, normalized, up to the
/// shorter of the two.
pub fn make_row(header: &Vec<String>, fields: &Vec<String>) -> (r: CsvRecord)
    ensures
        r.fields() == build_row(header@.map_values(|s: String| s@), fields@.map_values(|s: String| s@)),
{
    let ghost hv = header@.map_values(|s: String| s@);
    let ghost fv = fields@.map_values(|s: String| s@);
    let n = if header.len() < fields.len() {
        header.len()
    } else {
        fields.len()
    };
    let mut row = CsvRecord::new();
    let mut k: usize = 0;
    while k < n
        invariant
            k <= n,
            n == min_len(hv.len(), fv.len()),
            n <= header@.len(),
            n <= fields@.len(),
            hv == header@.map_values(|s: String| s@),
            fv == fields@.map_values(|s: String| s@),
            row.fields() == row_from(hv, fv, k as nat),
        decreases n - k,
    {
        let v = clean_value(fields[k].as_str());
        row.insert(header[k].clone(), v);
        k = k + 1;
    }
    row
}

proof fn lemma_rows_err_sticks(header: Seq<Seq<char>>, recs: Seq<RecordView>, m: int)
    requires
        0 <= m <= recs.len(),
        rows_result(header, recs.take(m)) is Err,
    ensures
        rows_result(header, recs) == rows_result(header, recs.take(m)),
    decreases recs.len() - m,
{
    if m < recs.len() {
        assert(recs.take(m + 1).drop_last() =~= recs.take(m));
        lemma_rows_err_sticks(header, recs, m + 1);
    } else {
        assert(recs.take(m) =~= recs);
    }
}

pub open spec fn records_view(records: Seq<Result<Vec<String>, String>>) -> Seq<RecordView> {
    records.map_values(|r: Result<Vec<String>, String>| record_view(r))
}

/// Reads at most `limit` data rows; `all` reads every row.
fn read_rows(input: &[u8], limit: usize, all: bool) -> (r: Result<Vec<CsvRecord>, String>)
    ensures
        all ==> rows_view(r) == all_rows_result(input@),
        !all ==> rows_view(r) == table_result(input@, limit as nat),
{
    let delimiter = detect_delimiter(input);
    let recs = read_records(input, delimiter);
    assert(records_view(recs@) =~= csv_records(input@, delimiter));
    rows_from_records(&recs, limit, all)
}

/// The rows of records whose first one names the columns: at most `limit` data rows, or
/// every one where `all` is set. Each row pairs the column names with the normalized
/// fields, up to the shorter of the two; an unreadable record among those taken, or an
/// unreadable header, fails the whole with its message.
pub fn rows_from_records(recs: &Vec<Result<Vec<String>, String>>, limit: usize, all: bool) -> (r: Result<Vec<CsvRecord>, String>)
    ensures
        all ==> rows_view(r) == table_from(records_view(recs@), recs@.len()),
        !all ==> rows_view(r) == table_from(records_view(recs@), limit as nat),
{
    let ghost rv = records_view(recs@);
    let ghost lim: nat = if all { rv.len() } else { limit as nat };
    if recs.len() == 0 {
        let out: Vec<CsvRecord> = Vec::new();
        assert(out@.map_values(|x: CsvRecord| x.fields()) =~= Seq::<FieldsView>::empty());
        return Ok(out);
    }
    assert(record_view(recs@[0]) == rv[0]);
    let header = match &recs[0] {
        Err(e) => {
            return Err(e.clone());
        },
        Ok(h) => h,
    };
    let ghost hv = header@.map_values(|s: String| s@);
    let ghost end: int = 1 + min_len(lim, (rv.len() - 1) as nat) as int;
    let ghost data = rv.subrange(1, end);
    let mut rows: Vec<CsvRecord> = Vec::new();
    let mut i: usize = 1;
    assert(data.take(0) =~= Seq::<RecordView>::empty());
    assert(rows@.map_values(|x: CsvRecord| x.fields()) =~= Seq::<FieldsView>::empty());
    while i < recs.len() && (all || i - 1 < limit)
        invariant
            1 <= i <= end,
            end <= rv.len(),
            recs@.len() == rv.len(),
            end == 1 + min_len(lim, (rv.len() - 1) as nat) as int,
            lim == (if all { rv.len() } else { limit as nat }),
            data == rv.subrange(1, end),
            rv == records_view(recs@),
            forall|j: int| 0 <= j < recs@.len() ==> record_view(#[trigger] recs@[j]) == rv[j],
            hv == header@.map_values(|s: String| s@),
            rv[0] == Ok::<Seq<Seq<char>>, Seq<char>>(hv),
            rows_result(hv, data.take(i - 1)) == Ok::<Seq<FieldsView>, Seq<char>>(
                rows@.map_values(|x: CsvRecord| x.fields()),
            ),
        decreases recs@.len() - i,
    {
        assert(data.take(i as int).drop_last() =~= data.take(i - 1));
        assert(data[i - 1] == rv[i as int]);
        assert(record_view(recs@[i as int]) == rv[i as int]);
        match &recs[i] {
            Err(e) => {
                proof {
                    assert(data.take(i as int).last() == data[i - 1]);
                    assert(rows_result(hv, data.take(i as int)) == Err::<Seq<FieldsView>, Seq<char>>(e@));
                    lemma_rows_err_sticks(hv, data, i as int);
                    assert(table_from(rv, lim) == rows_result(hv, data));
                }
                return Err(e.clone());
            },
            Ok(f) => {
                let row = make_row(header, f);
                rows.push(row);
                assert(rows@.map_values(|x: CsvRecord| x.fields()) =~= rows_result(
                    hv,
                    data.take(i - 1),
                )->Ok_0.push(build_row(hv, f@.map_values(|s: String| s@))));
            },
        }
        i = i + 1;
    }
    assert(i == end);
    assert(data.take(i - 1) =~= data);
    Ok(rows)
}

/// Reads every data row of a delimited text. The delimiter is a semicolon when the
/// first line holds one, else a comma; the first record names the columns; each row
/// pairs them with the normalized fields, up to the shorter of the two. Any record the
/// reader cannot read fails the whole read with its message.
pub fn read_csv_all(input: &[u8]) -> (r: Result<Vec<CsvRecord>, String>)
    ensures
        rows_view(r) == all_rows_result(input@),
{
    read_rows(input, 0, true)
}

/// Reads at most `limit` data rows, as `read_csv_all` does; records after those are not
/// looked at.
pub fn read_csv_preview(input: &[u8], limit: usize) -> (r: Result<Vec<CsvRecord>, String>)
    ensures
        rows_view(r) == table_result(input@, limit as nat),
{
    read_rows(input, limit, false)
}


/// A delimited text is valid when at least one data row of it can be read.
pub fn validate_csv(input: &[u8]) -> (r: bool)
    ensures
        r == (table_result(input@, 1) matches Ok(rows) && rows.len() >= 1),
{
    match read_csv_preview(input, 1) {
        Ok(rows) => rows.len() >= 1,
        Err(_) => false,
    }
}

/// A text whose first line holds a semicolon is read with the semicolon as delimiter.
pub proof fn lemma_semicolon_first_line(input: Seq<u8>)
    requires
        first_line_has_semicolon(input),
    ensures
        delimiter_for(input) == 59u8,
        all_rows_result(input) == table_result(input, csv_records(input, 59u8).len()),
{
}

proof fn lemma_without_absent_key(f: FieldsView, key: Seq<char>)
    requires
        forall|i: int| 0 <= i < f.len() ==> f[i].0 != key,
    ensures
        without_key(f, key) == f,
    decreases f.len(),
{
    if f.len() > 0 {
        lemma_without_absent_key(f.drop_last(), key);
        assert(f.drop_last().push(f.last()) =~= f);
    }
}

/// With distinct column names, a row pairs the i-th column name with the i-th field,
/// normalized, for as many positions as both the header and the record have: a record
/// shorter than the header gives a shorter row.
pub proof fn lemma_row_truncates(header: Seq<Seq<char>>, fields: Seq<Seq<char>>)
    requires
        forall|i: int, j: int| 0 <= i < j < header.len() ==> header[i] != header[j],
    ensures
        build_row(header, fields) == Seq::new(
            min_len(header.len(), fields.len()),
            |i: int| (header[i], normalized(fields[i])),
        ),
{
    lemma_row_prefix(header, fields, min_len(header.len(), fields.len()));
}

proof fn lemma_row_prefix(header: Seq<Seq<char>>, fields: Seq<Seq<char>>, n: nat)
    requires
        n <= header.len(),
        n <= fields.len(),
        forall|i: int, j: int| 0 <= i < j < header.len() ==> header[i] != header[j],
    ensures
        row_from(header, fields, n) == Seq::new(n, |i: int| (header[i], normalized(fields[i]))),
    decreases n,
{
    if n == 0 {
        assert(row_from(header, fields, n) =~= Seq::new(n, |i: int| (header[i], normalized(fields[i]))));
    } else {
        let m = (n - 1) as nat;
        lemma_row_prefix(header, fields, m);
        let prev = row_from(header, fields, m);
        lemma_without_absent_key(prev, header[m as int]);
        assert(row_from(header, fields, n) =~= Seq::new(n, |i: int| (header[i], normalized(fields[i]))));
    }
}

/// The value that a row built from the first `n` columns has for `key`: the field of the
/// last of them named `key`, normalized; none when no column of them has that name.
pub open spec fn column_value(header: Seq<Seq<char>>, fields: Seq<Seq<char>>, n: nat, key: Seq<char>) -> Option<Seq<char>>
    decreases n,
{
    if n == 0 {
        None
    } else if header[n - 1] == key {
        Some(normalized(fields[n - 1]))
    } else {
        column_value(header, fields, (n - 1) as nat, key)
    }
}

proof fn lemma_lookup_without_key(f: FieldsView, k: Seq<char>, key: Seq<char>)
    requires
        key != k,
    ensures
        lookup(without_key(f, k), key) == lookup(f, key),
    decreases f.len(),
{
    if f.len() > 0 {
        lemma_lookup_without_key(f.drop_last(), k, key);
        let rest = without_key(f.drop_last(), k);
        if f.last().0 != k {
            assert(rest.push(f.last()).drop_last() =~= rest);
        }
    }
}

proof fn lemma_row_lookup(header: Seq<Seq<char>>, fields: Seq<Seq<char>>, n: nat, key: Seq<char>)
    requires
        n <= header.len(),
        n <= fields.len(),
    ensures
        lookup(row_from(header, fields, n), key) == column_value(header, fields, n, key),
    decreases n,
{
    if n > 0 {
        let m = (n - 1) as nat;
        lemma_row_lookup(header, fields, m, key);
        let prev = row_from(header, fields, m);
        let k = header[m as int];
        let w = without_key(prev, k);
        assert(w.push((k, normalized(fields[m as int]))).drop_last() =~= w);
        if key != k {
            lemma_lookup_without_key(prev, k, key);
        }
    }
}

/// Whatever the column names, a row holds exactly the columns among the first
/// min(header, record) positions: a record shorter than the header gives a row without the
/// later columns, and each column's value is its field, normalized (the later field
/// where a name repeats).
pub proof fn lemma_row_columns(header: Seq<Seq<char>>, fields: Seq<Seq<char>>, key: Seq<char>)
    ensures
        lookup(build_row(header, fields), key) == column_value(
            header,
            fields,
            min_len(header.len(), fields.len()),
            key,
        ),
{
    lemma_row_lookup(header, fields, min_len(header.len(), fields.len()), key);
}

/// A preview of one row, of a text whose header and first data record are readable,
/// succeeds with exactly one row.
pub proof fn lemma_preview_one_row(input: Seq<u8>)
    requires
        csv_records(input, delimiter_for(input)).len() >= 2,
        csv_records(input, delimiter_for(input))[0] is Ok,
        csv_records(input, delimiter_for(input))[1] is Ok,
    ensures
        table_result(input, 1) matches Ok(rows) && rows.len() == 1,
{
    let recs = csv_records(input, delimiter_for(input));
    let data = recs.subrange(1, 2);
    let h = recs[0]->Ok_0;
    assert(data.drop_last() =~= Seq::<RecordView>::empty());
    assert(data.last() == recs[1]);
    assert(rows_result(h, data.drop_last()) == Ok::<Seq<FieldsView>, Seq<char>>(Seq::empty()));
    assert(table_result(input, 1) == rows_result(h, data));
}

} // verus!
