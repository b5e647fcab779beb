use one_pager::ingest::validate_csv;
use one_pager::ingest::rows_from_records;
use one_pager::ingest::{detect_delimiter, read_csv_all, read_csv_preview};

#[test]
fn semicolon_in_first_line_selects_semicolon() {
    assert_eq!(detect_delimiter(b"a;b\n1,2\n"), b';');
    assert_eq!(detect_delimiter(b"a,b\n1;2\n"), b',');
    assert_eq!(detect_delimiter(b""), b',');
    let rows = read_csv_all(b"name;age\nAnn;30.0\n").unwrap();
    assert_eq!(rows.len(), 1);
    assert_eq!(rows[0].get("name").unwrap(), "Ann");
    assert_eq!(rows[0].get("age").unwrap(), "30");
}

#[test]
fn comma_file_is_read_with_comma() {
    let rows = read_csv_all(b"a,b\n1,x\n2,nan\n").unwrap();
    assert_eq!(rows.len(), 2);
    assert_eq!(rows[0].get("a").unwrap(), "1");
    assert_eq!(rows[0].get("b").unwrap(), "x");
    assert_eq!(rows[1].get("b").unwrap(), "");
}

#[test]
fn short_row_truncates_to_its_fields() {
    let rows = read_csv_all(b"a,b,c\n1,2\n").unwrap();
    assert_eq!(rows.len(), 1);
    assert_eq!(rows[0].len(), 2);
    assert_eq!(rows[0].get("a").unwrap(), "1");
    assert_eq!(rows[0].get("b").unwrap(), "2");
    assert!(rows[0].get("c").is_none());
}

#[test]
fn long_row_truncates_to_the_header() {
    let rows = read_csv_all(b"a\n1,2,3\n").unwrap();
    assert_eq!(rows[0].len(), 1);
    assert_eq!(rows[0].get("a").unwrap(), "1");
}

#[test]
fn preview_with_limit_one_returns_one_row() {
    let rows = read_csv_preview(b"a,b\n1,2\n3,4\n5,6\n", 1).unwrap();
    assert_eq!(rows.len(), 1);
    assert_eq!(rows[0].get("a").unwrap(), "1");
    let rows = read_csv_preview(b"a,b\n1,2\n3,4\n", 5).unwrap();
    assert_eq!(rows.len(), 2);
}

#[test]
fn empty_input_has_no_rows() {
    assert_eq!(read_csv_all(b"").unwrap().len(), 0);
    assert_eq!(read_csv_all(b"a,b\n").unwrap().len(), 0);
}

#[test]
fn unreadable_row_fails_the_read() {
    let input: &[u8] = b"a,b\n1,2\n\xff\xfe,3\n";
    assert!(read_csv_all(input).is_err());
    assert_eq!(read_csv_preview(input, 1).unwrap().len(), 1);
    assert!(read_csv_preview(input, 2).is_err());
}

#[test]
fn unreadable_header_fails_the_read() {
    assert!(read_csv_all(b"\xff\xfe,b\n1,2\n").is_err());
}

#[test]
fn duplicate_header_keeps_the_later_value() {
    let rows = read_csv_all(b"a,a\n1,2\n").unwrap();
    assert_eq!(rows[0].len(), 1);
    assert_eq!(rows[0].get("a").unwrap(), "2");
}

#[test]
fn quoted_fields_keep_their_delimiters() {
    let rows = read_csv_all(b"name,city\n\"Doe, J\",\" Paris \"\n").unwrap();
    assert_eq!(rows[0].get("name").unwrap(), "Doe, J");
    assert_eq!(rows[0].get("city").unwrap(), "Paris");
}

#[test]
fn validity_needs_a_readable_row() {
    assert!(validate_csv(b"a,b\n1,2\n"));
    assert!(!validate_csv(b"a,b\n"));
    assert!(!validate_csv(b""));
    assert!(!validate_csv(b"a,b\n\xff,2\n"));
}

#[test]
fn rows_from_given_records() {
    let recs: Vec<Result<Vec<String>, String>> = vec![
        Ok(vec!["a".to_string(), "b".to_string()]),
        Ok(vec![" 7.0 ".to_string()]),
        Err("bad record".to_string()),
    ];
    assert_eq!(rows_from_records(&recs, 0, true).unwrap_err(), "bad record");
    let rows = rows_from_records(&recs, 1, false).unwrap();
    assert_eq!(rows.len(), 1);
    assert_eq!(rows[0].len(), 1);
    assert_eq!(rows[0].get("a").unwrap(), "7");
    let header_err: Vec<Result<Vec<String>, String>> = vec![Err("no header".to_string())];
    assert_eq!(rows_from_records(&header_err, 5, false).unwrap_err(), "no header");
}
