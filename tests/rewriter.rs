use one_pager::rewriter::substitute_with_uppercase;
use one_pager::archive::ArchiveEntry;
use one_pager::rewriter::rewrite_entries;
use std::io::{Cursor, Read, Write};

use one_pager::record::CsvRecord;
use one_pager::rewriter::{
    dash_slashes, output_location, process_single_pptx, rewrite_archive, sanitize_file_part,
    substitute_placeholders,
};

fn row(pairs: &[(&str, &str)]) -> CsvRecord {
    let mut r = CsvRecord::new();
    for (k, v) in pairs {
        r.insert(k.to_string(), v.to_string());
    }
    r
}

fn make_zip(entries: &[(&str, &[u8])]) -> Vec<u8> {
    let mut zip = zip::ZipWriter::new(Cursor::new(Vec::new()));
    for (name, content) in entries {
        zip.start_file(*name, zip::write::SimpleFileOptions::default()).unwrap();
        zip.write_all(content).unwrap();
    }
    zip.finish().unwrap().into_inner()
}

fn read_zip(bytes: &[u8]) -> Vec<(String, Vec<u8>)> {
    let mut archive = zip::ZipArchive::new(Cursor::new(bytes)).unwrap();
    let mut out = Vec::new();
    for i in 0..archive.len() {
        let mut f = archive.by_index(i).unwrap();
        let mut content = Vec::new();
        f.read_to_end(&mut content).unwrap();
        out.push((f.name().to_string(), content));
    }
    out
}

fn text(bytes: &[u8]) -> String {
    String::from_utf8(bytes.to_vec()).unwrap()
}

#[test]
fn pptx_engine_test_generation_e2e() {
    let xml_content = r#"
            <p:txBody>
                <a:p><a:t>Hello &lt;&lt;Nom du client&gt;&gt;</a:t></a:p>
                <a:p><a:t>Date: &lt;&lt;[JJ/MM/AAAA]&gt;&gt;</a:t></a:p>
                <a:p><a:t>Score: &lt;&lt;MY_SCORE_TAG&gt;&gt;</a:t></a:p>
            </p:txBody>
        "#;
    let template = make_zip(&[("ppt/slides/slide1.xml", xml_content.as_bytes())]);

    let row = row(&[
        ("Nom du client", "ACME & Sons"),
        ("Org ID", "123"),
        ("JJ/MM/AAAA", "01/01/2026"),
        ("ScoreVal", "100"),
    ]);
    let mappings = vec![
        ("ScoreVal".to_string(), "<<MY_SCORE_TAG>>".to_string()),
        ("JJ/MM/AAAA".to_string(), "<<[JJ/MM/AAAA]>>".to_string()),
    ];

    let result = process_single_pptx("test_template.pptx", &template, &row, &mappings);
    assert!(result.is_ok(), "Process failed: {:?}", result.as_ref().err());
    let out = result.unwrap();
    assert_eq!(out.folder, "ACME & Sons_123", "Subfolder not created: {:?}", out.folder);
    assert_eq!(
        out.file_name, "01-01-2026_123_ACME & Sons_previous_quarter.pptx",
        "Output PPTX not created: {:?}",
        out.file_name
    );

    let mut found_slide = false;
    for (name, content) in read_zip(&out.archive) {
        if name == "ppt/slides/slide1.xml" {
            found_slide = true;
            let content = text(&content);
            assert!(
                content.contains("Hello ACME &amp; Sons"),
                "Client Name not replaced or not escaped"
            );
            assert!(content.contains("Date: 01/01/2026"), "Date not replaced");
            assert!(content.contains("Score: 100"), "Mapped Score not replaced");
            assert!(!content.contains("&lt;&lt;Nom du client&gt;&gt;"), "Tag still present");
            assert!(!content.contains("&lt;&lt;MY_SCORE_TAG&gt;&gt;"), "Tag still present");
        }
    }
    assert!(found_slide, "Slide check failed");
}

#[test]
fn escaped_placeholder_round_trip() {
    let template = make_zip(&[("ppt/slide.xml", b"<a:t>&lt;&lt;X&gt;&gt;</a:t>")]);
    let out = rewrite_archive(&template, &row(&[("X", "A & B")]), &vec![]).unwrap();
    let entries = read_zip(&out);
    let content = text(&entries[0].1);
    assert!(content.contains("A &amp; B"));
    assert!(!content.contains("&lt;&lt;X&gt;&gt;"));
    assert_eq!(content, "<a:t>A &amp; B</a:t>");
}

#[test]
fn untouched_entries_are_copied_byte_for_byte() {
    let binary: &[u8] = &[0, 159, 146, 150, 255];
    let template = make_zip(&[
        ("ppt/media/image.png", binary),
        ("ppt/slide.xml", b"<a:t>no tags</a:t>"),
        ("notes.txt", b"<<X>>"),
    ]);
    let out = rewrite_archive(&template, &row(&[("X", "1")]), &vec![]).unwrap();
    let entries = read_zip(&out);
    assert_eq!(entries.len(), 3);
    assert_eq!(entries[0], ("ppt/media/image.png".to_string(), binary.to_vec()));
    assert_eq!(entries[1].1, b"<a:t>no tags</a:t>".to_vec());
    assert_eq!(entries[2].1, b"<<X>>".to_vec());
}

#[test]
fn unreadable_template_is_an_error() {
    assert!(rewrite_archive(b"not an archive", &row(&[]), &vec![]).is_err());
    assert!(process_single_pptx("a.pptx", b"", &row(&[]), &vec![]).is_err());
}

#[test]
fn placeholders_in_all_four_spellings() {
    let r = row(&[("Name", "Zoe <3")]);
    let (out, changed) = substitute_placeholders(
        b"<<Name>>|&lt;&lt;Name&gt;&gt;|<<NAME>>|&lt;&lt;NAME&gt;&gt;|<<name>>",
        &r,
        &vec![],
    );
    assert!(changed);
    assert_eq!(text(&out), "Zoe &lt;3|Zoe &lt;3|Zoe &lt;3|Zoe &lt;3|<<name>>");
}

#[test]
fn uppercase_spelling_uses_unicode_uppercase() {
    let r = row(&[("prénom", "x")]);
    let (out, changed) = substitute_placeholders(b"<<PR\xc3\x89NOM>>", &r, &vec![]);
    assert!(changed);
    assert_eq!(text(&out), "x");
}

#[test]
fn explicit_mapping_needs_the_column() {
    let r = row(&[("Score", "9")]);
    let mappings = vec![
        ("Score".to_string(), "{score}".to_string()),
        ("Missing".to_string(), "{missing}".to_string()),
        ("Score".to_string(), "<tag>".to_string()),
    ];
    let (out, changed) = substitute_placeholders(b"{score} {missing} &lt;tag&gt;", &r, &mappings);
    assert!(changed);
    assert_eq!(text(&out), "9 {missing} 9");
}

#[test]
fn nothing_to_replace_reports_no_change() {
    let (out, changed) = substitute_placeholders(b"plain", &row(&[("A", "b")]), &vec![]);
    assert!(!changed);
    assert_eq!(out, b"plain".to_vec());
}

#[test]
fn value_that_equals_its_tag_still_counts_as_change() {
    let (out, changed) = substitute_placeholders(b"<<A>>", &row(&[("A", "x")]), &vec![]);
    assert!(changed);
    assert_eq!(out, b"x".to_vec());
}

#[test]
fn unsafe_characters_are_removed_from_names() {
    assert_eq!(sanitize_file_part("a\\b/c*d?e:f\"g<h>i|j"), "abcdefghij");
    assert_eq!(sanitize_file_part("ACME & Sons"), "ACME & Sons");
    assert_eq!(dash_slashes("01/02/2026"), "01-02-2026");
    assert_eq!(dash_slashes("no slash"), "no slash");
}

#[test]
fn output_location_defaults() {
    let (folder, file) = output_location(&row(&[]), "deck_PreviousYear.pptx");
    assert_eq!(folder, "Unknown_000");
    assert_eq!(file, "00-00-0000_000_Unknown_previous_year.pptx");
    let (folder, file) = output_location(&row(&[("Nom du client", "A/B")]), "deck.pptx");
    assert_eq!(folder, "AB_000");
    assert_eq!(file, "00-00-0000_000_AB_previous_quarter.pptx");
}

#[test]
fn invalid_utf8_in_markup_is_decoded_lossily() {
    let template = make_zip(&[("ppt/slide.xml", b"\xff<<A>>")]);
    let out = rewrite_archive(&template, &row(&[("A", "x")]), &vec![]).unwrap();
    let entries = read_zip(&out);
    assert_eq!(entries[0].1, "\u{FFFD}x".as_bytes().to_vec());
}

#[test]
fn compression_and_mode_are_kept() {
    let mut zip = zip::ZipWriter::new(Cursor::new(Vec::new()));
    let options = zip::write::SimpleFileOptions::default()
        .compression_method(zip::CompressionMethod::Stored)
        .unix_permissions(0o600);
    zip.start_file("a.xml", options).unwrap();
    zip.write_all(b"<<A>>").unwrap();
    let template = zip.finish().unwrap().into_inner();
    let out = rewrite_archive(&template, &row(&[("A", "1")]), &vec![]).unwrap();
    let mut archive = zip::ZipArchive::new(Cursor::new(out)).unwrap();
    let f = archive.by_index(0).unwrap();
    assert_eq!(f.compression(), zip::CompressionMethod::Stored);
    assert_eq!(f.unix_mode().map(|m| m & 0o777), Some(0o600));
}

#[test]
fn substitution_with_given_uppercase_names() {
    let r = row(&[("ab", "1")]);
    let (out, changed) =
        substitute_with_uppercase(b"<<XY>> <<AB>>", &r, &vec!["XY".to_string()], &vec![]);
    assert!(changed);
    assert_eq!(text(&out), "1 <<AB>>");
}

#[test]
fn rewrite_entries_one_by_one() {
    let entries = vec![
        ArchiveEntry { name: "a.xml".to_string(), method: 8, unix_mode: None, content: b"<<K>>".to_vec() },
        ArchiveEntry { name: "b.bin".to_string(), method: 0, unix_mode: Some(0o600), content: b"<<K>>".to_vec() },
    ];
    let out = rewrite_entries(&entries, &row(&[("K", "v&")]), &vec![]);
    assert_eq!(out.len(), 2);
    assert_eq!(out[0].content, b"v&amp;".to_vec());
    assert_eq!(out[0].mode, 0o644);
    assert_eq!(out[0].method, 8);
    assert_eq!(out[1].content, b"<<K>>".to_vec());
    assert_eq!(out[1].mode, 0o600);
}
