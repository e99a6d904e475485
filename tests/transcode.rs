use xlsx_unlock::filter::StripError;
use xlsx_unlock::rules::{default_rules, rule, select_rule};
use xlsx_unlock::transcode::{rewrite_entry, transcode, transcode_entry, Entry, EntryError, TranscodeError};

fn entry(name: &str, content: &[u8]) -> Entry {
    Entry { name: name.to_string(), content: Some(content.to_vec()) }
}

#[test]
fn default_rules_select_parts() {
    let rules = default_rules();
    assert_eq!(select_rule(&rules, "xl/worksheets/sheet1.xml"), Some(0));
    assert_eq!(select_rule(&rules, "xl/worksheets/sheet12.xml"), Some(0));
    assert_eq!(select_rule(&rules, "xl/workbook.xml"), Some(1));
    assert_eq!(select_rule(&rules, "xl/workbook.xml.rels"), Some(1));
    assert_eq!(select_rule(&rules, "xl/sharedStrings.xml"), None);
    assert_eq!(select_rule(&rules, "XL/workbook.xml"), None);
    assert_eq!(select_rule(&rules, "xl/worksheets/_rels/sheet1.xml.rels"), None);
}

#[test]
fn first_matching_rule_wins() {
    let rules = vec![rule("xl/", "first"), rule("xl/worksheets/", "second")];
    assert_eq!(select_rule(&rules, "xl/worksheets/sheet1.xml"), Some(0));
    let out = transcode_entry(&rules, "xl/worksheets/sheet1.xml", b"<a><second/><first/></a>");
    assert_eq!(out, Ok(b"<a><second/></a>".to_vec()));
}

#[test]
fn unselected_entry_bytes_kept() {
    let rules = default_rules();
    let raw: Vec<u8> = vec![0xff, 0x00, b'<', 0xfe, b'x'];
    assert_eq!(transcode_entry(&rules, "xl/media/image1.png", &raw), Ok(raw.clone()));
    let xml = b"<sst><sheetProtection/></sst>";
    assert_eq!(transcode_entry(&rules, "xl/sharedStrings.xml", xml), Ok(xml.to_vec()));
}

#[test]
fn rules_target_their_parts() {
    let rules = default_rules();
    let entries = vec![
        entry("[Content_Types].xml", b"<Types/>"),
        entry("xl/worksheets/sheet1.xml", b"<worksheet><sheetData/><sheetProtection sheet=\"1\"/></worksheet>"),
        entry("xl/workbook.xml", b"<workbook><workbookProtection lockStructure=\"1\"/><sheets/></workbook>"),
        entry("xl/sharedStrings.xml", b"<sst><si><t>sheetProtection</t></si></sst>"),
    ];
    let parts = transcode(&entries, &rules).ok().unwrap();
    assert_eq!(parts.len(), 4);
    let names: Vec<&str> = parts.iter().map(|p| p.name.as_str()).collect();
    assert_eq!(
        names,
        vec!["[Content_Types].xml", "xl/worksheets/sheet1.xml", "xl/workbook.xml", "xl/sharedStrings.xml"]
    );
    assert_eq!(parts[0].content, b"<Types/>".to_vec());
    assert_eq!(parts[1].content, b"<worksheet><sheetData/></worksheet>".to_vec());
    assert_eq!(parts[2].content, b"<workbook><sheets/></workbook>".to_vec());
    assert_eq!(parts[3].content, b"<sst><si><t>sheetProtection</t></si></sst>".to_vec());
}

#[test]
fn unreadable_entry_is_left_out() {
    let rules = default_rules();
    let entries = vec![
        entry("a.bin", b"1"),
        Entry { name: "b.bin".to_string(), content: None },
        entry("xl/", b""),
        entry("c.bin", b"3"),
    ];
    let parts = transcode(&entries, &rules).ok().unwrap();
    let names: Vec<&str> = parts.iter().map(|p| p.name.as_str()).collect();
    assert_eq!(names, vec!["a.bin", "xl/", "c.bin"]);
    assert_eq!(parts[1].content, Vec::<u8>::new());
    assert_eq!(parts[2].content, b"3".to_vec());
}

#[test]
fn empty_package_gives_empty_package() {
    let parts = transcode(&Vec::new(), &default_rules()).ok().unwrap();
    assert!(parts.is_empty());
}

#[test]
fn invalid_utf8_in_selected_part_fails_run() {
    let rules = default_rules();
    let entries = vec![
        entry("docProps/app.xml", &[0xff, 0xfe]),
        entry("xl/worksheets/sheet1.xml", &[b'<', b'a', 0xff, b'/', b'>']),
        entry("xl/workbook.xml", b"<workbook/>"),
    ];
    let r = transcode(&entries, &rules);
    assert_eq!(r.err(), Some(TranscodeError { index: 1, error: EntryError::InvalidEncoding }));
}

#[test]
fn malformed_xml_in_selected_part_fails_run() {
    let rules = default_rules();
    let entries = vec![
        entry("xl/workbook.xml", b"<workbook><sheets></workbook>"),
        entry("xl/sharedStrings.xml", b"<sst/>"),
    ];
    let r = transcode(&entries, &rules);
    match r {
        Err(TranscodeError { index: 0, error: EntryError::Xml(_) }) => {}
        _ => panic!("expected an XML error on the first entry"),
    }
}

#[test]
fn malformed_xml_in_unselected_part_is_copied() {
    let rules = default_rules();
    let out = transcode_entry(&rules, "xl/styles.xml", b"<a><b></a>");
    assert_eq!(out, Ok(b"<a><b></a>".to_vec()));
}

#[test]
fn syntax_error_reports_offset_of_markup() {
    let rules = default_rules();
    let out = transcode_entry(&rules, "xl/worksheets/sheet2.xml", b"<a></a><b");
    assert_eq!(out, Err(EntryError::Xml(StripError::Syntax { offset: 7 })));
}

#[test]
fn rewrite_entry_skips_unreadable() {
    let rules = default_rules();
    let e = Entry { name: "xl/worksheets/sheet1.xml".to_string(), content: None };
    assert!(matches!(rewrite_entry(&rules, &e), Ok(None)));
}

#[test]
fn rewrite_entry_keeps_name_and_rewrites() {
    let rules = default_rules();
    let e = entry("xl/worksheets/sheet3.xml", b"<ws><sheetProtection/><c>1</c></ws>");
    let part = rewrite_entry(&rules, &e).ok().unwrap().unwrap();
    assert_eq!(part.name, "xl/worksheets/sheet3.xml");
    assert_eq!(part.content, b"<ws><c>1</c></ws>".to_vec());
}

#[test]
fn rewrite_entry_reports_bad_encoding() {
    let rules = default_rules();
    let e = entry("xl/workbook.xml", &[0xc3, 0x28]);
    assert!(matches!(rewrite_entry(&rules, &e), Err(EntryError::InvalidEncoding)));
}

#[test]
fn byte_order_mark_worksheet_rewritten_in_place() {
    let rules = default_rules();
    let mut content = vec![0xef, 0xbb, 0xbf];
    content.extend_from_slice(b"<worksheet><sheetProtection/><sheetData/></worksheet>");
    let mut expected = vec![0xef, 0xbb, 0xbf];
    expected.extend_from_slice(b"<worksheet><sheetData/></worksheet>");
    assert_eq!(transcode_entry(&rules, "xl/worksheets/sheet1.xml", &content), Ok(expected));
}
