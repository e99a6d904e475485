use xlsx_unlock::filter::{strip_tag, StripError, Stripper};
use xlsx_unlock::xml_source::TokenKind;

fn strip(doc: &str, tag: &str) -> Result<String, StripError> {
    strip_tag(doc.as_bytes(), tag.as_bytes()).map(|v| String::from_utf8(v).unwrap())
}

#[test]
fn subtree_is_removed() {
    let out = strip("<a><sheetProtection><x/></sheetProtection><b/></a>", "sheetProtection");
    assert_eq!(out, Ok("<a><b/></a>".to_string()));
}

#[test]
fn empty_element_is_removed() {
    let out = strip(
        "<a><sheetProtection sheet=\"1\" objects=\"1\"/><b/></a>",
        "sheetProtection",
    );
    assert_eq!(out, Ok("<a><b/></a>".to_string()));
}

#[test]
fn stripping_twice_equals_once() {
    let doc = "<w><p/><sheetProtection a=\"1\"><q>t</q></sheetProtection>x<sheetProtection/><r/></w>";
    let once = strip(doc, "sheetProtection").unwrap();
    assert_eq!(once, "<w><p/>x<r/></w>");
    let twice = strip(&once, "sheetProtection").unwrap();
    assert_eq!(twice, once);
}

#[test]
fn nested_same_name_is_removed_with_outer() {
    let out = strip("<a><t><t>1</t><u/></t>2<t/></a>", "t");
    assert_eq!(out, Ok("<a>2</a>".to_string()));
}

#[test]
fn other_markup_kept_byte_for_byte() {
    let doc = "<?xml version=\"1.0\" encoding=\"UTF-8\" standalone=\"yes\"?>\r\n<a  x='1'   y=\"2\"><!-- note --><b>t &amp; u</b ><![CDATA[<z>]]><c></c>\n</a>";
    assert_eq!(strip(doc, "zzz"), Ok(doc.to_string()));
}

#[test]
fn prefixed_name_matches_local_name() {
    let out = strip("<x:a xmlns:x=\"u\"><x:workbookProtection v=\"1\"/><x:b/></x:a>", "workbookProtection");
    assert_eq!(out, Ok("<x:a xmlns:x=\"u\"><x:b/></x:a>".to_string()));
}

#[test]
fn text_only_document_is_copied() {
    assert_eq!(strip("", "t"), Ok(String::new()));
    assert_eq!(strip("<a/>", "t"), Ok("<a/>".to_string()));
}

#[test]
fn mismatched_close_is_rejected() {
    assert!(strip("<a><b></a>", "b").is_err());
    assert!(strip("<a><sheetProtection></a>", "sheetProtection").is_err());
}

#[test]
fn stray_close_is_rejected() {
    assert!(strip("</a>", "a").is_err());
}

#[test]
fn unclosed_element_is_rejected() {
    assert!(strip("<a><b/>", "b").is_err());
}

#[test]
fn unterminated_tag_is_syntax_error() {
    let r = strip("<a><b", "b");
    assert!(matches!(r, Err(StripError::Syntax { .. })));
}

#[test]
fn stripper_drops_marked_events() {
    let mut st = Stripper::new(b"t");
    st.feed(TokenKind::Open, b"a", b"<a>");
    st.feed(TokenKind::Empty, b"t", b"<t/>");
    st.feed(TokenKind::Open, b"t", b"<t x='1'>");
    st.feed(TokenKind::Other, b"", b"hidden");
    st.feed(TokenKind::Open, b"u", b"<u>");
    assert_eq!(st.open_elements(), 3);
    st.feed(TokenKind::Close, b"u", b"</u>");
    st.feed(TokenKind::Close, b"t", b"</t>");
    st.feed(TokenKind::Other, b"", b" kept ");
    st.feed(TokenKind::Empty, b"tt", b"<tt/>");
    st.feed(TokenKind::Close, b"a", b"</a>");
    assert_eq!(st.open_elements(), 0);
    assert_eq!(st.into_output(), b"<a> kept <tt/></a>".to_vec());
}

#[test]
fn stripper_without_events_is_empty() {
    let st = Stripper::new(b"sheetProtection");
    assert_eq!(st.open_elements(), 0);
    assert!(st.into_output().is_empty());
}

#[test]
fn byte_order_mark_part_copied_whole() {
    let doc = "\u{feff}<?xml version=\"1.0\"?><a><b>text</b></a>";
    assert_eq!(strip(doc, "zzz"), Ok(doc.to_string()));
}

#[test]
fn byte_order_mark_kept_when_element_removed() {
    let doc = "\u{feff}<a><sheetProtection sheet=\"1\"/><b/></a>";
    assert_eq!(strip(doc, "sheetProtection"), Ok("\u{feff}<a><b/></a>".to_string()));
}

#[test]
fn unclosed_element_reports_end_offset() {
    assert_eq!(strip("<a><b/>", "b"), Err(StripError::Unclosed { offset: 7 }));
}
