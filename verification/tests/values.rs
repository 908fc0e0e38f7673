use docx_template::{join, DocxPartType, JoinedStr, Replacement, Value};

#[test]
fn test_join() {
    let words: Vec<String> = vec!["a".to_string(), "b".to_string(), "c".to_string()];
    assert_eq!(join(&words, ", "), "a, b, c");
    let numbers: Vec<String> = vec![1.to_string(), 2.to_string(), 3.to_string()];
    assert_eq!(join(&numbers, ", "), "1, 2, 3");
}

#[test]
fn join_of_nothing_is_empty() {
    let none: Vec<String> = Vec::new();
    assert_eq!(join(&none, ", "), "");
}

#[test]
fn text_value_escapes_and_breaks_lines() {
    let v = Value::from_text("a<b\nc&d");
    assert_eq!(v.bytes(), b"a&lt;b</w:t><w:br/><w:t>c&amp;d");
}

#[test]
fn text_value_full_escape_set() {
    let v = Value::from_text("<>&'\"\r");
    assert_eq!(v.bytes(), "&lt;&gt;&amp;&apos;&quot;&#13;".as_bytes());
}

#[test]
fn text_value_strips_carriage_return_before_line_feed() {
    let v = Value::from_text("a\r\nb");
    assert_eq!(v.bytes(), b"a</w:t><w:br/><w:t>b");
}

#[test]
fn text_value_ignores_terminal_line_feed() {
    let v = Value::from_text("a\n");
    assert_eq!(v.bytes(), b"a");
    let empty = Value::from_text("");
    assert_eq!(empty.bytes(), b"");
}

#[test]
fn xml_value_is_verbatim() {
    let v = Value::from_xml("<w:br/>");
    assert_eq!(v.bytes(), b"<w:br/>");
}

#[test]
fn replacement_from_text_keeps_terminal_break() {
    let r = Replacement::from_text("a\n");
    match r {
        Replacement::Xml(bytes) => assert_eq!(bytes, b"a</w:t><w:br/><w:t>".to_vec()),
    }
}

#[test]
fn replacement_from_xml_is_verbatim() {
    let r = Replacement::from_xml("<w:br/>");
    match r {
        Replacement::Xml(bytes) => assert_eq!(bytes, b"<w:br/>".to_vec()),
    }
}

#[test]
fn classifies_parts_by_path() {
    assert_eq!(DocxPartType::from_path(b"word/document.xml"), DocxPartType::Main);
    assert_eq!(DocxPartType::from_path(b"word/comments.xml"), DocxPartType::Comments);
    assert_eq!(DocxPartType::from_path(b"word/header1.xml"), DocxPartType::Header);
    assert_eq!(DocxPartType::from_path(b"word/footer12.xml"), DocxPartType::Footer);
    assert_eq!(DocxPartType::from_path(b"word/media/image1.png"), DocxPartType::Unknown);
    assert_eq!(DocxPartType::from_path(b"word/headerless.png"), DocxPartType::Unknown);
    assert_eq!(DocxPartType::comments(), "word/comments.xml");
}

#[test]
fn joined_str_holds_its_parts() {
    let _ = JoinedStr::new("<", "middle", ">");
}

#[test]
fn test_run_prefix_and_suffix_have_not_changed_when_bumping_docs_rs_version() {
    let v = Value::from_xml("<w:br w:type=\"page\" />");
    assert_eq!(v.bytes(), "<w:br w:type=\"page\" />".as_bytes());
}
