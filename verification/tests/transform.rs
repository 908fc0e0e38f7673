use docx_template::{FindAndReplace, Placeholders, Replacements};

fn run(subs: &[(&str, &str)], input: &str) -> String {
    let patterns: Vec<Vec<u8>> = subs.iter().map(|(p, _)| p.as_bytes().to_vec()).collect();
    let placeholders = Placeholders::try_from_iter(patterns).expect("placeholder set must build");
    let values: Vec<&str> = subs.iter().map(|(_, s)| *s).collect();
    let replacements = Replacements::from_iter(values);
    let far = FindAndReplace { placeholders, replacements };
    let out = far.transform_stream(input.as_bytes(), Vec::new()).expect("well-formed input");
    String::from_utf8(out).expect("output should stay valid text")
}

#[test]
fn leaves_text_without_holes_alone() {
    assert_eq!(
        run(&[("{hole}", "[]")], "<w:p><w:r><w:t>just text</w:t></w:r></w:p>"),
        "<w:p><w:r><w:t>just text</w:t></w:r></w:p>",
    );
}

#[test]
fn modifies_placeholder() {
    assert_eq!(
        run(&[("{hole}", "[]")], "<w:p><w:r><w:t>{hole}</w:t></w:r></w:p>"),
        "<w:p><w:r><w:t>[]</w:t></w:r></w:p>",
    );
}

#[test]
fn is_simultaneous() {
    assert_eq!(
        run(
            &[("{hole}", "[]"), ("[]", "a bug")],
            "<w:p><w:r><w:t>{hole}</w:t></w:r></w:p>",
        ),
        "<w:p><w:r><w:t>[]</w:t></w:r></w:p>",
    );
}

#[test]
fn single_hole_with_prefix() {
    assert_eq!(
        run(&[("{hole}", "[]")], "<w:p><w:r><w:t>text{hole}</w:t></w:r></w:p>"),
        "<w:p><w:r><w:t>text[]</w:t></w:r></w:p>",
    );
}

#[test]
fn single_hole_with_suffix() {
    assert_eq!(
        run(&[("{hole}", "[]")], "<w:p><w:r><w:t>{hole}text</w:t></w:r></w:p>"),
        "<w:p><w:r><w:t>[]text</w:t></w:r></w:p>",
    );
}

#[test]
fn multiple_holes() {
    assert_eq!(
        run(&[("{hole}", "[]")], "<w:p><w:r><w:t>{hole}{hole}</w:t></w:r></w:p>"),
        "<w:p><w:r><w:t>[][]</w:t></w:r></w:p>",
    );
}

#[test]
fn multiple_holes_with_text_between() {
    assert_eq!(
        run(&[("{hole}", "[]")], "<w:p><w:r><w:t>{hole}text{hole}</w:t></w:r></w:p>"),
        "<w:p><w:r><w:t>[]text[]</w:t></w:r></w:p>",
    );
}

#[test]
fn comment_with_hole() {
    assert_eq!(
        run(
            &[("{hole}", "[]")],
            "<w:p><w:r><!-- something other than a <w:t> with a {hole} --></w:r></w:p>",
        ),
        "<w:p><w:r><!-- something other than a <w:t> with a {hole} --></w:r></w:p>",
    );
}

#[test]
fn split_placeholder_in_text_tags() {
    assert_eq!(
        run(
            &[("{hole}", "[]")],
            "<w:p>\n  <w:r>\n    <w:t>{</w:t>\n    <w:t>hole</w:t>\n    <w:t>}</w:t>\n  </w:r>\n</w:p>\n",
        ),
        "<w:p>\n  <w:r>\n    <w:t></w:t>\n    <w:t></w:t>\n    <w:t>[]</w:t>\n  </w:r>\n</w:p>\n",
    );
}

#[test]
fn split_placeholder() {
    assert_eq!(
        run(
            &[("{hole}", "[]")],
            "<w:p>\n  <w:r>\n    <w:t>text{</w:t>\n    <w:t>hole</w:t>\n    <w:t>}text</w:t>\n  </w:r>\n</w:p>\n",
        ),
        "<w:p>\n  <w:r>\n    <w:t>text</w:t>\n    <w:t></w:t>\n    <w:t>[]text</w:t>\n  </w:r>\n</w:p>\n",
    );
}

#[test]
fn split_placeholder_in_run_tags1() {
    assert_eq!(
        run(
            &[("{hole}", "[]")],
            "<w:p>\n  <w:r><w:t>{</w:t></w:r>\n  <w:r><w:t>hole</w:t></w:r>\n  <w:r><w:t>}</w:t></w:r>\n</w:p>\n",
        ),
        "<w:p>\n  <w:r><w:t></w:t></w:r>\n  <w:r><w:t></w:t></w:r>\n  <w:r><w:t>[]</w:t></w:r>\n</w:p>\n",
    );
}

#[test]
fn split_placeholder_in_run_tags2() {
    assert_eq!(
        run(
            &[("{hole}", "[]")],
            "<w:p>\n  <w:r><w:t>number</w:t></w:r>\n  <w:r><w:t>{</w:t></w:r>\n  <w:r><w:t>hole</w:t></w:r>\n  <w:r><w:t>}</w:t></w:r>\n</w:p>\n",
        ),
        "<w:p>\n  <w:r><w:t>number</w:t></w:r>\n  <w:r><w:t></w:t></w:r>\n  <w:r><w:t></w:t></w:r>\n  <w:r><w:t>[]</w:t></w:r>\n</w:p>\n",
    );
}

#[test]
fn split_placeholder_in_paragraph_texts() {
    assert_eq!(
        run(
            &[("{hole}", "[]")],
            "<w:p><w:r><w:t>{</w:t></w:r></w:p>\n<w:p><w:r><w:t>hole</w:t></w:r></w:p>\n<w:p><w:r><w:t>}</w:t></w:r></w:p>\n",
        ),
        "<w:p><w:r><w:t>{</w:t></w:r></w:p>\n<w:p><w:r><w:t>hole</w:t></w:r></w:p>\n<w:p><w:r><w:t>}</w:t></w:r></w:p>\n",
    );
}

#[test]
fn multiple_paragraphs() {
    assert_eq!(
        run(
            &[("{hole}", "[]")],
            "<w:p><w:r><w:t>a{hole}a</w:t></w:r></w:p>\n<w:p><w:r><w:t>a{hole}a</w:t></w:r></w:p>\n",
        ),
        "<w:p><w:r><w:t>a[]a</w:t></w:r></w:p>\n<w:p><w:r><w:t>a[]a</w:t></w:r></w:p>\n",
    );
}

#[test]
fn unclosed_text_element_is_an_error() {
    let placeholders = Placeholders::try_from_iter(vec![b"{hole}".to_vec()]).unwrap();
    let replacements = Replacements::from_iter(vec!["[]"]);
    let far = FindAndReplace { placeholders, replacements };
    let r = far.transform_stream(b"<w:p><w:r><w:t>never closed", Vec::new());
    assert!(r.is_err());
}

#[test]
fn mismatched_end_tag_is_an_error() {
    let placeholders = Placeholders::try_from_iter(vec![b"{hole}".to_vec()]).unwrap();
    let replacements = Replacements::from_iter(vec!["[]"]);
    let far = FindAndReplace { placeholders, replacements };
    let r = far.transform_stream(b"<w:p><w:r>text</w:x></w:p>", Vec::new());
    assert!(r.is_err());
}

#[test]
fn empty_placeholder_set_changes_nothing() {
    let placeholders = Placeholders::default();
    assert_eq!(placeholders.len(), 0);
    let replacements = Replacements::new();
    let far = FindAndReplace { placeholders, replacements };
    let input = b"<w:p><w:r><w:t>anything {at} all</w:t></w:r></w:p>";
    let out = far.transform_stream(input, Vec::new()).unwrap();
    assert_eq!(out, input.to_vec());
}

#[test]
fn output_appends_to_given_buffer() {
    let placeholders = Placeholders::try_from_iter(vec![b"{x}".to_vec()]).unwrap();
    let replacements = Replacements::from_iter(vec!["y"]);
    let far = FindAndReplace { placeholders, replacements };
    let out = far
        .transform_stream(b"<w:p><w:r><w:t>{x}</w:t></w:r></w:p>", b"head:".to_vec())
        .unwrap();
    assert_eq!(out, b"head:<w:p><w:r><w:t>y</w:t></w:r></w:p>".to_vec());
}

#[test]
fn rejects_empty_patterns() {
    assert!(Placeholders::try_from_iter(vec![b"".to_vec()]).is_none());
    assert!(Placeholders::try_from_iter(vec![b"a".to_vec(), b"".to_vec()]).is_none());
    assert!(Placeholders::try_from_iter(vec![b"a".to_vec()]).is_some());
}

#[test]
fn brackets_wrap_every_pattern() {
    let placeholders = Placeholders::try_from_iter_with_brackets(
        "{",
        "}",
        vec![b"name".to_vec()],
    )
    .unwrap();
    let replacements = Replacements::from_iter(vec!["Ada"]);
    let far = FindAndReplace { placeholders, replacements };
    let out = far
        .transform_stream(b"<w:p><w:r><w:t>{name}</w:t></w:r></w:p>", Vec::new())
        .unwrap();
    assert_eq!(out, b"<w:p><w:r><w:t>Ada</w:t></w:r></w:p>".to_vec());
}

#[test]
fn several_bracketed_placeholders_in_one_stream() {
    let placeholders = Placeholders::try_from_iter_with_brackets(
        "{",
        "}",
        vec![
            b"single".to_vec(),
            b"fragmented_placeholder".to_vec(),
            b"foo_bar".to_vec(),
            b"some_placeholder".to_vec(),
        ],
    )
    .unwrap();
    assert_eq!(placeholders.len(), 4);
    let replacements = Replacements::from_iter(vec!["[1]", "[2]", "[3]", "[4]"]);
    let far = FindAndReplace { placeholders, replacements };
    let input = "<w:p><w:r><w:t>{single}</w:t></w:r></w:p>\
                 <w:p><w:r><w:t>{fragmented_</w:t><w:t>placeholder}</w:t></w:r></w:p>\
                 <w:p><w:r><w:t>a {foo_bar} and {some_placeholder}.</w:t></w:r></w:p>";
    let out = far.transform_stream(input.as_bytes(), Vec::new()).unwrap();
    assert_eq!(
        String::from_utf8(out).unwrap(),
        "<w:p><w:r><w:t>[1]</w:t></w:r></w:p>\
         <w:p><w:r><w:t></w:t><w:t>[2]</w:t></w:r></w:p>\
         <w:p><w:r><w:t>a [3] and [4].</w:t></w:r></w:p>",
    );
}
