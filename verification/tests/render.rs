use std::io::{Cursor, Read, Write};

use docx_template::{DocxFile, DocxTemplate, Placeholders, Replacements};

fn sample_docx(doc_xml: &str) -> Vec<u8> {
    let mut w = zip::ZipWriter::new(Cursor::new(Vec::new()));
    let doc_opts = zip::write::SimpleFileOptions::default()
        .compression_method(zip::CompressionMethod::Deflated)
        .unix_permissions(0o640);
    w.start_file("word/document.xml", doc_opts).unwrap();
    w.write_all(doc_xml.as_bytes()).unwrap();
    let img_opts = zip::write::SimpleFileOptions::default()
        .compression_method(zip::CompressionMethod::Stored)
        .unix_permissions(0o600);
    w.start_file("word/media/image1.bin", img_opts).unwrap();
    w.write_all(b"IMAGEBYTES").unwrap();
    w.finish().unwrap().into_inner()
}

fn entry_summary(bytes: &[u8]) -> Vec<(String, u16, Option<(u16, u16)>, Option<u32>, Vec<u8>)> {
    let mut archive = zip::ZipArchive::new(Cursor::new(bytes.to_vec())).unwrap();
    let mut out = Vec::new();
    for i in 0..archive.len() {
        let mut f = archive.by_index(i).unwrap();
        let mut content = Vec::new();
        f.read_to_end(&mut content).unwrap();
        #[allow(deprecated)]
        let method = f.compression().to_u16();
        let time = f.last_modified().map(|d| (d.datepart(), d.timepart()));
        out.push((f.name().to_string(), method, time, f.unix_mode(), content));
    }
    out
}

#[test]
fn render_replaces_placeholder_in_document() {
    let input = sample_docx("<w:p><w:r><w:t>Dear {name},</w:t></w:r></w:p>");
    let file = DocxFile::from_bytes(input).unwrap();
    let placeholders = Placeholders::try_from_iter(vec![b"{name}".to_vec()]).unwrap();
    let replacements = Replacements::from_iter(vec!["Ada"]);
    let mut template = DocxTemplate::new(file, placeholders, replacements);
    let output = template.render().unwrap();
    let entries = entry_summary(&output);
    assert_eq!(entries.len(), 2);
    assert_eq!(entries[0].0, "word/document.xml");
    assert_eq!(
        entries[0].4,
        b"<w:p><w:r><w:t>Dear Ada,</w:t></w:r></w:p>".to_vec()
    );
    assert_eq!(entries[1].0, "word/media/image1.bin");
    assert_eq!(entries[1].4, b"IMAGEBYTES".to_vec());
}

#[test]
fn untransformed_entries_keep_their_metadata() {
    let input = sample_docx("<w:p><w:r><w:t>{k}</w:t></w:r></w:p>");
    let before = entry_summary(&input);
    let file = DocxFile::from_bytes(input).unwrap();
    let placeholders = Placeholders::try_from_iter(vec![b"{k}".to_vec()]).unwrap();
    let replacements = Replacements::from_iter(vec!["v"]);
    let mut template = DocxTemplate::new(file, placeholders, replacements);
    let output = template.render().unwrap();
    let after = entry_summary(&output);
    // the image entry is not selected for transformation: raw-copied verbatim
    assert_eq!(before[1], after[1]);
    // the transformed entry keeps method, time and permission bits too
    assert_eq!(before[0].1, after[0].1);
    assert_eq!(before[0].2, after[0].2);
    assert_eq!(before[0].3, after[0].3);
}

#[test]
fn render_without_replacements_copies_everything() {
    let input = sample_docx("<w:p><w:r><w:t>{untouched}</w:t></w:r></w:p>");
    let before = entry_summary(&input);
    let file = DocxFile::from_bytes(input.clone()).unwrap();
    let placeholders = Placeholders::default();
    let mut template = DocxTemplate::new_with_placeholders(file, placeholders);
    let output = template.render().unwrap();
    assert_eq!(entry_summary(&output), before);
}

#[test]
fn replace_inner_file_swaps_content() {
    let input = sample_docx("<w:p><w:r><w:t>doc</w:t></w:r></w:p>");
    let file = DocxFile::from_bytes(input).unwrap();
    let placeholders = Placeholders::default();
    let mut template = DocxTemplate::new_with_placeholders(file, placeholders);
    template.replace_inner_file("word/media/image1.bin", b"NEWIMAGE");
    let output = template.render().unwrap();
    let entries = entry_summary(&output);
    assert_eq!(entries[0].4, b"<w:p><w:r><w:t>doc</w:t></w:r></w:p>".to_vec());
    assert_eq!(entries[1].4, b"NEWIMAGE".to_vec());
    // the latest registration for a path wins
    let input2 = sample_docx("<w:p><w:r><w:t>doc</w:t></w:r></w:p>");
    let file2 = DocxFile::from_bytes(input2).unwrap();
    let mut template2 = DocxTemplate::new_with_placeholders(file2, Placeholders::default());
    template2.replace_inner_file("word/media/image1.bin", b"FIRST");
    template2.replace_inner_file("word/media/image1.bin", b"SECOND");
    let output2 = template2.render().unwrap();
    assert_eq!(entry_summary(&output2)[1].4, b"SECOND".to_vec());
}

#[test]
fn malformed_document_part_fails_the_render() {
    let input = sample_docx("<w:p><w:r><w:t>never closed");
    let file = DocxFile::from_bytes(input).unwrap();
    let placeholders = Placeholders::try_from_iter(vec![b"{k}".to_vec()]).unwrap();
    let replacements = Replacements::from_iter(vec!["v"]);
    let mut template = DocxTemplate::new(file, placeholders, replacements);
    assert!(template.render().is_err());
}

#[test]
fn garbage_bytes_are_not_an_archive() {
    assert!(DocxFile::from_bytes(b"this is not a zip archive".to_vec()).is_err());
}

#[test]
fn remove_commented_block_is_inert() {
    let input = sample_docx("<w:p><w:r><w:t>doc</w:t></w:r></w:p>");
    let before = entry_summary(&input);
    let file = DocxFile::from_bytes(input).unwrap();
    let mut template = DocxTemplate::new_with_placeholders(file, Placeholders::default());
    template.remove_commented_block("{image1}");
    let output = template.render().unwrap();
    assert_eq!(entry_summary(&output), before);
}
