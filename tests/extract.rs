use ranked_search::document::Extractor;
use ranked_search::extract::{docx_text, extractor_for, is_docx_content_part, read_pdf_file};

#[test]
fn extractor_is_chosen_by_extension() {
    assert_eq!(extractor_for("pdf"), Extractor::Pdf);
    assert_eq!(extractor_for("docx"), Extractor::Docx);
    assert_eq!(extractor_for("txt"), Extractor::PlainText);
    assert_eq!(extractor_for("PDF"), Extractor::PlainText);
    assert_eq!(extractor_for(""), Extractor::PlainText);
}

#[test]
fn pdf_yields_no_content() {
    assert_eq!(read_pdf_file("report.pdf"), None);
}

#[test]
fn content_parts_are_xml_under_word() {
    assert!(is_docx_content_part("word/document.xml"));
    assert!(is_docx_content_part("word/footer1.xml"));
    assert!(!is_docx_content_part("word/media/image1.png"));
    assert!(!is_docx_content_part("docProps/core.xml"));
    assert!(!is_docx_content_part("word/_rels/document.xml.rels"));
}

#[test]
fn docx_text_gathers_t_elements() {
    let part = [
        "<w:document xmlns:w=\"http://schemas.openxmlformats.org/wordprocessingml/2006/main\">",
        "<w:body><w:p><w:r><w:t>Hello</w:t></w:r><w:r><w:t>World</w:t></w:r></w:p>",
        "<w:p><w:pPr/><w:r><w:tab/><w:t>again</w:t></w:r></w:p></w:body></w:document>",
    ]
    .concat();
    let footer = "<ftr><t>page</t><x>skipped</x></ftr>";
    let parts = vec![part, footer.to_string()];
    assert_eq!(docx_text(&parts), Some("Hello\nWorld\nagain\npage\n".to_string()));
}

#[test]
fn docx_text_of_no_parts_is_empty() {
    assert_eq!(docx_text(&Vec::new()), Some(String::new()));
}

#[test]
fn docx_part_that_does_not_parse_yields_nothing() {
    let parts = vec!["<w><t>ok</t></w>".to_string(), "<w><t>broken</w>".to_string()];
    assert_eq!(docx_text(&parts), None);
}
