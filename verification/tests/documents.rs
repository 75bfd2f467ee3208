//! PDF and DOCX attachments as Markdown.
use std::io::{Cursor, Write};
use turbovault::document_extract::{
    docx_heading_level, extract_docx_markdown, first_value, markdown_from_docx_xml, markdown_from_events,
    markdown_from_pages, markdown_from_pdf_pages, normalize_extracted_text,
    XmlEvent, XmlTag,
};
use zip::write::SimpleFileOptions;

fn package(name: &str, content: &[u8]) -> Vec<u8> {
    let mut writer = zip::ZipWriter::new(Cursor::new(Vec::new()));
    writer.start_file(name, SimpleFileOptions::default()).unwrap();
    writer.write_all(content).unwrap();
    writer.finish().unwrap().into_inner()
}

#[test]
fn docx_headings_and_paragraphs_become_markdown() {
    let xml = r#"<?xml version="1.0" encoding="UTF-8" standalone="yes"?>
<w:document xmlns:w="http://schemas.openxmlformats.org/wordprocessingml/2006/main">
  <w:body>
    <w:p><w:pPr><w:pStyle w:val="Heading1"/></w:pPr><w:r><w:t>Overview</w:t></w:r></w:p>
    <w:p><w:r><w:t>First &amp; second</w:t><w:tab/><w:t>column</w:t></w:r></w:p>
    <w:p><w:pPr><w:pStyle w:val="Heading 2"/></w:pPr><w:r><w:t>Details</w:t></w:r></w:p>
  </w:body>
</w:document>"#;
    let bytes = package("word/document.xml", xml.as_bytes());

    let markdown = extract_docx_markdown(&bytes).unwrap();
    assert_eq!(markdown, "# Overview\n\nFirst & second\tcolumn\n\n## Details");
}

fn minimal_text_pdf() -> Vec<u8> {
    let stream = b"BT /F1 12 Tf 72 720 Td (Hello PDF attachment) Tj ET";
    let objects = [
        "<< /Type /Catalog /Pages 2 0 R >>".to_string(),
        "<< /Type /Pages /Kids [3 0 R] /Count 1 >>".to_string(),
        "<< /Type /Page /Parent 2 0 R /MediaBox [0 0 612 792] /Resources << /Font << /F1 4 0 R >> >> /Contents 5 0 R >>".to_string(),
        "<< /Type /Font /Subtype /Type1 /BaseFont /Helvetica >>".to_string(),
        format!(
            "<< /Length {} >>\nstream\n{}\nendstream",
            stream.len(),
            String::from_utf8_lossy(stream)
        ),
    ];
    let mut pdf = b"%PDF-1.4\n".to_vec();
    let mut offsets = Vec::new();
    for (index, object) in objects.iter().enumerate() {
        offsets.push(pdf.len());
        pdf.extend_from_slice(format!("{} 0 obj\n{object}\nendobj\n", index + 1).as_bytes());
    }
    let xref = pdf.len();
    pdf.extend_from_slice(format!("xref\n0 {}\n", objects.len() + 1).as_bytes());
    pdf.extend_from_slice(b"0000000000 65535 f \n");
    for offset in offsets {
        pdf.extend_from_slice(format!("{offset:010} 00000 n \n").as_bytes());
    }
    pdf.extend_from_slice(
        format!(
            "trailer\n<< /Size {} /Root 1 0 R >>\nstartxref\n{xref}\n%%EOF\n",
            objects.len() + 1
        )
        .as_bytes(),
    );
    pdf
}

fn extract_pdf_markdown(bytes: &[u8]) -> Result<String, String> {
    let pages = pdf_extract::extract_text_from_mem_by_pages(bytes);
    markdown_from_pdf_pages(pages.map_err(|error| error.to_string()))
}

#[test]
fn text_layer_pdf_becomes_page_markdown() {
    let markdown = extract_pdf_markdown(&minimal_text_pdf()).unwrap();
    assert!(markdown.starts_with("# Page 1"));
    assert!(markdown.contains("Hello PDF attachment"));
}

#[test]
fn scanned_or_empty_pdf_is_reported_as_unextractable() {
    assert!(extract_pdf_markdown(b"not a pdf").is_err());
}

#[test]
fn recognizes_only_supported_word_heading_levels() {
    assert_eq!(docx_heading_level("Heading1"), Some(1));
    assert_eq!(docx_heading_level("heading 6"), Some(6));
    assert_eq!(docx_heading_level("Heading7"), None);
    assert_eq!(docx_heading_level("Title"), None);
}

#[test]
fn heading_levels_are_read_in_any_spelling() {
    assert_eq!(docx_heading_level("HEADING - 3"), Some(3));
    assert_eq!(docx_heading_level("Heading+2"), Some(2));
    assert_eq!(docx_heading_level("Heading0"), None);
    assert_eq!(docx_heading_level("Heading"), None);
    assert_eq!(docx_heading_level("Heading1a"), None);
}

#[test]
fn pages_without_text_keep_their_number() {
    let pages = vec!["one  \r\n two\r\n".to_string(), " \n".to_string(), "three".to_string()];
    let markdown = markdown_from_pages(&pages).unwrap();
    assert_eq!(markdown, "# Page 1\n\none\n two\n\n# Page 3\n\nthree");
}

#[test]
fn pages_without_any_text_are_an_error() {
    let message = "PDF has no extractable text layer; OCR is required for scanned pages";
    assert_eq!(markdown_from_pages(&Vec::new()), Err(message.to_string()));
    assert_eq!(markdown_from_pages(&vec!["\n".to_string()]), Err(message.to_string()));
    assert_eq!(
        markdown_from_pdf_pages(Err("bad header".to_string())),
        Err("PDF text extraction failed: bad header".to_string())
    );
}

#[test]
fn extracted_text_loses_trailing_space_and_foreign_line_ends() {
    assert_eq!(normalize_extracted_text("\r a \r\n\tb\t\r\r c \n"), "a\n\tb\n\n c");
    assert_eq!(normalize_extracted_text(""), "");
}

#[test]
fn each_way_to_fail_has_its_own_message() {
    assert_eq!(
        extract_docx_markdown(b"no archive"),
        Err("invalid DOCX ZIP container".to_string())
    );
    assert_eq!(
        extract_docx_markdown(&package("other.xml", b"<a/>")),
        Err("DOCX has no word/document.xml".to_string())
    );
    assert_eq!(
        extract_docx_markdown(&package("word/document.xml", &[0xff, 0xfe])),
        Err("DOCX document.xml is not UTF-8 XML".to_string())
    );
    assert_eq!(
        extract_docx_markdown(&package("word/document.xml", b"<a><b></a>")),
        Err("malformed DOCX document.xml".to_string())
    );
    assert_eq!(
        extract_docx_markdown(&package("word/document.xml", b"<w:p><w:t> </w:t></w:p>")),
        Err("DOCX has no extractable paragraph text".to_string())
    );
}

#[test]
fn text_counts_only_inside_a_run_of_a_paragraph() {
    let xml = "<d>outside<p>loose<t> a&lt;b&gt;&quot;&apos;&unknown; </t><br/><t>c</t></p><t>x</t></d>";
    assert_eq!(markdown_from_docx_xml(xml), Ok("a<b>\"' \nc".to_string()));
}

#[test]
fn events_stand_for_the_document() {
    let tag = |name: &str, attributes: &str| XmlTag {
        name: name.to_string(),
        attributes: attributes.to_string(),
    };
    let style = " bare w:other='Heading1' w:val=' heading3 ' x:val=\"heading4\"";
    let events = vec![
        XmlEvent::Other,
        XmlEvent::Start(tag("p", "")),
        XmlEvent::Empty(tag("pStyle", style)),
        XmlEvent::Start(tag("t", "")),
        XmlEvent::Text("deep".to_string()),
        XmlEvent::Reference("amp".to_string()),
        XmlEvent::End("t".to_string()),
        XmlEvent::Text("dropped".to_string()),
        XmlEvent::End("p".to_string()),
    ];
    assert_eq!(markdown_from_events(&events), Ok("### deep&".to_string()));
    let broken = vec![XmlEvent::End("p".to_string()), XmlEvent::Malformed];
    assert_eq!(markdown_from_events(&broken), Err("malformed DOCX document.xml".to_string()));
}

#[test]
fn the_first_readable_attribute_counts() {
    let pair = |name: &str, value: &str| Some((name.to_string(), value.to_string()));
    let all = vec![None, pair("a", " 1 "), pair("b", "2"), pair("a", "3")];
    assert_eq!(first_value(&all, "a").as_deref(), Some("1"));
    assert_eq!(first_value(&all, "c"), None);
}
