use rust_pdf::document::{Document, DocumentBuilder, DocumentError};
use rust_pdf::info::{DocumentInfo, DocumentInfoBuilder};
use rust_pdf::object::PdfReal;
use rust_pdf::page::PageBuilder;
use rust_pdf::version::PdfVersion;

#[test]
fn test_document_builder() {
    let page = PageBuilder::a4().build();
    let doc = DocumentBuilder::new()
        .version(PdfVersion::V1_7)
        .title("Test Document")
        .author("Test Author")
        .page(page)
        .build()
        .unwrap();
    assert_eq!(doc.version, PdfVersion::V1_7);
    assert_eq!(doc.page_count(), 1);
}

#[test]
fn test_document_no_pages_error() {
    let result = DocumentBuilder::new().build();
    assert!(result.is_err());
}

#[test]
fn no_pages_error_is_no_pages() {
    assert!(matches!(DocumentBuilder::new().title("x").build(), Err(DocumentError::NoPages)));
}

#[test]
fn saved_document_has_header_and_eof() {
    let page = PageBuilder::a4().build();
    let doc = DocumentBuilder::new().page(page).build().unwrap();
    let mut bytes = Vec::new();
    doc.write_to(&mut bytes);
    let content = String::from_utf8_lossy(&bytes);
    assert!(content.starts_with("%PDF-1.7"));
    assert!(content.ends_with("%%EOF\n"));
}

fn find_last(hay: &[u8], needle: &[u8]) -> usize {
    (0..=hay.len() - needle.len()).rev().find(|&i| &hay[i..i + needle.len()] == needle).unwrap()
}

fn xref_offsets(bytes: &[u8]) -> (usize, Vec<usize>) {
    let sx = find_last(bytes, b"startxref\n");
    let rest = String::from_utf8(bytes[sx + 10..].to_vec()).unwrap();
    let at: usize = rest[..rest.find('\n').unwrap()].parse().unwrap();
    let table = String::from_utf8(bytes[at..].to_vec()).unwrap();
    let mut lines = table.lines();
    assert_eq!(lines.next(), Some("xref"));
    let head = lines.next().unwrap();
    let size: usize = head.split(' ').nth(1).unwrap().parse().unwrap();
    let _free = lines.next();
    let mut offs = Vec::new();
    for _ in 1..size {
        let l = lines.next().unwrap();
        offs.push(l[..10].parse().unwrap());
    }
    (at, offs)
}

#[test]
fn every_xref_entry_points_at_its_object() {
    let page1 = PageBuilder::a4().font("F1", "Helvetica").content(b"BT /F1 12 Tf (Hi) Tj ET").build();
    let page2 = PageBuilder::letter().font("F1", "Courier").font("F2", "Times-Roman").build();
    let doc = DocumentBuilder::new().title("T").page(page1).page(page2).build().unwrap();
    let mut bytes = Vec::new();
    doc.write_to(&mut bytes);
    let (at, offs) = xref_offsets(&bytes);
    assert_eq!(&bytes[at..at + 5], b"xref\n");
    // catalog, pages, 2 + 1 objects for page 1, 2 + 2 for page 2, info
    assert_eq!(offs.len(), 10);
    for (k, off) in offs.iter().enumerate() {
        let header = format!("{} 0 obj\n", k + 1);
        assert!(bytes[*off..].starts_with(header.as_bytes()), "object {}", k + 1);
    }
    let text = String::from_utf8_lossy(&bytes);
    assert!(text.contains("/Root 1 0 R"));
    assert!(text.contains("/Info 10 0 R"));
    assert!(text.contains("/Kids [3 0 R 6 0 R] /Count 2"));
    assert!(text.contains("/MediaBox [0 0 595 842]"));
    assert!(text.contains("/Resources << /Font << /F1 5 0 R >> >>"));
    assert!(text.contains("<< /Type /Font /Subtype /Type1 /BaseFont /Courier >>"));
}

#[test]
fn document_without_metadata_has_no_info_entry() {
    let mut doc = Document::new();
    doc.add_page(PageBuilder::new(PdfReal::from_micros(100_000_000), PdfReal::from_micros(200_000_000)).build());
    assert_eq!(doc.page_count(), 1);
    let mut bytes = Vec::new();
    doc.write_to(&mut bytes);
    let text = String::from_utf8_lossy(&bytes);
    assert!(!text.contains("/Info"));
    assert!(text.contains("/MediaBox [0 0 100 200]"));
}

#[test]
fn test_document_info_builder() {
    let info = DocumentInfoBuilder::new().title("Test Document").author("Test Author").build();
    assert_eq!(info.title, Some("Test Document".to_string()));
    assert_eq!(info.author, Some("Test Author".to_string()));
}

#[test]
fn test_to_dictionary() {
    let info = DocumentInfo::new().title("My PDF").author("John Doe");
    let dict = info.to_dictionary();
    assert!(dict.contains_key("Title"));
    assert!(dict.contains_key("Author"));
    assert!(!dict.contains_key("Subject"));
}

#[test]
fn test_is_empty() {
    let info = DocumentInfo::new();
    assert!(info.is_empty());
    let info_with_title = DocumentInfo::new().title("Test");
    assert!(!info_with_title.is_empty());
}

#[test]
fn test_fluent_interface() {
    let info = DocumentInfo::new()
        .title("Title")
        .author("Author")
        .subject("Subject")
        .keywords("key1, key2")
        .creator("Creator App")
        .producer("rust-pdf");
    assert!(info.title.is_some());
    assert!(info.producer.is_some());
}

#[test]
fn test_version_string() {
    assert_eq!(PdfVersion::V1_7.as_str(), "1.7");
    assert_eq!(PdfVersion::V2_0.as_str(), "2.0");
}

#[test]
fn test_version_ordering() {
    assert!(PdfVersion::V1_7 > PdfVersion::V1_4);
    assert!(PdfVersion::V2_0 > PdfVersion::V1_7);
}

#[test]
fn test_version_supports() {
    assert!(PdfVersion::V1_7.supports(PdfVersion::V1_4));
    assert!(!PdfVersion::V1_4.supports(PdfVersion::V1_7));
}

#[test]
fn test_default() {
    assert_eq!(PdfVersion::default(), PdfVersion::V1_7);
}

#[test]
fn test_try_from() {
    assert_eq!(PdfVersion::try_from("1.7"), Ok(PdfVersion::V1_7));
    assert!(PdfVersion::try_from("3.0").is_err());
}

#[test]
fn info_dictionary_is_empty_exactly_when_info_is() {
    let empty = DocumentInfo::new();
    assert!(empty.is_empty());
    assert!(empty.to_dictionary().is_empty());
    let titled = DocumentInfo::new().title("T");
    assert!(!titled.is_empty());
    let d = titled.to_dictionary();
    assert_eq!(d.len(), 1);
    assert!(d.get("Title").is_some());
    assert!(d.get("Author").is_none());
}
