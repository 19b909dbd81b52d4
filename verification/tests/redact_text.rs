use rust_pdf::graph::{EditableDocument, EditorError, LoadedFile};
use rust_pdf::object::{Object, ObjectId, PdfArray, PdfDictionary, PdfName, PdfStream};
use rust_pdf::text_extract::parse_tounicode_cmap;
use rust_pdf::text_redact::build_tounicode_cmap;
use rust_pdf::version::PdfVersion;

fn name(s: &str) -> Object {
    Object::Name(PdfName::new_unchecked(s))
}

fn reference(n: u32) -> Object {
    Object::Reference(ObjectId::new(n))
}

/// Catalog 1, page tree 2, page 3 naming font 5 as `/F1`, content 4,
/// font 5 (with `/ToUnicode` 6 when `cmap` is given).
fn doc(content: &[u8], cmap: Option<Vec<u8>>) -> EditableDocument {
    let mut objects: Vec<(ObjectId, Object)> = Vec::new();
    let mut catalog = PdfDictionary::new();
    catalog.set("Type", name("Catalog"));
    catalog.set("Pages", reference(2));
    objects.push((ObjectId::new(1), Object::Dictionary(catalog)));
    let mut kids = PdfArray::new();
    kids.push(reference(3));
    let mut pages = PdfDictionary::new();
    pages.set("Type", name("Pages"));
    pages.set("Kids", Object::Array(kids));
    pages.set("Count", Object::Integer(1));
    objects.push((ObjectId::new(2), Object::Dictionary(pages)));
    let mut fonts = PdfDictionary::new();
    fonts.set("F1", reference(5));
    let mut resources = PdfDictionary::new();
    resources.set("Font", Object::Dictionary(fonts));
    let mut page = PdfDictionary::new();
    page.set("Type", name("Page"));
    page.set("Parent", reference(2));
    page.set("Resources", Object::Dictionary(resources));
    page.set("Contents", reference(4));
    objects.push((ObjectId::new(3), Object::Dictionary(page)));
    objects.push((ObjectId::new(4), Object::Stream(PdfStream::with_dictionary(PdfDictionary::new(), content.to_vec()))));
    let mut font = PdfDictionary::new();
    font.set("Type", name("Font"));
    font.set("Subtype", name("Type1"));
    font.set("BaseFont", name("Helvetica"));
    if cmap.is_some() {
        font.set("ToUnicode", reference(6));
    }
    objects.push((ObjectId::new(5), Object::Dictionary(font)));
    if let Some(c) = cmap {
        objects.push((ObjectId::new(6), Object::Stream(PdfStream::with_dictionary(PdfDictionary::new(), c))));
    }
    let file = LoadedFile {
        data: b"%PDF-1.7\n".to_vec(),
        version: PdfVersion::V1_7,
        objects,
        root: ObjectId::new(1),
        info: None,
        id: None,
        startxref: Some(9),
    };
    EditableDocument::from_loaded(file).unwrap()
}

#[test]
fn redact_text_literal_removes_matched_bytes_only() {
    let mut d = doc(b"BT /F1 24 Tf 72 700 Td (Public Secret123 Public) Tj ET", None);
    let id = ObjectId::new(3);
    let entry = d.redact_text(0, "Secret123", "carol", "keyword sweep").unwrap();
    assert_eq!(entry.text_runs_removed, 1);
    assert_eq!(entry.area, None);
    let bytes = d.page_content_bytes(id).unwrap();
    let text = String::from_utf8_lossy(&bytes);
    assert!(!text.contains("Secret123"));
    assert!(text.contains("Public"));
}

fn abcd_cmap() -> Vec<u8> {
    build_tounicode_cmap(
        &vec![(0x41, "A".to_string()), (0x42, "B".to_string()), (0x43, "C".to_string()), (0x44, "D".to_string())],
        1,
    )
}

#[test]
fn built_cmap_reads_back() {
    let pairs = parse_tounicode_cmap(&abcd_cmap());
    let got: Vec<(u32, &str)> = pairs.iter().map(|(c, s)| (*c, s.as_str())).collect();
    assert_eq!(got, vec![(0x41, "A"), (0x42, "B"), (0x43, "C"), (0x44, "D")]);
}

#[test]
fn tounicode_entries_pruned_only_for_codes_no_longer_used() {
    let mut d = doc(b"BT /F1 24 Tf 72 700 Td (AB) Tj ET BT /F1 24 Tf 300 700 Td (CD) Tj ET", Some(abcd_cmap()));
    let before = d.extract_page_text(ObjectId::new(3)).unwrap();
    assert!(before.contains("AB") && before.contains("CD"));
    let entry = d.redact_text(0, "AB", "frank", "prune test").unwrap();
    assert_eq!(entry.text_runs_removed, 1);
    assert_eq!(entry.tounicode_entries_pruned, 2);
    let Some(Object::Stream(s)) = d.get_object(ObjectId::new(6)) else { panic!("ToUnicode not a stream") };
    let map: Vec<u32> = parse_tounicode_cmap(&s.data).iter().map(|(c, _)| *c).collect();
    assert_eq!(map, vec![0x43, 0x44]);
    let after = d.extract_page_text(ObjectId::new(3)).unwrap();
    assert!(!after.contains("AB"));
    assert!(after.contains("CD"));
}

#[test]
fn redaction_is_recorded_and_blocks_incremental_save() {
    let mut d = doc(b"BT /F1 12 Tf (x y) Tj ET", None);
    let entry = d.redact_text(0, "y", "dave", "test").unwrap();
    assert!(entry.timestamp.starts_with("D:"));
    assert_eq!(entry.page_index, Some(0));
    assert_eq!(d.audit_log().len(), 1);
    assert_eq!(d.audit_log()[0].actor, "dave");
    assert!(d.redaction_applied());
    assert!(d.save_incremental_to_bytes().is_err());
}

#[test]
fn nothing_matched_prunes_nothing_but_is_still_recorded() {
    let mut d = doc(b"BT /F1 12 Tf (AB) Tj ET", Some(abcd_cmap()));
    let entry = d.redact_text(0, "zzz", "erin", "none").unwrap();
    assert_eq!(entry.text_runs_removed, 0);
    assert_eq!(entry.tounicode_entries_pruned, 0);
    assert_eq!(d.audit_log().len(), 1);
}

#[test]
fn redacting_a_missing_page_errors() {
    let mut d = doc(b"", None);
    assert_eq!(
        d.redact_text(4, "x", "a", "b").err(),
        Some(EditorError::InvalidPageIndex { index: 4, count: 1 })
    );
}

#[test]
fn strip_document_metadata_clears_info_and_records_whole_document_entry() {
    let mut objects: Vec<(ObjectId, Object)> = Vec::new();
    let mut catalog = PdfDictionary::new();
    catalog.set("Type", name("Catalog"));
    catalog.set("Pages", reference(2));
    catalog.set("Metadata", reference(7));
    objects.push((ObjectId::new(1), Object::Dictionary(catalog)));
    let mut kids = PdfArray::new();
    kids.push(reference(3));
    let mut pages = PdfDictionary::new();
    pages.set("Type", name("Pages"));
    pages.set("Kids", Object::Array(kids));
    pages.set("Count", Object::Integer(1));
    objects.push((ObjectId::new(2), Object::Dictionary(pages)));
    let mut page = PdfDictionary::new();
    page.set("Type", name("Page"));
    page.set("Parent", reference(2));
    objects.push((ObjectId::new(3), Object::Dictionary(page)));
    let mut info = PdfDictionary::new();
    info.set("Title", Object::String(rust_pdf::object::PdfString::literal("Sensitive Title")));
    info.set("Author", Object::String(rust_pdf::object::PdfString::literal("Someone")));
    objects.push((ObjectId::new(6), Object::Dictionary(info)));
    objects.push((ObjectId::new(7), Object::Stream(PdfStream::with_dictionary(PdfDictionary::new(), b"<x:xmpmeta/>".to_vec()))));
    let file = LoadedFile {
        data: b"%PDF-1.7\n".to_vec(),
        version: PdfVersion::V1_7,
        objects,
        root: ObjectId::new(1),
        info: Some(ObjectId::new(6)),
        id: None,
        startxref: Some(9),
    };
    let mut doc = EditableDocument::from_loaded(file).unwrap();
    let entry = doc.strip_document_metadata("admin", "final sanitize pass").unwrap();
    assert_eq!(entry.page_index, None);
    assert_eq!(entry.area, None);
    assert!(doc.catalog().unwrap().get("Metadata").is_none());
    assert!(doc.get_dictionary(ObjectId::new(6)).unwrap().is_empty());

    let saved = doc.save_full_rewrite_to_bytes().unwrap();
    assert!(!String::from_utf8_lossy(&saved).contains("Sensitive Title"));
}
