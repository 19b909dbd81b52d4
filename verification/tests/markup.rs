use rust_pdf::annotations::AnnotationKind;
use rust_pdf::graph::{EditableDocument, EditorError, LoadedFile};
use rust_pdf::object::{Object, ObjectId, PdfArray, PdfDictionary, PdfName, PdfReal, PdfStream};
use rust_pdf::types::Rectangle;
use rust_pdf::version::PdfVersion;

fn name(s: &str) -> Object {
    Object::Name(PdfName::new_unchecked(s))
}

fn pts(x: i64) -> PdfReal {
    PdfReal::from_micros(x * 1_000_000)
}

fn reference(n: u32) -> Object {
    Object::Reference(ObjectId::new(n))
}

fn doc_with_one_page() -> EditableDocument {
    let mut objects: Vec<(ObjectId, Object)> = Vec::new();
    let mut catalog = PdfDictionary::new();
    catalog.set("Type", name("Catalog"));
    catalog.set("Pages", reference(2));
    objects.push((ObjectId::new(1), Object::Dictionary(catalog)));
    let mut pages = PdfDictionary::new();
    pages.set("Type", name("Pages"));
    pages.set("Kids", Object::Array(PdfArray::from_objects(vec![reference(3)])));
    pages.set("Count", Object::Integer(1));
    objects.push((ObjectId::new(2), Object::Dictionary(pages)));
    let mut page = PdfDictionary::new();
    page.set("Type", name("Page"));
    page.set("Parent", reference(2));
    page.set("Contents", reference(4));
    objects.push((ObjectId::new(3), Object::Dictionary(page)));
    let text = b"BT /F1 12 Tf 72 750 Td (Hello annotated World) Tj ET".to_vec();
    objects.push((ObjectId::new(4), Object::Stream(PdfStream::with_dictionary(PdfDictionary::new(), text))));
    let file = LoadedFile {
        data: b"%PDF-1.7\n".to_vec(),
        version: PdfVersion::V1_7,
        objects,
        root: ObjectId::new(1),
        info: None,
        id: None,
        startxref: Some(9),
    };
    EditableDocument::from_loaded(file).unwrap()
}

fn quad() -> (PdfReal, PdfReal, PdfReal, PdfReal) {
    (pts(72), pts(745), pts(200), pts(760))
}

fn appearance(doc: &EditableDocument, id: ObjectId) -> PdfStream {
    let dict = doc.get_dictionary(id).unwrap();
    let Some(Object::Dictionary(ap)) = dict.get("AP") else { panic!("expected AP") };
    let Some(Object::Reference(ap_id)) = ap.get("N") else { panic!("expected AP/N ref") };
    let Some(Object::Stream(stream)) = doc.get_object(*ap_id) else { panic!("expected stream") };
    stream
}

#[test]
fn test_add_highlight_annotation() {
    let mut doc = doc_with_one_page();
    let yellow = [pts(1), pts(1), pts(0)];
    let id = doc.add_highlight_annotation(0, &[quad()], &yellow, b"q /GS1 gs 1 1 0 rg 0 0 128 15 re f Q").unwrap();
    let annots = doc.list_annotations(0).unwrap();
    assert_eq!(annots.len(), 1);
    assert_eq!(annots[0].id, id);
    assert_eq!(annots[0].kind, AnnotationKind::Highlight);
    let dict = doc.get_dictionary(id).unwrap();
    assert!(matches!(dict.get("QuadPoints"), Some(Object::Array(a)) if a.len() == 8));
    assert!(dict.get("AP").is_some());
}

#[test]
fn test_add_underline_and_strikeout() {
    let mut doc = doc_with_one_page();
    doc.add_underline_annotation(0, &[quad()], &[pts(0)], b"").unwrap();
    doc.add_strikeout_annotation(0, &[quad()], &[pts(1), pts(0), pts(0)], b"").unwrap();
    let annots = doc.list_annotations(0).unwrap();
    assert_eq!(annots.len(), 2);
    assert_eq!(annots[0].kind, AnnotationKind::Underline);
    assert_eq!(annots[1].kind, AnnotationKind::StrikeOut);
}

#[test]
fn test_text_markup_rejects_empty_quads() {
    let mut doc = doc_with_one_page();
    assert!(doc.add_highlight_annotation(0, &[], &[pts(0)], b"").is_err());
}

#[test]
fn empty_quads_error_and_leave_the_page_alone() {
    let mut doc = doc_with_one_page();
    assert_eq!(doc.add_strikeout_annotation(0, &[], &[], b""), Err(EditorError::EmptyQuadPoints));
    assert!(doc.list_annotations(0).unwrap().is_empty());
}

#[test]
fn markup_rect_bounds_all_quads_and_lists_their_points() {
    let mut doc = doc_with_one_page();
    let quads = [(pts(10), pts(20), pts(30), pts(25)), (pts(5), pts(40), pts(12), pts(50))];
    let id = doc.add_underline_annotation(0, &quads, &[pts(0)], b"0 G").unwrap();
    let dict = doc.get_dictionary(id).unwrap();
    assert_eq!(dict.get("Rect"), Some(&Object::Array(PdfArray::from_objects(vec![
        Object::Real(pts(5)),
        Object::Real(pts(20)),
        Object::Real(pts(30)),
        Object::Real(pts(50)),
    ]))));
    let Some(Object::Array(qp)) = dict.get("QuadPoints") else { panic!("expected QuadPoints") };
    let got: Vec<i64> = qp.items.iter().map(|o| if let Object::Real(r) = o { r.micros / 1_000_000 } else { -1 }).collect();
    assert_eq!(got, vec![10, 25, 30, 25, 10, 20, 30, 20, 5, 50, 12, 50, 5, 40, 12, 40]);
    assert_eq!(dict.get("F"), Some(&Object::Integer(4)));
    let stream = appearance(&doc, id);
    assert_eq!(stream.data, b"0 G".to_vec());
    assert!(matches!(stream.dictionary.get("Resources"), Some(Object::Dictionary(r)) if r.get("ExtGState").is_none()));
}

#[test]
fn highlight_appearance_declares_its_graphics_state() {
    let mut doc = doc_with_one_page();
    let id = doc.add_highlight_annotation(0, &[quad()], &[pts(1), pts(1), pts(0)], b"/GS1 gs").unwrap();
    let stream = appearance(&doc, id);
    let Some(Object::Dictionary(res)) = stream.dictionary.get("Resources") else { panic!("expected resources") };
    assert!(res.get("Font").is_some());
    let Some(Object::Dictionary(states)) = res.get("ExtGState") else { panic!("expected ExtGState") };
    let Some(Object::Dictionary(gs1)) = states.get("GS1") else { panic!("expected GS1") };
    assert_eq!(gs1.get("ca"), Some(&Object::Real(PdfReal::from_micros(400_000))));
    assert_eq!(gs1.get("BM"), Some(&name("Multiply")));
}

#[test]
fn test_add_freetext_annotation_and_edit_contents() {
    let mut doc = doc_with_one_page();
    let rect = Rectangle::new(pts(100), pts(100), pts(300), pts(150));
    let id = doc.add_freetext_annotation(0, rect, "Original note", "0 g 12 Tf", b"BT (Original note) Tj ET").unwrap();
    let annots = doc.list_annotations(0).unwrap();
    assert_eq!(annots[0].contents.as_deref(), Some("Original note"));

    doc.edit_annotation_contents(id, "Edited note", b"BT (Edited note) Tj ET").unwrap();
    let annots = doc.list_annotations(0).unwrap();
    assert_eq!(annots[0].contents.as_deref(), Some("Edited note"));

    let content = String::from_utf8_lossy(&appearance(&doc, id).data).into_owned();
    assert!(content.contains("Edited note"), "appearance was: {content}");
    let dict = doc.get_dictionary(id).unwrap();
    assert!(matches!(dict.get("DA"), Some(Object::String(s)) if s.as_bytes() == b"0 g 12 Tf"));
}
