use rust_pdf::flatten::normal_appearance_of;
use rust_pdf::graph::{EditableDocument, EditorError, LoadedFile};
use rust_pdf::object::{Object, ObjectId, PdfArray, PdfDictionary, PdfName, PdfReal, PdfStream};
use rust_pdf::util::rect_from_object;
use rust_pdf::version::PdfVersion;

fn name(s: &str) -> Object {
    Object::Name(PdfName::new_unchecked(s))
}

fn pts(x: i64) -> PdfReal {
    PdfReal::from_micros(x * 1_000_000)
}

fn reference(n: u32) -> Object {
    Object::Reference(ObjectId::new(n))
}

/// Catalog 1, page tree 2, page 3 with the given resources, content 4.
fn one_page(resources: Object, content: &[u8]) -> EditableDocument {
    let mut objects: Vec<(ObjectId, Object)> = Vec::new();
    let mut catalog = PdfDictionary::new();
    catalog.set("Type", name("Catalog"));
    catalog.set("Pages", reference(2));
    objects.push((ObjectId::new(1), Object::Dictionary(catalog)));
    let mut kids = PdfArray::new();
    kids.push(reference(3));
    let mut pages = PdfDictionary::new();
    pages.set("Type", name("Pages"));
    pages.set("Kids", Object::Array(kids));
    pages.set("Count", Object::Integer(1));
    objects.push((ObjectId::new(2), Object::Dictionary(pages)));
    let mut page = PdfDictionary::new();
    page.set("Type", name("Page"));
    page.set("Parent", reference(2));
    page.set("Resources", resources);
    page.set("Contents", reference(4));
    objects.push((ObjectId::new(3), Object::Dictionary(page)));
    objects.push((ObjectId::new(4), Object::Stream(PdfStream::with_dictionary(PdfDictionary::new(), content.to_vec()))));
    let file = LoadedFile {
        data: b"%PDF-1.7\n".to_vec(),
        version: PdfVersion::V1_7,
        objects,
        root: ObjectId::new(1),
        info: None,
        id: None,
        startxref: Some(9),
    };
    EditableDocument::from_loaded(file).unwrap()
}

fn plain_page() -> EditableDocument {
    one_page(Object::Dictionary(PdfDictionary::new()), b"q Q")
}

fn real_at(dict: &PdfDictionary, key: &str) -> Vec<i64> {
    let Some(Object::Array(a)) = dict.get(key) else { panic!("expected array") };
    a.items
        .iter()
        .map(|o| match o {
            Object::Real(r) => r.micros,
            _ => panic!("expected real"),
        })
        .collect()
}

#[test]
fn ink_annotation_bounds_points_and_lists_strokes() {
    let mut doc = plain_page();
    let strokes = vec![vec![(pts(10), pts(20)), (pts(30), pts(5))], vec![], vec![(pts(15), pts(40))]];
    let id = doc.add_ink_annotation(0, &strokes, &[pts(1), pts(0), pts(0)], pts(2), b"0 0 1 RG").unwrap();
    assert_eq!(id, ObjectId::new(5));
    let dict = doc.get_dictionary(id).unwrap();
    assert!(matches!(dict.get("Subtype"), Some(Object::Name(n)) if n.as_str() == "Ink"));
    // Bounding box (10, 5)-(30, 40), padded by half the width 2.
    assert_eq!(real_at(&dict, "Rect"), vec![9_000_000, 4_000_000, 31_000_000, 41_000_000]);
    let Some(Object::Array(list)) = dict.get("InkList") else { panic!("expected InkList") };
    assert_eq!(list.items.len(), 2);
    let Object::Array(first) = &list.items[0] else { panic!("expected stroke") };
    let xs: Vec<i64> = first.items.iter().map(|o| if let Object::Real(r) = o { r.micros } else { 0 }).collect();
    assert_eq!(xs, vec![10_000_000, 20_000_000, 30_000_000, 5_000_000]);
    assert_eq!(real_at(&dict, "C"), vec![1_000_000, 0, 0]);
    let Some(Object::Dictionary(bs)) = dict.get("BS") else { panic!("expected BS") };
    assert_eq!(bs.get("W"), Some(&Object::Real(pts(2))));
    assert_eq!(dict.get("F"), Some(&Object::Integer(4)));
    let page = doc.get_dictionary(ObjectId::new(3)).unwrap();
    let Some(Object::Array(annots)) = page.get("Annots") else { panic!("expected Annots") };
    assert_eq!(annots.items, vec![reference(5)]);
    let Some(Object::Dictionary(ap)) = dict.get("AP") else { panic!("expected AP") };
    let Some(Object::Reference(ap_id)) = ap.get("N") else { panic!("expected AP/N") };
    let Some(Object::Stream(s)) = doc.get_object(*ap_id) else { panic!("expected stream") };
    assert_eq!(s.data, b"0 0 1 RG".to_vec());
}

#[test]
fn single_point_ink_is_padded_by_half_its_width() {
    let mut doc = plain_page();
    let strokes = vec![vec![(pts(10), pts(10))]];
    let id = doc.add_ink_annotation(0, &strokes, &[], PdfReal::from_micros(100_000), b"").unwrap();
    let dict = doc.get_dictionary(id).unwrap();
    assert_eq!(real_at(&dict, "Rect"), vec![9_950_000, 9_950_000, 10_050_000, 10_050_000]);
}

#[test]
fn test_add_ink_annotation_computes_bbox() {
    let mut doc = plain_page();
    let strokes = vec![vec![(pts(100), pts(100)), (pts(120), pts(140)), (pts(150), pts(110))]];
    let blue = [pts(0), pts(0), pts(1)];
    let id = doc.add_ink_annotation(0, &strokes, &blue, pts(2), b"").unwrap();
    let dict = doc.get_dictionary(id).unwrap();
    let rect = dict.get("Rect").and_then(rect_from_object).unwrap();
    assert!(rect.llx.micros <= 100_000_000 && rect.urx.micros >= 150_000_000);
    assert!(rect.lly.micros <= 100_000_000 && rect.ury.micros >= 140_000_000);
    assert!(matches!(dict.get("InkList"), Some(Object::Array(a)) if a.len() == 1));
}

#[test]
fn test_ink_annotation_rejects_all_empty_strokes() {
    let mut doc = plain_page();
    let black = [pts(0)];
    assert!(doc.add_ink_annotation(0, &[vec![], vec![]], &black, pts(1), b"").is_err());
}

#[test]
fn ink_without_points_is_refused() {
    let mut doc = plain_page();
    let strokes: Vec<Vec<(PdfReal, PdfReal)>> = vec![vec![], vec![]];
    assert_eq!(doc.add_ink_annotation(0, &strokes, &[], pts(1), b""), Err(EditorError::EmptyInkStrokes));
    assert!(doc.get_dictionary(ObjectId::new(3)).unwrap().get("Annots").is_none());
}

#[test]
fn ink_on_missing_page_errors() {
    let mut doc = plain_page();
    let strokes = vec![vec![(pts(1), pts(1))]];
    assert!(doc.add_ink_annotation(4, &strokes, &[], pts(1), b"").is_err());
}

/// Adds a widget (id 6) whose normal appearance is the stream 5.
fn add_widget(doc: &mut EditableDocument) -> (ObjectId, ObjectId) {
    let ap_id = doc.allocate_id();
    doc.set_object(ap_id, Object::Stream(PdfStream::new(b"0 g".to_vec())));
    let widget_id = doc.allocate_id();
    let mut ap = PdfDictionary::new();
    ap.set("N", Object::Reference(ap_id));
    let mut widget = PdfDictionary::new();
    widget.set("Subtype", name("Widget"));
    widget.set("AP", Object::Dictionary(ap));
    doc.set_object(widget_id, Object::Dictionary(widget));
    (widget_id, ap_id)
}

fn paint() -> [PdfReal; 6] {
    [pts(1), pts(0), pts(0), pts(1), pts(10), PdfReal::from_micros(20_500_000)]
}

#[test]
fn normal_appearance_is_read_from_ap_n() {
    let mut ap = PdfDictionary::new();
    ap.set("N", reference(9));
    let mut widget = PdfDictionary::new();
    widget.set("AP", Object::Dictionary(ap));
    assert_eq!(normal_appearance_of(&widget), Some(ObjectId::new(9)));
    assert_eq!(normal_appearance_of(&PdfDictionary::new()), None);
}

#[test]
fn flattening_paints_the_appearance_on_the_page() {
    let mut doc = plain_page();
    let (widget_id, ap_id) = add_widget(&mut doc);
    doc.flatten_widget_onto(widget_id, ObjectId::new(3), paint()).unwrap();
    let page = doc.get_dictionary(ObjectId::new(3)).unwrap();
    let Some(Object::Dictionary(res)) = page.get("Resources") else { panic!("expected resources") };
    let Some(Object::Dictionary(xo)) = res.get("XObject") else { panic!("expected XObject") };
    assert_eq!(xo.get("FlatForm"), Some(&Object::Reference(ap_id)));
    let bytes = doc.page_content_bytes(ObjectId::new(3)).unwrap();
    assert_eq!(bytes, b"q Q\nq\n1 0 0 1 10 20.5 cm\n/FlatForm Do\nQ\n".to_vec());
}

#[test]
fn flattening_picks_a_free_xobject_name() {
    let mut xo = PdfDictionary::new();
    xo.set("FlatForm", reference(40));
    let mut res = PdfDictionary::new();
    res.set("XObject", Object::Dictionary(xo));
    let mut doc = one_page(Object::Dictionary(res), b"q Q\n");
    let (widget_id, ap_id) = add_widget(&mut doc);
    doc.flatten_widget_onto(widget_id, ObjectId::new(3), paint()).unwrap();
    let page = doc.get_dictionary(ObjectId::new(3)).unwrap();
    let Some(Object::Dictionary(res)) = page.get("Resources") else { panic!("expected resources") };
    let Some(Object::Dictionary(xo)) = res.get("XObject") else { panic!("expected XObject") };
    assert_eq!(xo.get("FlatForm"), Some(&reference(40)));
    assert_eq!(xo.get("FlatForm1"), Some(&Object::Reference(ap_id)));
    let bytes = doc.page_content_bytes(ObjectId::new(3)).unwrap();
    assert_eq!(bytes, b"q Q\nq\n1 0 0 1 10 20.5 cm\n/FlatForm1 Do\nQ\n".to_vec());
}

#[test]
fn widget_without_appearance_is_left_alone() {
    let mut doc = plain_page();
    let widget_id = doc.allocate_id();
    let mut widget = PdfDictionary::new();
    widget.set("Subtype", name("Widget"));
    doc.set_object(widget_id, Object::Dictionary(widget));
    doc.flatten_widget_onto(widget_id, ObjectId::new(3), paint()).unwrap();
    assert_eq!(doc.page_content_bytes(ObjectId::new(3)).unwrap(), b"q Q".to_vec());
    let page = doc.get_dictionary(ObjectId::new(3)).unwrap();
    let Some(Object::Dictionary(res)) = page.get("Resources") else { panic!("expected resources") };
    assert!(res.get("XObject").is_none());
}

#[test]
fn flattening_a_missing_widget_errors() {
    let mut doc = plain_page();
    assert!(doc.flatten_widget_onto(ObjectId::new(77), ObjectId::new(3), paint()).is_err());
}
