use rust_pdf::annotations::AnnotationKind;
use rust_pdf::forms::FieldKind;
use rust_pdf::graph::{EditableDocument, EditorError, LoadedFile};
use rust_pdf::object::{Object, ObjectId, PdfArray, PdfDictionary, PdfName, PdfReal, PdfStream, PdfString};
use rust_pdf::version::PdfVersion;
use rust_pdf::types::Rectangle;

fn name(s: &str) -> Object {
    Object::Name(PdfName::new_unchecked(s))
}

fn num(x: i64) -> Object {
    Object::Real(PdfReal::from_micros(x * 1_000_000))
}

fn reference(n: u32) -> Object {
    Object::Reference(ObjectId::new(n))
}

/// The objects of a document of `n` A4 pages, each with a content stream
/// showing "Page i": catalog 1, page tree 2, font 3, then page and
/// content pairs.
fn loaded_with_pages(n: u32) -> LoadedFile {
    let mut objects: Vec<(ObjectId, Object)> = Vec::new();
    let mut catalog = PdfDictionary::new();
    catalog.set("Type", name("Catalog"));
    catalog.set("Pages", reference(2));
    objects.push((ObjectId::new(1), Object::Dictionary(catalog)));
    let mut kids = PdfArray::new();
    for i in 0..n {
        kids.push(reference(4 + 2 * i));
    }
    let mut pages = PdfDictionary::new();
    pages.set("Type", name("Pages"));
    pages.set("Kids", Object::Array(kids));
    pages.set("Count", Object::Integer(n as i64));
    objects.push((ObjectId::new(2), Object::Dictionary(pages)));
    let mut font = PdfDictionary::new();
    font.set("Type", name("Font"));
    font.set("Subtype", name("Type1"));
    font.set("BaseFont", name("Helvetica"));
    objects.push((ObjectId::new(3), Object::Dictionary(font)));
    for i in 0..n {
        let mut page = PdfDictionary::new();
        page.set("Type", name("Page"));
        page.set("Parent", reference(2));
        page.set("MediaBox", Object::Array(PdfArray::from_objects(vec![num(0), num(0), num(595), num(842)])));
        let mut fonts = PdfDictionary::new();
        fonts.set("F1", reference(3));
        let mut resources = PdfDictionary::new();
        resources.set("Font", Object::Dictionary(fonts));
        page.set("Resources", Object::Dictionary(resources));
        page.set("Contents", reference(5 + 2 * i));
        objects.push((ObjectId::new(4 + 2 * i), Object::Dictionary(page)));
        let text = format!("BT /F1 12 Tf 72 750 Td (Page {i}) Tj ET");
        let mut d = PdfDictionary::new();
        d.set("Length", Object::Integer(text.len() as i64));
        objects.push((ObjectId::new(5 + 2 * i), Object::Stream(PdfStream::with_dictionary(d, text.into_bytes()))));
    }
    LoadedFile {
        data: b"%PDF-1.7\n% stand-in bytes of the loaded file\n".to_vec(),
        version: PdfVersion::V1_7,
        objects,
        root: ObjectId::new(1),
        info: None,
        id: None,
        startxref: Some(9),
    }
}

fn doc_with_pages(n: u32) -> EditableDocument {
    EditableDocument::from_loaded(loaded_with_pages(n)).unwrap()
}

fn text(s: &str) -> Object {
    Object::String(PdfString::literal(s))
}

fn rect(a: i64, b: i64, c: i64, d: i64) -> Object {
    Object::Array(PdfArray::from_objects(vec![num(a), num(b), num(c), num(d)]))
}

fn states(on: &str, on_id: ObjectId, off_id: ObjectId) -> Object {
    let mut n = PdfDictionary::new();
    n.set(on, Object::Reference(on_id));
    n.set("Off", Object::Reference(off_id));
    let mut ap = PdfDictionary::new();
    ap.set("N", Object::Dictionary(n));
    Object::Dictionary(ap)
}

fn widget(doc: &mut EditableDocument, page: ObjectId, on: Option<&str>) -> (ObjectId, PdfDictionary) {
    let id = doc.allocate_id();
    let mut d = PdfDictionary::new();
    d.set("Type", name("Annot"));
    d.set("Subtype", name("Widget"));
    d.set("P", Object::Reference(page));
    d.set("Rect", rect(100, 600, 120, 620));
    if let Some(on) = on {
        let on_id = doc.allocate_id();
        let off_id = doc.allocate_id();
        doc.set_object(on_id, Object::Stream(PdfStream::new(Vec::new())));
        doc.set_object(off_id, Object::Stream(PdfStream::new(Vec::new())));
        d.set("AP", states(on, on_id, off_id));
        d.set("AS", name("Off"));
    }
    (id, d)
}

/// A one-page document whose form has a text field `name`, a check box
/// `subscribe`, a radio group `plan` (`basic`, `pro`) and a combo box
/// `country`.
fn doc_with_form() -> EditableDocument {
    let mut doc = EditableDocument::from_loaded(loaded_with_pages(1)).unwrap();
    let page = doc.page_id_at(0).unwrap();
    let mut fields = Vec::new();

    let (name_id, mut d) = widget(&mut doc, page, None);
    d.set("FT", name("Tx"));
    d.set("T", text("name"));
    d.set("V", text("placeholder"));
    doc.set_object(name_id, Object::Dictionary(d));
    fields.push(name_id);

    let (sub_id, mut d) = widget(&mut doc, page, Some("Yes"));
    d.set("FT", name("Btn"));
    d.set("T", text("subscribe"));
    d.set("V", name("Off"));
    doc.set_object(sub_id, Object::Dictionary(d));
    fields.push(sub_id);

    let plan_id = doc.allocate_id();
    let (basic, mut bd) = widget(&mut doc, page, Some("basic"));
    bd.set("Parent", Object::Reference(plan_id));
    doc.set_object(basic, Object::Dictionary(bd));
    let (pro, mut pd) = widget(&mut doc, page, Some("pro"));
    pd.set("Parent", Object::Reference(plan_id));
    doc.set_object(pro, Object::Dictionary(pd));
    let mut plan = PdfDictionary::new();
    plan.set("FT", name("Btn"));
    plan.set("T", text("plan"));
    plan.set("Ff", Object::Integer((1 << 15) | (1 << 14)));
    plan.set("Kids", Object::Array(PdfArray::from_objects(vec![Object::Reference(basic), Object::Reference(pro)])));
    plan.set("V", name("Off"));
    doc.set_object(plan_id, Object::Dictionary(plan));
    fields.push(plan_id);

    let (country, mut d) = widget(&mut doc, page, None);
    d.set("FT", name("Ch"));
    d.set("T", text("country"));
    d.set("Ff", Object::Integer(1 << 17));
    d.set("Opt", Object::Array(PdfArray::from_objects(vec![text("USA"), text("Canada"), text("UK")])));
    doc.set_object(country, Object::Dictionary(d));
    fields.push(country);

    let af = doc.allocate_id();
    let mut acroform = PdfDictionary::new();
    acroform.set("Fields", Object::Array(PdfArray::from_objects(fields.iter().map(|id| Object::Reference(*id)).collect())));
    doc.set_object(af, Object::Dictionary(acroform));
    let mut catalog = doc.catalog().unwrap();
    catalog.set("AcroForm", Object::Reference(af));
    let root = doc.catalog_id();
    doc.set_object(root, Object::Dictionary(catalog));
    doc
}

fn contains(haystack: &[u8], needle: &[u8]) -> bool {
    haystack.windows(needle.len()).any(|w| w == needle)
}

#[test]
fn test_field_names_lists_all_top_level_fields() {
    let doc = doc_with_form();
    let mut names = doc.field_names().unwrap();
    names.sort();
    assert_eq!(names, vec!["country", "name", "plan", "subscribe"]);
}

#[test]
fn test_field_type_reports_pdf_ft() {
    let doc = doc_with_form();
    assert_eq!(doc.field_type("name").unwrap().as_deref(), Some("Tx"));
    assert_eq!(doc.field_type("subscribe").unwrap().as_deref(), Some("Btn"));
    assert_eq!(doc.field_type("country").unwrap().as_deref(), Some("Ch"));
    assert_eq!(doc.field_type("nonexistent").unwrap(), None);
}

#[test]
fn test_checkbox_fill_roundtrip() {
    let mut doc = doc_with_form();
    assert!(!doc.get_checkbox_checked("subscribe").unwrap());
    doc.set_checkbox_checked("subscribe", true).unwrap();
    assert!(doc.get_checkbox_checked("subscribe").unwrap());

    let saved = doc.save_incremental_to_bytes().unwrap();
    assert!(contains(&saved, b"/V /Yes"));
    assert!(contains(&saved, b"/AS /Yes"));
}

#[test]
fn test_radio_fill_roundtrip() {
    let mut doc = doc_with_form();
    doc.set_radio_value("plan", "pro").unwrap();
    assert_eq!(doc.get_radio_value("plan").unwrap().as_deref(), Some("pro"));

    let saved = doc.save_incremental_to_bytes().unwrap();
    assert!(contains(&saved, b"/V /pro"));
    assert!(contains(&saved, b"/AS /pro"));
}

#[test]
fn test_malformed_field_tree_does_not_hang_or_panic() {
    let mut doc = doc_with_pages(1);

    let field_id = doc.allocate_id();
    let mut field = PdfDictionary::new();
    field.set("FT", name("Tx"));
    field.set("T", text("cyclic"));
    field.set("Kids", Object::Array(PdfArray::from_objects(vec![Object::Reference(field_id)])));
    doc.set_object(field_id, Object::Dictionary(field));

    let mut acroform = PdfDictionary::new();
    acroform.set("Fields", Object::Array(PdfArray::from_objects(vec![Object::Reference(field_id)])));
    let acroform_id = doc.allocate_id();
    doc.set_object(acroform_id, Object::Dictionary(acroform));
    let mut catalog = doc.catalog().unwrap();
    catalog.set("AcroForm", Object::Reference(acroform_id));
    let root = doc.catalog_id();
    doc.set_object(root, Object::Dictionary(catalog));

    let names = doc.field_names().unwrap();
    assert!(names.is_empty() || names == vec!["cyclic".to_string()]);
}

#[test]
fn field_values_are_read_by_kind() {
    let mut doc = doc_with_form();
    assert_eq!(doc.get_text_value("name").unwrap().as_deref(), Some("placeholder"));
    assert_eq!(doc.get_radio_value("plan").unwrap(), None);
    assert_eq!(doc.get_choice_value("country").unwrap(), None);
    assert_eq!(doc.choice_options("country").unwrap(), vec!["USA", "Canada", "UK"]);
    assert_eq!(doc.get_text_value("nope"), Err(EditorError::FieldNotFound));
    assert_eq!(doc.get_text_value("subscribe"), Err(EditorError::WrongFieldType(FieldKind::Text)));
    assert_eq!(doc.get_checkbox_checked("plan"), Err(EditorError::WrongFieldType(FieldKind::Checkbox)));
    assert_eq!(doc.get_radio_value("subscribe"), Err(EditorError::WrongFieldType(FieldKind::Radio)));
    assert_eq!(doc.set_checkbox_checked("name", true), Err(EditorError::WrongFieldType(FieldKind::Checkbox)));
}

#[test]
fn radio_selection_sets_only_the_matching_widget() {
    let mut doc = doc_with_form();
    doc.set_radio_value("plan", "basic").unwrap();
    let kids = {
        let names = doc.field_names().unwrap();
        assert!(names.contains(&"plan".to_string()));
        let af = match doc.catalog().unwrap().get("AcroForm") {
            Some(Object::Reference(id)) => *id,
            _ => panic!("no form"),
        };
        let fields = doc.get_dictionary(af).unwrap();
        let plan_id = match fields.get("Fields") {
            Some(Object::Array(a)) => match a.get(2) {
                Some(Object::Reference(id)) => *id,
                _ => panic!("no plan"),
            },
            _ => panic!("no fields"),
        };
        match doc.get_dictionary(plan_id).unwrap().get("Kids") {
            Some(Object::Array(a)) => a.items.iter().map(|o| match o {
                Object::Reference(id) => *id,
                _ => panic!("kid"),
            }).collect::<Vec<_>>(),
            _ => panic!("no kids"),
        }
    };
    assert_eq!(doc.get_dictionary(kids[0]).unwrap().get("AS"), Some(&name("basic")));
    assert_eq!(doc.get_dictionary(kids[1]).unwrap().get("AS"), Some(&name("Off")));
    doc.set_checkbox_checked("subscribe", false).unwrap();
    assert!(!doc.get_checkbox_checked("subscribe").unwrap());
}

#[test]
fn nested_fields_get_qualified_names_and_inherit_type() {
    let mut doc = doc_with_pages(1);
    let parent = doc.allocate_id();
    let child = doc.allocate_id();
    let mut c = PdfDictionary::new();
    c.set("T", text("street"));
    c.set("Parent", Object::Reference(parent));
    c.set("V", text("Main St"));
    doc.set_object(child, Object::Dictionary(c));
    let mut p = PdfDictionary::new();
    p.set("T", text("address"));
    p.set("FT", name("Tx"));
    p.set("Kids", Object::Array(PdfArray::from_objects(vec![Object::Reference(child)])));
    doc.set_object(parent, Object::Dictionary(p));
    let af = doc.allocate_id();
    let mut acroform = PdfDictionary::new();
    acroform.set("Fields", Object::Array(PdfArray::from_objects(vec![Object::Reference(parent)])));
    doc.set_object(af, Object::Dictionary(acroform));
    let mut catalog = doc.catalog().unwrap();
    catalog.set("AcroForm", Object::Reference(af));
    let root = doc.catalog_id();
    doc.set_object(root, Object::Dictionary(catalog));

    assert_eq!(doc.field_names().unwrap(), vec!["address.street"]);
    assert_eq!(doc.field_type("address.street").unwrap().as_deref(), Some("Tx"));
    assert_eq!(doc.get_text_value("address.street").unwrap().as_deref(), Some("Main St"));
}

fn add_annot(doc: &mut EditableDocument, page: ObjectId, subtype: &str, contents: &str, popup: Option<ObjectId>) -> ObjectId {
    let id = doc.allocate_id();
    let mut d = PdfDictionary::new();
    d.set("Type", name("Annot"));
    d.set("Subtype", name(subtype));
    d.set("Rect", rect(300, 420, 280, 400));
    d.set("Contents", text(contents));
    if let Some(p) = popup {
        d.set("Popup", Object::Reference(p));
    }
    doc.set_object(id, Object::Dictionary(d));
    doc.add_annot_to_page(page, id).unwrap();
    id
}

#[test]
fn test_delete_nonexistent_annotation_errors() {
    let mut doc = doc_with_pages(1);
    let bogus = ObjectId::new(9999);
    assert!(doc.delete_annotation(0, bogus).is_err());
}

#[test]
fn annotations_are_listed_and_deleted_with_their_popup() {
    let mut doc = doc_with_pages(1);
    let page = doc.page_id_at(0).unwrap();
    let popup = doc.allocate_id();
    let note = add_annot(&mut doc, page, "Text", "Delete me", Some(popup));
    let mut p = PdfDictionary::new();
    p.set("Subtype", name("Popup"));
    p.set("Rect", rect(324, 400, 524, 500));
    p.set("Parent", Object::Reference(note));
    doc.set_object(popup, Object::Dictionary(p));
    doc.add_annot_to_page(page, popup).unwrap();
    let keep = add_annot(&mut doc, page, "Highlight", "Keep me", None);

    let listed = doc.list_annotations(0).unwrap();
    assert_eq!(listed.len(), 3);
    assert_eq!(listed[0].kind, AnnotationKind::Text);
    assert_eq!(listed[0].contents.as_deref(), Some("Delete me"));
    assert_eq!(listed[0].rect.llx, PdfReal::from_micros(280_000_000));
    assert_eq!(listed[0].rect.ury, PdfReal::from_micros(420_000_000));
    assert_eq!(listed[1].kind, AnnotationKind::Popup);
    assert_eq!(listed[2].kind, AnnotationKind::Highlight);

    doc.delete_annotation(0, note).unwrap();
    let listed = doc.list_annotations(0).unwrap();
    assert_eq!(listed.len(), 1);
    assert_eq!(listed[0].id, keep);

    doc.delete_annotation(0, keep).unwrap();
    assert!(doc.list_annotations(0).unwrap().is_empty());
    assert!(doc.get_dictionary(page).unwrap().get("Annots").is_none());
    assert_eq!(doc.delete_annotation(0, keep), Err(EditorError::AnnotationNotFound(keep.number, keep.generation)));
}

fn pts_rect(a: i64, b: i64, c: i64, d: i64) -> Rectangle {
    Rectangle::new(
        PdfReal::from_micros(a * 1_000_000),
        PdfReal::from_micros(b * 1_000_000),
        PdfReal::from_micros(c * 1_000_000),
        PdfReal::from_micros(d * 1_000_000),
    )
}

#[test]
fn test_add_text_field_to_existing_pdf() {
    let mut doc = doc_with_pages(1);
    doc.add_text_field(0, "new_field", pts_rect(50, 700, 250, 720), Some("hi"), b"/Tx BMC EMC").unwrap();
    assert_eq!(doc.get_text_value("new_field").unwrap().as_deref(), Some("hi"));
    assert_eq!(doc.field_names().unwrap(), vec!["new_field".to_string()]);
    let saved = doc.save_incremental_to_bytes().unwrap();
    assert!(contains(&saved, b"/T (new_field)"));
}

#[test]
fn test_add_duplicate_field_name_errors() {
    let mut doc = doc_with_form();
    assert!(doc.add_text_field(0, "name", pts_rect(0, 0, 10, 10), None, b"").is_err());
}

#[test]
fn test_add_checkbox_and_radio_and_combobox_and_signature() {
    let mut doc = doc_with_pages(1);
    doc.add_checkbox_field(0, "agree", pts_rect(10, 10, 30, 30), true, b"0 g", b"").unwrap();
    assert!(doc.get_checkbox_checked("agree").unwrap());

    let options = vec![("gold".to_string(), pts_rect(0, 0, 10, 10)), ("silver".to_string(), pts_rect(20, 0, 30, 10))];
    let on = vec![b"0 g".to_vec(), b"0 g".to_vec()];
    let off = vec![Vec::new(), Vec::new()];
    doc.add_radio_group_field(0, "tier", &options, Some(1), &on, &off).unwrap();
    assert_eq!(doc.get_radio_value("tier").unwrap().as_deref(), Some("silver"));

    doc.add_combobox_field(0, "language", pts_rect(0, 40, 100, 60), &["EN".to_string(), "FR".to_string()], Some(0), b"")
        .unwrap();
    assert_eq!(doc.get_choice_value("language").unwrap().as_deref(), Some("EN"));

    doc.add_signature_field(0, "sig1", pts_rect(0, 80, 100, 120), b"").unwrap();
    assert_eq!(doc.field_type("sig1").unwrap().as_deref(), Some("Sig"));

    let saved = doc.save_incremental_to_bytes().unwrap();
    assert!(contains(&saved, b"/FT /Sig"));
}

#[test]
fn created_field_widgets_are_on_the_page_and_in_the_form() {
    let mut doc = doc_with_pages(1);
    let id = doc.add_signature_field(0, "sig1", pts_rect(0, 80, 100, 120), b"").unwrap();
    let page = doc.get_dictionary(doc.page_id_at(0).unwrap()).unwrap();
    match page.get("Annots") {
        Some(Object::Array(a)) => assert!(a.items.contains(&Object::Reference(id))),
        _ => panic!("no /Annots"),
    }
    match doc.get_dictionary(id).unwrap().get("AP") {
        Some(Object::Dictionary(ap)) => assert!(matches!(ap.get("N"), Some(Object::Reference(_)))),
        _ => panic!("no /AP"),
    }
}

#[test]
fn form_widgets_are_listed_field_by_field() {
    let doc = doc_with_form();
    let ws = doc.form_widget_ids().unwrap();
    // name (6), subscribe (7, states 8 and 9), plan's (10) kids basic
    // (11) and pro (14), country (17).
    let numbers: Vec<u32> = ws.iter().map(|id| id.number).collect();
    assert_eq!(numbers, vec![6, 7, 11, 14, 17]);
}

#[test]
fn detaching_the_form_leaves_other_annotations_and_drops_acroform() {
    let mut doc = doc_with_form();
    let page = doc.page_id_at(0).unwrap();
    let ws = doc.form_widget_ids().unwrap();
    let note = doc.allocate_id();
    doc.set_object(note, Object::Dictionary(PdfDictionary::new()));
    let mut items: Vec<Object> = ws.iter().map(|id| Object::Reference(*id)).collect();
    items.insert(2, Object::Reference(note));
    let mut pd = doc.get_dictionary(page).unwrap();
    pd.set("Annots", Object::Array(PdfArray::from_objects(items)));
    doc.set_object(page, Object::Dictionary(pd));
    assert_eq!(doc.find_annotation_page(ws[3]).unwrap(), Some(page));
    assert_eq!(doc.find_annotation_page(ObjectId::new(999)).unwrap(), None);
    doc.detach_form_widgets(&ws).unwrap();
    let pd = doc.get_dictionary(page).unwrap();
    let Some(Object::Array(a)) = pd.get("Annots") else { panic!("expected Annots") };
    assert_eq!(a.items, vec![Object::Reference(note)]);
    assert!(doc.catalog().unwrap().get("AcroForm").is_none());
    assert!(doc.field_names().unwrap().is_empty());
    assert_eq!(doc.find_annotation_page(ws[3]).unwrap(), None);
}

#[test]
fn detaching_every_annotation_removes_annots() {
    let mut doc = doc_with_form();
    let page = doc.page_id_at(0).unwrap();
    let ws = doc.form_widget_ids().unwrap();
    let mut pd = doc.get_dictionary(page).unwrap();
    pd.set("Annots", Object::Array(PdfArray::from_objects(ws.iter().map(|id| Object::Reference(*id)).collect())));
    doc.set_object(page, Object::Dictionary(pd));
    doc.detach_form_widgets(&ws).unwrap();
    assert!(doc.get_dictionary(page).unwrap().get("Annots").is_none());
}

#[test]
fn test_text_field_fill_roundtrip() {
    let mut doc = doc_with_form();
    let widgets = doc.set_text_value("name", "Ada Lovelace").unwrap();
    assert_eq!(widgets, vec![ObjectId::new(6)]);
    assert_eq!(doc.get_text_value("name").unwrap().as_deref(), Some("Ada Lovelace"));

    let saved = doc.save_incremental_to_bytes().unwrap();
    assert!(contains(&saved, b"/V (Ada Lovelace)"));
}

#[test]
fn test_text_field_fill_non_ascii_roundtrip() {
    let mut doc = doc_with_form();
    doc.set_text_value("name", "Zoé Müller").unwrap();
    assert_eq!(doc.get_text_value("name").unwrap().as_deref(), Some("Zoé Müller"));
    let saved = doc.save_incremental_to_bytes().unwrap();
    assert!(contains(&saved, b"/V <FEFF005A006F00E9"));
}

#[test]
fn test_combobox_fill_roundtrip() {
    let mut doc = doc_with_form();
    doc.set_choice_value("country", "Canada").unwrap();
    assert_eq!(doc.get_choice_value("country").unwrap().as_deref(), Some("Canada"));
    let field = doc.get_dictionary(ObjectId::new(17)).unwrap();
    assert_eq!(field.get("I"), Some(&Object::Array(PdfArray::from_objects(vec![Object::Integer(1)]))));

    let saved = doc.save_incremental_to_bytes().unwrap();
    assert!(contains(&saved, b"/V (Canada)"));
}

#[test]
fn choice_value_outside_the_options_sets_no_index() {
    let mut doc = doc_with_form();
    doc.set_choice_value("country", "France").unwrap();
    assert_eq!(doc.get_choice_value("country").unwrap().as_deref(), Some("France"));
    assert!(doc.get_dictionary(ObjectId::new(17)).unwrap().get("I").is_none());
}

#[test]
fn test_set_value_on_missing_field_errors() {
    let mut doc = doc_with_form();
    assert!(doc.set_text_value("does-not-exist", "x").is_err());
}

#[test]
fn test_set_value_with_wrong_type_errors() {
    let mut doc = doc_with_form();
    assert!(doc.set_checkbox_checked("name", true).is_err());
    assert!(doc.set_text_value("subscribe", "x").is_err());
}

#[test]
fn default_appearance_falls_back_to_helvetica() {
    let doc = doc_with_form();
    assert_eq!(doc.effective_da_string(ObjectId::new(6)), "/Helv 12 Tf 0 g");
}
