use rust_pdf::content_stream::{parse_content_stream, serialize_content_stream};
use rust_pdf::graph::{EditableDocument, EditorError, LoadedFile};
use rust_pdf::object::{Object, ObjectId, PdfArray, PdfDictionary, PdfName, PdfReal, PdfStream};
use rust_pdf::pdfa::PdfAFlavor;
use rust_pdf::types::Rectangle;
use rust_pdf::version::PdfVersion;

fn name(s: &str) -> Object {
    Object::Name(PdfName::new_unchecked(s))
}

fn pts(x: i64) -> PdfReal {
    PdfReal::from_micros(x * 1_000_000)
}

fn reference(n: u32) -> Object {
    Object::Reference(ObjectId::new(n))
}

/// A one-page document: catalog 1, page tree 2, page 3, content 4.
fn one_page() -> EditableDocument {
    let mut objects: Vec<(ObjectId, Object)> = Vec::new();
    let mut catalog = PdfDictionary::new();
    catalog.set("Type", name("Catalog"));
    catalog.set("Pages", reference(2));
    objects.push((ObjectId::new(1), Object::Dictionary(catalog)));
    let mut kids = PdfArray::new();
    kids.push(reference(3));
    let mut pages = PdfDictionary::new();
    pages.set("Type", name("Pages"));
    pages.set("Kids", Object::Array(kids));
    pages.set("Count", Object::Integer(1));
    objects.push((ObjectId::new(2), Object::Dictionary(pages)));
    let mut page = PdfDictionary::new();
    page.set("Type", name("Page"));
    page.set("Parent", reference(2));
    page.set("Resources", Object::Dictionary(PdfDictionary::new()));
    page.set("Contents", reference(4));
    objects.push((ObjectId::new(3), Object::Dictionary(page)));
    let content = b"q Q".to_vec();
    objects.push((ObjectId::new(4), Object::Stream(PdfStream::with_dictionary(PdfDictionary::new(), content))));
    let file = LoadedFile {
        data: b"%PDF-1.4\n".to_vec(),
        version: PdfVersion::V1_4,
        objects,
        root: ObjectId::new(1),
        info: None,
        id: None,
        startxref: Some(9),
    };
    EditableDocument::from_loaded(file).unwrap()
}

/// Adds a graphics state with the given `/SMask` and `/BM` to the page's
/// resources; returns its id.
fn add_extgstate(doc: &mut EditableDocument, smask: &str, bm: &str) -> ObjectId {
    let gs_id = doc.allocate_id();
    let mut gs = PdfDictionary::new();
    gs.set("Type", name("ExtGState"));
    gs.set("SMask", name(smask));
    gs.set("BM", name(bm));
    doc.set_object(gs_id, Object::Dictionary(gs));
    let page_id = ObjectId::new(3);
    let mut page = doc.get_dictionary(page_id).unwrap();
    let mut extgstates = PdfDictionary::new();
    extgstates.set("GS1", Object::Reference(gs_id));
    let mut resources = PdfDictionary::new();
    resources.set("ExtGState", Object::Dictionary(extgstates));
    page.set("Resources", Object::Dictionary(resources));
    doc.set_object(page_id, Object::Dictionary(page));
    gs_id
}

fn name_at(doc: &EditableDocument, id: ObjectId, key: &str) -> Option<String> {
    match doc.get_dictionary(id).unwrap().get(key) {
        Some(Object::Name(n)) => Some(n.as_str().to_string()),
        _ => None,
    }
}

#[test]
fn extgstate_soft_mask_and_blend_mode_are_reset() {
    let mut doc = one_page();
    let gs = add_extgstate(&mut doc, "Luminosity-ish-placeholder", "Multiply");
    assert_eq!(doc.strip_extgstate_transparency().unwrap(), 1);
    assert_eq!(name_at(&doc, gs, "SMask").as_deref(), Some("None"));
    assert_eq!(name_at(&doc, gs, "BM").as_deref(), Some("Normal"));
    assert_eq!(doc.strip_extgstate_transparency().unwrap(), 0);
}

#[test]
fn allowed_extgstate_values_are_left_alone() {
    let mut doc = one_page();
    let gs = add_extgstate(&mut doc, "None", "Compatible");
    assert_eq!(doc.strip_extgstate_transparency().unwrap(), 0);
    assert_eq!(name_at(&doc, gs, "BM").as_deref(), Some("Compatible"));
}

#[test]
fn transparency_group_is_removed_from_page() {
    let mut doc = one_page();
    let page_id = ObjectId::new(3);
    let mut page = doc.get_dictionary(page_id).unwrap();
    let mut group = PdfDictionary::new();
    group.set("S", name("Transparency"));
    page.set("Group", Object::Dictionary(group));
    doc.set_object(page_id, Object::Dictionary(page));
    assert_eq!(doc.strip_transparency_groups().unwrap(), 1);
    assert!(doc.get_dictionary(page_id).unwrap().get("Group").is_none());
    assert_eq!(doc.strip_transparency_groups().unwrap(), 0);
}

#[test]
fn transparency_step_only_for_part_one() {
    let mut doc = one_page();
    let gs = add_extgstate(&mut doc, "Alpha", "Screen");
    assert_eq!(doc.strip_pdfa_transparency(PdfAFlavor::Part2B).unwrap(), (0, 0));
    assert_eq!(name_at(&doc, gs, "BM").as_deref(), Some("Screen"));
    assert_eq!(doc.strip_pdfa_transparency(PdfAFlavor::Part1B).unwrap(), (1, 0));
    assert_eq!(name_at(&doc, gs, "BM").as_deref(), Some("Normal"));
}

fn options() -> Vec<(String, Rectangle)> {
    vec![
        ("gold".to_string(), Rectangle::new(pts(0), pts(0), pts(10), pts(10))),
        ("silver".to_string(), Rectangle::new(pts(20), pts(0), pts(30), pts(10))),
    ]
}

fn appearances() -> (Vec<Vec<u8>>, Vec<Vec<u8>>) {
    let on = vec![b"0 g 5 5 m 6 6 l f".to_vec(), b"0 g 5 5 m 6 6 l f".to_vec()];
    let off = vec![Vec::new(), Vec::new()];
    (on, off)
}

#[test]
fn radio_group_reads_back_selected_option() {
    let mut doc = one_page();
    let (on, off) = appearances();
    let group = doc.add_radio_group_field(0, "tier", &options(), Some(1), &on, &off).unwrap();
    assert_eq!(doc.get_radio_value("tier").unwrap().as_deref(), Some("silver"));
    let g = doc.get_dictionary(group).unwrap();
    assert!(matches!(g.get("Ff"), Some(Object::Integer(49152))));
    let kids = match g.get("Kids") {
        Some(Object::Array(a)) => a.len(),
        _ => 0,
    };
    assert_eq!(kids, 2);
    let page = doc.get_dictionary(ObjectId::new(3)).unwrap();
    let annots = match page.get("Annots") {
        Some(Object::Array(a)) => a.len(),
        _ => 0,
    };
    assert_eq!(annots, 3);
    doc.set_radio_value("tier", "gold").unwrap();
    assert_eq!(doc.get_radio_value("tier").unwrap().as_deref(), Some("gold"));
}

#[test]
fn radio_group_with_nothing_selected_is_off() {
    let mut doc = one_page();
    let (on, off) = appearances();
    doc.add_radio_group_field(0, "tier", &options(), None, &on, &off).unwrap();
    assert_eq!(doc.get_radio_value("tier").unwrap(), None);
}

#[test]
fn radio_group_name_must_be_new() {
    let mut doc = one_page();
    let (on, off) = appearances();
    doc.add_radio_group_field(0, "tier", &options(), Some(0), &on, &off).unwrap();
    assert_eq!(doc.add_radio_group_field(0, "tier", &options(), Some(0), &on, &off), Err(EditorError::DuplicateFieldName));
}

#[test]
fn radio_group_on_missing_page_errors() {
    let mut doc = one_page();
    let (on, off) = appearances();
    assert_eq!(
        doc.add_radio_group_field(5, "tier", &options(), Some(0), &on, &off),
        Err(EditorError::InvalidPageIndex { index: 5, count: 1 })
    );
}

#[test]
fn radio_appearance_is_a_form_xobject_of_the_option_size() {
    let s = rust_pdf::form_create::appearance_xobject(b"q Q", Rectangle::new(pts(20), pts(0), pts(30), pts(10)));
    assert_eq!(s.data, b"q Q".to_vec());
    match s.dictionary.get("BBox") {
        Some(Object::Array(a)) => {
            assert!(matches!(a.items[2], Object::Real(r) if r.micros == 10_000_000));
            assert!(matches!(a.items[3], Object::Real(r) if r.micros == 10_000_000));
        }
        _ => panic!("no /BBox"),
    }
}

#[test]
fn replaced_operands_serialize_back() {
    let mut items = parse_content_stream(b"(ab) Tj");
    let n = rust_pdf::content_stream::replace_text_in_items(&mut items, b"b", b"c");
    assert_eq!(n, 1);
    assert_eq!(String::from_utf8(serialize_content_stream(&items)).unwrap().contains("(ac) Tj"), true);
}

#[test]
fn test_add_popup_for_existing_markup_annotation() {
    let mut doc = one_page();
    let highlight_id = doc.allocate_id();
    let mut h = PdfDictionary::new();
    h.set("Type", name("Annot"));
    h.set("Subtype", name("Highlight"));
    doc.set_object(highlight_id, Object::Dictionary(h));
    doc.add_annot_to_page(ObjectId::new(3), highlight_id).unwrap();
    let popup_id = doc
        .add_popup(0, highlight_id, Rectangle::new(pts(210), pts(745), pts(400), pts(810)), true)
        .unwrap();
    let parent = doc.get_dictionary(highlight_id).unwrap();
    assert_eq!(parent.get("Popup"), Some(&Object::Reference(popup_id)));
    let popup = doc.get_dictionary(popup_id).unwrap();
    assert_eq!(popup.get("Parent"), Some(&Object::Reference(highlight_id)));
    assert_eq!(popup.get("Open"), Some(&Object::Boolean(true)));
}

#[test]
fn popup_for_missing_annotation_errors() {
    let mut doc = one_page();
    let r = doc.add_popup(0, ObjectId::new(77), Rectangle::new(pts(0), pts(0), pts(1), pts(1)), false);
    assert_eq!(r, Err(EditorError::UnresolvedObject(77, 0)));
}

fn set_catalog_entry(doc: &mut EditableDocument, key: &str, value: Object) {
    let mut catalog = doc.catalog().unwrap();
    catalog.set(key, value);
    doc.set_object(ObjectId::new(1), Object::Dictionary(catalog));
}

#[test]
fn javascript_open_action_is_removed_for_every_part() {
    let mut doc = one_page();
    let mut action = PdfDictionary::new();
    action.set("S", name("JavaScript"));
    set_catalog_entry(&mut doc, "OpenAction", Object::Dictionary(action));
    assert_eq!(doc.strip_forbidden_catalog_entries(PdfAFlavor::Part3B).unwrap(), vec!["OpenAction"]);
    assert!(doc.catalog().unwrap().get("OpenAction").is_none());
}

#[test]
fn forbidden_catalog_entries_depend_on_the_part() {
    let mut doc = one_page();
    set_catalog_entry(&mut doc, "OCProperties", Object::Dictionary(PdfDictionary::new()));
    let mut names = PdfDictionary::new();
    names.set("EmbeddedFiles", Object::Dictionary(PdfDictionary::new()));
    names.set("JavaScript", Object::Dictionary(PdfDictionary::new()));
    set_catalog_entry(&mut doc, "Names", Object::Dictionary(names));
    assert_eq!(doc.strip_forbidden_catalog_entries(PdfAFlavor::Part3B).unwrap(), vec!["JavaScript"]);
    assert_eq!(doc.strip_forbidden_catalog_entries(PdfAFlavor::Part2B).unwrap(), vec!["EmbeddedFiles"]);
    assert_eq!(doc.strip_forbidden_catalog_entries(PdfAFlavor::Part1B).unwrap(), vec!["OCProperties"]);
    assert!(doc.strip_forbidden_catalog_entries(PdfAFlavor::Part1B).unwrap().is_empty());
}

fn appearance_bytes(doc: &EditableDocument, annot: ObjectId) -> Vec<u8> {
    let dict = doc.get_dictionary(annot).unwrap();
    let Some(Object::Dictionary(ap)) = dict.get("AP") else { panic!("expected AP") };
    let Some(Object::Reference(ap_id)) = ap.get("N") else { panic!("expected AP/N ref") };
    let Some(Object::Stream(stream)) = doc.get_object(*ap_id) else { panic!("expected stream") };
    stream.data
}

#[test]
fn test_add_stamp_annotation() {
    let mut doc = one_page();
    let rect = Rectangle::new(pts(400), pts(700), pts(550), pts(750));
    let id = doc.add_stamp_annotation(0, rect, "APPROVED", b"q 1 0 0 rg Q").unwrap();
    let dict = doc.get_dictionary(id).unwrap();
    assert!(matches!(dict.get("Subtype"), Some(Object::Name(n)) if n.as_str() == "Stamp"));
    assert!(dict.get("AP").is_some());
}

#[test]
fn stamp_is_listed_on_its_page_with_its_label_and_appearance() {
    let mut doc = one_page();
    let rect = Rectangle::new(pts(400), pts(700), pts(550), pts(750));
    let id = doc.add_stamp_annotation(0, rect, "APPROVED", b"q 1 0 0 rg Q").unwrap();
    assert_eq!(id, ObjectId::new(5));
    let annots = doc.list_annotations(0).unwrap();
    assert_eq!(annots.len(), 1);
    assert_eq!(annots[0].id, id);
    assert_eq!(annots[0].contents.as_deref(), Some("APPROVED"));
    assert_eq!(name_at(&doc, id, "Name"), Some("Draft".to_string()));
    assert_eq!(appearance_bytes(&doc, id), b"q 1 0 0 rg Q".to_vec());
}

#[test]
fn stamp_on_missing_page_errors() {
    let mut doc = one_page();
    let rect = Rectangle::new(pts(0), pts(0), pts(1), pts(1));
    assert!(doc.add_stamp_annotation(3, rect, "X", b"").is_err());
}

fn add_freetext(doc: &mut EditableDocument) -> ObjectId {
    let id = doc.allocate_id();
    let mut d = PdfDictionary::new();
    d.set("Type", name("Annot"));
    d.set("Subtype", name("FreeText"));
    let mut r = PdfArray::new();
    for v in [100, 100, 300, 150] {
        r.push(Object::Integer(v));
    }
    d.set("Rect", Object::Array(r));
    doc.set_object(id, Object::Dictionary(d));
    doc.add_annot_to_page(ObjectId::new(3), id).unwrap();
    id
}

#[test]
fn edited_freetext_contents_are_listed_and_drawn() {
    let mut doc = one_page();
    let id = add_freetext(&mut doc);
    doc.edit_annotation_contents(id, "Edited note", b"BT (Edited note) Tj ET").unwrap();
    let annots = doc.list_annotations(0).unwrap();
    assert_eq!(annots[0].contents.as_deref(), Some("Edited note"));
    let content = String::from_utf8(appearance_bytes(&doc, id)).unwrap();
    assert!(content.contains("Edited note"), "appearance was: {content}");
}

#[test]
fn edited_contents_of_other_kinds_leave_the_appearance_alone() {
    let mut doc = one_page();
    let id = doc.allocate_id();
    let mut d = PdfDictionary::new();
    d.set("Type", name("Annot"));
    d.set("Subtype", name("Text"));
    doc.set_object(id, Object::Dictionary(d));
    doc.edit_annotation_contents(id, "note", b"unused").unwrap();
    let dict = doc.get_dictionary(id).unwrap();
    assert!(dict.get("AP").is_none());
    assert!(dict.get("Contents").is_some());
}

#[test]
fn editing_contents_of_missing_annotation_errors() {
    let mut doc = one_page();
    assert_eq!(doc.edit_annotation_contents(ObjectId::new(90), "x", b""), Err(EditorError::UnresolvedObject(90, 0)));
}

#[test]
fn test_add_comment_creates_linked_popup() {
    let mut doc = one_page();
    let (note_id, popup_id) = doc.add_comment(0, (pts(300), pts(400)), "Please check this paragraph.", Some("Editor")).unwrap();

    let annots = doc.list_annotations(0).unwrap();
    assert_eq!(annots.len(), 2);

    let note = doc.get_dictionary(note_id).unwrap();
    assert_eq!(note.get("Popup"), Some(&Object::Reference(popup_id)));
    let popup = doc.get_dictionary(popup_id).unwrap();
    assert_eq!(popup.get("Parent"), Some(&Object::Reference(note_id)));
}

#[test]
fn test_delete_annotation_removes_it_and_its_popup() {
    let mut doc = one_page();
    let (note_id, _popup_id) = doc.add_comment(0, (pts(300), pts(400)), "Delete me", None).unwrap();
    assert_eq!(doc.list_annotations(0).unwrap().len(), 2);

    doc.delete_annotation(0, note_id).unwrap();
    assert!(doc.list_annotations(0).unwrap().is_empty());
}

#[test]
fn comment_note_and_popup_sit_side_by_side() {
    let mut doc = one_page();
    let (note_id, popup_id) = doc.add_comment(0, (pts(300), pts(400)), "Hi", Some("Ann")).unwrap();
    assert_eq!((note_id, popup_id), (ObjectId::new(5), ObjectId::new(6)));
    let annots = doc.list_annotations(0).unwrap();
    assert_eq!(annots[0].id, note_id);
    assert_eq!(annots[0].rect, Rectangle::new(pts(300), pts(400), pts(320), pts(420)));
    assert_eq!(annots[0].contents.as_deref(), Some("Hi"));
    assert_eq!(annots[0].author.as_deref(), Some("Ann"));
    assert_eq!(annots[1].id, popup_id);
    assert_eq!(annots[1].rect, Rectangle::new(pts(324), pts(400), pts(524), pts(500)));
    assert_eq!(doc.get_dictionary(popup_id).unwrap().get("Open"), Some(&Object::Boolean(false)));
    assert_eq!(name_at(&doc, note_id, "Name"), Some("Comment".to_string()));
    let icon = String::from_utf8(appearance_bytes(&doc, note_id)).unwrap();
    assert!(icon.starts_with("q\n1 0.92 0.4 rg\n"));
}

#[test]
fn comment_on_missing_page_errors() {
    let mut doc = one_page();
    assert!(doc.add_comment(2, (pts(0), pts(0)), "x", None).is_err());
}
