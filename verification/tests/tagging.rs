use rust_pdf::graph::{EditableDocument, EditorError, LoadedFile};
use rust_pdf::object::{Object, ObjectId, PdfArray, PdfDictionary, PdfName, PdfReal, PdfStream, PdfString};
use rust_pdf::structure::StructType;
use rust_pdf::version::PdfVersion;

fn name(s: &str) -> Object {
    Object::Name(PdfName::new_unchecked(s))
}

fn num(x: i64) -> Object {
    Object::Real(PdfReal::from_micros(x * 1_000_000))
}

fn reference(n: u32) -> Object {
    Object::Reference(ObjectId::new(n))
}

/// The objects of a document of `n` A4 pages, each with a content stream
/// showing "Page i": catalog 1, page tree 2, font 3, then page and
/// content pairs.
fn loaded_with_pages(n: u32) -> LoadedFile {
    let mut objects: Vec<(ObjectId, Object)> = Vec::new();
    let mut catalog = PdfDictionary::new();
    catalog.set("Type", name("Catalog"));
    catalog.set("Pages", reference(2));
    objects.push((ObjectId::new(1), Object::Dictionary(catalog)));
    let mut kids = PdfArray::new();
    for i in 0..n {
        kids.push(reference(4 + 2 * i));
    }
    let mut pages = PdfDictionary::new();
    pages.set("Type", name("Pages"));
    pages.set("Kids", Object::Array(kids));
    pages.set("Count", Object::Integer(n as i64));
    objects.push((ObjectId::new(2), Object::Dictionary(pages)));
    let mut font = PdfDictionary::new();
    font.set("Type", name("Font"));
    font.set("Subtype", name("Type1"));
    font.set("BaseFont", name("Helvetica"));
    objects.push((ObjectId::new(3), Object::Dictionary(font)));
    for i in 0..n {
        let mut page = PdfDictionary::new();
        page.set("Type", name("Page"));
        page.set("Parent", reference(2));
        page.set("MediaBox", Object::Array(PdfArray::from_objects(vec![num(0), num(0), num(595), num(842)])));
        let mut fonts = PdfDictionary::new();
        fonts.set("F1", reference(3));
        let mut resources = PdfDictionary::new();
        resources.set("Font", Object::Dictionary(fonts));
        page.set("Resources", Object::Dictionary(resources));
        page.set("Contents", reference(5 + 2 * i));
        objects.push((ObjectId::new(4 + 2 * i), Object::Dictionary(page)));
        let text = format!("BT /F1 12 Tf 72 750 Td (Page {i}) Tj ET");
        let mut d = PdfDictionary::new();
        d.set("Length", Object::Integer(text.len() as i64));
        objects.push((ObjectId::new(5 + 2 * i), Object::Stream(PdfStream::with_dictionary(d, text.into_bytes()))));
    }
    LoadedFile {
        data: b"%PDF-1.7\n% stand-in bytes of the loaded file\n".to_vec(),
        version: PdfVersion::V1_7,
        objects,
        root: ObjectId::new(1),
        info: None,
        id: None,
        startxref: Some(9),
    }
}

fn doc_with_pages(n: u32) -> EditableDocument {
    EditableDocument::from_loaded(loaded_with_pages(n)).unwrap()
}

fn text_of(bytes: &[u8]) -> String {
    String::from_utf8_lossy(bytes).into_owned()
}

/// A one-page document whose content shows "Hello World".
fn doc_with_one_page() -> (EditableDocument, ObjectId) {
    let mut file = loaded_with_pages(1);
    for (id, obj) in file.objects.iter_mut() {
        if *id == ObjectId::new(5) {
            let text = b"BT /F1 12 Tf 72 750 Td (Hello World) Tj ET".to_vec();
            let mut d = PdfDictionary::new();
            d.set("Length", Object::Integer(text.len() as i64));
            *obj = Object::Stream(PdfStream::with_dictionary(d, text));
        }
    }
    let doc = EditableDocument::from_loaded(file).unwrap();
    let id = doc.page_id_at(0).unwrap();
    (doc, id)
}

#[test]
fn test_read_page_content_bytes() {
    let (doc, id) = doc_with_one_page();
    let bytes = doc.page_content_bytes(id).unwrap();
    assert!(text_of(&bytes).contains("Hello World"));
}

#[test]
fn test_replace_page_text() {
    let (mut doc, id) = doc_with_one_page();
    let count = doc.replace_page_text(id, "World", "Rust").unwrap();
    assert_eq!(count, 1);
    let text = text_of(&doc.page_content_bytes(id).unwrap());
    assert!(text.contains("Hello Rust"));
    assert!(!text.contains("Hello World"));
}

#[test]
fn test_replace_page_text_no_match_is_noop() {
    let (mut doc, id) = doc_with_one_page();
    let count = doc.replace_page_text(id, "NotPresent", "X").unwrap();
    assert_eq!(count, 0);
}

#[test]
fn test_append_page_content_preserves_existing() {
    let (mut doc, id) = doc_with_one_page();
    doc.append_page_content(id, b"BT /F1 12 Tf 72 700 Td (Appended) Tj ET").unwrap();
    let text = text_of(&doc.page_content_bytes(id).unwrap());
    assert!(text.contains("Hello World"));
    assert!(text.contains("Appended"));
}

#[test]
fn test_replace_page_content_discards_old() {
    let (mut doc, id) = doc_with_one_page();
    doc.replace_page_content(id, b"BT /F1 12 Tf 72 700 Td (Replaced) Tj ET").unwrap();
    let text = text_of(&doc.page_content_bytes(id).unwrap());
    assert!(!text.contains("Hello World"));
    assert!(text.contains("Replaced"));
}

#[test]
fn test_set_content_reuses_existing_stream_object_id() {
    let (mut doc, id) = doc_with_one_page();
    let contents_id_before = match doc.get_dictionary(id).unwrap().get("Contents") {
        Some(Object::Reference(r)) => *r,
        _ => panic!("expected single content stream"),
    };
    doc.replace_page_text(id, "Hello", "Hi").unwrap();
    let contents_id_after = match doc.get_dictionary(id).unwrap().get("Contents") {
        Some(Object::Reference(r)) => *r,
        _ => panic!("expected single content stream"),
    };
    assert_eq!(contents_id_before, contents_id_after);
}

#[test]
fn append_and_prepend_wrap_operators_in_save_restore() {
    let (mut doc, id) = doc_with_one_page();
    doc.append_page_content(id, b"0 0 m").unwrap();
    assert_eq!(doc.page_content_bytes(id).unwrap(), b"BT /F1 12 Tf 72 750 Td (Hello World) Tj ET\nq\n0 0 m\nQ\n".to_vec());
    doc.prepend_page_content(id, b"1 g").unwrap();
    assert_eq!(
        doc.page_content_bytes(id).unwrap(),
        b"q\n1 g\nQ\nBT /F1 12 Tf 72 750 Td (Hello World) Tj ET\nq\n0 0 m\nQ\n".to_vec()
    );
}

#[test]
fn content_streams_of_an_array_are_joined_by_newlines() {
    let (mut doc, id) = doc_with_one_page();
    let a = doc.allocate_id();
    doc.set_object(a, Object::Stream(PdfStream::new(b"q".to_vec())));
    let b = doc.allocate_id();
    doc.set_object(b, Object::Stream(PdfStream::new(b"Q".to_vec())));
    let mut page = doc.get_dictionary(id).unwrap();
    page.set("Contents", Object::Array(PdfArray::from_objects(vec![Object::Reference(a), Object::Reference(b)])));
    doc.set_object(id, Object::Dictionary(page));
    assert_eq!(doc.page_content_bytes(id).unwrap(), b"q\nQ".to_vec());
    doc.replace_page_content(id, b"0 g").unwrap();
    let page = doc.get_dictionary(id).unwrap();
    match page.get("Contents") {
        Some(Object::Reference(r)) => assert!(*r != a && *r != b),
        other => panic!("expected one new stream: {other:?}"),
    }
    assert_eq!(doc.page_content_bytes(id).unwrap(), b"0 g".to_vec());
}

#[test]
fn filtered_content_stream_is_refused() {
    let (mut doc, id) = doc_with_one_page();
    let mut d = PdfDictionary::new();
    d.set("Filter", name("FlateDecode"));
    doc.set_object(ObjectId::new(5), Object::Stream(PdfStream::with_dictionary(d, vec![1, 2, 3])));
    assert_eq!(doc.page_content_bytes(id), Err(EditorError::UnsupportedFilter));
}

#[test]
fn test_ensure_struct_tree_root_sets_mark_info() {
    let mut doc = doc_with_pages(1);
    doc.ensure_struct_tree_root().unwrap();
    let catalog = doc.catalog().unwrap();
    assert!(catalog.get("StructTreeRoot").is_some());
    assert!(matches!(catalog.get("MarkInfo"), Some(Object::Dictionary(_))));
}

#[test]
fn test_tagged_heading_and_paragraph_sample_document() {
    let mut doc = doc_with_pages(1);
    let root = doc.add_document_structure_root().unwrap();

    let heading_content = b"BT /F1 18 Tf 72 780 Td (Report Title) Tj ET";
    let h1 = doc.add_tagged_content(0, Some(root), StructType::Heading(1), heading_content, None).unwrap();

    let para_content = b"BT /F1 12 Tf 72 750 Td (This is body text.) Tj ET";
    doc.add_tagged_content(0, Some(root), StructType::Paragraph, para_content, None).unwrap();

    let tree = doc.struct_tree().unwrap().expect("struct tree must exist");
    assert_eq!(tree.children.len(), 1);
    let document = &tree.children[0];
    assert_eq!(document.struct_type, "Document");
    assert_eq!(document.children.len(), 2);
    assert_eq!(document.children[0].struct_type, "H1");
    assert_eq!(document.children[0].id, h1);
    assert_eq!(document.children[1].struct_type, "P");

    let page_id = doc.page_id_at(0).unwrap();
    let content = text_of(&doc.page_content_bytes(page_id).unwrap());
    assert!(content.contains("/H1 <</MCID 0>> BDC"), "content was: {content}");
    assert!(content.contains("/P <</MCID 1>> BDC"), "content was: {content}");
    assert!(content.contains("Report Title"));
    assert!(content.contains("This is body text."));
}

#[test]
fn test_tagged_table_and_figure_with_alt_text() {
    let mut doc = doc_with_pages(1);
    let table = doc.add_tagged_content(0, None, StructType::Table, b"", None).unwrap();
    let row = doc.add_tagged_content(0, Some(table), StructType::TableRow, b"", None).unwrap();
    let cell_content = b"BT /F1 10 Tf 100 700 Td (Cell A1) Tj ET";
    doc.add_tagged_content(0, Some(row), StructType::TableCell, cell_content, None).unwrap();

    doc.add_tagged_content(0, None, StructType::Figure, b"", Some("A bar chart showing quarterly revenue")).unwrap();

    let tree = doc.struct_tree().unwrap().unwrap();
    assert_eq!(tree.children.len(), 2);
    let table_node = &tree.children[0];
    assert_eq!(table_node.struct_type, "Table");
    assert_eq!(table_node.children[0].struct_type, "TR");
    assert_eq!(table_node.children[0].children[0].struct_type, "TD");

    let figure_node = &tree.children[1];
    assert_eq!(figure_node.struct_type, "Figure");
    assert_eq!(figure_node.alt_text.as_deref(), Some("A bar chart showing quarterly revenue"));
}

#[test]
fn test_struct_parents_key_reused_across_calls_on_same_page() {
    let mut doc = doc_with_pages(1);
    doc.add_tagged_content(0, None, StructType::Paragraph, b"", None).unwrap();
    doc.add_tagged_content(0, None, StructType::Paragraph, b"", None).unwrap();

    let page_id = doc.page_id_at(0).unwrap();
    let page = doc.get_dictionary(page_id).unwrap();
    assert_eq!(page.get("StructParents"), Some(&Object::Integer(0)));

    let content = text_of(&doc.page_content_bytes(page_id).unwrap());
    assert!(content.contains("MCID 0"));
    assert!(content.contains("MCID 1"));
}

#[test]
fn test_tagged_document_survives_incremental_save_and_lopdf_reads_it() {
    let mut doc = doc_with_pages(1);
    let root = doc.add_document_structure_root().unwrap();
    doc.add_tagged_content(0, Some(root), StructType::Heading(1), b"BT /F1 18 Tf 72 780 Td (Title) Tj ET", None).unwrap();

    let saved = doc.save_incremental_to_bytes().unwrap();
    let text = text_of(&saved);
    assert!(text.contains("/Type /StructTreeRoot"));
    assert!(text.contains("/S /Document"));
    assert!(text.contains("/S /H1"));

    let tree = doc.struct_tree().unwrap().unwrap();
    assert_eq!(tree.children[0].struct_type, "Document");
    assert_eq!(tree.children[0].children[0].struct_type, "H1");
}

#[test]
fn test_no_struct_tree_returns_none() {
    let doc = doc_with_pages(1);
    assert!(doc.struct_tree().unwrap().is_none());
}

#[test]
fn parent_tree_lists_elements_per_page_in_key_order() {
    let mut doc = doc_with_pages(2);
    let a = doc.add_tagged_content(1, None, StructType::Paragraph, b"", None).unwrap();
    let b = doc.add_tagged_content(0, None, StructType::Paragraph, b"", None).unwrap();
    let c = doc.add_tagged_content(1, None, StructType::Figure, b"", Some("x")).unwrap();
    let catalog = doc.catalog().unwrap();
    let sr = match catalog.get("StructTreeRoot") {
        Some(Object::Reference(id)) => *id,
        _ => panic!("no root"),
    };
    let root = doc.get_dictionary(sr).unwrap();
    assert_eq!(root.get("ParentTreeNextKey"), Some(&Object::Integer(2)));
    let pt = match root.get("ParentTree") {
        Some(Object::Reference(id)) => *id,
        _ => panic!("no parent tree"),
    };
    let nums = doc.get_dictionary(pt).unwrap();
    let expected = PdfArray::from_objects(vec![
        Object::Integer(0),
        Object::Array(PdfArray::from_objects(vec![Object::Reference(a), Object::Reference(c)])),
        Object::Integer(1),
        Object::Array(PdfArray::from_objects(vec![Object::Reference(b)])),
    ]);
    assert_eq!(nums.get("Nums"), Some(&Object::Array(expected)));
}

#[test]
fn document_structure_root_is_reused() {
    let mut doc = doc_with_pages(1);
    let first = doc.add_document_structure_root().unwrap();
    let second = doc.add_document_structure_root().unwrap();
    assert_eq!(first, second);
}

#[test]
fn catalog_language_and_display_title_are_set() {
    let mut doc = doc_with_pages(1);
    doc.set_document_language("en-US").unwrap();
    doc.set_display_doc_title(true).unwrap();
    let catalog = doc.catalog().unwrap();
    assert_eq!(catalog.get("Lang"), Some(&Object::String(PdfString::literal("en-US"))));
    match catalog.get("ViewerPreferences") {
        Some(Object::Dictionary(vp)) => assert_eq!(vp.get("DisplayDocTitle"), Some(&Object::Boolean(true))),
        other => panic!("no viewer preferences: {other:?}"),
    }
    doc.set_document_language("Zoë").unwrap();
    match doc.catalog().unwrap().get("Lang") {
        Some(Object::String(PdfString::Hex(b))) => assert_eq!(b[..2], [0xFE, 0xFF]),
        other => panic!("expected a UTF-16 string: {other:?}"),
    }
}
