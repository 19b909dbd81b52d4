use rust_pdf::graph::{EditableDocument, EditorError, LoadedFile};
use rust_pdf::object::{Object, ObjectId, PdfArray, PdfDictionary, PdfName, PdfReal, PdfStream, PdfString};
use rust_pdf::types::Rectangle;
use rust_pdf::version::PdfVersion;

fn name(s: &str) -> Object {
    Object::Name(PdfName::new_unchecked(s))
}

fn num(x: i64) -> Object {
    Object::Real(PdfReal::from_micros(x * 1_000_000))
}

fn reference(n: u32) -> Object {
    Object::Reference(ObjectId::new(n))
}

/// The objects of a document of `n` A4 pages, each with a content stream
/// showing "Page i": catalog 1, page tree 2, font 3, then page and
/// content pairs.
fn loaded_with_pages(n: u32) -> LoadedFile {
    let mut objects: Vec<(ObjectId, Object)> = Vec::new();
    let mut catalog = PdfDictionary::new();
    catalog.set("Type", name("Catalog"));
    catalog.set("Pages", reference(2));
    objects.push((ObjectId::new(1), Object::Dictionary(catalog)));
    let mut kids = PdfArray::new();
    for i in 0..n {
        kids.push(reference(4 + 2 * i));
    }
    let mut pages = PdfDictionary::new();
    pages.set("Type", name("Pages"));
    pages.set("Kids", Object::Array(kids));
    pages.set("Count", Object::Integer(n as i64));
    objects.push((ObjectId::new(2), Object::Dictionary(pages)));
    let mut font = PdfDictionary::new();
    font.set("Type", name("Font"));
    font.set("Subtype", name("Type1"));
    font.set("BaseFont", name("Helvetica"));
    objects.push((ObjectId::new(3), Object::Dictionary(font)));
    for i in 0..n {
        let mut page = PdfDictionary::new();
        page.set("Type", name("Page"));
        page.set("Parent", reference(2));
        page.set("MediaBox", Object::Array(PdfArray::from_objects(vec![num(0), num(0), num(595), num(842)])));
        let mut fonts = PdfDictionary::new();
        fonts.set("F1", reference(3));
        let mut resources = PdfDictionary::new();
        resources.set("Font", Object::Dictionary(fonts));
        page.set("Resources", Object::Dictionary(resources));
        page.set("Contents", reference(5 + 2 * i));
        objects.push((ObjectId::new(4 + 2 * i), Object::Dictionary(page)));
        let text = format!("BT /F1 12 Tf 72 750 Td (Page {i}) Tj ET");
        let mut d = PdfDictionary::new();
        d.set("Length", Object::Integer(text.len() as i64));
        objects.push((ObjectId::new(5 + 2 * i), Object::Stream(PdfStream::with_dictionary(d, text.into_bytes()))));
    }
    LoadedFile {
        data: b"%PDF-1.7\n% stand-in bytes of the loaded file\n".to_vec(),
        version: PdfVersion::V1_7,
        objects,
        root: ObjectId::new(1),
        info: None,
        id: None,
        startxref: Some(9),
    }
}

fn doc_with_pages(n: u32) -> EditableDocument {
    EditableDocument::from_loaded(loaded_with_pages(n)).unwrap()
}

#[test]
fn test_open_valid_document() {
    let doc = doc_with_pages(3);
    assert_eq!(doc.page_count().unwrap(), 3);
    let ids = doc.page_ids().unwrap();
    assert_eq!(ids.len(), 3);
    assert_ne!(ids[0], ids[1]);
    assert_ne!(ids[1], ids[2]);
}

#[test]
fn test_open_rejects_pdf_without_pages() {
    let mut catalog = PdfDictionary::new();
    catalog.set("Type", name("Catalog"));
    let file = LoadedFile {
        data: Vec::new(),
        version: PdfVersion::V1_7,
        objects: vec![(ObjectId::new(1), Object::Dictionary(catalog))],
        root: ObjectId::new(1),
        info: None,
        id: None,
        startxref: None,
    };
    let result = EditableDocument::from_loaded(file);
    assert!(result.is_err());
}

#[test]
fn test_next_object_number_above_existing_max() {
    let doc = doc_with_pages(1);
    assert!(doc.next_object_number() > 5);
}

#[test]
fn test_cyclic_page_tree_does_not_hang() {
    let mut catalog = PdfDictionary::new();
    catalog.set("Type", name("Catalog"));
    catalog.set("Pages", reference(2));
    let mut pages = PdfDictionary::new();
    pages.set("Type", name("Pages"));
    pages.set("Kids", Object::Array(PdfArray::from_objects(vec![reference(2)])));
    pages.set("Count", Object::Integer(1));
    let file = LoadedFile {
        data: Vec::new(),
        version: PdfVersion::V1_7,
        objects: vec![
            (ObjectId::new(1), Object::Dictionary(catalog)),
            (ObjectId::new(2), Object::Dictionary(pages)),
        ],
        root: ObjectId::new(1),
        info: None,
        id: None,
        startxref: None,
    };
    let doc = EditableDocument::from_loaded(file).unwrap();
    let result = doc.page_ids();
    assert!(result.is_ok());
    assert_eq!(result.unwrap().len(), 0);
}

#[test]
fn test_insert_blank_page_at_start() {
    let mut doc = doc_with_pages(2);
    let original_first = doc.page_id_at(0).unwrap();
    let new_id = doc
        .insert_blank_page(0, PdfReal::from_micros(200_000_000), PdfReal::from_micros(300_000_000))
        .unwrap();
    assert_eq!(doc.page_count().unwrap(), 3);
    assert_eq!(doc.page_id_at(0).unwrap(), new_id);
    assert_eq!(doc.page_id_at(1).unwrap(), original_first);
}

#[test]
fn test_insert_blank_page_out_of_range_errors() {
    let mut doc = doc_with_pages(1);
    assert!(doc
        .insert_blank_page(5, PdfReal::from_micros(100_000_000), PdfReal::from_micros(100_000_000))
        .is_err());
}

#[test]
fn test_delete_page() {
    let mut doc = doc_with_pages(3);
    let keep0 = doc.page_id_at(0).unwrap();
    let keep2 = doc.page_id_at(2).unwrap();
    doc.delete_page(1).unwrap();
    assert_eq!(doc.page_count().unwrap(), 2);
    assert_eq!(doc.page_id_at(0).unwrap(), keep0);
    assert_eq!(doc.page_id_at(1).unwrap(), keep2);
}

#[test]
fn test_delete_page_out_of_range_errors() {
    let mut doc = doc_with_pages(1);
    assert!(doc.delete_page(1).is_err());
}

#[test]
fn test_move_page() {
    let mut doc = doc_with_pages(3);
    let ids: Vec<_> = (0..3).map(|i| doc.page_id_at(i).unwrap()).collect();
    doc.move_page(0, 2).unwrap();
    assert_eq!(doc.page_id_at(0).unwrap(), ids[1]);
    assert_eq!(doc.page_id_at(1).unwrap(), ids[2]);
    assert_eq!(doc.page_id_at(2).unwrap(), ids[0]);
}

#[test]
fn test_rotate_page_accumulates_and_normalizes() {
    let mut doc = doc_with_pages(1);
    let id = doc.page_id_at(0).unwrap();
    assert_eq!(doc.effective_rotate(id).unwrap(), 0);
    doc.rotate_page(0, 90).unwrap();
    assert_eq!(doc.effective_rotate(id).unwrap(), 90);
    doc.rotate_page(0, 90).unwrap();
    assert_eq!(doc.effective_rotate(id).unwrap(), 180);
    doc.rotate_page(0, 270).unwrap();
    assert_eq!(doc.effective_rotate(id).unwrap(), 90);
    doc.rotate_page(0, -180).unwrap();
    assert_eq!(doc.effective_rotate(id).unwrap(), 270);
}

#[test]
fn test_rotate_page_rejects_non_multiple_of_90() {
    let mut doc = doc_with_pages(1);
    assert!(doc.rotate_page(0, 45).is_err());
}

#[test]
fn test_delete_page_prunes_outline_dest() {
    let mut doc = doc_with_pages(2);
    let target = doc.page_id_at(1).unwrap();

    let outline_item_id = doc.allocate_id();
    let mut item = PdfDictionary::new();
    item.set("Title", Object::String(PdfString::literal("Go to p2")));
    let mut dest = PdfArray::new();
    dest.push(Object::Reference(target));
    dest.push(name("Fit"));
    item.set("Dest", Object::Array(dest));
    doc.set_object(outline_item_id, Object::Dictionary(item));

    let outlines_id = doc.allocate_id();
    let mut outlines = PdfDictionary::new();
    outlines.set("Type", name("Outlines"));
    outlines.set("First", Object::Reference(outline_item_id));
    outlines.set("Last", Object::Reference(outline_item_id));
    outlines.set("Count", Object::Integer(1));
    doc.set_object(outlines_id, Object::Dictionary(outlines));

    let mut catalog = doc.catalog().unwrap();
    catalog.set("Outlines", Object::Reference(outlines_id));
    let root = doc.catalog_id();
    doc.set_object(root, Object::Dictionary(catalog));

    doc.delete_page(1).unwrap();

    let item_after = doc.get_dictionary(outline_item_id).unwrap();
    assert!(item_after.get("Dest").is_none(), "dangling /Dest must be stripped");
}

#[test]
fn effective_media_box_reads_the_page_own_mediabox() {
    let doc = doc_with_pages(1);
    let id = doc.page_id_at(0).unwrap();
    let rect = doc.effective_media_box(id).unwrap();
    assert_eq!(rect, Rectangle::a4());
}

#[test]
fn effective_media_box_falls_back_to_letter_when_missing() {
    let mut doc = doc_with_pages(1);
    let id = doc.page_id_at(0).unwrap();
    let mut dict = doc.get_dictionary(id).unwrap();
    dict.remove("MediaBox");
    doc.set_object(id, Object::Dictionary(dict));

    let rect = doc.effective_media_box(id).unwrap();
    assert_eq!(rect, Rectangle::letter());
}

#[test]
fn test_incremental_noop_returns_original_bytes() {
    let file = loaded_with_pages(2);
    let original = file.data.clone();
    let doc = EditableDocument::from_loaded(file).unwrap();
    let saved = doc.save_incremental_to_bytes().unwrap();
    assert_eq!(saved, original);
}

#[test]
fn test_pdfa_compatible_save_never_emits_object_streams_or_xref_streams() {
    let doc = doc_with_pages(10);
    let saved = doc.save_pdfa_compatible_to_bytes(PdfVersion::V1_4, b"0123456789abcdef").unwrap();
    let text = String::from_utf8_lossy(&saved);
    assert!(!text.contains("/ObjStm"), "must not use compressed object streams");
    assert!(!text.contains("/Type/XRef") && !text.contains("/Type /XRef"), "must not use a cross-reference stream");
    assert!(text.contains("\nxref\n"), "must use a classic xref table");
    assert!(text.contains("trailer"), "must use a classic trailer dictionary");
}

// ---- own tests ----

fn count(hay: &[u8], needle: &[u8]) -> usize {
    hay.windows(needle.len()).filter(|w| *w == needle).count()
}

#[test]
fn page_tree_with_intermediate_nodes_is_read_in_document_order() {
    // 1: catalog, 2: root with kids [3 (pages node), 6 (page)], 3: node with kids [4, 5]
    let mut objects = Vec::new();
    let mut catalog = PdfDictionary::new();
    catalog.set("Pages", reference(2));
    objects.push((ObjectId::new(1), Object::Dictionary(catalog)));
    let mut root = PdfDictionary::new();
    root.set("Kids", Object::Array(PdfArray::from_objects(vec![reference(3), reference(6)])));
    objects.push((ObjectId::new(2), Object::Dictionary(root)));
    let mut mid = PdfDictionary::new();
    mid.set("Kids", Object::Array(PdfArray::from_objects(vec![reference(4), reference(5)])));
    mid.set("Rotate", Object::Integer(90));
    mid.set("Parent", reference(2));
    objects.push((ObjectId::new(3), Object::Dictionary(mid)));
    for n in 4..=6 {
        let mut p = PdfDictionary::new();
        p.set("Type", name("Page"));
        p.set("Parent", reference(if n == 6 { 2 } else { 3 }));
        objects.push((ObjectId::new(n), Object::Dictionary(p)));
    }
    let file = LoadedFile {
        data: Vec::new(),
        version: PdfVersion::V1_4,
        objects,
        root: ObjectId::new(1),
        info: None,
        id: None,
        startxref: None,
    };
    let mut doc = EditableDocument::from_loaded(file).unwrap();
    let ids = doc.page_ids().unwrap();
    assert_eq!(ids, vec![ObjectId::new(4), ObjectId::new(5), ObjectId::new(6)]);
    // Rotation is inherited from the intermediate node.
    assert_eq!(doc.effective_rotate(ObjectId::new(4)).unwrap(), 90);
    assert_eq!(doc.effective_rotate(ObjectId::new(6)).unwrap(), 0);
    // Flattening makes every leaf a direct kid of the root.
    let (r, leaves) = doc.flatten_page_tree().unwrap();
    assert_eq!(r, ObjectId::new(2));
    assert_eq!(leaves, ids);
    let leaf = doc.get_dictionary(ObjectId::new(4)).unwrap();
    assert!(matches!(leaf.get("Parent"), Some(Object::Reference(p)) if *p == ObjectId::new(2)));
    let root_after = doc.get_dictionary(ObjectId::new(2)).unwrap();
    assert!(matches!(root_after.get("Count"), Some(Object::Integer(3))));
}

#[test]
fn missing_page_node_is_a_malformed_tree() {
    let mut catalog = PdfDictionary::new();
    catalog.set("Pages", reference(2));
    let mut root = PdfDictionary::new();
    root.set("Kids", Object::Array(PdfArray::from_objects(vec![reference(9)])));
    let file = LoadedFile {
        data: Vec::new(),
        version: PdfVersion::V1_4,
        objects: vec![(ObjectId::new(1), Object::Dictionary(catalog)), (ObjectId::new(2), Object::Dictionary(root))],
        root: ObjectId::new(1),
        info: None,
        id: None,
        startxref: None,
    };
    let doc = EditableDocument::from_loaded(file).unwrap();
    assert_eq!(doc.page_ids(), Err(EditorError::MalformedPageTree(ObjectId::new(9))));
}

#[test]
fn page_index_out_of_range_names_the_count() {
    let doc = doc_with_pages(2);
    assert_eq!(doc.page_id_at(5), Err(EditorError::InvalidPageIndex { index: 5, count: 2 }));
}

#[test]
fn rotation_that_is_not_a_right_angle_is_refused() {
    let mut doc = doc_with_pages(1);
    assert_eq!(doc.rotate_page(0, -45), Err(EditorError::InvalidRotation));
    doc.rotate_page(0, -90).unwrap();
    assert_eq!(doc.effective_rotate(doc.page_id_at(0).unwrap()).unwrap(), 270);
}

#[test]
fn allocated_ids_are_fresh_and_increasing() {
    let mut doc = doc_with_pages(1);
    let a = doc.allocate_id();
    let b = doc.allocate_id();
    assert_eq!(a, ObjectId::new(6));
    assert_eq!(b, ObjectId::new(7));
    assert!(doc.get_object(a).is_none());
}

#[test]
fn annotation_is_appended_to_the_page() {
    let mut doc = doc_with_pages(1);
    let page = doc.page_id_at(0).unwrap();
    doc.add_annot_to_page(page, ObjectId::new(40)).unwrap();
    doc.add_annot_to_page(page, ObjectId::new(41)).unwrap();
    let d = doc.get_dictionary(page).unwrap();
    match d.get("Annots") {
        Some(Object::Array(a)) => {
            assert_eq!(a.len(), 2);
            assert!(matches!(a.get(1), Some(Object::Reference(id)) if *id == ObjectId::new(41)));
        }
        _ => panic!("no /Annots"),
    }
    assert_eq!(doc.add_annot_to_page(ObjectId::new(99), ObjectId::new(40)), Err(EditorError::UnresolvedObject(99, 0)));
}

#[test]
fn reachable_objects_are_visited_breadth_first_and_orphans_dropped() {
    let mut doc = doc_with_pages(2);
    let orphan = doc.allocate_id();
    doc.set_object(orphan, Object::Integer(7));
    let (order, objects) = doc.reachable_objects(&[ObjectId::new(1)]).unwrap();
    let numbers: Vec<u32> = order.iter().map(|id| id.number).collect();
    assert_eq!(numbers, vec![1, 2, 4, 6, 3, 5, 7]);
    assert_eq!(objects.len(), order.len());
    assert!(!order.contains(&orphan));
}

#[test]
fn pdfa_save_renumbers_and_keeps_only_reachable_objects() {
    let mut doc = doc_with_pages(2);
    let orphan = doc.allocate_id();
    doc.set_object(orphan, Object::Integer(7));
    let saved = doc.save_pdfa_compatible_to_bytes(PdfVersion::V1_4, b"abcd").unwrap();
    assert!(saved.starts_with(b"%PDF-1.4\n"));
    assert_eq!(count(&saved, b" 0 obj\n"), 7);
    assert_eq!(count(&saved, b"\n8 0 obj\n"), 0);
    let text = String::from_utf8_lossy(&saved);
    assert!(text.contains("/Root 1 0 R"));
    assert!(text.contains("/ID [<61626364> <61626364>]"));
    assert!(text.ends_with("%%EOF\n"));
}

#[test]
fn full_rewrite_packs_plain_objects_into_an_object_stream() {
    let doc = doc_with_pages(2);
    let saved = doc.save_full_rewrite_to_bytes().unwrap();
    assert!(saved.starts_with(b"%PDF-1.7\n"));
    let text = String::from_utf8_lossy(&saved);
    assert!(text.contains("/Type /ObjStm"));
    assert!(text.contains("/Type /XRef"));
    // Two content streams, one object stream and the cross-reference
    // stream are ordinary objects.
    assert_eq!(count(&saved, b" 0 obj\n"), 4);
    assert!(text.ends_with("%%EOF\n"));
}

#[test]
fn full_rewrite_raises_an_old_version_to_one_point_five() {
    let mut file = loaded_with_pages(1);
    file.version = PdfVersion::V1_3;
    let doc = EditableDocument::from_loaded(file).unwrap();
    let saved = doc.save_full_rewrite_to_bytes().unwrap();
    assert!(saved.starts_with(b"%PDF-1.5\n"));
}

#[test]
fn incremental_save_appends_the_edits_and_chains_to_the_base_xref() {
    let file = loaded_with_pages(1);
    let original = file.data.clone();
    let mut doc = EditableDocument::from_loaded(file).unwrap();
    doc.rotate_page(0, 90).unwrap();
    let saved = doc.save_incremental_to_bytes().unwrap();
    assert!(saved.starts_with(&original));
    let text = String::from_utf8_lossy(&saved[original.len()..]).to_string();
    assert!(text.starts_with("4 0 obj\n"));
    assert!(text.contains("/Rotate 90"));
    assert!(text.contains("xref\n4 1\n"));
    assert!(text.contains("/Prev 9"));
    assert!(text.contains("/Size 6"));
}

#[test]
fn incremental_save_without_a_base_xref_is_refused() {
    let mut file = loaded_with_pages(1);
    file.startxref = None;
    let mut doc = EditableDocument::from_loaded(file).unwrap();
    assert_eq!(doc.save_incremental_to_bytes().map(|_| ()), Ok(()));
    doc.rotate_page(0, 90).unwrap();
    assert_eq!(doc.save_incremental_to_bytes(), Err(EditorError::MissingBaseXref));
}

#[test]
fn test_extract_pages_split() {
    let doc = doc_with_pages(5);
    let split = doc.extract_pages(&[1, 3]).unwrap();
    assert_eq!(split.page_count().unwrap(), 2);
    assert_eq!(split.catalog_id(), split.catalog_id());
}

#[test]
fn test_extract_pages_out_of_range_errors() {
    let doc = doc_with_pages(2);
    assert!(doc.extract_pages(&[0, 9]).is_err());
}

#[test]
fn extract_pages_copies_page_contents_into_fresh_numbers() {
    let doc = doc_with_pages(3);
    let split = doc.extract_pages(&[2]).unwrap();
    let ids = split.page_ids().unwrap();
    assert_eq!(ids.len(), 1);
    let page = split.get_dictionary(ids[0]).unwrap();
    assert!(page.get("Contents").is_some());
    assert_eq!(doc.page_count().unwrap(), 3);
}

// ---- saving, checked on the bytes written ----

#[test]
fn test_incremental_save_appends_and_reopens() {
    let file = loaded_with_pages(3);
    let original = file.data.clone();
    let mut doc = EditableDocument::from_loaded(file).unwrap();
    let page_id = doc.page_id_at(0).unwrap();
    doc.replace_page_text(page_id, "Page 0", "Edited!").unwrap();
    let saved = doc.save_incremental_to_bytes().unwrap();
    assert!(saved.len() > original.len());
    assert!(saved.starts_with(&original));
    assert!(count(&saved, b"Edited!") == 1);
}

#[test]
fn test_full_rewrite_round_trips_and_drops_orphans() {
    let mut doc = doc_with_pages(4);
    doc.delete_page(1).unwrap();
    let rewritten = doc.save_full_rewrite_to_bytes().unwrap();
    assert!(count(&rewritten, b"/Count 3") == 1);
    assert!(count(&rewritten, b"(Page 1)") == 0);
    assert!(count(&rewritten, b"(Page 0)") == 1);
}

#[test]
fn test_full_rewrite_of_untouched_document_preserves_page_count_and_text() {
    let doc = doc_with_pages(5);
    let rewritten = doc.save_full_rewrite_to_bytes().unwrap();
    assert!(count(&rewritten, b"/Count 5") == 1);
    for i in 0..5 {
        assert!(count(&rewritten, format!("(Page {i})").as_bytes()) == 1);
    }
}

#[test]
fn test_pdfa_compatible_save_round_trips() {
    let doc = doc_with_pages(3);
    let saved = doc.save_pdfa_compatible_to_bytes(PdfVersion::V1_4, b"0123456789abcdef").unwrap();
    assert!(saved.starts_with(b"%PDF-1.4\n"));
    assert!(count(&saved, b"/Count 3") == 1);
    for i in 0..3 {
        assert!(count(&saved, format!("(Page {i})").as_bytes()) == 1);
    }
}

#[test]
fn test_pdfa_compatible_save_drops_orphans_like_full_rewrite() {
    let mut doc = doc_with_pages(4);
    doc.delete_page(1).unwrap();
    let saved = doc.save_pdfa_compatible_to_bytes(PdfVersion::V1_7, b"0123456789abcdef").unwrap();
    assert!(saved.starts_with(b"%PDF-1.7\n"));
    assert!(count(&saved, b"/Count 3") == 1);
    assert!(count(&saved, b"(Page 1)") == 0);
}
