use rust_pdf::graph::{EditableDocument, EditorError, LoadedFile};
use rust_pdf::object::{Object, ObjectId, PdfArray, PdfDictionary, PdfName, PdfReal, PdfStream, PdfString};
use rust_pdf::outline::{BookmarkNode, Destination};
use rust_pdf::version::PdfVersion;

fn name(s: &str) -> Object {
    Object::Name(PdfName::new_unchecked(s))
}

fn num(x: i64) -> Object {
    Object::Real(PdfReal::from_micros(x * 1_000_000))
}

fn reference(n: u32) -> Object {
    Object::Reference(ObjectId::new(n))
}

/// The objects of a document of `n` A4 pages, each with a content stream
/// showing "Page i": catalog 1, page tree 2, font 3, then page and
/// content pairs.
fn loaded_with_pages(n: u32) -> LoadedFile {
    let mut objects: Vec<(ObjectId, Object)> = Vec::new();
    let mut catalog = PdfDictionary::new();
    catalog.set("Type", name("Catalog"));
    catalog.set("Pages", reference(2));
    objects.push((ObjectId::new(1), Object::Dictionary(catalog)));
    let mut kids = PdfArray::new();
    for i in 0..n {
        kids.push(reference(4 + 2 * i));
    }
    let mut pages = PdfDictionary::new();
    pages.set("Type", name("Pages"));
    pages.set("Kids", Object::Array(kids));
    pages.set("Count", Object::Integer(n as i64));
    objects.push((ObjectId::new(2), Object::Dictionary(pages)));
    let mut font = PdfDictionary::new();
    font.set("Type", name("Font"));
    font.set("Subtype", name("Type1"));
    font.set("BaseFont", name("Helvetica"));
    objects.push((ObjectId::new(3), Object::Dictionary(font)));
    for i in 0..n {
        let mut page = PdfDictionary::new();
        page.set("Type", name("Page"));
        page.set("Parent", reference(2));
        page.set("MediaBox", Object::Array(PdfArray::from_objects(vec![num(0), num(0), num(595), num(842)])));
        let mut fonts = PdfDictionary::new();
        fonts.set("F1", reference(3));
        let mut resources = PdfDictionary::new();
        resources.set("Font", Object::Dictionary(fonts));
        page.set("Resources", Object::Dictionary(resources));
        page.set("Contents", reference(5 + 2 * i));
        objects.push((ObjectId::new(4 + 2 * i), Object::Dictionary(page)));
        let text = format!("BT /F1 12 Tf 72 750 Td (Page {i}) Tj ET");
        let mut d = PdfDictionary::new();
        d.set("Length", Object::Integer(text.len() as i64));
        objects.push((ObjectId::new(5 + 2 * i), Object::Stream(PdfStream::with_dictionary(d, text.into_bytes()))));
    }
    LoadedFile {
        data: b"%PDF-1.7\n% stand-in bytes of the loaded file\n".to_vec(),
        version: PdfVersion::V1_7,
        objects,
        root: ObjectId::new(1),
        info: None,
        id: None,
        startxref: Some(9),
    }
}

fn doc_with_pages(n: u32) -> EditableDocument {
    EditableDocument::from_loaded(loaded_with_pages(n)).unwrap()
}

fn contains(haystack: &[u8], needle: &[u8]) -> bool {
    haystack.windows(needle.len()).any(|w| w == needle)
}

fn titles(nodes: &[BookmarkNode]) -> Vec<String> {
    nodes.iter().map(|b| b.title.clone()).collect()
}

#[test]
fn test_add_and_list_top_level_bookmarks() {
    let mut doc = doc_with_pages(3);
    doc.add_bookmark(None, "Chapter 1", Destination::fit(0)).unwrap();
    doc.add_bookmark(None, "Chapter 2", Destination::fit(1)).unwrap();

    let bookmarks = doc.list_bookmarks().unwrap();
    assert_eq!(bookmarks.len(), 2);
    assert_eq!(bookmarks[0].title, "Chapter 1");
    assert_eq!(bookmarks[0].dest, Some(Destination::FitPage { page_index: 0 }));
    assert_eq!(bookmarks[1].title, "Chapter 2");
    assert_eq!(bookmarks[1].dest, Some(Destination::FitPage { page_index: 1 }));
}

#[test]
fn test_add_nested_bookmark() {
    let mut doc = doc_with_pages(3);
    let parent = doc.add_bookmark(None, "Part I", Destination::fit(0)).unwrap();
    doc.add_bookmark(Some(parent), "Section 1.1", Destination::fit(1)).unwrap();
    doc.add_bookmark(Some(parent), "Section 1.2", Destination::fit(2)).unwrap();

    let bookmarks = doc.list_bookmarks().unwrap();
    assert_eq!(bookmarks.len(), 1);
    assert_eq!(bookmarks[0].children.len(), 2);
    assert_eq!(bookmarks[0].children[0].title, "Section 1.1");
    assert_eq!(bookmarks[0].children[1].title, "Section 1.2");
}

#[test]
fn test_xyz_destination_round_trips() {
    let mut doc = doc_with_pages(1);
    let dest = Destination::Xyz {
        page_index: 0,
        left: Some(PdfReal::from_micros(10_000_000)),
        top: Some(PdfReal::from_micros(700_000_000)),
        zoom: Some(PdfReal::from_micros(1_500_000)),
    };
    doc.add_bookmark(None, "Top", dest).unwrap();
    let bookmarks = doc.list_bookmarks().unwrap();
    assert_eq!(bookmarks[0].dest, Some(dest));
}

#[test]
fn test_bookmark_survives_incremental_save() {
    let mut doc = doc_with_pages(2);
    doc.add_bookmark(None, "Intro", Destination::fit(0)).unwrap();
    let saved = doc.save_incremental_to_bytes().unwrap();
    assert!(saved.starts_with(doc.file_bytes()));
    assert!(contains(&saved, b"/Title (Intro)"));
    assert!(contains(&saved, b"/Type /Outlines"));
}

#[test]
fn test_remove_bookmark_relinks_siblings() {
    let mut doc = doc_with_pages(3);
    doc.add_bookmark(None, "One", Destination::fit(0)).unwrap();
    let two = doc.add_bookmark(None, "Two", Destination::fit(1)).unwrap();
    doc.add_bookmark(None, "Three", Destination::fit(2)).unwrap();

    doc.remove_bookmark(two).unwrap();
    let bookmarks = doc.list_bookmarks().unwrap();
    assert_eq!(titles(&bookmarks), vec!["One", "Three"]);
}

#[test]
fn test_remove_first_and_last_bookmark() {
    let mut doc = doc_with_pages(2);
    let one = doc.add_bookmark(None, "One", Destination::fit(0)).unwrap();
    let two = doc.add_bookmark(None, "Two", Destination::fit(1)).unwrap();

    doc.remove_bookmark(one).unwrap();
    assert_eq!(doc.list_bookmarks().unwrap()[0].title, "Two");

    doc.remove_bookmark(two).unwrap();
    assert!(doc.list_bookmarks().unwrap().is_empty());
}

#[test]
fn test_remove_nonexistent_bookmark_errors() {
    let mut doc = doc_with_pages(1);
    assert!(doc.remove_bookmark(ObjectId::new(9999)).is_err());
}

#[test]
fn test_named_destination_round_trip() {
    let mut doc = doc_with_pages(3);
    doc.add_named_destination("chapter2", Destination::fit(1)).unwrap();
    doc.add_named_destination("appendix", Destination::fit(2)).unwrap();

    assert_eq!(doc.get_named_destination("chapter2").unwrap(), Some(Destination::FitPage { page_index: 1 }));
    let mut names = doc.named_destinations().unwrap();
    names.sort();
    assert_eq!(names, vec!["appendix", "chapter2"]);
    assert_eq!(doc.get_named_destination("missing").unwrap(), None);
}

#[test]
fn test_named_destination_survives_incremental_save() {
    let mut doc = doc_with_pages(2);
    doc.add_named_destination("start", Destination::fit(0)).unwrap();
    let saved = doc.save_incremental_to_bytes().unwrap();
    assert!(contains(&saved, b"/Names [(start) [4 0 R /Fit]]"));
    assert_eq!(doc.get_named_destination("start").unwrap(), Some(Destination::FitPage { page_index: 0 }));
}

#[test]
fn test_add_named_destination_replaces_existing() {
    let mut doc = doc_with_pages(3);
    doc.add_named_destination("target", Destination::fit(0)).unwrap();
    doc.add_named_destination("target", Destination::fit(2)).unwrap();
    assert_eq!(doc.get_named_destination("target").unwrap(), Some(Destination::FitPage { page_index: 2 }));
    assert_eq!(doc.named_destinations().unwrap().len(), 1);
}

#[test]
fn test_bookmark_pointing_at_out_of_range_page_errors() {
    let mut doc = doc_with_pages(1);
    assert!(doc.add_bookmark(None, "Bad", Destination::fit(5)).is_err());
}

#[test]
fn test_cyclic_next_chain_does_not_hang() {
    let mut doc = doc_with_pages(1);
    let a = doc.allocate_id();
    let b = doc.allocate_id();
    let mut a_dict = PdfDictionary::new();
    a_dict.set("Title", Object::String(PdfString::literal("A")));
    a_dict.set("Next", Object::Reference(b));
    doc.set_object(a, Object::Dictionary(a_dict));
    let mut b_dict = PdfDictionary::new();
    b_dict.set("Title", Object::String(PdfString::literal("B")));
    b_dict.set("Next", Object::Reference(a));
    doc.set_object(b, Object::Dictionary(b_dict));

    let outlines_id = doc.allocate_id();
    let mut outlines = PdfDictionary::new();
    outlines.set("Type", Object::Name(PdfName::new_unchecked("Outlines")));
    outlines.set("First", Object::Reference(a));
    doc.set_object(outlines_id, Object::Dictionary(outlines));
    let mut catalog = doc.catalog().unwrap();
    catalog.set("Outlines", Object::Reference(outlines_id));
    let root = doc.catalog_id();
    doc.set_object(root, Object::Dictionary(catalog));

    let bookmarks = doc.list_bookmarks().unwrap();
    assert_eq!(bookmarks.len(), 2);
}

#[test]
fn named_destinations_are_kept_sorted() {
    let mut doc = doc_with_pages(3);
    doc.add_named_destination("zeta", Destination::fit(0)).unwrap();
    doc.add_named_destination("alpha", Destination::fit(1)).unwrap();
    doc.add_named_destination("mid", Destination::fit(2)).unwrap();
    assert_eq!(doc.named_destinations().unwrap(), vec!["alpha", "mid", "zeta"]);
}

#[test]
fn bookmark_counts_follow_adds_and_removes() {
    let mut doc = doc_with_pages(3);
    let part = doc.add_bookmark(None, "Part", Destination::fit(0)).unwrap();
    let s1 = doc.add_bookmark(Some(part), "S1", Destination::fit(1)).unwrap();
    doc.add_bookmark(Some(part), "S2", Destination::fit(2)).unwrap();
    let root = match doc.catalog().unwrap().get("Outlines") {
        Some(Object::Reference(id)) => *id,
        other => panic!("no outline root: {other:?}"),
    };
    let count = |doc: &EditableDocument, id: ObjectId| match doc.get_dictionary(id).unwrap().get("Count") {
        Some(Object::Integer(c)) => *c,
        _ => 0,
    };
    assert_eq!(count(&doc, root), 3);
    assert_eq!(count(&doc, part), 2);
    doc.remove_bookmark(s1).unwrap();
    assert_eq!(count(&doc, root), 2);
    assert_eq!(count(&doc, part), 1);
    doc.remove_bookmark(part).unwrap();
    assert_eq!(count(&doc, root), 0);
    assert!(doc.list_bookmarks().unwrap().is_empty());
}

#[test]
fn bookmark_resolves_named_and_goto_destinations() {
    let mut doc = doc_with_pages(2);
    doc.add_named_destination("second", Destination::fit(1)).unwrap();
    let item = doc.add_bookmark(None, "Named", Destination::fit(0)).unwrap();
    let mut d = doc.get_dictionary(item).unwrap();
    d.set("Dest", Object::String(PdfString::literal("second")));
    doc.set_object(item, Object::Dictionary(d));
    assert_eq!(doc.list_bookmarks().unwrap()[0].dest, Some(Destination::FitPage { page_index: 1 }));

    let mut d = doc.get_dictionary(item).unwrap();
    d.remove("Dest");
    let mut action = PdfDictionary::new();
    action.set("S", Object::Name(PdfName::new_unchecked("GoTo")));
    action.set("D", Object::Name(PdfName::new_unchecked("second")));
    d.set("A", Object::Dictionary(action));
    doc.set_object(item, Object::Dictionary(d));
    assert_eq!(doc.list_bookmarks().unwrap()[0].dest, Some(Destination::FitPage { page_index: 1 }));
}

#[test]
fn self_referring_named_destination_does_not_resolve() {
    let mut doc = doc_with_pages(1);
    doc.add_named_destination("loop", Destination::fit(0)).unwrap();
    let dests = {
        let catalog = doc.catalog().unwrap();
        let names_id = match catalog.get("Names") {
            Some(Object::Reference(id)) => *id,
            _ => panic!("no names"),
        };
        match doc.get_dictionary(names_id).unwrap().get("Dests") {
            Some(Object::Reference(id)) => *id,
            _ => panic!("no dests"),
        }
    };
    let mut d = doc.get_dictionary(dests).unwrap();
    let arr = PdfArray::from_objects(vec![Object::String(PdfString::literal("loop")), Object::Name(PdfName::new_unchecked("loop"))]);
    d.set("Names", Object::Array(arr));
    doc.set_object(dests, Object::Dictionary(d));
    assert_eq!(doc.get_named_destination("loop").unwrap(), None);
    assert_eq!(doc.remove_bookmark(dests), Err(EditorError::OutlineItemNotFound(dests.number, dests.generation)));
}
