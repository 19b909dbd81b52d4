use std::collections::HashSet;

use rust_pdf::graph::{EditableDocument, LoadedFile};
use rust_pdf::object::{Object, ObjectId, PdfArray, PdfDictionary, PdfName, PdfStream};
use rust_pdf::text_extract::{parse_tounicode_cmap, win_ansi_char_of};
use rust_pdf::version::PdfVersion;

fn name(s: &str) -> Object {
    Object::Name(PdfName::new_unchecked(s))
}

fn reference(n: u32) -> Object {
    Object::Reference(ObjectId::new(n))
}

/// A one-page document: catalog 1, page tree 2, page 3 whose resources
/// hold `fonts`, content 4 holding `content`, then `extra` objects from 5.
fn doc(fonts: PdfDictionary, content: &[u8], extra: Vec<Object>) -> EditableDocument {
    let mut objects: Vec<(ObjectId, Object)> = Vec::new();
    let mut catalog = PdfDictionary::new();
    catalog.set("Type", name("Catalog"));
    catalog.set("Pages", reference(2));
    objects.push((ObjectId::new(1), Object::Dictionary(catalog)));
    let mut kids = PdfArray::new();
    kids.push(reference(3));
    let mut pages = PdfDictionary::new();
    pages.set("Type", name("Pages"));
    pages.set("Kids", Object::Array(kids));
    pages.set("Count", Object::Integer(1));
    objects.push((ObjectId::new(2), Object::Dictionary(pages)));
    let mut resources = PdfDictionary::new();
    resources.set("Font", Object::Dictionary(fonts));
    let mut page = PdfDictionary::new();
    page.set("Type", name("Page"));
    page.set("Parent", reference(2));
    page.set("Resources", Object::Dictionary(resources));
    page.set("Contents", reference(4));
    objects.push((ObjectId::new(3), Object::Dictionary(page)));
    objects.push((ObjectId::new(4), Object::Stream(PdfStream::with_dictionary(PdfDictionary::new(), content.to_vec()))));
    for (k, o) in extra.into_iter().enumerate() {
        objects.push((ObjectId::new(5 + k as u32), o));
    }
    let file = LoadedFile {
        data: b"%PDF-1.7\n".to_vec(),
        version: PdfVersion::V1_7,
        objects,
        root: ObjectId::new(1),
        info: None,
        id: None,
        startxref: Some(9),
    };
    EditableDocument::from_loaded(file).unwrap()
}

fn helvetica() -> Object {
    let mut f = PdfDictionary::new();
    f.set("Type", name("Font"));
    f.set("Subtype", name("Type1"));
    f.set("BaseFont", name("Helvetica"));
    Object::Dictionary(f)
}

fn fonts_f1_at_5() -> PdfDictionary {
    let mut fonts = PdfDictionary::new();
    fonts.set("F1", reference(5));
    fonts
}

#[test]
fn extracts_simple_font_text_via_winansi_fallback() {
    let d = doc(fonts_f1_at_5(), b"BT /F1 12 Tf 72 750 Td (Hello) Tj ET", vec![helvetica()]);
    let text = d.extract_page_text(ObjectId::new(3)).unwrap();
    assert!(text.contains("Hello"), "extracted text was: {text:?}");
}

#[test]
fn extracts_latin1_accented_text_via_winansi_fallback() {
    let d = doc(fonts_f1_at_5(), b"BT /F1 12 Tf 72 700 Td (Caf\xE9) Tj ET", vec![helvetica()]);
    let text = d.extract_page_text(ObjectId::new(3)).unwrap();
    assert!(text.contains('\u{E9}'), "extracted text was: {text:?}");
}

#[test]
fn extracts_missing_font_gracefully() {
    let d = doc(PdfDictionary::new(), b"BT /F9 12 Tf (Hi) Tj ET", vec![]);
    let text = d.extract_page_text(ObjectId::new(3)).unwrap();
    assert!(text.contains("Hi"), "extracted text was: {text:?}");
}

#[test]
fn line_operators_and_tj_adjustments_shape_the_text() {
    let d = doc(fonts_f1_at_5(), b"BT /F1 12 Tf (ab) Tj 0 -14 Td [(c) -250 (d) 50 (e)] TJ (f) ' ET", vec![helvetica()]);
    assert_eq!(d.extract_page_text(ObjectId::new(3)).unwrap(), "ab\nc de\nf\n");
}

const CMAP: &[u8] = b"/CIDInit /ProcSet findresource begin 12 dict begin begincmap\n\
1 begincodespacerange <0000> <FFFF> endcodespacerange\n\
2 beginbfchar <0001> <0048> <0002> <00E9> endbfchar\n\
1 beginbfrange <0010> <0012> <0061> endbfrange\n\
1 beginbfrange <0020> <0021> [<0058> <D83DDE00>] endbfrange\n\
endcmap CMapName currentdict /CMap defineresource pop end end";

#[test]
fn tounicode_cmap_maps_chars_and_ranges() {
    let pairs = parse_tounicode_cmap(CMAP);
    let got: Vec<(u32, &str)> = pairs.iter().map(|(c, s)| (*c, s.as_str())).collect();
    assert_eq!(got, vec![(1, "H"), (2, "\u{E9}"), (0x10, "a"), (0x11, "b"), (0x12, "c"), (0x20, "X"), (0x21, "\u{1F600}")]);
}

fn type0_with_tounicode() -> (PdfDictionary, Vec<Object>) {
    let mut f = PdfDictionary::new();
    f.set("Type", name("Font"));
    f.set("Subtype", name("Type0"));
    f.set("ToUnicode", reference(6));
    let mut fonts = PdfDictionary::new();
    fonts.set("F2", reference(5));
    (fonts, vec![Object::Dictionary(f), Object::Stream(PdfStream::with_dictionary(PdfDictionary::new(), CMAP.to_vec()))])
}

#[test]
fn composite_font_decodes_two_byte_codes_through_tounicode() {
    let (fonts, extra) = type0_with_tounicode();
    let d = doc(fonts, b"BT /F2 10 Tf <000100020010001100990021> Tj ET", extra);
    assert_eq!(d.extract_page_text(ObjectId::new(3)).unwrap(), "H\u{E9}ab\u{FFFD}\u{1F600}\n");
}

#[test]
fn win_ansi_table_covers_the_windows_range() {
    assert_eq!(win_ansi_char_of(0x80), '\u{20AC}');
    assert_eq!(win_ansi_char_of(0x93), '\u{201C}');
    assert_eq!(win_ansi_char_of(0x81), '\u{FFFD}');
    assert_eq!(win_ansi_char_of(0x41), 'A');
    assert_eq!(win_ansi_char_of(0xE9), '\u{E9}');
}

#[test]
fn extraction_of_a_missing_page_errors() {
    let d = doc(PdfDictionary::new(), b"", vec![]);
    assert!(d.extract_page_text(ObjectId::new(40)).is_err());
}

#[test]
fn used_codes_are_those_shown_through_the_font() {
    let (fonts, extra) = type0_with_tounicode();
    let d = doc(fonts, b"BT /F2 10 Tf <00010002> Tj [<0010> -20 <0001>] TJ ET BT /F9 1 Tf <0030> Tj ET", extra);
    let used = d.collect_used_codes_for_font(ObjectId::new(5), 2).unwrap();
    let expected: HashSet<u32> = [1u32, 2, 0x10].into_iter().collect();
    assert_eq!(used, expected);
    let one_byte = d.collect_used_codes_for_font(ObjectId::new(5), 0).unwrap();
    let expected_bytes: HashSet<u32> = [0u32, 1, 2, 0x10].into_iter().collect();
    assert_eq!(one_byte, expected_bytes);
}

#[test]
fn a_font_the_page_does_not_name_uses_no_codes() {
    let d = doc(fonts_f1_at_5(), b"BT /F1 12 Tf (abc) Tj ET", vec![helvetica()]);
    assert!(d.collect_used_codes_for_font(ObjectId::new(9), 1).unwrap().is_empty());
}
