use rust_pdf::annotations::{escape_pdf_literal, note_icon_appearance, AnnotationKind};
use rust_pdf::forms::{is_on, text_of};
use rust_pdf::object::{Object, ObjectId, PdfArray, PdfDictionary, PdfName, PdfReal, PdfString};
use rust_pdf::operator::escape_string;
use rust_pdf::pdfa::{is_subset_tagged, stream_uses_lzw, PdfAFlavor, PdfAReport, PdfAViolation};
use rust_pdf::pdfua::{check_figure_alt_text, PdfUaReport};
use rust_pdf::redact::{civil_from_days, collect_codes, format_pdf_date_utc, normalize_rect, now_pdf_date};
use rust_pdf::refs::{collect_all_refs, collect_refs, content_stream_ids, parse_media_box, remap_object};
use rust_pdf::structure::{StructNode, StructType};
use rust_pdf::types::Rectangle;
use rust_pdf::util::{from_pdf_text_string, rect_from_object, rect_to_array, to_pdf_text_string, unique_resource_name};
use rust_pdf::version::PdfVersion;
use std::collections::HashSet;

fn num(x: i64) -> Object {
    Object::Real(PdfReal::from_micros(x * 1_000_000))
}

fn rect(a: i64, b: i64, c: i64, d: i64) -> Rectangle {
    Rectangle::new(
        PdfReal::from_micros(a * 1_000_000),
        PdfReal::from_micros(b * 1_000_000),
        PdfReal::from_micros(c * 1_000_000),
        PdfReal::from_micros(d * 1_000_000),
    )
}

#[test]
fn test_escape_string() {
    assert_eq!(escape_string("Hello"), "Hello");
    assert_eq!(escape_string("Hello (World)"), "Hello \\(World\\)");
    assert_eq!(escape_string("Line1\nLine2"), "Line1\\nLine2");
}

#[test]
fn escape_string_handles_backslash_cr_and_tab() {
    assert_eq!(escape_string("a\\b\rc\td"), "a\\\\b\\rc\\td");
}

#[test]
fn parse_media_box_normalizes_swapped_corners() {
    let arr = PdfArray::from_objects(vec![num(200), num(300), num(0), num(0)]);
    let r = parse_media_box(&arr).expect("swapped corners should still parse");
    assert_eq!(r, rect(0, 0, 200, 300));
}

#[test]
fn parse_media_box_rejects_adversarial_arrays() {
    let too_few = PdfArray::from_objects(vec![num(0), num(0), num(1)]);
    assert!(parse_media_box(&too_few).is_none());
    let non_numeric = PdfArray::from_objects(vec![
        num(0),
        num(0),
        Object::Name(PdfName::new_unchecked("NotANumber")),
        num(100),
    ]);
    assert!(parse_media_box(&non_numeric).is_none());
    let degenerate = PdfArray::from_objects(vec![num(10), num(0), num(10), num(100)]);
    assert!(parse_media_box(&degenerate).is_none());
    let ints = PdfArray::from_objects(vec![Object::Integer(0), Object::Integer(0), Object::Integer(612), Object::Integer(792)]);
    assert_eq!(parse_media_box(&ints), Some(rect(0, 0, 612, 792)));
}

#[test]
fn test_part_number_and_min_version() {
    assert_eq!(PdfAFlavor::Part1B.part_number(), 1);
    assert_eq!(PdfAFlavor::Part2B.part_number(), 2);
    assert_eq!(PdfAFlavor::Part3B.part_number(), 3);
    assert_eq!(PdfAFlavor::Part1B.min_pdf_version(), PdfVersion::V1_4);
    assert_eq!(PdfAFlavor::Part2B.min_pdf_version(), PdfVersion::V1_7);
}

#[test]
fn pdfa_flavor_permissions() {
    assert!(!PdfAFlavor::Part1B.allows_transparency());
    assert!(PdfAFlavor::Part2B.allows_optional_content());
    assert!(!PdfAFlavor::Part2B.allows_embedded_files());
    assert!(PdfAFlavor::Part3B.allows_embedded_files());
}

#[test]
fn reports_are_conformant_exactly_when_empty() {
    let mut report = PdfAReport { flavor: PdfAFlavor::Part2B, violations: Vec::new() };
    assert!(report.is_conformant());
    report.violations.push(PdfAViolation::new("rule", "detail"));
    assert!(!report.is_conformant());
    assert_eq!(report.violations[0].message, "detail");
}

#[test]
fn formats_unix_epoch() {
    assert_eq!(format_pdf_date_utc(0), "D:19700101000000Z");
}

#[test]
fn formats_y2k() {
    assert_eq!(format_pdf_date_utc(946_684_800), "D:20000101000000Z");
}

#[test]
fn formats_with_time_of_day() {
    assert_eq!(format_pdf_date_utc(946_684_800 + 3723), "D:20000101010203Z");
}

#[test]
fn civil_dates_around_leap_days_and_the_epoch() {
    assert_eq!(civil_from_days(0), (1970, 1, 1));
    assert_eq!(civil_from_days(-1), (1969, 12, 31));
    assert_eq!(civil_from_days(11_016), (2000, 2, 29));
    assert_eq!(civil_from_days(11_017), (2000, 3, 1));
    assert_eq!(civil_from_days(-25_508), (1900, 3, 1));
    assert_eq!(civil_from_days(-25_509), (1900, 2, 28));
}

#[test]
fn current_date_has_the_pdf_shape() {
    let d = now_pdf_date();
    assert!(d.starts_with("D:"));
    assert!(d.ends_with('Z'));
    assert_eq!(d.len(), 17);
}

#[test]
fn normalize_rect_orders_corners() {
    assert_eq!(normalize_rect(rect(100, 200, 10, 20)), rect(10, 20, 100, 200));
}

#[test]
fn collect_codes_reads_whole_chunks() {
    let mut out = HashSet::new();
    collect_codes(&[0x01, 0x02, 0x03, 0x04, 0x05], 2, &mut out);
    let expected: HashSet<u32> = [0x0102, 0x0304].into_iter().collect();
    assert_eq!(out, expected);
    let mut single = HashSet::new();
    collect_codes(b"AB", 0, &mut single);
    let expected: HashSet<u32> = [0x41, 0x42].into_iter().collect();
    assert_eq!(single, expected);
}

#[test]
fn test_ascii_round_trips_as_literal() {
    let s = to_pdf_text_string("Hello, World!");
    assert!(matches!(s, PdfString::Literal(_)));
    assert_eq!(from_pdf_text_string(&s), "Hello, World!");
}

#[test]
fn test_non_ascii_round_trips_via_utf16be() {
    let s = to_pdf_text_string("caf\u{e9} \u{2603}");
    assert!(matches!(s, PdfString::Hex(_)));
    assert_eq!(s.as_bytes()[0], 0xFE);
    assert_eq!(s.as_bytes()[1], 0xFF);
    assert_eq!(from_pdf_text_string(&s), "caf\u{e9} \u{2603}");
}

#[test]
fn text_strings_round_trip_outside_the_basic_plane() {
    let text = "note \u{1F600} end";
    let s = to_pdf_text_string(text);
    assert_eq!(&s.as_bytes()[2..], &[0, 0x6E, 0, 0x6F, 0, 0x74, 0, 0x65, 0, 0x20, 0xD8, 0x3D, 0xDE, 0x00, 0, 0x20, 0, 0x65, 0, 0x6E, 0, 0x64]);
    assert_eq!(from_pdf_text_string(&s), text);
}

#[test]
fn lone_surrogates_and_latin1_decode() {
    let lone = PdfString::Hex(vec![0xFE, 0xFF, 0xD8, 0x00, 0x00, 0x41]);
    assert_eq!(from_pdf_text_string(&lone), "\u{FFFD}A");
    let latin = PdfString::Literal(vec![0x63, 0x61, 0x66, 0xE9]);
    assert_eq!(from_pdf_text_string(&latin), "caf\u{e9}");
}

#[test]
fn test_rect_from_object_normalizes_corners() {
    let mut arr = PdfArray::new();
    arr.push(num(100));
    arr.push(num(200));
    arr.push(num(10));
    arr.push(num(20));
    let r = rect_from_object(&Object::Array(arr)).unwrap();
    assert_eq!(r.llx, PdfReal::from_micros(10_000_000));
    assert_eq!(r.lly, PdfReal::from_micros(20_000_000));
    assert_eq!(r.urx, PdfReal::from_micros(100_000_000));
    assert_eq!(r.ury, PdfReal::from_micros(200_000_000));
}

#[test]
fn test_rect_from_object_rejects_malformed() {
    assert!(rect_from_object(&Object::Null).is_none());
    let mut short = PdfArray::new();
    short.push(num(1));
    assert!(rect_from_object(&Object::Array(short)).is_none());
}

#[test]
fn rect_to_array_writes_the_corners_in_order() {
    let arr = rect_to_array(rect(1, 2, 3, 4));
    assert_eq!(arr.len(), 4);
    assert_eq!(arr.get(3), Some(&num(4)));
    assert_eq!(rect_from_object(&Object::Array(arr)), Some(rect(1, 2, 3, 4)));
}

#[test]
fn test_unique_resource_name_avoids_collision() {
    let mut existing = PdfDictionary::new();
    existing.set("Helv", Object::Null);
    assert_eq!(unique_resource_name(&existing, "Arial"), "Arial");
    assert_eq!(unique_resource_name(&existing, "Helv"), "Helv1");
}

#[test]
fn unique_resource_name_takes_the_least_free_number() {
    let mut existing = PdfDictionary::new();
    existing.set("Im", Object::Null);
    existing.set("Im1", Object::Null);
    existing.set("Im3", Object::Null);
    assert_eq!(unique_resource_name(&existing, "Im"), "Im2");
}

#[test]
fn annotation_subtypes_round_trip() {
    let kinds = [
        AnnotationKind::Highlight,
        AnnotationKind::Underline,
        AnnotationKind::StrikeOut,
        AnnotationKind::FreeText,
        AnnotationKind::Stamp,
        AnnotationKind::Ink,
        AnnotationKind::Text,
        AnnotationKind::Popup,
    ];
    for k in kinds {
        assert_eq!(AnnotationKind::from_subtype(k.subtype_name()), k);
    }
    assert_eq!(AnnotationKind::from_subtype("Widget"), AnnotationKind::Other);
    assert_eq!(AnnotationKind::Other.subtype_name(), "");
}

#[test]
fn literal_escape_for_appearances() {
    assert_eq!(escape_pdf_literal("a(b)c\\d\n"), "a\\(b\\)c\\\\d\n");
    assert!(note_icon_appearance().starts_with("q\n"));
    assert!(note_icon_appearance().ends_with("Q\n"));
}

#[test]
fn subset_tags_and_lzw_filters() {
    assert!(is_subset_tagged("ABCDEF+MyFont"));
    assert!(!is_subset_tagged("ABCDeF+MyFont"));
    assert!(is_subset_tagged("ABCDEF+"));
    assert!(!is_subset_tagged("ABCDEF"));
    let mut d = PdfDictionary::new();
    assert!(!stream_uses_lzw(&d));
    d.set("Filter", Object::Name(PdfName::new_unchecked("LZWDecode")));
    assert!(stream_uses_lzw(&d));
    let arr = PdfArray::from_objects(vec![
        Object::Name(PdfName::new_unchecked("ASCII85Decode")),
        Object::Name(PdfName::new_unchecked("LZWDecode")),
    ]);
    d.set("Filter", Object::Array(arr));
    assert!(stream_uses_lzw(&d));
    d.set("Filter", Object::Name(PdfName::new_unchecked("FlateDecode")));
    assert!(!stream_uses_lzw(&d));
}

fn node(n: u32, t: &str, alt: Option<&str>, children: Vec<StructNode>) -> StructNode {
    StructNode {
        id: ObjectId::new(n),
        struct_type: t.to_string(),
        alt_text: alt.map(|s| s.to_string()),
        mcid: None,
        children,
    }
}

#[test]
fn figures_without_alt_text_are_reported_in_document_order() {
    let tree = node(
        1,
        "Document",
        None,
        vec![
            node(2, "Figure", Some("A chart"), vec![]),
            node(3, "Figure", Some("  \t"), vec![node(4, "Figure", None, vec![])]),
            node(5, "P", None, vec![]),
        ],
    );
    let mut v = Vec::new();
    check_figure_alt_text(&tree, &mut v);
    assert_eq!(v.len(), 2);
    assert_eq!(v[0].message, "/Figure structure element 3 0 R has no (or empty) /Alt");
    assert_eq!(v[1].message, "/Figure structure element 4 0 R has no (or empty) /Alt");
    assert_eq!(v[0].rule, "figure alternate text required");
    let report = PdfUaReport { violations: v };
    assert!(!report.is_conformant());
}

#[test]
fn structure_tags() {
    assert_eq!(StructType::Heading(0).tag(), "H");
    assert_eq!(StructType::Heading(2).tag(), "H2");
    assert_eq!(StructType::Heading(9).tag(), "H6");
    assert_eq!(StructType::TableCell.tag(), "TD");
}

#[test]
fn references_are_collected_and_remapped() {
    let mut inner = PdfDictionary::new();
    inner.set("Parent", Object::Reference(ObjectId::new(1)));
    inner.set("Font", Object::Reference(ObjectId::new(2)));
    let arr = PdfArray::from_objects(vec![Object::Reference(ObjectId::new(3)), Object::Dictionary(inner)]);
    let obj = Object::Array(arr);
    let mut all = Vec::new();
    collect_all_refs(&obj, &mut all);
    assert_eq!(all, vec![ObjectId::new(3), ObjectId::new(1), ObjectId::new(2)]);
    let mut some = Vec::new();
    collect_refs(&obj, &mut some);
    assert_eq!(some, vec![ObjectId::new(3), ObjectId::new(2)]);
    let map = [(ObjectId::new(2), ObjectId::new(20))];
    let moved = remap_object(&obj, &map);
    let mut expected_inner = PdfDictionary::new();
    expected_inner.set("Font", Object::Reference(ObjectId::new(20)));
    let expected = Object::Array(PdfArray::from_objects(vec![Object::Null, Object::Dictionary(expected_inner)]));
    assert_eq!(moved, expected);
}

#[test]
fn content_stream_ids_of_reference_and_array() {
    let single = Object::Reference(ObjectId::new(4));
    assert_eq!(content_stream_ids(Some(&single)), vec![ObjectId::new(4)]);
    let arr = Object::Array(PdfArray::from_objects(vec![
        Object::Reference(ObjectId::new(5)),
        Object::Null,
        Object::Reference(ObjectId::new(6)),
    ]));
    assert_eq!(content_stream_ids(Some(&arr)), vec![ObjectId::new(5), ObjectId::new(6)]);
    assert!(content_stream_ids(None).is_empty());
}

#[test]
fn form_values() {
    let s = Object::String(to_pdf_text_string("Jane"));
    assert_eq!(text_of(&s), Some("Jane".to_string()));
    assert_eq!(text_of(&Object::Integer(3)), None);
    let on = Object::Name(PdfName::new_unchecked("Yes"));
    let off = Object::Name(PdfName::new_unchecked("Off"));
    assert!(is_on(Some(&on)));
    assert!(!is_on(Some(&off)));
    assert!(!is_on(None));
}
