use rust_pdf::content_stream::{parse_content_stream, replace_text_in_items, serialize_content_stream, ContentItem};
use rust_pdf::object::Object;

fn op_names(items: &[ContentItem]) -> Vec<String> {
    items
        .iter()
        .filter_map(|i| match i {
            ContentItem::Op { operator, .. } => Some(operator.clone()),
            _ => None,
        })
        .collect()
}

#[test]
fn test_roundtrip_simple_operators() {
    let src = b"q 1 0 0 rg 100 100 200 150 re f Q";
    let items = parse_content_stream(src);
    assert_eq!(items.len(), 5);
    match &items[0] {
        ContentItem::Op { operator, operands } => {
            assert_eq!(operator, "q");
            assert!(operands.is_empty());
        }
        other => panic!("expected Op, got {other:?}"),
    }
    let out = serialize_content_stream(&items);
    let out_str = String::from_utf8(out).unwrap();
    assert!(out_str.contains("1 0 0 rg"));
    assert!(out_str.contains("100 100 200 150 re"));
}

#[test]
fn test_parse_text_showing_operators() {
    let src = b"BT /F1 12 Tf (Hello) Tj ET";
    let items = parse_content_stream(src);
    assert_eq!(op_names(&items), vec!["BT", "Tf", "Tj", "ET"]);
}

#[test]
fn test_parse_tj_array() {
    let src = b"[(Hello) -250 (World)] TJ";
    let items = parse_content_stream(src);
    match &items[0] {
        ContentItem::Op { operator, operands } => {
            assert_eq!(operator, "TJ");
            assert_eq!(operands.len(), 1);
            match &operands[0] {
                Object::Array(arr) => assert_eq!(arr.len(), 3),
                other => panic!("expected array, got {other:?}"),
            }
        }
        other => panic!("expected Op, got {other:?}"),
    }
}

#[test]
fn test_replace_text_in_tj() {
    let src = b"BT (Hello World) Tj ET";
    let mut items = parse_content_stream(src);
    let count = replace_text_in_items(&mut items, b"World", b"Rust");
    assert_eq!(count, 1);
    let out = serialize_content_stream(&items);
    assert!(String::from_utf8(out).unwrap().contains("Hello Rust"));
}

#[test]
fn test_replace_text_in_tj_array() {
    let src = b"[(Hello) -250 (World)] TJ";
    let mut items = parse_content_stream(src);
    let count = replace_text_in_items(&mut items, b"World", b"Rust!!");
    assert_eq!(count, 1);
    let out = String::from_utf8(serialize_content_stream(&items)).unwrap();
    assert!(out.contains("Rust!!"));
    assert!(!out.contains("World"));
}

#[test]
fn test_malformed_trailing_bytes_preserved_not_dropped() {
    let src = b"q Q (unterminated";
    let items = parse_content_stream(src);
    assert!(matches!(items.last(), Some(ContentItem::Raw(_))));
    let out = serialize_content_stream(&items);
    assert!(out.ends_with(b"(unterminated"));
}

#[test]
fn test_comment_is_skipped() {
    let src = b"q % this is a comment\nQ";
    let items = parse_content_stream(src);
    assert_eq!(op_names(&items), vec!["q", "Q"]);
}

#[test]
fn test_empty_stream() {
    assert!(parse_content_stream(b"").is_empty());
    assert!(parse_content_stream(b"   \n  ").is_empty());
}

#[test]
fn reparsing_serialized_items_gives_them_back() {
    let src = b"q 0.5 0 0 1.25 -3 4 cm /F1 12 Tf [(A\\(b\\)) -120 <48656C6C6F>] TJ /Name#20x gs Q";
    let items = parse_content_stream(src);
    let out = serialize_content_stream(&items);
    let again = parse_content_stream(&out);
    assert_eq!(again, items);
}

#[test]
fn inline_image_is_kept_whole() {
    let src = b"q BI /W 1 /H 1 /BPC 8 ID \x01\x02 EI Q";
    let items = parse_content_stream(src);
    assert_eq!(items.len(), 3);
    assert!(matches!(items[1], ContentItem::InlineImage(_)));
    let out = serialize_content_stream(&items);
    let again = parse_content_stream(&out);
    assert_eq!(again, items);
}

#[test]
fn replacing_with_empty_needle_changes_nothing() {
    let mut items = parse_content_stream(b"(abc) Tj");
    let count = replace_text_in_items(&mut items, b"", b"x");
    assert_eq!(count, 0);
    assert_eq!(items, parse_content_stream(b"(abc) Tj"));
}

#[test]
fn replacement_counts_operands_changed() {
    let mut items = parse_content_stream(b"(aXaXa) Tj [(Xa) 10 (X)] TJ");
    let count = replace_text_in_items(&mut items, b"X", b"YY");
    assert_eq!(count, 3);
    let out = String::from_utf8(serialize_content_stream(&items)).unwrap();
    assert!(out.contains("(aYYaYYa) Tj"));
}

#[test]
fn replacement_counts_a_string_with_two_matches_once() {
    let mut items = parse_content_stream(b"BT (World World) Tj ET");
    let count = replace_text_in_items(&mut items, b"World", b"Rust");
    assert_eq!(count, 1);
    let out = String::from_utf8(serialize_content_stream(&items)).unwrap();
    assert!(out.contains("(Rust Rust) Tj"));
}
