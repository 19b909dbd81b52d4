use rust_pdf::audit::{
    build_log_stream, load_from_catalog, parse_log, serialize_log, AuditArea, RedactionAuditEntry,
    AUDIT_LOG_CATALOG_KEY, MAX_AUDIT_LOG_BYTES,
};
use rust_pdf::object::{Object, ObjectId, PdfDictionary};

const MAGIC: &[u8; 8] = b"RPDFAUD1";

fn sample_entry() -> RedactionAuditEntry {
    RedactionAuditEntry {
        actor: "alice@example.com".to_string(),
        reason: "PII removal".to_string(),
        timestamp: "D:20260702120000Z".to_string(),
        page_index: Some(2),
        area: Some(AuditArea {
            llx: 10.0f64.to_bits(),
            lly: 20.0f64.to_bits(),
            urx: 110.0f64.to_bits(),
            ury: 60.0f64.to_bits(),
        }),
        text_runs_removed: 3,
        images_removed: 1,
        tounicode_entries_pruned: 5,
    }
}

#[test]
fn round_trips_a_single_entry() {
    let entries = vec![sample_entry()];
    let bytes = serialize_log(&entries);
    let parsed = parse_log(&bytes);
    assert_eq!(parsed, entries);
}

#[test]
fn round_trips_multiple_entries_and_whole_document_scope() {
    let mut e2 = sample_entry();
    e2.page_index = None;
    e2.area = None;
    e2.actor = "bob".to_string();
    let entries = vec![sample_entry(), e2];
    let bytes = serialize_log(&entries);
    let parsed = parse_log(&bytes);
    assert_eq!(parsed, entries);
}

#[test]
fn empty_log_round_trips() {
    let bytes = serialize_log(&[]);
    assert!(parse_log(&bytes).is_empty());
}

#[test]
fn rejects_bad_magic() {
    assert!(parse_log(b"NOTALOG!\x00\x00\x00\x00").is_empty());
}

#[test]
fn truncated_input_does_not_panic_and_returns_partial_results() {
    let entries = vec![sample_entry(), sample_entry()];
    let bytes = serialize_log(&entries);
    let truncated = &bytes[..bytes.len() - 5];
    let parsed = parse_log(truncated);
    assert_eq!(parsed.len(), 1);
    assert_eq!(parsed[0], entries[0]);
}

#[test]
fn claimed_entry_count_far_beyond_actual_data_does_not_panic_or_hang() {
    let mut bytes = Vec::new();
    bytes.extend_from_slice(MAGIC);
    bytes.extend_from_slice(&u32::MAX.to_be_bytes());
    let parsed = parse_log(&bytes);
    assert!(parsed.is_empty());
}

#[test]
fn oversized_input_is_rejected_outright() {
    let huge = vec![0u8; MAX_AUDIT_LOG_BYTES + 1];
    assert!(parse_log(&huge).is_empty());
}

#[test]
fn serialized_log_starts_with_magic_and_count() {
    let bytes = serialize_log(&[sample_entry(), sample_entry()]);
    assert_eq!(&bytes[..8], MAGIC);
    assert_eq!(&bytes[8..12], &[0, 0, 0, 2]);
}

#[test]
fn invalid_utf8_in_a_field_is_read_lossily() {
    let mut bytes = Vec::new();
    bytes.extend_from_slice(MAGIC);
    bytes.extend_from_slice(&1u32.to_be_bytes());
    bytes.extend_from_slice(&u32::MAX.to_be_bytes());
    bytes.push(0);
    bytes.extend_from_slice(&[0u8; 12]);
    for field in [&b"a\xffb"[..], b"r", b"t"] {
        bytes.extend_from_slice(&(field.len() as u32).to_be_bytes());
        bytes.extend_from_slice(field);
    }
    let parsed = parse_log(&bytes);
    assert_eq!(parsed.len(), 1);
    assert_eq!(parsed[0].actor, "a\u{FFFD}b");
}

#[test]
fn log_stream_holds_the_serialized_log() {
    let entries = vec![sample_entry()];
    let stream = build_log_stream(&entries);
    assert_eq!(stream.data, serialize_log(&entries));
    match stream.dictionary.get("Type") {
        Some(Object::Name(n)) => assert_eq!(n.as_str(), "RustPdfRedactionLog"),
        other => panic!("unexpected {other:?}"),
    }
}

#[test]
fn log_is_loaded_through_the_catalog_reference() {
    let entries = vec![sample_entry()];
    let bytes = serialize_log(&entries);
    let mut catalog = PdfDictionary::new();
    catalog.set(AUDIT_LOG_CATALOG_KEY, Object::Reference(ObjectId::new(7)));
    let loaded = load_from_catalog(&catalog, |id| if id.number == 7 { Some(bytes.clone()) } else { None });
    assert_eq!(loaded, entries);
    let missing = load_from_catalog(&catalog, |_| None);
    assert!(missing.is_empty());
    let empty = load_from_catalog(&PdfDictionary::new(), |_| Some(bytes.clone()));
    assert!(empty.is_empty());
}
