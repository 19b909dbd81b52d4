use rust_pdf::object::{Object, ObjectId, PdfDictionary, PdfName, PdfStream};
use rust_pdf::writer::{
    build_xref_stream, is_metadata_stream, remap_all, write_classic_xref_and_trailer,
    write_encrypted_xref_and_trailer, write_incremental_xref_and_trailer, write_indirect_object,
    write_stream_object, XrefTarget,
};
use std::collections::HashMap;

#[test]
fn indirect_objects_are_framed() {
    let mut out = Vec::new();
    write_indirect_object(&mut out, ObjectId::new(3), &Object::Integer(-42));
    assert_eq!(out, b"3 0 obj\n-42\nendobj\n");
    let mut d = PdfDictionary::new();
    d.set("Length", Object::Integer(2));
    let s = PdfStream::with_dictionary(d, b"ab".to_vec());
    let mut out2 = Vec::new();
    write_stream_object(&mut out2, ObjectId::with_generation(4, 1), &s);
    assert_eq!(out2, b"4 1 obj\n<< /Length 2 >>\nstream\nab\nendstream\nendobj\n");
}

#[test]
fn incremental_xref_groups_consecutive_numbers() {
    let mut out = Vec::new();
    write_incremental_xref_and_trailer(
        &mut out,
        &[(1, 10), (2, 20), (5, 50)],
        6,
        ObjectId::new(1),
        None,
        1234,
    );
    let expected = "xref\n1 2\n0000000010 00000 n \n0000000020 00000 n \n5 1\n0000000050 00000 n \ntrailer\n<< /Size 6 /Root 1 0 R /Prev 1234 >>\n";
    assert_eq!(String::from_utf8(out).unwrap(), expected);
}

#[test]
fn classic_xref_lists_every_offset() {
    let mut out = Vec::new();
    write_classic_xref_and_trailer(
        &mut out,
        &[(1, 15), (2, 99)],
        3,
        ObjectId::new(1),
        Some(ObjectId::new(2)),
        Some((vec![0xAB], vec![0x01, 0x02])),
    );
    let expected = "xref\n0 3\n0000000000 65535 f \n0000000015 00000 n \n0000000099 00000 n \ntrailer\n<< /Size 3 /Root 1 0 R /Info 2 0 R /ID [<AB> <0102>] >>\n";
    assert_eq!(String::from_utf8(out).unwrap(), expected);
}

#[test]
fn encrypted_xref_names_the_encrypt_dictionary() {
    let mut out = Vec::new();
    write_encrypted_xref_and_trailer(&mut out, &[(1, 9)], 3, ObjectId::new(1), None, ObjectId::new(2), vec![0x0F]);
    let expected = "xref\n0 3\n0000000000 65535 f \n0000000009 00000 n \ntrailer\n<< /Size 3 /Root 1 0 R /Encrypt 2 0 R /ID [<0F> <0F>] >>\n";
    assert_eq!(String::from_utf8(out).unwrap(), expected);
}

#[test]
fn xref_stream_records() {
    let mut xref = HashMap::new();
    xref.insert(1u32, XrefTarget::Offset(0x0102_0304));
    xref.insert(2u32, XrefTarget::Compressed { stream: 7, index: 3 });
    let s = build_xref_stream(4, &xref, ObjectId::new(1), None, None);
    assert_eq!(
        s.data,
        vec![0, 0, 0, 0, 0, 0xFF, 0xFF, 1, 1, 2, 3, 4, 0, 0, 2, 0, 0, 0, 7, 0, 3, 0, 0, 0, 0, 0, 0xFF, 0xFF]
    );
    assert_eq!(s.dictionary.get("Size"), Some(&Object::Integer(4)));
    assert_eq!(s.dictionary.get("Length"), Some(&Object::Integer(28)));
}

#[test]
fn metadata_streams_are_recognised() {
    let mut d = PdfDictionary::new();
    assert!(!is_metadata_stream(&d));
    d.set("Type", Object::Name(PdfName::new_unchecked("Metadata")));
    assert!(is_metadata_stream(&d));
    d.set("Type", Object::Name(PdfName::new_unchecked("XObject")));
    assert!(!is_metadata_stream(&d));
}

#[test]
fn remap_all_rewrites_and_nulls_references() {
    let mut d = PdfDictionary::new();
    d.set("A", Object::Reference(ObjectId::new(5)));
    d.set("B", Object::Reference(ObjectId::new(6)));
    let map = [(ObjectId::new(5), ObjectId::new(1))];
    let r = remap_all(&Object::Dictionary(d), &map);
    let mut expected = PdfDictionary::new();
    expected.set("A", Object::Reference(ObjectId::new(1)));
    expected.set("B", Object::Null);
    assert_eq!(r, Object::Dictionary(expected));
}
