use rust_pdf::object::{Object, PdfDictionary, PdfName};
use rust_pdf::serialize::to_pdf_bytes;

#[test]
fn dictionary_set_replaces_in_place_and_get_reads_back() {
    let mut d = PdfDictionary::new();
    d.set("A", Object::Integer(1));
    d.set("B", Object::Integer(2));
    d.set("A", Object::Integer(3));
    assert_eq!(d.len(), 2);
    assert_eq!(d.get("A"), Some(&Object::Integer(3)));
    assert_eq!(d.remove("A"), Some(Object::Integer(3)));
    assert_eq!(d.get("A"), None);
    assert_eq!(d.get("B"), Some(&Object::Integer(2)));
}

#[test]
fn objects_are_written_in_pdf_syntax() {
    let mut d = PdfDictionary::new();
    d.set("Name", Object::Name(PdfName::new_unchecked("A B#")));
    assert_eq!(to_pdf_bytes(&Object::Dictionary(d)), b"<< /Name /A#20B#23 >>");
}
