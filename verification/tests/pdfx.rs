use rust_pdf::graph::{EditableDocument, LoadedFile};
use rust_pdf::icc::IccColorSpace;
use rust_pdf::object::{Object, ObjectId, PdfArray, PdfDictionary, PdfName, PdfStream};
use rust_pdf::pdfx::{content_violation, image_violation};
use rust_pdf::version::PdfVersion;

fn name(s: &str) -> Object {
    Object::Name(PdfName::new_unchecked(s))
}

fn reference(n: u32) -> Object {
    Object::Reference(ObjectId::new(n))
}

fn fake_icc_profile(space: IccColorSpace) -> Vec<u8> {
    let mut data = vec![0u8; 200];
    let size = (data.len() as u32).to_be_bytes();
    data[0..4].copy_from_slice(&size);
    data[12..16].copy_from_slice(b"mntr");
    let sig: &[u8; 4] = match space {
        IccColorSpace::Gray => b"GRAY",
        IccColorSpace::Rgb => b"RGB ",
        IccColorSpace::Cmyk => b"CMYK",
    };
    data[16..20].copy_from_slice(sig);
    data[20..24].copy_from_slice(b"XYZ ");
    data[36..40].copy_from_slice(b"acsp");
    data
}

/// Catalog 1, page tree 2, page 3 with the given resources, content 4.
fn one_page(resources: PdfDictionary) -> EditableDocument {
    let mut objects: Vec<(ObjectId, Object)> = Vec::new();
    let mut catalog = PdfDictionary::new();
    catalog.set("Type", name("Catalog"));
    catalog.set("Pages", reference(2));
    objects.push((ObjectId::new(1), Object::Dictionary(catalog)));
    let mut pages = PdfDictionary::new();
    pages.set("Type", name("Pages"));
    pages.set("Kids", Object::Array(PdfArray::from_objects(vec![reference(3)])));
    pages.set("Count", Object::Integer(1));
    objects.push((ObjectId::new(2), Object::Dictionary(pages)));
    let mut page = PdfDictionary::new();
    page.set("Type", name("Page"));
    page.set("Parent", reference(2));
    page.set("Resources", Object::Dictionary(resources));
    page.set("Contents", reference(4));
    objects.push((ObjectId::new(3), Object::Dictionary(page)));
    objects.push((ObjectId::new(4), Object::Stream(PdfStream::with_dictionary(PdfDictionary::new(), b"BT ET".to_vec()))));
    let file = LoadedFile {
        data: b"%PDF-1.7\n".to_vec(),
        version: PdfVersion::V1_7,
        objects,
        root: ObjectId::new(1),
        info: None,
        id: None,
        startxref: Some(9),
    };
    EditableDocument::from_loaded(file).unwrap()
}

fn doc_with_one_page() -> EditableDocument {
    one_page(PdfDictionary::new())
}

#[test]
fn test_missing_output_intent_and_no_rgb_use_is_reported() {
    let doc = doc_with_one_page();
    let report = doc.validate_pdfx_color().unwrap();
    assert!(!report.is_conformant());
    assert_eq!(report.violations.len(), 1);
    assert!(report.violations[0].rule.contains("output intent"));
}

#[test]
fn test_device_rgb_fill_is_flagged() {
    let mut doc = doc_with_one_page();
    let page_id = doc.page_id_at(0).unwrap();
    doc.replace_page_content(page_id, b"q\n1 0 0 rg\n0 0 10 10 re\nf\nQ\n").unwrap();
    let icc = fake_icc_profile(IccColorSpace::Cmyk);
    doc.add_pdfx_output_intent(&icc, "FOGRA39", "Coated").unwrap();
    let report = doc.validate_pdfx_color().unwrap();
    assert!(report.violations.iter().any(|v| v.message.contains("DeviceRGB")), "violations: {:#?}", report.violations);
}

#[test]
fn test_cmyk_fill_with_output_intent_is_conformant() {
    let mut doc = doc_with_one_page();
    let page_id = doc.page_id_at(0).unwrap();
    doc.replace_page_content(page_id, b"q\n0 0 0 1 k\n0 0 10 10 re\nf\nQ\n").unwrap();
    let icc = fake_icc_profile(IccColorSpace::Cmyk);
    doc.add_pdfx_output_intent(&icc, "FOGRA39", "Coated").unwrap();
    let report = doc.validate_pdfx_color().unwrap();
    assert!(report.is_conformant(), "violations: {:#?}", report.violations);
}

/// A page whose resources list the image 5 (in `space`) as `Im1` and
/// again as `Im2`.
fn doc_with_image(space: Object) -> EditableDocument {
    let mut xo = PdfDictionary::new();
    xo.set("Im1", reference(5));
    xo.set("Im2", reference(5));
    let mut res = PdfDictionary::new();
    res.set("XObject", Object::Dictionary(xo));
    let mut doc = one_page(res);
    let id = doc.allocate_id();
    assert_eq!(id, ObjectId::new(5));
    let mut d = PdfDictionary::new();
    d.set("Subtype", name("Image"));
    d.set("ColorSpace", space);
    doc.set_object(id, Object::Stream(PdfStream::with_dictionary(d, vec![0, 0, 0])));
    let icc = fake_icc_profile(IccColorSpace::Cmyk);
    doc.add_pdfx_output_intent(&icc, "FOGRA39", "Coated").unwrap();
    doc
}

#[test]
fn test_rgb_image_xobject_is_flagged() {
    let doc = doc_with_image(name("DeviceRGB"));
    let report = doc.validate_pdfx_color().unwrap();
    assert!(report.violations.iter().any(|v| v.message.contains("DeviceRGB")), "violations: {:#?}", report.violations);
}

#[test]
fn rgb_image_listed_twice_is_reported_once() {
    let doc = doc_with_image(name("DeviceRGB"));
    let report = doc.validate_pdfx_color().unwrap();
    assert_eq!(report.violations.len(), 1);
    assert_eq!(report.violations[0].rule, "PDF/X-1a-style CMYK-only colour constraint");
    assert_eq!(report.violations[0].message, "image XObject \"Im1\" (5 0 R) uses DeviceRGB");
}

#[test]
fn three_component_icc_image_is_flagged_and_cmyk_is_not() {
    let mut doc = doc_with_image(name("DeviceCMYK"));
    assert!(doc.validate_pdfx_color().unwrap().is_conformant());
    let p = doc.allocate_id();
    let mut pd = PdfDictionary::new();
    pd.set("N", Object::Integer(3));
    doc.set_object(p, Object::Stream(PdfStream::with_dictionary(pd, Vec::new())));
    let mut d = PdfDictionary::new();
    d.set("Subtype", name("Image"));
    d.set("ColorSpace", Object::Array(PdfArray::from_objects(vec![name("ICCBased"), Object::Reference(p)])));
    doc.set_object(ObjectId::new(5), Object::Stream(PdfStream::with_dictionary(d, Vec::new())));
    let report = doc.validate_pdfx_color().unwrap();
    assert_eq!(report.violations.len(), 1);
    assert!(report.violations[0].message.ends_with("uses a 3-component (RGB) ICCBased colour space"));
}

#[test]
fn content_violation_counts_rgb_operators() {
    let mut doc = doc_with_one_page();
    let page_id = doc.page_id_at(0).unwrap();
    doc.replace_page_content(page_id, b"1 0 0 rg 0 1 0 RG 0 0 1 rg").unwrap();
    let report = doc.validate_pdfx_color().unwrap();
    assert_eq!(report.violations.len(), 2);
    assert!(report.violations[0].rule.contains("output intent"));
    assert_eq!(report.violations[1].message, "page object 3 0 R uses DeviceRGB fill/stroke (3 `rg`/`RG` operator(s))");
    let v = content_violation(ObjectId::with_generation(12, 2), 7);
    assert_eq!(v.message, "page object 12 2 R uses DeviceRGB fill/stroke (7 `rg`/`RG` operator(s))");
    let v = image_violation("\"X\"", ObjectId::new(9), "CalRGB");
    assert_eq!(v.message, "image XObject \"X\" (9 0 R) uses CalRGB");
}
