use rust_pdf::graph::{EditableDocument, EditorError, LoadedFile};
use rust_pdf::icc::{validate_icc_header, IccColorSpace, IccError, OutputIntentSubtype};
use rust_pdf::object::{Object, ObjectId, PdfArray, PdfDictionary, PdfName, PdfStream};
use rust_pdf::version::PdfVersion;

fn fake_icc_profile(space: IccColorSpace) -> Vec<u8> {
    let mut data = vec![0u8; 200];
    let size = (data.len() as u32).to_be_bytes();
    data[0..4].copy_from_slice(&size);
    data[12..16].copy_from_slice(b"mntr");
    let sig: &[u8; 4] = match space {
        IccColorSpace::Gray => b"GRAY",
        IccColorSpace::Rgb => b"RGB ",
        IccColorSpace::Cmyk => b"CMYK",
    };
    data[16..20].copy_from_slice(sig);
    data[20..24].copy_from_slice(b"XYZ ");
    data[36..40].copy_from_slice(b"acsp");
    data
}

#[test]
fn test_validate_icc_header_accepts_well_formed_rgb_profile() {
    let profile = fake_icc_profile(IccColorSpace::Rgb);
    assert_eq!(validate_icc_header(&profile), Ok(IccColorSpace::Rgb));
}

#[test]
fn test_validate_icc_header_rejects_too_short() {
    assert_eq!(validate_icc_header(&[0u8; 10]), Err(IccError::TooShort));
}

#[test]
fn test_validate_icc_header_rejects_missing_signature() {
    let mut profile = fake_icc_profile(IccColorSpace::Cmyk);
    profile[36..40].copy_from_slice(b"XXXX");
    assert_eq!(validate_icc_header(&profile), Err(IccError::BadSignature));
}

#[test]
fn test_validate_icc_header_rejects_declared_size_larger_than_data() {
    let mut profile = fake_icc_profile(IccColorSpace::Gray);
    profile[0..4].copy_from_slice(&(u32::MAX).to_be_bytes());
    assert_eq!(validate_icc_header(&profile), Err(IccError::DeclaredSizeExceedsData));
}

#[test]
fn test_validate_icc_header_rejects_unknown_color_space() {
    let mut profile = fake_icc_profile(IccColorSpace::Rgb);
    profile[16..20].copy_from_slice(b"Lab ");
    assert_eq!(validate_icc_header(&profile), Err(IccError::UnsupportedColorSpace));
}

#[test]
fn icc_gray_and_cmyk_profiles_report_their_space() {
    assert_eq!(validate_icc_header(&fake_icc_profile(IccColorSpace::Gray)), Ok(IccColorSpace::Gray));
    assert_eq!(validate_icc_header(&fake_icc_profile(IccColorSpace::Cmyk)), Ok(IccColorSpace::Cmyk));
    assert_eq!(IccColorSpace::Cmyk.component_count(), 4);
    assert_eq!(IccColorSpace::Gray.component_count(), 1);
}

fn name(s: &str) -> Object {
    Object::Name(PdfName::new_unchecked(s))
}

/// A one-page document: catalog 1, page tree 2, page 3, content 4.
fn doc_with_one_page() -> EditableDocument {
    let mut objects: Vec<(ObjectId, Object)> = Vec::new();
    let mut catalog = PdfDictionary::new();
    catalog.set("Type", name("Catalog"));
    catalog.set("Pages", Object::Reference(ObjectId::new(2)));
    objects.push((ObjectId::new(1), Object::Dictionary(catalog)));
    let mut kids = PdfArray::new();
    kids.push(Object::Reference(ObjectId::new(3)));
    let mut pages = PdfDictionary::new();
    pages.set("Type", name("Pages"));
    pages.set("Kids", Object::Array(kids));
    pages.set("Count", Object::Integer(1));
    objects.push((ObjectId::new(2), Object::Dictionary(pages)));
    let mut page = PdfDictionary::new();
    page.set("Type", name("Page"));
    page.set("Parent", Object::Reference(ObjectId::new(2)));
    page.set("Contents", Object::Reference(ObjectId::new(4)));
    objects.push((ObjectId::new(3), Object::Dictionary(page)));
    objects.push((ObjectId::new(4), Object::Stream(PdfStream::with_dictionary(PdfDictionary::new(), b"q Q".to_vec()))));
    let file = LoadedFile {
        data: b"%PDF-1.4\n".to_vec(),
        version: PdfVersion::V1_4,
        objects,
        root: ObjectId::new(1),
        info: None,
        id: None,
        startxref: Some(9),
    };
    EditableDocument::from_loaded(file).unwrap()
}

#[test]
fn test_add_output_intent_round_trips() {
    let mut doc = doc_with_one_page();
    let profile = fake_icc_profile(IccColorSpace::Rgb);
    doc.add_output_intent(&profile, OutputIntentSubtype::PdfA, "sRGB IEC61966-2.1", "sRGB").unwrap();

    let intents = doc.output_intents().unwrap();
    assert_eq!(intents.len(), 1);
    assert_eq!(intents[0].subtype, "GTS_PDFA1");
    assert_eq!(intents[0].identifier.as_deref(), Some("sRGB IEC61966-2.1"));
    assert!(intents[0].has_valid_icc_profile);
    assert_eq!(intents[0].color_space, Some(IccColorSpace::Rgb));
}

#[test]
fn test_add_output_intent_rejects_garbage_profile() {
    let mut doc = doc_with_one_page();
    let result = doc.add_output_intent(b"not an icc profile", OutputIntentSubtype::PdfA, "x", "y");
    assert!(result.is_err());
}

#[test]
fn test_no_output_intents_returns_empty() {
    let doc = doc_with_one_page();
    assert!(doc.output_intents().unwrap().is_empty());
}

#[test]
fn output_intent_profile_is_embedded_with_its_component_count() {
    let mut doc = doc_with_one_page();
    let profile = fake_icc_profile(IccColorSpace::Cmyk);
    let id = doc.add_output_intent(&profile, OutputIntentSubtype::PdfX, "FOGRA39", "Coated").unwrap();
    assert_eq!(id, ObjectId::new(6));
    let Some(Object::Stream(s)) = doc.get_object(ObjectId::new(5)) else { panic!("expected the profile stream") };
    assert_eq!(s.data, profile);
    assert_eq!(s.dictionary.get("N"), Some(&Object::Integer(4)));
    assert_eq!(s.dictionary.get("Alternate"), Some(&name("DeviceCMYK")));
    let intents = doc.output_intents().unwrap();
    assert_eq!(intents[0].subtype, "GTS_PDFX");
    assert_eq!(intents[0].color_space, Some(IccColorSpace::Cmyk));
}

#[test]
fn second_output_intent_is_appended() {
    let mut doc = doc_with_one_page();
    let profile = fake_icc_profile(IccColorSpace::Gray);
    doc.add_output_intent(&profile, OutputIntentSubtype::PdfA, "a", "a").unwrap();
    doc.add_output_intent(&profile, OutputIntentSubtype::PdfX, "b", "b").unwrap();
    let intents = doc.output_intents().unwrap();
    assert_eq!(intents.len(), 2);
    assert_eq!(intents[1].identifier.as_deref(), Some("b"));
}

#[test]
fn garbage_profile_error_names_the_header_problem() {
    let mut doc = doc_with_one_page();
    let r = doc.add_output_intent(b"short", OutputIntentSubtype::PdfA, "x", "y");
    assert_eq!(r, Err(EditorError::InvalidIccProfile(IccError::TooShort)));
}
