//! A page to be written: its media box, the standard fonts it uses and
//! its content stream.

use vstd::prelude::*;
use crate::object::{Object, ObjV, PdfDictionary, PdfReal, PdfStream, lemma_entries_set_fresh};
use crate::types::Rectangle;

verus! {

/// A page of a new document.
#[derive(Debug)]
pub struct Page {
    /// The page's media box.
    pub media_box: Rectangle,
    /// The fonts the content uses: resource name and standard base font
    /// name (such as `Helvetica`).
    pub fonts: Vec<(String, String)>,
    /// The content stream's bytes.
    pub content: Vec<u8>,
}

/// The entries of a page's content stream dictionary: `/Length`.
pub open spec fn content_entries(content: Seq<u8>) -> Seq<(Seq<char>, ObjV)> {
    seq![("Length"@, ObjV::Integer(content.len() as i64))]
}

/// The entries of the dictionary of a standard font with base font
/// `base`: `/Type /Font /Subtype /Type1 /BaseFont /base`.
pub open spec fn font_entries(base: Seq<char>) -> Seq<(Seq<char>, ObjV)> {
    seq![
        ("Type"@, ObjV::Name("Font"@)),
        ("Subtype"@, ObjV::Name("Type1"@)),
        ("BaseFont"@, ObjV::Name(base)),
    ]
}

impl Page {
    /// The page's content stream: its bytes, with `/Length`.
    pub fn build_content_stream(&self) -> (s: PdfStream)
        requires
            self.content@.len() <= i64::MAX,
        ensures
            s.dictionary.view_entries() == content_entries(self.content@),
            s.data@ == self.content@,
    {
        let mut dict = PdfDictionary::new();
        dict.set("Length", Object::Integer(self.content.len() as i64));
        let data = crate::object::slice_to_vec_u8(self.content.as_slice());
        assert(dict.view_entries() =~= content_entries(self.content@));
        PdfStream::with_dictionary(dict, data)
    }
}

/// The dictionary of the standard font `base`.
pub fn font_dictionary(base: &str) -> (d: PdfDictionary)
    ensures
        d.view_entries() == font_entries(base@),
{
    proof {
        reveal_strlit("Type");
        reveal_strlit("Subtype");
        reveal_strlit("BaseFont");
    }
    let mut d = PdfDictionary::new();
    d.set("Type", Object::Name(crate::object::PdfName::new_unchecked("Font")));
    assert(d.view_entries() =~= seq![("Type"@, ObjV::Name("Font"@))]);
    d.set("Subtype", Object::Name(crate::object::PdfName::new_unchecked("Type1")));
    proof {
        let e1 = seq![("Type"@, ObjV::Name("Font"@))];
        assert("Type"@.len() == 4 && "Subtype"@.len() == 7 && "BaseFont"@.len() == 8);
        assert(forall|i: int| 0 <= i < e1.len() ==> e1[i].0 != "Subtype"@);
        lemma_entries_set_fresh(e1, "Subtype"@, ObjV::Name("Type1"@));
        assert(d.view_entries() =~= e1.push(("Subtype"@, ObjV::Name("Type1"@))));
        assert(d.view_entries() =~= seq![("Type"@, ObjV::Name("Font"@)), ("Subtype"@, ObjV::Name("Type1"@))]);
    }
    d.set("BaseFont", Object::Name(crate::object::PdfName::new_unchecked(base)));
    proof {
        let e2 = seq![("Type"@, ObjV::Name("Font"@)), ("Subtype"@, ObjV::Name("Type1"@))];
        assert(forall|i: int| 0 <= i < e2.len() ==> e2[i].0 != "BaseFont"@);
        lemma_entries_set_fresh(e2, "BaseFont"@, ObjV::Name(base@));
        assert(e2.push(("BaseFont"@, ObjV::Name(base@))) =~= font_entries(base@));
    }
    assert(d.view_entries() =~= font_entries(base@));
    d
}

/// Builds a [`Page`].
pub struct PageBuilder {
    media_box: Rectangle,
    fonts: Vec<(String, String)>,
    content: Vec<u8>,
}

impl PageBuilder {
    /// The page being built.
    pub closed spec fn spec_media_box(&self) -> Rectangle {
        self.media_box
    }

    /// The fonts added so far.
    pub closed spec fn spec_fonts(&self) -> Seq<(String, String)> {
        self.fonts@
    }

    /// The content set so far.
    pub closed spec fn spec_content(&self) -> Seq<u8> {
        self.content@
    }

    /// A page of `width` by `height` points, with no fonts and no content.
    pub fn new(width: PdfReal, height: PdfReal) -> (b: PageBuilder)
        ensures
            b.spec_media_box() == (Rectangle {
                llx: PdfReal { micros: 0 },
                lly: PdfReal { micros: 0 },
                urx: width,
                ury: height,
            }),
            b.spec_fonts().len() == 0,
            b.spec_content().len() == 0,
    {
        PageBuilder {
            media_box: Rectangle::new(PdfReal::from_micros(0), PdfReal::from_micros(0), width, height),
            fonts: Vec::new(),
            content: Vec::new(),
        }
    }

    /// An A4 page: 595 by 842 points.
    pub fn a4() -> (b: PageBuilder)
        ensures
            b.spec_media_box().urx.micros == 595_000_000,
            b.spec_media_box().ury.micros == 842_000_000,
            b.spec_media_box().llx.micros == 0,
            b.spec_media_box().lly.micros == 0,
            b.spec_fonts().len() == 0,
            b.spec_content().len() == 0,
    {
        PageBuilder::new(PdfReal::from_micros(595_000_000), PdfReal::from_micros(842_000_000))
    }

    /// A US Letter page: 612 by 792 points.
    pub fn letter() -> (b: PageBuilder)
        ensures
            b.spec_media_box().urx.micros == 612_000_000,
            b.spec_media_box().ury.micros == 792_000_000,
            b.spec_media_box().llx.micros == 0,
            b.spec_media_box().lly.micros == 0,
            b.spec_fonts().len() == 0,
            b.spec_content().len() == 0,
    {
        PageBuilder::new(PdfReal::from_micros(612_000_000), PdfReal::from_micros(792_000_000))
    }

    /// Adds the standard font `base_font` under the resource name `name`.
    pub fn font(self, name: &str, base_font: &str) -> (b: PageBuilder)
        ensures
            b.spec_media_box() == self.spec_media_box(),
            b.spec_content() == self.spec_content(),
            b.spec_fonts().len() == self.spec_fonts().len() + 1,
            forall|i: int| 0 <= i < self.spec_fonts().len() ==> b.spec_fonts()[i] == self.spec_fonts()[i],
            b.spec_fonts().last().0@ == name@,
            b.spec_fonts().last().1@ == base_font@,
    {
        let mut s = self;
        s.fonts.push((String::from_str(name), String::from_str(base_font)));
        s
    }

    /// Sets the page's content stream bytes.
    pub fn content(self, bytes: &[u8]) -> (b: PageBuilder)
        ensures
            b.spec_media_box() == self.spec_media_box(),
            b.spec_fonts() == self.spec_fonts(),
            b.spec_content() == bytes@,
    {
        let mut s = self;
        s.content = crate::object::slice_to_vec_u8(bytes);
        s
    }

    /// The page.
    pub fn build(self) -> (p: Page)
        ensures
            p.media_box == self.spec_media_box(),
            p.fonts@ == self.spec_fonts(),
            p.content@ == self.spec_content(),
    {
        Page { media_box: self.media_box, fonts: self.fonts, content: self.content }
    }
}

} // verus!
