//! A new PDF document and the bytes of the file that holds it.
//!
//! Objects are numbered in the order they are written: the catalog (1),
//! the page tree (2), then for each page its dictionary, its content
//! stream and its fonts, and last the information dictionary when there
//! is one. A classic cross-reference table and trailer follow.

use vstd::prelude::*;
use crate::object::entries_get;
use crate::info::DocumentInfo;
use crate::object::{
    lemma_entries_set_fresh, entries_set, view_objs, Object, ObjV, ObjectId, PdfArray,
    PdfDictionary, PdfName, PdfReal,
};
use crate::page::{content_entries, font_dictionary, font_entries, Page};
use crate::types::Rectangle;
use crate::version::PdfVersion;
use crate::writer::{
    body_offsets, body_text, classic_xref_text, obj_header, startxref_text, xref_keyword, ObjectWriter,
};

verus! {

/// The file header: `%PDF-M.m`, then a comment of four bytes above 127 so
/// that the file is seen as binary.
pub open spec fn header_text(v: PdfVersion) -> Seq<u8> {
    seq![
        37u8,
        80u8,
        68u8,
        70u8,
        45u8,
        (48 + v.spec_major()) as u8,
        46u8,
        (48 + v.spec_minor()) as u8,
        10u8,
        37u8,
        0xE2u8,
        0xE3u8,
        0xCFu8,
        0xD3u8,
        10u8,
    ]
}

/// The number of objects a page brings: its dictionary, its content
/// stream and one per font.
pub open spec fn page_obj_count(p: Page) -> nat {
    2 + p.fonts@.len()
}

/// The number of objects the pages bring.
pub open spec fn pages_obj_count(pages: Seq<Page>) -> nat
    decreases pages.len(),
{
    if pages.len() == 0 {
        0
    } else {
        pages_obj_count(pages.drop_last()) + page_obj_count(pages.last())
    }
}

/// The number of page `i`'s dictionary.
pub open spec fn page_first_id(pages: Seq<Page>, i: int) -> nat {
    3 + pages_obj_count(pages.take(i))
}

/// `[llx lly urx ury]`.
pub open spec fn media_box_v(r: Rectangle) -> ObjV {
    ObjV::Array(
        seq![
            ObjV::Real(r.llx.micros),
            ObjV::Real(r.lly.micros),
            ObjV::Real(r.urx.micros),
            ObjV::Real(r.ury.micros),
        ],
    )
}

/// The font resources of a page whose fonts are numbered from `first`:
/// each resource name set to a reference to its font.
pub open spec fn font_refs(fonts: Seq<(String, String)>, first: nat) -> Seq<(Seq<char>, ObjV)>
    decreases fonts.len(),
{
    if fonts.len() == 0 {
        Seq::empty()
    } else {
        entries_set(
            font_refs(fonts.drop_last(), first),
            fonts.last().0@,
            ObjV::Reference((first + fonts.len() - 1) as u32, 0),
        )
    }
}

/// The entries of the dictionary of a page numbered `id`: `/Type /Page`,
/// `/Parent`, `/MediaBox`, `/Resources` when the page has fonts, and
/// `/Contents`.
pub open spec fn page_entries(p: Page, id: nat) -> Seq<(Seq<char>, ObjV)> {
    seq![
        ("Type"@, ObjV::Name("Page"@)),
        ("Parent"@, ObjV::Reference(2, 0)),
        ("MediaBox"@, media_box_v(p.media_box)),
    ] + (if p.fonts@.len() > 0 {
        seq![("Resources"@, ObjV::Dict(seq![("Font"@, ObjV::Dict(font_refs(p.fonts@, (id + 2) as nat)))]))]
    } else {
        Seq::empty()
    }) + seq![("Contents"@, ObjV::Reference((id + 1) as u32, 0))]
}

/// The objects of a page numbered from `id`: its dictionary, its content
/// stream and its fonts.
pub open spec fn page_group(p: Page, id: nat) -> Seq<ObjV> {
    seq![ObjV::Dict(page_entries(p, id)), ObjV::Stream(content_entries(p.content@), p.content@)]
        + Seq::new(p.fonts@.len(), |t: int| ObjV::Dict(font_entries(p.fonts@[t].1@)))
}

/// The objects of all pages, in order.
pub open spec fn pages_group(pages: Seq<Page>) -> Seq<ObjV>
    decreases pages.len(),
{
    if pages.len() == 0 {
        Seq::empty()
    } else {
        pages_group(pages.drop_last()) + page_group(
            pages.last(),
            3 + pages_obj_count(pages.drop_last()),
        )
    }
}

/// The catalog: `/Type /Catalog /Pages 2 0 R`.
pub open spec fn catalog_entries() -> Seq<(Seq<char>, ObjV)> {
    seq![("Type"@, ObjV::Name("Catalog"@)), ("Pages"@, ObjV::Reference(2, 0))]
}

/// References to the pages' dictionaries.
pub open spec fn kids(pages: Seq<Page>) -> Seq<ObjV> {
    Seq::new(pages.len(), |i: int| ObjV::Reference(page_first_id(pages, i) as u32, 0))
}

/// The page tree: `/Type /Pages`, `/Kids` and `/Count`.
pub open spec fn pages_entries(pages: Seq<Page>) -> Seq<(Seq<char>, ObjV)> {
    seq![
        ("Type"@, ObjV::Name("Pages"@)),
        ("Kids"@, ObjV::Array(kids(pages))),
        ("Count"@, ObjV::Integer(pages.len() as i64)),
    ]
}

/// Why a document cannot be built.
#[derive(Debug, Clone, Copy, PartialEq, Eq, Structural)]
pub enum DocumentError {
    /// The document has no pages.
    NoPages,
}

/// A complete PDF document.
#[derive(Debug)]
pub struct Document {
    /// PDF version.
    pub version: PdfVersion,
    /// Document metadata.
    pub info: DocumentInfo,
    /// Pages in the document.
    pub pages: Vec<Page>,
    /// Whether content streams were asked to be compressed. This crate
    /// holds no Flate encoder, so the flag is recorded and content streams
    /// are written unfiltered.
    pub compress_streams: bool,
}

/// The objects the pages bring, one page more at a time.
proof fn lemma_pages_group(pages: Seq<Page>, i: int)
    requires
        0 <= i < pages.len(),
    ensures
        pages_group(pages).len() == pages_obj_count(pages),
        pages_obj_count(pages.take(i)) + page_obj_count(pages[i]) <= pages_obj_count(pages),
        pages_group(pages)[pages_obj_count(pages.take(i)) as int] == ObjV::Dict(page_entries(pages[i], page_first_id(pages, i))),
        pages_group(pages)[pages_obj_count(pages.take(i)) + 1int] == ObjV::Stream(content_entries(pages[i].content@), pages[i].content@),
    decreases pages.len(),
{
    let dl = pages.drop_last();
    let last = pages.last();
    assert(pages.take(pages.len() - 1) =~= dl);
    if i < pages.len() - 1 {
        lemma_pages_group(dl, i);
        assert(dl.take(i) =~= pages.take(i));
        assert(dl[i] == pages[i]);
        assert(page_first_id(dl, i) == page_first_id(pages, i));
    } else {
        if dl.len() > 0 {
            lemma_pages_group(dl, 0);
        } else {
            assert(pages_group(dl) =~= Seq::<ObjV>::empty());
        }
        assert(pages.take(i) =~= dl);
    }
}

/// The structure of every document's file: object 1 is the catalog,
/// pointing at the page tree, object 2; the page tree's `/Count` is the
/// number of pages and its `/Kids` reference the page dictionaries in
/// page order, under increasing (so distinct) numbers; each page
/// dictionary names the page tree as `/Parent`, holds its `/MediaBox`
/// and references its own content stream, the next object; and an
/// information dictionary is written, and named in the trailer, exactly
/// when the document has metadata. (Object `n` is `objects()[n - 1]`,
/// and the cross-reference table points each number at its object: see
/// `lemma_file_offsets_point_at_objects`.)
pub proof fn lemma_document_structure(doc: Document, i: int, j: int)
    requires
        0 <= i < doc.pages@.len(),
    ensures
        doc.objects()[0] == ObjV::Dict(catalog_entries()),
        entries_get(catalog_entries(), "Pages"@) == Some(ObjV::Reference(2, 0)),
        doc.objects()[1] == ObjV::Dict(pages_entries(doc.pages@)),
        entries_get(pages_entries(doc.pages@), "Count"@) == Some(ObjV::Integer(doc.pages@.len() as i64)),
        entries_get(pages_entries(doc.pages@), "Kids"@) == Some(ObjV::Array(kids(doc.pages@))),
        kids(doc.pages@).len() == doc.pages@.len(),
        kids(doc.pages@)[i] == ObjV::Reference(page_first_id(doc.pages@, i) as u32, 0),
        i < j < doc.pages@.len() ==> page_first_id(doc.pages@, i) < page_first_id(doc.pages@, j),
        doc.objects()[page_first_id(doc.pages@, i) - 1] == ObjV::Dict(page_entries(doc.pages@[i], page_first_id(doc.pages@, i))),
        entries_get(page_entries(doc.pages@[i], page_first_id(doc.pages@, i)), "Parent"@) == Some(ObjV::Reference(2, 0)),
        entries_get(page_entries(doc.pages@[i], page_first_id(doc.pages@, i)), "MediaBox"@) == Some(media_box_v(doc.pages@[i].media_box)),
        entries_get(page_entries(doc.pages@[i], page_first_id(doc.pages@, i)), "Contents"@) == Some(
            ObjV::Reference((page_first_id(doc.pages@, i) + 1) as u32, 0),
        ),
        doc.objects()[page_first_id(doc.pages@, i) as int] == ObjV::Stream(
            content_entries(doc.pages@[i].content@),
            doc.pages@[i].content@,
        ),
        doc.info_id() is Some <==> !doc.info.spec_is_empty(),
{
    let pages = doc.pages@;
    reveal_strlit("Type");
    reveal_strlit("Pages");
    reveal_strlit("Kids");
    reveal_strlit("Count");
    reveal_strlit("Parent");
    reveal_strlit("MediaBox");
    reveal_strlit("Contents");
    reveal_strlit("Resources");
    lemma_pages_group(pages, i);
    if i < j < pages.len() {
        lemma_pages_group(pages, j);
        assert(pages_obj_count(pages.take(j)) >= pages_obj_count(pages.take(i)) + page_obj_count(pages[i])) by {
            lemma_count_mono(pages, i, j);
        }
    }
    let head = seq![ObjV::Dict(catalog_entries()), ObjV::Dict(pages_entries(pages))];
    let k = pages_obj_count(pages.take(i)) as int;
    assert(doc.objects()[2 + k] == pages_group(pages)[k]);
    assert(doc.objects()[3 + k] == pages_group(pages)[k + 1]);
    assert("Type"@.len() != "Pages"@.len());
    assert("Type"@ != "Kids"@ && "Type"@ != "Count"@ && "Kids"@ != "Count"@) by {
        assert("Type"@[0] != "Kids"@[0] && "Type"@.len() != "Count"@.len() && "Kids"@.len() != "Count"@.len());
    }
    assert("Type"@ != "Parent"@ && "Type"@ != "MediaBox"@ && "Type"@ != "Contents"@) by {
        assert("Type"@.len() != "Parent"@.len() && "Type"@.len() != "MediaBox"@.len() && "Type"@.len() != "Contents"@.len());
    }
    assert("Parent"@ != "MediaBox"@ && "Parent"@ != "Contents"@ && "MediaBox"@ != "Contents"@) by {
        assert("Parent"@.len() != "MediaBox"@.len() && "Parent"@.len() != "Contents"@.len() && "MediaBox"@[0] != "Contents"@[0]);
    }
    assert("Resources"@ != "Contents"@) by {
        assert("Resources"@.len() != "Contents"@.len());
    }
    let pg = page_entries(pages[i], page_first_id(pages, i));
    let last = pg.len() - 1;
    assert(pg[1] == ("Parent"@, ObjV::Reference(2, 0)));
    assert(pg[2] == ("MediaBox"@, media_box_v(pages[i].media_box)));
    assert(pg[last] == ("Contents"@, ObjV::Reference((page_first_id(pages, i) + 1) as u32, 0)));
    lemma_get_at(pg, "Parent"@, 1);
    lemma_get_at(pg, "MediaBox"@, 2);
    assert forall|t: int| 0 <= t < last implies pg[t].0 != "Contents"@ by {
        if t == 3 {
            assert(pg[3].0 == "Resources"@);
        }
    }
    lemma_get_at(pg, "Contents"@, last);
    let pe0 = pages_entries(pages);
    lemma_get_at(pe0, "Kids"@, 1);
    let ce = catalog_entries();
    assert(ce.drop_first() =~= seq![("Pages"@, ObjV::Reference(2, 0))]);
    assert(entries_get(ce.drop_first(), "Pages"@) == Some(ObjV::Reference(2, 0)));
    let pe = pages_entries(pages);
    let cnt = ("Count"@, ObjV::Integer(pages.len() as i64));
    assert(pe.drop_first().drop_first() =~= seq![cnt]);
    assert(entries_get(pe.drop_first().drop_first(), "Count"@) == Some(ObjV::Integer(pages.len() as i64)));
    assert(entries_get(pe.drop_first(), "Count"@) == entries_get(pe.drop_first().drop_first(), "Count"@));
}

/// The value under `key` is that of its first entry.
proof fn lemma_get_at(d: Seq<(Seq<char>, ObjV)>, key: Seq<char>, m: int)
    requires
        0 <= m < d.len(),
        d[m].0 == key,
        forall|j: int| 0 <= j < m ==> d[j].0 != key,
    ensures
        entries_get(d, key) == Some(d[m].1),
{
    crate::object::lemma_entries_find(d, key);
    let f = crate::object::entries_find(d, key);
    if f < m {
        assert(d[f].0 == key);
    }
}

/// Pages further on start further on.
proof fn lemma_count_mono(pages: Seq<Page>, i: int, j: int)
    requires
        0 <= i < j <= pages.len(),
    ensures
        pages_obj_count(pages.take(j)) >= pages_obj_count(pages.take(i)) + page_obj_count(pages[i]),
    decreases j - i,
{
    assert(pages.take(i + 1).drop_last() =~= pages.take(i));
    assert(pages.take(i + 1).last() == pages[i]);
    if j > i + 1 {
        assert(pages.take(j).drop_last() =~= pages.take(j - 1));
        lemma_count_mono(pages, i, j - 1);
    }
}

/// The pages after appending `added` one by one to `pages`, as
/// `add_page` does.
pub open spec fn pages_after(pages: Seq<Page>, added: Seq<Page>) -> Seq<Page>
    decreases added.len(),
{
    if added.len() == 0 {
        pages
    } else {
        pages_after(pages, added.drop_last()).push(added.last())
    }
}

/// Adding pages one by one to a document appends them in order; to a new
/// document (which has none), it leaves exactly those pages, so its page
/// count is their number.
pub proof fn lemma_pages_after_adds(pages: Seq<Page>, added: Seq<Page>)
    ensures
        pages_after(pages, added) == pages + added,
        pages_after(Seq::empty(), added) == added,
        pages_after(pages, added).len() == pages.len() + added.len(),
    decreases added.len(),
{
    if added.len() > 0 {
        lemma_pages_after_adds(pages, added.drop_last());
        assert(pages + added =~= (pages + added.drop_last()).push(added.last()));
    }
    assert(Seq::<Page>::empty() + added =~= added);
}

impl Document {
    /// The objects of the file, in number order.
    pub open spec fn objects(&self) -> Seq<ObjV> {
        seq![ObjV::Dict(catalog_entries()), ObjV::Dict(pages_entries(self.pages@))] + pages_group(
            self.pages@,
        ) + (if self.info.spec_is_empty() {
            Seq::empty()
        } else {
            seq![ObjV::Dict(self.info.dict_entries())]
        })
    }

    /// The information dictionary's id, when there is one: the last object.
    pub open spec fn info_id(&self) -> Option<ObjectId> {
        if self.info.spec_is_empty() {
            None
        } else {
            Some(ObjectId { number: (3 + pages_obj_count(self.pages@)) as u32, generation: 0 })
        }
    }

    /// The bytes of the file: header, objects, cross-reference table with
    /// `/Root 1 0 R` and `/Info`, and `startxref`.
    pub open spec fn file_text(&self) -> Seq<u8> {
        let h = header_text(self.version);
        let objs = self.objects();
        let body = body_text(objs);
        h + body + classic_xref_text(
            body_offsets(h.len(), objs),
            (objs.len() + 1) as u32,
            ObjectId { number: 1, generation: 0 },
            self.info_id(),
            None,
        ) + startxref_text(h.len() + body.len())
    }

    /// The object numbers fit in 32 bits and each content length in an
    /// integer object.
    pub open spec fn fits(&self) -> bool {
        &&& 4 + pages_obj_count(self.pages@) < u32::MAX
        &&& forall|i: int| 0 <= i < self.pages@.len() ==> #[trigger] self.pages@[i].content@.len() <= i64::MAX
    }

    /// Creates a new document with default settings: PDF 1.7, no metadata,
    /// no pages.
    pub fn new() -> (d: Document)
        ensures
            d.version == PdfVersion::V1_7,
            d.info.spec_is_empty(),
            d.pages@.len() == 0,
            !d.compress_streams,
    {
        Document {
            version: PdfVersion::V1_7,
            info: DocumentInfo::new(),
            pages: Vec::new(),
            compress_streams: false,
        }
    }

    /// Adds a page to the document.
    pub fn add_page(&mut self, page: Page)
        ensures
            final(self).pages@ == old(self).pages@.push(page),
            final(self).version == old(self).version,
            final(self).info == old(self).info,
            final(self).compress_streams == old(self).compress_streams,
    {
        self.pages.push(page);
    }

    /// Returns the number of pages.
    pub fn page_count(&self) -> (n: usize)
        ensures
            n == self.pages@.len(),
    {
        self.pages.len()
    }

    /// Appends the bytes of the file holding this document to `out`.
    pub fn write_to(&self, out: &mut Vec<u8>)
        requires
            self.fits(),
        ensures
            final(out)@ == old(out)@ + self.file_text(),
    {
        let bytes = self.to_bytes();
        crate::serialize::write_bytes(out, bytes.as_slice());
    }

    /// The bytes of the file holding this document.
    #[verifier::rlimit(40)]
    fn to_bytes(&self) -> (r: Vec<u8>)
        requires
            self.fits(),
        ensures
            r@ == self.file_text(),
    {
        let head = header_bytes(self.version);
        let mut w = ObjectWriter::new(head.as_slice());
        let ghost pages = self.pages@;
        proof {
            lemma_pages_obj_count_prefix(pages, pages.len() as int);
            assert(pages.take(pages.len() as int) =~= pages);
        }
        proof {
            lemma_pages_obj_count_ge_len(pages);
        }
        // The page tree's kids.
        let kids_arr = kid_references(&self.pages);
        // Catalog.
        let catalog = catalog_dictionary();
        w.emit(&Object::Dictionary(catalog));
        // Page tree.
        let page_tree = pages_dictionary(kids_arr, self.pages.len());
        w.emit(&Object::Dictionary(page_tree));
        assert(w.objs() =~= seq![ObjV::Dict(catalog_entries()), ObjV::Dict(pages_entries(pages))]
            + pages_group(pages.take(0)));
        let mut i: usize = 0;
        while i < self.pages.len()
            invariant
                i <= pages.len(),
                pages == self.pages@,
                self.fits(),
                w.wf(),
                w.head() == header_text(self.version),
                w.objs() == seq![ObjV::Dict(catalog_entries()), ObjV::Dict(pages_entries(pages))]
                    + pages_group(pages.take(i as int)),
                w.objs().len() == 2 + pages_obj_count(pages.take(i as int)),
                pages_obj_count(pages) + 4 < u32::MAX,
            decreases pages.len() - i,
        {
            proof {
                lemma_pages_step(pages, i as int);
                lemma_pages_obj_count_prefix(pages, i + 1);
            }
            write_page(&mut w, &self.pages[i]);
            i = i + 1;
        }
        assert(pages.take(pages.len() as int) =~= pages);
        let info_id: Option<ObjectId>;
        if !self.info.is_empty() {
            let n = w.next_number();
            info_id = Some(ObjectId::new(n));
            let d = self.info.to_dictionary();
            w.emit(&Object::Dictionary(d));
        } else {
            info_id = None;
        }
        assert(w.objs() =~= self.objects());
        w.finish(ObjectId::new(1), info_id, None)
    }
}

impl Default for Document {
    fn default() -> (d: Document)
        ensures
            d.version == PdfVersion::V1_7,
            d.info.spec_is_empty(),
            d.pages@.len() == 0,
            !d.compress_streams,
    {
        Document::new()
    }
}

/// In the file of a document, the cross-reference entry of each object
/// holds the offset at which that object's definition `N 0 obj` begins,
/// and the offset after `startxref` is that of the `xref` keyword.
pub proof fn lemma_file_offsets_point_at_objects(doc: Document, k: int)
    requires
        doc.fits(),
        0 <= k < doc.objects().len(),
        doc.file_text().len() <= u64::MAX,
    ensures
        ({
            let h = header_text(doc.version);
            let objs = doc.objects();
            let off = body_offsets(h.len(), objs)[k].1 as int;
            let hdr = obj_header(ObjectId { number: (k + 1) as u32, generation: 0 });
            &&& body_offsets(h.len(), objs)[k].0 == k + 1
            &&& doc.file_text().subrange(off, off + hdr.len() as int) == hdr
        }),
        ({
            let at: int = (header_text(doc.version).len() + body_text(doc.objects()).len()) as int;
            doc.file_text().subrange(at as int, at + 5int) == xref_keyword()
        }),
{
    let h = header_text(doc.version);
    let objs = doc.objects();
    lemma_pages_group_len(doc.pages@);
    assert(objs.len() <= 3 + pages_obj_count(doc.pages@));
    crate::writer::lemma_offsets_point_at_objects(h, objs, k);
    let body = body_text(objs);
    let hb = h + body;
    let rest = classic_xref_text(
        body_offsets(h.len(), objs),
        (objs.len() + 1) as u32,
        ObjectId { number: 1, generation: 0 },
        doc.info_id(),
        None,
    ) + startxref_text(h.len() + body.len());
    assert(doc.file_text() =~= hb + rest);
    let off = body_offsets(h.len(), objs)[k].1 as int;
    let hdr = obj_header(ObjectId { number: (k + 1) as u32, generation: 0 });
    assert(doc.file_text().subrange(off, off + hdr.len() as int) =~= hb.subrange(off, off + hdr.len() as int));
    let at = hb.len() as int;
    assert(doc.file_text().subrange(at, at + 5) =~= xref_keyword());
}

/// The header bytes for `v`.
pub(crate) fn header_bytes(v: PdfVersion) -> (h: Vec<u8>)
    ensures
        h@ == header_text(v),
{
    let mut h: Vec<u8> = Vec::new();
    crate::serialize::write_bytes(&mut h, &[37u8, 80u8, 68u8, 70u8, 45u8]);
    h.push(48u8 + v.major());
    h.push(46u8);
    h.push(48u8 + v.minor());
    crate::serialize::write_bytes(&mut h, &[10u8, 37u8, 0xE2u8, 0xE3u8, 0xCFu8, 0xD3u8, 10u8]);
    assert(h@ =~= header_text(v));
    h
}

/// `pages_obj_count` of a prefix is at most that of the whole.
proof fn lemma_pages_obj_count_prefix(pages: Seq<Page>, n: int)
    requires
        0 <= n <= pages.len(),
    ensures
        pages_obj_count(pages.take(n)) <= pages_obj_count(pages),
        pages_group(pages.take(n)).len() == pages_obj_count(pages.take(n)),
    decreases pages.len() - n,
{
    if n < pages.len() {
        lemma_pages_obj_count_prefix(pages, n + 1);
        lemma_pages_step(pages, n);
    } else {
        assert(pages.take(n) =~= pages);
        lemma_pages_group_len(pages);
    }
}

/// Each page brings at least one object.
proof fn lemma_pages_obj_count_ge_len(pages: Seq<Page>)
    ensures
        pages_obj_count(pages) >= pages.len(),
    decreases pages.len(),
{
    if pages.len() > 0 {
        lemma_pages_obj_count_ge_len(pages.drop_last());
    }
}

/// The objects of all pages are as many as `pages_obj_count` says.
proof fn lemma_pages_group_len(pages: Seq<Page>)
    ensures
        pages_group(pages).len() == pages_obj_count(pages),
    decreases pages.len(),
{
    if pages.len() > 0 {
        lemma_pages_group_len(pages.drop_last());
    }
}

/// One more page adds its group to the objects and its count.
proof fn lemma_pages_step(pages: Seq<Page>, i: int)
    requires
        0 <= i < pages.len(),
    ensures
        pages_obj_count(pages.take(i + 1)) == pages_obj_count(pages.take(i)) + page_obj_count(pages[i]),
        pages_group(pages.take(i + 1)) == pages_group(pages.take(i)) + page_group(
            pages[i],
            3 + pages_obj_count(pages.take(i)),
        ),
{
    assert(pages.take(i + 1).drop_last() =~= pages.take(i));
    assert(pages.take(i + 1).last() == pages[i]);
}

/// `/Type /Catalog /Pages 2 0 R`.
fn catalog_dictionary() -> (d: PdfDictionary)
    ensures
        d.view_entries() == catalog_entries(),
{
    proof {
        reveal_strlit("Type");
        reveal_strlit("Pages");
    }
    let mut d = PdfDictionary::new();
    d.set("Type", Object::Name(PdfName::new_unchecked("Catalog")));
    assert(d.view_entries() =~= seq![("Type"@, ObjV::Name("Catalog"@))]);
    proof {
        assert("Type"@.len() != "Pages"@.len());
        lemma_entries_set_fresh(seq![("Type"@, ObjV::Name("Catalog"@))], "Pages"@, ObjV::Reference(2, 0));
    }
    d.set("Pages", Object::Reference(ObjectId::new(2)));
    assert(d.view_entries() =~= catalog_entries());
    d
}

/// References to the pages' dictionaries.
fn kid_references(pages: &Vec<Page>) -> (a: PdfArray)
    requires
        pages_obj_count(pages@) + 4 < u32::MAX,
    ensures
        view_objs(a.items@) == kids(pages@),
{
    let mut a = PdfArray::new();
    let mut id: u32 = 3;
    let mut i: usize = 0;
    proof {
        lemma_pages_obj_count_prefix(pages@, 0);
        assert(pages@.take(0) =~= Seq::<Page>::empty());
    }
    while i < pages.len()
        invariant
            i <= pages@.len(),
            pages_obj_count(pages@) + 4 < u32::MAX,
            id == 3 + pages_obj_count(pages@.take(i as int)),
            a.items@.len() == i,
            forall|k: int| 0 <= k < i ==> #[trigger] view_objs(a.items@)[k] == kids(pages@)[k],
        decreases pages@.len() - i,
    {
        proof {
            lemma_pages_step(pages@, i as int);
            lemma_pages_obj_count_prefix(pages@, i + 1);
            crate::object::lemma_view_objs(a.items@);
        }
        let ghost before = a.items@;
        a.push(Object::Reference(ObjectId::new(id)));
        proof {
            crate::object::lemma_view_objs(a.items@);
            crate::object::lemma_view_objs(before);
            assert(a.items@.drop_last() =~= before);
            assert forall|k: int| 0 <= k < i + 1 implies #[trigger] view_objs(a.items@)[k] == kids(pages@)[k] by {
                if k < i {
                    assert(view_objs(a.items@)[k] == a.items@[k].v());
                    assert(view_objs(before)[k] == before[k].v());
                }
            }
        }
        id = id + 2 + pages[i].fonts.len() as u32;
        i = i + 1;
    }
    proof {
        crate::object::lemma_view_objs(a.items@);
        assert(view_objs(a.items@) =~= kids(pages@));
    }
    a
}

/// `/Type /Pages /Kids [...] /Count n`.
fn pages_dictionary(kids_arr: PdfArray, count: usize) -> (d: PdfDictionary)
    requires
        count <= i64::MAX,
    ensures
        forall|pages: Seq<Page>|
            view_objs(kids_arr.items@) == kids(pages) && pages.len() == count ==> #[trigger] pages_entries(pages) == d.view_entries(),
{
    proof {
        reveal_strlit("Type");
        reveal_strlit("Kids");
        reveal_strlit("Count");
    }
    let ghost kv = view_objs(kids_arr.items@);
    let mut d = PdfDictionary::new();
    d.set("Type", Object::Name(PdfName::new_unchecked("Pages")));
    let ghost e1 = seq![("Type"@, ObjV::Name("Pages"@))];
    assert(d.view_entries() =~= e1);
    proof {
        assert("Type"@.len() != "Kids"@.len() || "Type"@[0] != "Kids"@[0]);
        lemma_entries_set_fresh(e1, "Kids"@, ObjV::Array(kv));
    }
    d.set("Kids", Object::Array(kids_arr));
    let ghost e2 = e1.push(("Kids"@, ObjV::Array(kv)));
    assert(d.view_entries() =~= e2);
    proof {
        assert("Count"@.len() != "Type"@.len() && "Count"@.len() != "Kids"@.len());
        assert(forall|i: int| 0 <= i < e2.len() ==> e2[i].0 != "Count"@);
        lemma_entries_set_fresh(e2, "Count"@, ObjV::Integer(count as i64));
    }
    d.set("Count", Object::Integer(count as i64));
    proof {
        assert forall|pages: Seq<Page>|
            view_objs(kids_arr.items@) == kids(pages) && pages.len() == count implies #[trigger] pages_entries(pages) == d.view_entries() by {
            assert(pages_entries(pages) =~= d.view_entries());
        }
    }
    d
}

/// The media box as an array.
fn media_box_array(r: &Rectangle) -> (a: PdfArray)
    ensures
        ObjV::Array(view_objs(a.items@)) == media_box_v(*r),
{
    let vals = r.to_array();
    let mut a = PdfArray::new();
    a.push(Object::Real(vals[0]));
    a.push(Object::Real(vals[1]));
    a.push(Object::Real(vals[2]));
    a.push(Object::Real(vals[3]));
    proof {
        let s = a.items@;
        assert(s.len() == 4);
        assert(s.drop_last().drop_last().drop_last().drop_last() =~= Seq::<Object>::empty());
        assert(view_objs(a.items@) =~= seq![
            ObjV::Real(r.llx.micros),
            ObjV::Real(r.lly.micros),
            ObjV::Real(r.urx.micros),
            ObjV::Real(r.ury.micros),
        ]) by {
            reveal_with_fuel(view_objs, 5);
        }
    }
    a
}

/// The font resources of `fonts` numbered from `first`.
fn font_resources(fonts: &Vec<(String, String)>, first: u32) -> (d: PdfDictionary)
    requires
        first + fonts@.len() < u32::MAX,
    ensures
        d.view_entries() == font_refs(fonts@, first as nat),
        fonts@.len() > 0 ==> d.view_entries().len() > 0,
{
    let mut d = PdfDictionary::new();
    let mut t: usize = 0;
    assert(fonts@.take(0) =~= Seq::<(String, String)>::empty());
    while t < fonts.len()
        invariant
            t <= fonts@.len(),
            first + fonts@.len() < u32::MAX,
            d.view_entries() == font_refs(fonts@.take(t as int), first as nat),
            t > 0 ==> d.view_entries().len() > 0,
        decreases fonts@.len() - t,
    {
        d.set(fonts[t].0.as_str(), Object::Reference(ObjectId::new(first + t as u32)));
        proof {
            let s = fonts@.take(t + 1);
            assert(s.drop_last() =~= fonts@.take(t as int));
            assert(s.last() == fonts@[t as int]);
            crate::object::lemma_entries_set_len(
                font_refs(fonts@.take(t as int), first as nat),
                fonts@[t as int].0@,
                ObjV::Reference((first + t) as u32, 0),
            );
        }
        t = t + 1;
    }
    assert(fonts@.take(fonts@.len() as int) =~= fonts@);
    d
}

/// The dictionary of page `p` numbered `id`.
#[verifier::rlimit(30)]
fn page_dictionary(p: &Page, id: u32) -> (d: PdfDictionary)
    requires
        id + 2 + p.fonts@.len() < u32::MAX,
    ensures
        d.view_entries() == page_entries(*p, id as nat),
{
    proof {
        reveal_strlit("Type");
        reveal_strlit("Parent");
        reveal_strlit("MediaBox");
        reveal_strlit("Resources");
        reveal_strlit("Font");
        reveal_strlit("Contents");
    }
    let mut d = PdfDictionary::new();
    d.set("Type", Object::Name(PdfName::new_unchecked("Page")));
    let ghost e1 = seq![("Type"@, ObjV::Name("Page"@))];
    assert(d.view_entries() =~= e1);
    proof {
        assert("Type"@.len() != "Parent"@.len());
        lemma_entries_set_fresh(e1, "Parent"@, ObjV::Reference(2, 0));
    }
    d.set("Parent", Object::Reference(ObjectId::new(2)));
    let ghost e2 = e1.push(("Parent"@, ObjV::Reference(2, 0)));
    assert(d.view_entries() =~= e2);
    let mb = media_box_array(&p.media_box);
    proof {
        assert(forall|i: int| 0 <= i < e2.len() ==> e2[i].0 != "MediaBox"@);
        lemma_entries_set_fresh(e2, "MediaBox"@, media_box_v(p.media_box));
    }
    d.set("MediaBox", Object::Array(mb));
    let ghost e3 = e2.push(("MediaBox"@, media_box_v(p.media_box)));
    assert(d.view_entries() =~= e3);
    let fonts = font_resources(&p.fonts, id + 2);
    let ghost e4 = e3 + (if p.fonts@.len() > 0 {
        seq![("Resources"@, ObjV::Dict(seq![("Font"@, ObjV::Dict(font_refs(p.fonts@, (id + 2) as nat)))]))]
    } else {
        Seq::empty()
    });
    if !fonts.is_empty() {
        let mut resources = PdfDictionary::new();
        resources.set("Font", Object::Dictionary(fonts));
        assert(resources.view_entries() =~= seq![("Font"@, ObjV::Dict(font_refs(p.fonts@, (id + 2) as nat)))]);
        proof {
            assert(e3[0].0 == "Type"@ && e3[1].0 == "Parent"@ && e3[2].0 == "MediaBox"@);
            assert("Resources"@.len() == 9 && "Type"@.len() == 4 && "Parent"@.len() == 6 && "MediaBox"@.len() == 8);
            assert(forall|i: int| 0 <= i < e3.len() ==> e3[i].0 != "Resources"@);
            lemma_entries_set_fresh(
                e3,
                "Resources"@,
                ObjV::Dict(seq![("Font"@, ObjV::Dict(font_refs(p.fonts@, (id + 2) as nat)))]),
            );
        }
        d.set("Resources", Object::Dictionary(resources));
        assert(d.view_entries() =~= e4);
    } else {
        assert(d.view_entries() =~= e4);
    }
    proof {
        assert(e4[0].0 == "Type"@ && e4[1].0 == "Parent"@ && e4[2].0 == "MediaBox"@);
        assert(e4.len() == 4 ==> e4[3].0 == "Resources"@);
        assert("Resources"@.len() == 9 && "Type"@.len() == 4 && "Parent"@.len() == 6 && "Contents"@.len() == 8);
        assert("Contents"@[0] != "MediaBox"@[0]);
        assert(forall|i: int| 0 <= i < e4.len() ==> e4[i].0 != "Contents"@);
        lemma_entries_set_fresh(e4, "Contents"@, ObjV::Reference((id + 1) as u32, 0));
    }
    d.set("Contents", Object::Reference(ObjectId::new(id + 1)));
    assert(d.view_entries() =~= page_entries(*p, id as nat));
    d
}

/// Writes page `p`'s dictionary, content stream and fonts as the next
/// objects.
fn write_page(w: &mut ObjectWriter, p: &Page)
    requires
        old(w).wf(),
        old(w).objs().len() + page_obj_count(*p) + 2 < u32::MAX,
        p.content@.len() <= i64::MAX,
    ensures
        final(w).wf(),
        final(w).head() == old(w).head(),
        final(w).objs() == old(w).objs() + page_group(*p, old(w).objs().len() + 1),
{
    let ghost objs0 = w.objs();
    let id = w.next_number();
    let pd = page_dictionary(p, id);
    w.emit(&Object::Dictionary(pd));
    let cs = p.build_content_stream();
    w.emit(&Object::Stream(cs));
    let mut t: usize = 0;
    while t < p.fonts.len()
        invariant
            t <= p.fonts@.len(),
            w.wf(),
            w.head() == old(w).head(),
            objs0 == old(w).objs(),
            objs0.len() + page_obj_count(*p) + 2 < u32::MAX,
            id == objs0.len() + 1,
            w.objs() == objs0 + seq![
                ObjV::Dict(page_entries(*p, id as nat)),
                ObjV::Stream(content_entries(p.content@), p.content@),
            ] + Seq::new(t as nat, |k: int| ObjV::Dict(font_entries(p.fonts@[k].1@))),
        decreases p.fonts@.len() - t,
    {
        let fd = font_dictionary(p.fonts[t].1.as_str());
        let ghost before = w.objs();
        w.emit(&Object::Dictionary(fd));
        proof {
            let g = seq![
                ObjV::Dict(page_entries(*p, id as nat)),
                ObjV::Stream(content_entries(p.content@), p.content@),
            ];
            assert(Seq::new((t + 1) as nat, |k: int| ObjV::Dict(font_entries(p.fonts@[k].1@)))
                =~= Seq::new(t as nat, |k: int| ObjV::Dict(font_entries(p.fonts@[k].1@))).push(
                ObjV::Dict(font_entries(p.fonts@[t as int].1@)),
            ));
            assert(w.objs() =~= objs0 + g + Seq::new((t + 1) as nat, |k: int| ObjV::Dict(font_entries(p.fonts@[k].1@))));
        }
        t = t + 1;
    }
    assert(w.objs() =~= objs0 + page_group(*p, objs0.len() + 1));
}

/// Builder for creating PDF documents.
pub struct DocumentBuilder {
    version: PdfVersion,
    info: DocumentInfo,
    pages: Vec<Page>,
    compress_streams: bool,
}

impl DocumentBuilder {
    /// The version set so far.
    pub closed spec fn spec_version(&self) -> PdfVersion {
        self.version
    }

    /// The metadata set so far.
    pub closed spec fn spec_info(&self) -> DocumentInfo {
        self.info
    }

    /// The pages added so far.
    pub closed spec fn spec_pages(&self) -> Seq<Page> {
        self.pages@
    }

    /// Whether compression was asked for.
    pub closed spec fn spec_compress(&self) -> bool {
        self.compress_streams
    }

    /// Creates a new document builder: PDF 1.7, no metadata, no pages.
    pub fn new() -> (b: DocumentBuilder)
        ensures
            b.spec_version() == PdfVersion::V1_7,
            b.spec_info().spec_is_empty(),
            b.spec_pages().len() == 0,
            !b.spec_compress(),
    {
        DocumentBuilder {
            version: PdfVersion::V1_7,
            info: DocumentInfo::new(),
            pages: Vec::new(),
            compress_streams: false,
        }
    }

    /// Sets the PDF version.
    pub fn version(self, version: PdfVersion) -> (b: DocumentBuilder)
        ensures
            b.spec_version() == version,
            b.spec_info() == self.spec_info(),
            b.spec_pages() == self.spec_pages(),
            b.spec_compress() == self.spec_compress(),
    {
        let mut s = self;
        s.version = version;
        s
    }

    /// Sets the document title.
    pub fn title(self, title: &str) -> (b: DocumentBuilder)
        ensures
            b.spec_info().sets_title(self.spec_info(), title@),
            b.spec_version() == self.spec_version(),
            b.spec_pages() == self.spec_pages(),
            b.spec_compress() == self.spec_compress(),
    {
        let mut s = self;
        s.info = s.info.title(title);
        s
    }

    /// Sets the document author.
    pub fn author(self, author: &str) -> (b: DocumentBuilder)
        ensures
            b.spec_info().sets_author(self.spec_info(), author@),
            b.spec_version() == self.spec_version(),
            b.spec_pages() == self.spec_pages(),
            b.spec_compress() == self.spec_compress(),
    {
        let mut s = self;
        s.info = s.info.author(author);
        s
    }

    /// Sets the document subject.
    pub fn subject(self, subject: &str) -> (b: DocumentBuilder)
        ensures
            b.spec_info().sets_subject(self.spec_info(), subject@),
            b.spec_version() == self.spec_version(),
            b.spec_pages() == self.spec_pages(),
            b.spec_compress() == self.spec_compress(),
    {
        let mut s = self;
        s.info = s.info.subject(subject);
        s
    }

    /// Sets the document keywords.
    pub fn keywords(self, keywords: &str) -> (b: DocumentBuilder)
        ensures
            b.spec_info().sets_keywords(self.spec_info(), keywords@),
            b.spec_version() == self.spec_version(),
            b.spec_pages() == self.spec_pages(),
            b.spec_compress() == self.spec_compress(),
    {
        let mut s = self;
        s.info = s.info.keywords(keywords);
        s
    }

    /// Sets the creator application.
    pub fn creator(self, creator: &str) -> (b: DocumentBuilder)
        ensures
            b.spec_info().sets_creator(self.spec_info(), creator@),
            b.spec_version() == self.spec_version(),
            b.spec_pages() == self.spec_pages(),
            b.spec_compress() == self.spec_compress(),
    {
        let mut s = self;
        s.info = s.info.creator(creator);
        s
    }

    /// Sets the producer application.
    pub fn producer(self, producer: &str) -> (b: DocumentBuilder)
        ensures
            b.spec_info().sets_producer(self.spec_info(), producer@),
            b.spec_version() == self.spec_version(),
            b.spec_pages() == self.spec_pages(),
            b.spec_compress() == self.spec_compress(),
    {
        let mut s = self;
        s.info = s.info.producer(producer);
        s
    }

    /// Sets the document info.
    pub fn info(self, info: DocumentInfo) -> (b: DocumentBuilder)
        ensures
            b.spec_info() == info,
            b.spec_version() == self.spec_version(),
            b.spec_pages() == self.spec_pages(),
            b.spec_compress() == self.spec_compress(),
    {
        let mut s = self;
        s.info = info;
        s
    }

    /// Adds a page to the document.
    pub fn page(self, page: Page) -> (b: DocumentBuilder)
        ensures
            b.spec_pages() == self.spec_pages().push(page),
            b.spec_version() == self.spec_version(),
            b.spec_info() == self.spec_info(),
            b.spec_compress() == self.spec_compress(),
    {
        let mut s = self;
        s.pages.push(page);
        s
    }

    /// Adds multiple pages to the document, in order.
    pub fn pages(self, pages: Vec<Page>) -> (b: DocumentBuilder)
        ensures
            b.spec_pages() == self.spec_pages() + pages@,
            b.spec_version() == self.spec_version(),
            b.spec_info() == self.spec_info(),
            b.spec_compress() == self.spec_compress(),
    {
        let mut s = self;
        let mut more = pages;
        s.pages.append(&mut more);
        s
    }

    /// Asks for compressed content streams.
    pub fn compress_streams(self, compress: bool) -> (b: DocumentBuilder)
        ensures
            b.spec_compress() == compress,
            b.spec_version() == self.spec_version(),
            b.spec_info() == self.spec_info(),
            b.spec_pages() == self.spec_pages(),
    {
        let mut s = self;
        s.compress_streams = compress;
        s
    }

    /// Builds the document; fails with `NoPages` if no page was added.
    pub fn build(self) -> (r: Result<Document, DocumentError>)
        ensures
            self.spec_pages().len() == 0 <==> r == Err::<Document, DocumentError>(DocumentError::NoPages),
            r matches Ok(d) ==> d.version == self.spec_version() && d.info == self.spec_info()
                && d.pages@ == self.spec_pages() && d.compress_streams == self.spec_compress(),
    {
        if self.pages.len() == 0 {
            return Err(DocumentError::NoPages);
        }
        Ok(Document {
            version: self.version,
            info: self.info,
            pages: self.pages,
            compress_streams: self.compress_streams,
        })
    }
}

} // verus!
