//! Text markup annotations (ISO 32000-1 12.5.6.10): highlight, underline
//! and strikeout over a set of quadrilaterals, with `/QuadPoints`, a
//! `/Rect` bounding them, a colour and an appearance stream (a
//! highlight's declares the translucent, multiplying graphics state
//! `/GS1` it paints with); and free-text annotations (ISO 32000-1
//! 12.5.6.6).

use vstd::prelude::*;
use vstd::string::StringSliceAdditionalSpecFns;
use crate::annotations::AnnotationKind;
use crate::form_create::{
    annot_add_v, appearance_v, appearance_xobject, helv_resources, helv_resources_dict, id_at, name_obj, page_at, rect_v, text_obj,
    text_v, write_appearance_v,
};
use crate::graph::{dict_of, table_set, EditableDocument, EditorError};
use crate::ink::{color_array, color_v};
use crate::object::{entries_set, lemma_view_objs, view_objs, ObjV, Object, ObjectId, PdfArray, PdfDictionary, PdfReal, PdfString};
use crate::outline::obj_in;
use crate::pages::ref_v;
use crate::types::Rectangle;

verus! {

/// A quadrilateral given by its corners: lower-left x, lower-left y,
/// upper-right x, upper-right y.
pub type Quad = (PdfReal, PdfReal, PdfReal, PdfReal);

/// Coordinate `k` of a quadrilateral (0 to 3, in the order of `Quad`).
pub open spec fn qcoord(q: Quad, k: nat) -> i64 {
    if k == 0 {
        q.0.micros
    } else if k == 1 {
        q.1.micros
    } else if k == 2 {
        q.2.micros
    } else {
        q.3.micros
    }
}

/// Over the quadrilaterals `qs` (at least one): the least coordinate `k`
/// for `k` 0 and 1, the greatest for 2 and 3.
pub open spec fn qext(qs: Seq<Quad>, k: nat) -> i64
    decreases qs.len(),
{
    if qs.len() <= 1 {
        qcoord(qs[0], k)
    } else {
        let m = qext(qs.drop_last(), k);
        let x = qcoord(qs.last(), k);
        if k < 2 {
            if x < m { x } else { m }
        } else {
            if x > m { x } else { m }
        }
    }
}

/// The rectangle bounding the quadrilaterals `qs` (at least one).
pub open spec fn quads_rect(qs: Seq<Quad>) -> Rectangle {
    Rectangle {
        llx: PdfReal { micros: qext(qs, 0) },
        lly: PdfReal { micros: qext(qs, 1) },
        urx: PdfReal { micros: qext(qs, 2) },
        ury: PdfReal { micros: qext(qs, 3) },
    }
}

/// The `/QuadPoints` of one quadrilateral: top-left, top-right,
/// bottom-left, bottom-right.
pub open spec fn quad_points(q: Quad) -> Seq<ObjV> {
    seq![
        ObjV::Real(q.0.micros),
        ObjV::Real(q.3.micros),
        ObjV::Real(q.2.micros),
        ObjV::Real(q.3.micros),
        ObjV::Real(q.0.micros),
        ObjV::Real(q.1.micros),
        ObjV::Real(q.2.micros),
        ObjV::Real(q.1.micros),
    ]
}

/// The `/QuadPoints` of the quadrilaterals `qs`, in order.
pub open spec fn quad_points_v(qs: Seq<Quad>) -> Seq<ObjV>
    decreases qs.len(),
{
    if qs.len() == 0 {
        Seq::empty()
    } else {
        quad_points_v(qs.drop_last()) + quad_points(qs.last())
    }
}

/// The text markup annotation of subtype `subtype` over `qs`: its
/// rectangle, quadrilaterals, colour (`/C`), printable (`/F 4`).
pub open spec fn markup_v(subtype: Seq<char>, rect: Rectangle, qs: Seq<Quad>, color: Seq<PdfReal>) -> ObjV {
    let e1 = entries_set(entries_set(Seq::empty(), "Type"@, ObjV::Name("Annot"@)), "Subtype"@, ObjV::Name(subtype));
    let e2 = entries_set(entries_set(e1, "Rect"@, rect_v(rect)), "QuadPoints"@, ObjV::Array(quad_points_v(qs)));
    ObjV::Dict(entries_set(entries_set(e2, "C"@, ObjV::Array(color_v(color))), "F"@, ObjV::Integer(4)))
}

/// The graphics state `/GS1` of a highlight's appearance: 40% fill
/// opacity, multiply blending.
pub open spec fn gs1_entries() -> Seq<(Seq<char>, ObjV)> {
    entries_set(
        entries_set(entries_set(Seq::empty(), "Type"@, ObjV::Name("ExtGState"@)), "ca"@, ObjV::Real(400000)),
        "BM"@,
        ObjV::Name("Multiply"@),
    )
}

/// The resources of a highlight's appearance: Helvetica and `/GS1`.
pub open spec fn highlight_resources() -> Seq<(Seq<char>, ObjV)> {
    entries_set(helv_resources(), "ExtGState"@, ObjV::Dict(entries_set(Seq::empty(), "GS1"@, ObjV::Dict(gs1_entries()))))
}

/// A highlight's appearance: the Form XObject of `appearance_v` with the
/// resources of `highlight_resources`.
pub open spec fn highlight_appearance_v(content: Seq<u8>, rect: Rectangle) -> ObjV {
    match appearance_v(content, rect) {
        ObjV::Stream(d, c) => ObjV::Stream(entries_set(d, "Resources"@, ObjV::Dict(highlight_resources())), c),
        o => o,
    }
}

/// Storing `content` as the appearance of the markup annotation `annot`
/// (see `write_appearance_v`); for a highlight, with the resources of
/// `highlight_resources`.
pub open spec fn write_markup_appearance_v(
    ov: Seq<(ObjectId, ObjV)>,
    base: Seq<(ObjectId, ObjV)>,
    next: u32,
    annot: ObjectId,
    content: Seq<u8>,
    rect: Rectangle,
    highlight: bool,
) -> (Seq<(ObjectId, ObjV)>, u32, Result<(), EditorError>) {
    if !highlight {
        write_appearance_v(ov, base, next, annot, content, rect)
    } else {
        let ap = id_at(next as int);
        let ov1 = table_set(ov, ap, highlight_appearance_v(content, rect));
        match dict_of(obj_in(ov1, base, annot)) {
            None => (ov1, (next + 1) as u32, Err(EditorError::UnresolvedObject(annot.number, annot.generation))),
            Some(d) => (
                table_set(ov1, annot, ObjV::Dict(entries_set(d, "AP"@, ObjV::Dict(entries_set(Seq::empty(), "N"@, ref_v(ap)))))),
                (next + 1) as u32,
                Ok(()),
            ),
        }
    }
}

/// Adding a text markup annotation of `kind` over `qs` to the page at
/// `page_index`, with `content` as its appearance: refused without a
/// quadrilateral; else the annotation takes the next number, its
/// appearance the one after, and it is added to the page's `/Annots`.
pub open spec fn add_markup_v(
    doc: &EditableDocument,
    page_index: usize,
    qs: Seq<Quad>,
    color: Seq<PdfReal>,
    kind: AnnotationKind,
    content: Seq<u8>,
) -> (Seq<(ObjectId, ObjV)>, u32, Result<ObjectId, EditorError>) {
    let ov = doc.overlay_v();
    let next = doc.next_number();
    if qs.len() == 0 {
        (ov, next, Err(EditorError::EmptyQuadPoints))
    } else {
        match page_at(doc.spec_page_ids(), page_index) {
            Err(e) => (ov, next, Err(e)),
            Ok(page) => {
                let rect = quads_rect(qs);
                let a = id_at(next as int);
                let ov1 = table_set(ov, a, markup_v(kind.spec_subtype_name(), rect, qs, color));
                let (ov2, next2, r2) = write_markup_appearance_v(
                    ov1,
                    doc.base_v(),
                    (next + 1) as u32,
                    a,
                    content,
                    rect,
                    kind == AnnotationKind::Highlight,
                );
                match r2 {
                    Err(e) => (ov2, next2, Err(e)),
                    Ok(_) => {
                        let (ov3, r3) = annot_add_v(ov2, doc.base_v(), page, a);
                        (
                            ov3,
                            next2,
                            match r3 {
                                Ok(_) => Ok(a),
                                Err(e) => Err(e),
                            },
                        )
                    },
                }
            },
        }
    }
}

/// A free-text annotation over `rect` showing `text`, with the default
/// appearance string `da`, printable.
pub open spec fn freetext_v(rect: Rectangle, text: Seq<char>, da: Seq<u8>) -> ObjV {
    let e1 = entries_set(entries_set(Seq::empty(), "Type"@, ObjV::Name("Annot"@)), "Subtype"@, ObjV::Name("FreeText"@));
    let e2 = entries_set(entries_set(e1, "Rect"@, rect_v(rect)), "Contents"@, text_v(text));
    ObjV::Dict(entries_set(entries_set(e2, "DA"@, ObjV::Str(false, da)), "F"@, ObjV::Integer(4)))
}

/// Adding a free-text annotation to the page at `page_index`, with
/// `content` as its appearance: it takes the next number, its appearance
/// the one after, and it is added to the page's `/Annots`.
pub open spec fn add_freetext_v(
    doc: &EditableDocument,
    page_index: usize,
    rect: Rectangle,
    text: Seq<char>,
    da: Seq<u8>,
    content: Seq<u8>,
) -> (Seq<(ObjectId, ObjV)>, u32, Result<ObjectId, EditorError>) {
    let ov = doc.overlay_v();
    let next = doc.next_number();
    match page_at(doc.spec_page_ids(), page_index) {
        Err(e) => (ov, next, Err(e)),
        Ok(page) => {
            let a = id_at(next as int);
            let ov1 = table_set(ov, a, freetext_v(rect, text, da));
            let (ov2, next2, r2) = write_appearance_v(ov1, doc.base_v(), (next + 1) as u32, a, content, rect);
            match r2 {
                Err(e) => (ov2, next2, Err(e)),
                Ok(_) => {
                    let (ov3, r3) = annot_add_v(ov2, doc.base_v(), page, a);
                    (
                        ov3,
                        next2,
                        match r3 {
                            Ok(_) => Ok(a),
                            Err(e) => Err(e),
                        },
                    )
                },
            }
        },
    }
}

/// `qext` of one more quadrilateral.
proof fn lemma_qext_push(qs: Seq<Quad>, q: Quad, k: nat)
    requires
        qs.len() > 0,
    ensures
        qext(qs.push(q), k) == ({
            let m = qext(qs, k);
            let x = qcoord(q, k);
            if k < 2 {
                if x < m { x } else { m }
            } else {
                if x > m { x } else { m }
            }
        }),
{
    assert(qs.push(q).drop_last() =~= qs);
}

/// The rectangle bounding `quads`, when there is one.
fn quads_bounds(quads: &[Quad]) -> (r: Option<Rectangle>)
    ensures
        match r {
            None => quads@.len() == 0,
            Some(b) => quads@.len() > 0 && b == quads_rect(quads@),
        },
{
    if quads.len() == 0 {
        return None;
    }
    let q0 = quads[0];
    let mut lx = q0.0.micros;
    let mut ly = q0.1.micros;
    let mut hx = q0.2.micros;
    let mut hy = q0.3.micros;
    let mut i: usize = 1;
    assert(quads@.take(1).len() == 1 && quads@.take(1)[0] == q0);
    while i < quads.len()
        invariant
            1 <= i <= quads@.len(),
            lx == qext(quads@.take(i as int), 0),
            ly == qext(quads@.take(i as int), 1),
            hx == qext(quads@.take(i as int), 2),
            hy == qext(quads@.take(i as int), 3),
        decreases quads@.len() - i,
    {
        let q = quads[i];
        proof {
            assert(quads@.take(i + 1) =~= quads@.take(i as int).push(q));
            lemma_qext_push(quads@.take(i as int), q, 0);
            lemma_qext_push(quads@.take(i as int), q, 1);
            lemma_qext_push(quads@.take(i as int), q, 2);
            lemma_qext_push(quads@.take(i as int), q, 3);
        }
        if q.0.micros < lx {
            lx = q.0.micros;
        }
        if q.1.micros < ly {
            ly = q.1.micros;
        }
        if q.2.micros > hx {
            hx = q.2.micros;
        }
        if q.3.micros > hy {
            hy = q.3.micros;
        }
        i = i + 1;
    }
    assert(quads@.take(quads@.len() as int) =~= quads@);
    Some(Rectangle { llx: PdfReal { micros: lx }, lly: PdfReal { micros: ly }, urx: PdfReal { micros: hx }, ury: PdfReal { micros: hy } })
}

/// The `/QuadPoints` array of `quads`.
fn quad_points_array(quads: &[Quad]) -> (a: PdfArray)
    ensures
        a.view_items() == quad_points_v(quads@),
{
    let mut out = PdfArray::new();
    let mut i: usize = 0;
    proof {
        lemma_view_objs(out.items@);
        assert(quads@.take(0) =~= Seq::<Quad>::empty());
    }
    while i < quads.len()
        invariant
            i <= quads@.len(),
            out.view_items() == quad_points_v(quads@.take(i as int)),
        decreases quads@.len() - i,
    {
        let q = quads[i];
        let ghost before = out.items@;
        out.push(Object::Real(q.0));
        out.push(Object::Real(q.3));
        out.push(Object::Real(q.2));
        out.push(Object::Real(q.3));
        out.push(Object::Real(q.0));
        out.push(Object::Real(q.1));
        out.push(Object::Real(q.2));
        out.push(Object::Real(q.1));
        proof {
            assert(quads@.take(i + 1).drop_last() =~= quads@.take(i as int));
            assert(quads@.take(i + 1).last() == q);
            lemma_view_objs(before);
            lemma_view_objs(out.items@);
            assert(out.items@.len() == before.len() + 8);
            assert(view_objs(out.items@) =~= view_objs(before) + quad_points(q));
        }
        i = i + 1;
    }
    assert(quads@.take(quads@.len() as int) =~= quads@);
    out
}

/// The resources of a highlight's appearance (see `highlight_resources`).
fn highlight_resources_dict() -> (d: PdfDictionary)
    ensures
        d.view_entries() == highlight_resources(),
{
    let mut gs1 = PdfDictionary::new();
    assert(gs1.view_entries() =~= Seq::<(Seq<char>, ObjV)>::empty());
    gs1.set("Type", name_obj("ExtGState"));
    gs1.set("ca", Object::Real(PdfReal::from_micros(400000)));
    gs1.set("BM", name_obj("Multiply"));
    let mut states = PdfDictionary::new();
    assert(states.view_entries() =~= Seq::<(Seq<char>, ObjV)>::empty());
    states.set("GS1", Object::Dictionary(gs1));
    let mut res = helv_resources_dict();
    res.set("ExtGState", Object::Dictionary(states));
    res
}

impl EditableDocument {
    /// Stores `content` as the appearance of the highlight `annot` (see
    /// `write_markup_appearance_v`).
    fn write_highlight_appearance(&mut self, annot: ObjectId, content: &[u8], rect: Rectangle) -> (r: Result<(), EditorError>)
        requires
            old(self).wf(),
            old(self).next_number() < u32::MAX,
        ensures
            final(self).wf(),
            final(self).same_but_overlay_next(old(self)),
            (final(self).overlay_v(), final(self).next_number(), r) == write_markup_appearance_v(
                old(self).overlay_v(),
                old(self).base_v(),
                old(self).next_number(),
                annot,
                content@,
                rect,
                true,
            ),
    {
        let ghost pre = *self;
        let ap_id = self.allocate_id();
        proof {
            assert forall|x: ObjectId| self.object(x) is Some implies x.number < ap_id.number by {
                assert(self.object(x) == pre.object(x));
            }
        }
        let mut stream = appearance_xobject(content, rect);
        stream.dictionary.set("Resources", Object::Dictionary(highlight_resources_dict()));
        self.set_object(ap_id, Object::Stream(stream));
        let mut dict = match self.get_dictionary(annot) {
            Ok(d) => d,
            Err(e) => {
                return Err(e);
            },
        };
        proof {
            self.lemma_stored_below_next(annot);
        }
        let mut ap = PdfDictionary::new();
        assert(ap.view_entries() =~= Seq::<(Seq<char>, ObjV)>::empty());
        ap.set("N", Object::Reference(ap_id));
        dict.set("AP", Object::Dictionary(ap));
        self.set_object(annot, Object::Dictionary(dict));
        Ok(())
    }

    /// Adds a text markup annotation of `kind` (see `add_markup_v`).
    fn add_text_markup(
        &mut self,
        page_index: usize,
        quads: &[Quad],
        color: &[PdfReal],
        kind: AnnotationKind,
        appearance: &[u8],
    ) -> (r: Result<ObjectId, EditorError>)
        requires
            old(self).wf(),
            old(self).next_number() + 2 < u32::MAX,
        ensures
            final(self).wf(),
            final(self).same_but_overlay_next(old(self)),
            (final(self).overlay_v(), final(self).next_number(), r) == add_markup_v(
                old(self),
                page_index,
                quads@,
                color@,
                kind,
                appearance@,
            ),
    {
        let ghost start = *self;
        let rect = match quads_bounds(quads) {
            Some(b) => b,
            None => {
                return Err(EditorError::EmptyQuadPoints);
            },
        };
        let page_id = match self.page_id_at(page_index) {
            Ok(p) => p,
            Err(e) => {
                return Err(e);
            },
        };
        let ghost pre = *self;
        let id = self.allocate_id();
        proof {
            assert forall|x: ObjectId| self.object(x) is Some && x.number == id.number implies x == id by {
                assert(self.object(x) == pre.object(x));
            }
        }
        let mut d = PdfDictionary::new();
        assert(d.view_entries() =~= Seq::<(Seq<char>, ObjV)>::empty());
        d.set("Type", name_obj("Annot"));
        d.set("Subtype", name_obj(kind.subtype_name()));
        d.set("Rect", Object::Array(crate::util::rect_to_array(rect)));
        d.set("QuadPoints", Object::Array(quad_points_array(quads)));
        d.set("C", Object::Array(color_array(color)));
        d.set("F", Object::Integer(4));
        self.set_object(id, Object::Dictionary(d));
        let highlight = match kind {
            AnnotationKind::Highlight => true,
            _ => false,
        };
        let w = if highlight {
            self.write_highlight_appearance(id, appearance, rect)
        } else {
            self.write_annotation_appearance(id, appearance, rect)
        };
        match w {
            Ok(_) => {},
            Err(e) => {
                return Err(e);
            },
        }
        let ghost pre_annot = *self;
        let r = match self.add_annot_to_page(page_id, id) {
            Ok(_) => Ok(id),
            Err(e) => Err(e),
        };
        proof {
            assert(pre_annot.object(page_id) == obj_in(pre_annot.overlay_v(), start.base_v(), page_id));
        }
        r
    }

    /// Adds a highlight annotation over the quadrilaterals `quads` on the
    /// page at `page_index`, in `color`; `appearance` is the content of
    /// its appearance stream, which may paint with `/GS1` (see
    /// `add_markup_v`).
    pub fn add_highlight_annotation(&mut self, page_index: usize, quads: &[Quad], color: &[PdfReal], appearance: &[u8]) -> (r:
        Result<ObjectId, EditorError>)
        requires
            old(self).wf(),
            old(self).next_number() + 2 < u32::MAX,
        ensures
            final(self).wf(),
            final(self).same_but_overlay_next(old(self)),
            (final(self).overlay_v(), final(self).next_number(), r) == add_markup_v(
                old(self),
                page_index,
                quads@,
                color@,
                AnnotationKind::Highlight,
                appearance@,
            ),
    {
        self.add_text_markup(page_index, quads, color, AnnotationKind::Highlight, appearance)
    }

    /// Adds an underline annotation over `quads` (see `add_markup_v`).
    pub fn add_underline_annotation(&mut self, page_index: usize, quads: &[Quad], color: &[PdfReal], appearance: &[u8]) -> (r:
        Result<ObjectId, EditorError>)
        requires
            old(self).wf(),
            old(self).next_number() + 2 < u32::MAX,
        ensures
            final(self).wf(),
            final(self).same_but_overlay_next(old(self)),
            (final(self).overlay_v(), final(self).next_number(), r) == add_markup_v(
                old(self),
                page_index,
                quads@,
                color@,
                AnnotationKind::Underline,
                appearance@,
            ),
    {
        self.add_text_markup(page_index, quads, color, AnnotationKind::Underline, appearance)
    }

    /// Adds a strikeout annotation over `quads` (see `add_markup_v`).
    pub fn add_strikeout_annotation(&mut self, page_index: usize, quads: &[Quad], color: &[PdfReal], appearance: &[u8]) -> (r:
        Result<ObjectId, EditorError>)
        requires
            old(self).wf(),
            old(self).next_number() + 2 < u32::MAX,
        ensures
            final(self).wf(),
            final(self).same_but_overlay_next(old(self)),
            (final(self).overlay_v(), final(self).next_number(), r) == add_markup_v(
                old(self),
                page_index,
                quads@,
                color@,
                AnnotationKind::StrikeOut,
                appearance@,
            ),
    {
        self.add_text_markup(page_index, quads, color, AnnotationKind::StrikeOut, appearance)
    }

    /// Adds a free-text annotation showing `text` over `rect` on the page
    /// at `page_index`; `da` is its default appearance string (font and
    /// colour) and `appearance` the content of its appearance stream
    /// (see `add_freetext_v`).
    pub fn add_freetext_annotation(&mut self, page_index: usize, rect: Rectangle, text: &str, da: &str, appearance: &[u8]) -> (r:
        Result<ObjectId, EditorError>)
        requires
            old(self).wf(),
            old(self).next_number() + 2 < u32::MAX,
        ensures
            final(self).wf(),
            final(self).same_but_overlay_next(old(self)),
            (final(self).overlay_v(), final(self).next_number(), r) == add_freetext_v(
                old(self),
                page_index,
                rect,
                text@,
                da.spec_bytes(),
                appearance@,
            ),
    {
        let ghost start = *self;
        let page_id = match self.page_id_at(page_index) {
            Ok(p) => p,
            Err(e) => {
                return Err(e);
            },
        };
        let ghost pre = *self;
        let id = self.allocate_id();
        proof {
            assert forall|x: ObjectId| self.object(x) is Some && x.number == id.number implies x == id by {
                assert(self.object(x) == pre.object(x));
            }
        }
        let mut d = PdfDictionary::new();
        assert(d.view_entries() =~= Seq::<(Seq<char>, ObjV)>::empty());
        d.set("Type", name_obj("Annot"));
        d.set("Subtype", name_obj("FreeText"));
        d.set("Rect", Object::Array(crate::util::rect_to_array(rect)));
        d.set("Contents", text_obj(text));
        d.set("DA", Object::String(PdfString::literal(da)));
        d.set("F", Object::Integer(4));
        self.set_object(id, Object::Dictionary(d));
        match self.write_annotation_appearance(id, appearance, rect) {
            Ok(_) => {},
            Err(e) => {
                return Err(e);
            },
        }
        let ghost pre_annot = *self;
        let r = match self.add_annot_to_page(page_id, id) {
            Ok(_) => Ok(id),
            Err(e) => Err(e),
        };
        proof {
            assert(pre_annot.object(page_id) == obj_in(pre_annot.overlay_v(), start.base_v(), page_id));
        }
        r
    }
}

/// The extremes of the quadrilaterals bound each of them.
proof fn lemma_qext_bounds(qs: Seq<Quad>, j: int, k: nat)
    requires
        0 <= j < qs.len(),
    ensures
        k < 2 ==> qext(qs, k) <= qcoord(qs[j], k),
        k >= 2 ==> qext(qs, k) >= qcoord(qs[j], k),
    decreases qs.len(),
{
    if qs.len() > 1 && j < qs.len() - 1 {
        lemma_qext_bounds(qs.drop_last(), j, k);
        assert(qs.drop_last()[j] == qs[j]);
    }
}

/// The `/Rect` of a text markup annotation holds each of its
/// quadrilaterals.
pub proof fn lemma_quads_rect_holds_quads(qs: Seq<Quad>, j: int)
    requires
        0 <= j < qs.len(),
    ensures
        quads_rect(qs).llx.micros <= qs[j].0.micros,
        quads_rect(qs).lly.micros <= qs[j].1.micros,
        qs[j].2.micros <= quads_rect(qs).urx.micros,
        qs[j].3.micros <= quads_rect(qs).ury.micros,
{
    lemma_qext_bounds(qs, j, 0);
    lemma_qext_bounds(qs, j, 1);
    lemma_qext_bounds(qs, j, 2);
    lemma_qext_bounds(qs, j, 3);
}

} // verus!
