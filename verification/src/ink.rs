//! Ink (freehand drawing) annotations (ISO 32000-1 12.5.6.13): the
//! strokes' points, a `/Rect` bounding them, colour, border width and an
//! appearance stream.

use vstd::prelude::*;
use crate::form_create::{annot_add_v, id_at, name_obj, page_at, rect_v, write_appearance_v};
use crate::graph::{table_set, EditableDocument, EditorError};
use crate::object::{entries_set, lemma_view_objs, view_objs, ObjV, Object, ObjectId, PdfArray, PdfDictionary, PdfReal};
use crate::outline::obj_in;
use crate::types::Rectangle;

verus! {

/// The largest coordinate magnitude (in millionths) an ink point may
/// have: a quarter of the 64-bit range, so that the bounding box padded
/// by half of any width fits.
pub const MAX_INK_MICROS: i64 = 2305843009213693952;

/// A point of a stroke.
pub type InkPoint = (PdfReal, PdfReal);

/// The points of each stroke.
pub open spec fn strokes_v(s: Seq<Vec<InkPoint>>) -> Seq<Seq<InkPoint>> {
    Seq::new(s.len(), |i: int| s[i]@)
}

/// Every point of every stroke, in order.
pub open spec fn flat(s: Seq<Seq<InkPoint>>) -> Seq<InkPoint>
    decreases s.len(),
{
    if s.len() == 0 {
        Seq::empty()
    } else {
        flat(s.drop_last()) + s.last()
    }
}

/// Whether every coordinate of the strokes is within `MAX_INK_MICROS`.
pub open spec fn ink_bounded(s: Seq<Seq<InkPoint>>) -> bool {
    forall|i: int, j: int|
        0 <= i < s.len() && 0 <= j < s[i].len() ==> -MAX_INK_MICROS <= #[trigger] s[i][j].0.micros <= MAX_INK_MICROS
            && -MAX_INK_MICROS <= s[i][j].1.micros <= MAX_INK_MICROS
}

/// Coordinate `k % 2` (0: x, 1: y) of a point.
pub open spec fn coord(q: InkPoint, k: nat) -> int {
    if k % 2 == 0 {
        q.0.micros as int
    } else {
        q.1.micros as int
    }
}

/// An extreme of the points `p` (at least one): `k` 0 and 1 are the least
/// x and y, 2 and 3 the greatest.
pub open spec fn ext(p: Seq<InkPoint>, k: nat) -> int
    decreases p.len(),
{
    if p.len() <= 1 {
        coord(p[0], k)
    } else {
        let m = ext(p.drop_last(), k);
        let x = coord(p.last(), k);
        if k < 2 {
            if x < m { x } else { m }
        } else {
            if x > m { x } else { m }
        }
    }
}

/// The border around the points: half the line width (in millionths,
/// rounded toward zero).
pub open spec fn ink_pad(lw: PdfReal) -> int {
    if lw.micros >= 0 {
        lw.micros / 2
    } else {
        -((-lw.micros) / 2)
    }
}

/// The `/Rect` of an ink annotation: the bounding box of its points
/// (at least one), padded by `ink_pad`.
pub open spec fn ink_rect(p: Seq<InkPoint>, lw: PdfReal) -> Rectangle {
    Rectangle {
        llx: PdfReal { micros: (ext(p, 0) - ink_pad(lw)) as i64 },
        lly: PdfReal { micros: (ext(p, 1) - ink_pad(lw)) as i64 },
        urx: PdfReal { micros: (ext(p, 2) + ink_pad(lw)) as i64 },
        ury: PdfReal { micros: (ext(p, 3) + ink_pad(lw)) as i64 },
    }
}

/// The coordinates of a stroke as reals: x then y of each point.
pub open spec fn coords_v(st: Seq<InkPoint>) -> Seq<ObjV> {
    Seq::new(2 * st.len(), |k: int| if k % 2 == 0 { ObjV::Real(st[k / 2].0.micros) } else { ObjV::Real(st[k / 2].1.micros) })
}

/// The `/InkList`: one coordinate array per stroke that has a point.
pub open spec fn ink_list_v(s: Seq<Seq<InkPoint>>) -> Seq<ObjV>
    decreases s.len(),
{
    if s.len() == 0 {
        Seq::empty()
    } else {
        let r = ink_list_v(s.drop_last());
        if s.last().len() > 0 {
            r.push(ObjV::Array(coords_v(s.last())))
        } else {
            r
        }
    }
}

/// Colour components as reals.
pub open spec fn color_v(c: Seq<PdfReal>) -> Seq<ObjV> {
    Seq::new(c.len(), |i: int| ObjV::Real(c[i].micros))
}

/// The ink annotation dictionary: its rectangle, ink list, colour
/// (`/C`), border width (`/BS /W`), printable (`/F 4`).
pub open spec fn ink_v(rect: Rectangle, s: Seq<Seq<InkPoint>>, color: Seq<PdfReal>, lw: PdfReal) -> ObjV {
    let e1 = entries_set(entries_set(Seq::empty(), "Type"@, ObjV::Name("Annot"@)), "Subtype"@, ObjV::Name("Ink"@));
    let e2 = entries_set(entries_set(e1, "Rect"@, rect_v(rect)), "InkList"@, ObjV::Array(ink_list_v(s)));
    let e3 = entries_set(e2, "C"@, ObjV::Array(color_v(color)));
    let e4 = entries_set(e3, "BS"@, ObjV::Dict(entries_set(Seq::empty(), "W"@, ObjV::Real(lw.micros))));
    ObjV::Dict(entries_set(e4, "F"@, ObjV::Integer(4)))
}

/// Adding an ink annotation with the strokes `s` to the page at
/// `page_index`, with `content` as its appearance: refused when no stroke
/// has a point; else the annotation takes the next number, its
/// appearance the one after, and it is added to the page's `/Annots`.
pub open spec fn add_ink_v(
    doc: &EditableDocument,
    page_index: usize,
    s: Seq<Seq<InkPoint>>,
    color: Seq<PdfReal>,
    lw: PdfReal,
    content: Seq<u8>,
) -> (Seq<(ObjectId, ObjV)>, u32, Result<ObjectId, EditorError>) {
    let ov = doc.overlay_v();
    let next = doc.next_number();
    if flat(s).len() == 0 {
        (ov, next, Err(EditorError::EmptyInkStrokes))
    } else {
        match page_at(doc.spec_page_ids(), page_index) {
            Err(e) => (ov, next, Err(e)),
            Ok(page) => {
                let rect = ink_rect(flat(s), lw);
                let a = id_at(next as int);
                let ov1 = table_set(ov, a, ink_v(rect, s, color, lw));
                let (ov2, next2, r2) = write_appearance_v(ov1, doc.base_v(), (next + 1) as u32, a, content, rect);
                match r2 {
                    Err(e) => (ov2, next2, Err(e)),
                    Ok(_) => {
                        let (ov3, r3) = annot_add_v(ov2, doc.base_v(), page, a);
                        (
                            ov3,
                            next2,
                            match r3 {
                                Ok(_) => Ok(a),
                                Err(e) => Err(e),
                            },
                        )
                    },
                }
            },
        }
    }
}

/// One step of an extreme: `ext(p.push(q))` from `ext(p)`.
proof fn lemma_ext_push(p: Seq<InkPoint>, q: InkPoint, k: nat)
    ensures
        p.len() == 0 ==> ext(p.push(q), k) == coord(q, k),
        p.len() > 0 ==> ext(p.push(q), k) == (if k < 2 {
            if coord(q, k) < ext(p, k) { coord(q, k) } else { ext(p, k) }
        } else {
            if coord(q, k) > ext(p, k) { coord(q, k) } else { ext(p, k) }
        }),
{
    assert(p.push(q).drop_last() =~= p);
}

/// An extreme of bounded points is bounded.
proof fn lemma_ext_bounded(p: Seq<InkPoint>, k: nat)
    requires
        p.len() > 0,
        forall|j: int| 0 <= j < p.len() ==> -MAX_INK_MICROS <= #[trigger] coord(p[j], k) <= MAX_INK_MICROS,
    ensures
        -MAX_INK_MICROS <= ext(p, k) <= MAX_INK_MICROS,
    decreases p.len(),
{
    if p.len() > 1 {
        assert forall|j: int| 0 <= j < p.drop_last().len() implies -MAX_INK_MICROS <= #[trigger] coord(p.drop_last()[j], k)
            <= MAX_INK_MICROS by {
            assert(p.drop_last()[j] == p[j]);
        }
        lemma_ext_bounded(p.drop_last(), k);
        assert(coord(p[p.len() - 1], k) == coord(p.last(), k));
    } else {
        assert(coord(p[0], k) == coord(p[0], k));
    }
}

/// The bounds of the strokes' points: least x, least y, greatest x,
/// greatest y, when there is a point.
fn ink_bounds(strokes: &[Vec<InkPoint>]) -> (r: Option<(i64, i64, i64, i64)>)
    requires
        ink_bounded(strokes_v(strokes@)),
    ensures
        match r {
            None => flat(strokes_v(strokes@)).len() == 0,
            Some(b) => {
                let p = flat(strokes_v(strokes@));
                &&& p.len() > 0
                &&& b.0 == ext(p, 0) && b.1 == ext(p, 1) && b.2 == ext(p, 2) && b.3 == ext(p, 3)
            },
        },
{
    let ghost sv = strokes_v(strokes@);
    let mut seen = false;
    let mut lx: i64 = 0;
    let mut ly: i64 = 0;
    let mut hx: i64 = 0;
    let mut hy: i64 = 0;
    let mut i: usize = 0;
    assert(sv.take(0) =~= Seq::<Seq<InkPoint>>::empty());
    while i < strokes.len()
        invariant
            i <= strokes@.len(),
            sv == strokes_v(strokes@),
            ink_bounded(sv),
            seen <==> flat(sv.take(i as int)).len() > 0,
            seen ==> lx == ext(flat(sv.take(i as int)), 0) && ly == ext(flat(sv.take(i as int)), 1) && hx == ext(
                flat(sv.take(i as int)),
                2,
            ) && hy == ext(flat(sv.take(i as int)), 3),
        decreases strokes@.len() - i,
    {
        let st = &strokes[i];
        assert(st@ == sv[i as int]);
        let ghost base = flat(sv.take(i as int));
        let mut j: usize = 0;
        assert(base + st@.take(0) =~= base);
        while j < st.len()
            invariant
                i < strokes@.len(),
                j <= st@.len(),
                sv == strokes_v(strokes@),
                st@ == sv[i as int],
                ink_bounded(sv),
                seen <==> (base + st@.take(j as int)).len() > 0,
                seen ==> lx == ext(base + st@.take(j as int), 0) && ly == ext(base + st@.take(j as int), 1) && hx == ext(
                    base + st@.take(j as int),
                    2,
                ) && hy == ext(base + st@.take(j as int), 3),
            decreases st@.len() - j,
        {
            let (x, y) = st[j];
            let ghost p = base + st@.take(j as int);
            assert(base + st@.take(j as int + 1) =~= p.push(st@[j as int]));
            assert(st@[j as int] == sv[i as int][j as int]);
            proof {
                lemma_ext_push(p, st@[j as int], 0);
                lemma_ext_push(p, st@[j as int], 1);
                lemma_ext_push(p, st@[j as int], 2);
                lemma_ext_push(p, st@[j as int], 3);
            }
            if !seen {
                lx = x.micros;
                ly = y.micros;
                hx = x.micros;
                hy = y.micros;
                seen = true;
            } else {
                if x.micros < lx {
                    lx = x.micros;
                }
                if y.micros < ly {
                    ly = y.micros;
                }
                if x.micros > hx {
                    hx = x.micros;
                }
                if y.micros > hy {
                    hy = y.micros;
                }
            }
            j = j + 1;
        }
        assert(sv.take(i as int + 1).drop_last() =~= sv.take(i as int));
        assert(st@.take(j as int) =~= st@);
        assert(flat(sv.take(i as int + 1)) == base + st@);
        i = i + 1;
    }
    assert(sv.take(i as int) =~= sv);
    if seen {
        Some((lx, ly, hx, hy))
    } else {
        None
    }
}

/// The `/InkList` array of the strokes (see `ink_list_v`).
fn ink_list(strokes: &[Vec<InkPoint>]) -> (a: PdfArray)
    ensures
        view_objs(a.items@) == ink_list_v(strokes_v(strokes@)),
{
    let ghost sv = strokes_v(strokes@);
    let mut out = PdfArray::new();
    let mut i: usize = 0;
    assert(sv.take(0) =~= Seq::<Seq<InkPoint>>::empty());
    assert(view_objs(out.items@) =~= ink_list_v(sv.take(0)));
    while i < strokes.len()
        invariant
            i <= strokes@.len(),
            sv == strokes_v(strokes@),
            view_objs(out.items@) == ink_list_v(sv.take(i as int)),
        decreases strokes@.len() - i,
    {
        let st = &strokes[i];
        assert(st@ == sv[i as int]);
        let mut pts = PdfArray::new();
        let mut j: usize = 0;
        assert(view_objs(pts.items@) =~= coords_v(st@.take(0)));
        while j < st.len()
            invariant
                j <= st@.len(),
                view_objs(pts.items@) == coords_v(st@.take(j as int)),
            decreases st@.len() - j,
        {
            let ghost before = pts.items@;
            let q = st[j];
            pts.push(Object::Real(q.0));
            pts.push(Object::Real(q.1));
            proof {
                assert(q == st@[j as int]);
                lemma_view_objs(pts.items@);
                lemma_view_objs(before);
                let t1 = st@.take(j as int + 1);
                let t0 = st@.take(j as int);
                assert(pts.items@.len() == 2 * t1.len());
                assert forall|k: int| 0 <= k < 2 * t1.len() implies #[trigger] view_objs(pts.items@)[k] == coords_v(t1)[k] by {
                    if k < 2 * j {
                        assert(pts.items@[k] == before[k]);
                        assert(view_objs(before)[k] == coords_v(t0)[k]);
                        assert(t0[k / 2] == t1[k / 2]);
                    } else if k == 2 * j {
                        assert(pts.items@[k] == Object::Real(q.0));
                        assert(t1[k / 2] == q);
                    } else {
                        assert(pts.items@[k] == Object::Real(q.1));
                        assert(k / 2 == j);
                        assert(t1[k / 2] == q);
                    }
                }
                assert(view_objs(pts.items@) =~= coords_v(t1));
            }
            j = j + 1;
        }
        assert(st@.take(j as int) =~= st@);
        assert(sv.take(i as int + 1).drop_last() =~= sv.take(i as int));
        assert(sv.take(i as int + 1).last() == sv[i as int]);
        if st.len() > 0 {
            let ghost before = out.items@;
            let arr = Object::Array(pts);
            out.push(arr);
            proof {
                assert(out.items@.drop_last() =~= before);
                assert(arr.v() == ObjV::Array(coords_v(st@)));
                assert(view_objs(out.items@) == view_objs(before).push(arr.v()));
                assert(ink_list_v(sv.take(i as int + 1)) == ink_list_v(sv.take(i as int)).push(ObjV::Array(coords_v(st@))));
            }
        } else {
            assert(ink_list_v(sv.take(i as int + 1)) == ink_list_v(sv.take(i as int)));
        }
        i = i + 1;
    }
    assert(sv.take(i as int) =~= sv);
    out
}

/// The colour components as an array of reals.
pub(crate) fn color_array(color: &[PdfReal]) -> (a: PdfArray)
    ensures
        view_objs(a.items@) == color_v(color@),
{
    let mut out = PdfArray::new();
    let mut i: usize = 0;
    while i < color.len()
        invariant
            i <= color@.len(),
            view_objs(out.items@) == color_v(color@.take(i as int)),
        decreases color@.len() - i,
    {
        let ghost before = out.items@;
        let c = color[i];
        out.push(Object::Real(c));
        proof {
            lemma_view_objs(out.items@);
            lemma_view_objs(before);
            let t1 = color@.take(i as int + 1);
            assert forall|k: int| 0 <= k < t1.len() implies #[trigger] view_objs(out.items@)[k] == color_v(t1)[k] by {
                if k < i {
                    assert(out.items@[k] == before[k]);
                    assert(view_objs(before)[k] == color_v(color@.take(i as int))[k]);
                } else {
                    assert(out.items@[k] == Object::Real(c));
                    assert(t1[k] == c);
                }
            }
            assert(view_objs(out.items@) =~= color_v(t1));
        }
        i = i + 1;
    }
    assert(color@.take(i as int) =~= color@);
    out
}

impl EditableDocument {
    /// Adds an ink annotation (ISO 32000-1 12.5.6.13) to the page at
    /// `page_index`: `strokes` is one polyline per pen stroke, in page
    /// space; `/Rect` bounds every point, padded by half the line width;
    /// `color` gives `/C`; `appearance` is the content of its
    /// appearance stream. Refused when no stroke has a point. Returns the
    /// annotation's id (see `add_ink_v`).
    pub fn add_ink_annotation(
        &mut self,
        page_index: usize,
        strokes: &[Vec<InkPoint>],
        color: &[PdfReal],
        line_width: PdfReal,
        appearance: &[u8],
    ) -> (r: Result<ObjectId, EditorError>)
        requires
            old(self).wf(),
            old(self).next_number() + 2 < u32::MAX,
            ink_bounded(strokes_v(strokes@)),
        ensures
            final(self).wf(),
            final(self).same_but_overlay_next(old(self)),
            (final(self).overlay_v(), final(self).next_number(), r) == add_ink_v(
                old(self),
                page_index,
                strokes_v(strokes@),
                color@,
                line_width,
                appearance@,
            ),
    {
        let ghost start = *self;
        let ghost sv = strokes_v(strokes@);
        let b = match ink_bounds(strokes) {
            Some(b) => b,
            None => {
                return Err(EditorError::EmptyInkStrokes);
            },
        };
        let page_id = match self.page_id_at(page_index) {
            Ok(p) => p,
            Err(e) => {
                return Err(e);
            },
        };
        proof {
            let p = flat(sv);
            assert forall|k: nat, j: int| 0 <= j < p.len() implies -MAX_INK_MICROS <= #[trigger] coord(p[j], k)
                <= MAX_INK_MICROS by {
                lemma_flat_bounded(sv, j);
            }
            lemma_ext_bounded(p, 0);
            lemma_ext_bounded(p, 1);
            lemma_ext_bounded(p, 2);
            lemma_ext_bounded(p, 3);
        }
        let pad: i64 = if line_width.micros >= 0 {
            line_width.micros / 2
        } else {
            -((-(line_width.micros as i128)) / 2) as i64
        };
        let rect = Rectangle {
            llx: PdfReal { micros: b.0 - pad },
            lly: PdfReal { micros: b.1 - pad },
            urx: PdfReal { micros: b.2 + pad },
            ury: PdfReal { micros: b.3 + pad },
        };
        assert(rect == ink_rect(flat(sv), line_width));
        let ghost pre = *self;
        let id = self.allocate_id();
        proof {
            assert forall|x: ObjectId| self.object(x) is Some && x.number == id.number implies x == id by {
                assert(self.object(x) == pre.object(x));
            }
        }
        let mut d = PdfDictionary::new();
        assert(d.view_entries() =~= Seq::<(Seq<char>, ObjV)>::empty());
        d.set("Type", name_obj("Annot"));
        d.set("Subtype", name_obj("Ink"));
        d.set("Rect", Object::Array(crate::util::rect_to_array(rect)));
        d.set("InkList", Object::Array(ink_list(strokes)));
        d.set("C", Object::Array(color_array(color)));
        let mut bs = PdfDictionary::new();
        assert(bs.view_entries() =~= Seq::<(Seq<char>, ObjV)>::empty());
        bs.set("W", Object::Real(line_width));
        d.set("BS", Object::Dictionary(bs));
        d.set("F", Object::Integer(4));
        self.set_object(id, Object::Dictionary(d));
        match self.write_annotation_appearance(id, appearance, rect) {
            Ok(_) => {},
            Err(e) => {
                return Err(e);
            },
        }
        let ghost pre_annot = *self;
        let r = match self.add_annot_to_page(page_id, id) {
            Ok(_) => Ok(id),
            Err(e) => Err(e),
        };
        proof {
            assert(pre_annot.object(page_id) == obj_in(pre_annot.overlay_v(), start.base_v(), page_id));
        }
        r
    }
}

/// A point of the flattened strokes is a point of some stroke, so it is
/// bounded.
proof fn lemma_flat_bounded(s: Seq<Seq<InkPoint>>, j: int)
    requires
        ink_bounded(s),
        0 <= j < flat(s).len(),
    ensures
        -MAX_INK_MICROS <= flat(s)[j].0.micros <= MAX_INK_MICROS,
        -MAX_INK_MICROS <= flat(s)[j].1.micros <= MAX_INK_MICROS,
    decreases s.len(),
{
    if s.len() > 0 {
        let r = flat(s.drop_last());
        if j < r.len() {
            assert(ink_bounded(s.drop_last())) by {
                assert forall|i: int, k: int| 0 <= i < s.drop_last().len() && 0 <= k < s.drop_last()[i].len() implies -MAX_INK_MICROS
                    <= #[trigger] s.drop_last()[i][k].0.micros <= MAX_INK_MICROS && -MAX_INK_MICROS <= s.drop_last()[i][k].1.micros
                    <= MAX_INK_MICROS by {
                    assert(s.drop_last()[i] == s[i]);
                    assert(s[i][k].0.micros == s[i][k].0.micros);
                }
            }
            lemma_flat_bounded(s.drop_last(), j);
            assert(flat(s)[j] == r[j]);
        } else {
            let k = j - r.len();
            assert(flat(s)[j] == s.last()[k]);
            assert(s[s.len() - 1][k].0.micros == s.last()[k].0.micros);
        }
    }
}

/// The extremes of the points bound each of them.
proof fn lemma_ext_bounds_points(p: Seq<InkPoint>, j: int, k: nat)
    requires
        0 <= j < p.len(),
    ensures
        k < 2 ==> ext(p, k) <= coord(p[j], k),
        k >= 2 ==> ext(p, k) >= coord(p[j], k),
    decreases p.len(),
{
    if p.len() > 1 && j < p.len() - 1 {
        lemma_ext_bounds_points(p.drop_last(), j, k);
        assert(p.drop_last()[j] == p[j]);
    }
}

/// The `/Rect` of an ink annotation holds every point of its strokes,
/// whatever its (non-negative) line width.
pub proof fn lemma_ink_rect_holds_points(s: Seq<Seq<InkPoint>>, lw: PdfReal, j: int)
    requires
        ink_bounded(s),
        0 <= j < flat(s).len(),
        lw.micros >= 0,
    ensures
        ink_rect(flat(s), lw).llx.micros <= flat(s)[j].0.micros <= ink_rect(flat(s), lw).urx.micros,
        ink_rect(flat(s), lw).lly.micros <= flat(s)[j].1.micros <= ink_rect(flat(s), lw).ury.micros,
{
    let p = flat(s);
    assert forall|k: nat, i: int| 0 <= i < p.len() implies -MAX_INK_MICROS <= #[trigger] coord(p[i], k) <= MAX_INK_MICROS by {
        lemma_flat_bounded(s, i);
    }
    lemma_ext_bounded(p, 0);
    lemma_ext_bounded(p, 1);
    lemma_ext_bounded(p, 2);
    lemma_ext_bounded(p, 3);
    lemma_ext_bounds_points(p, j, 0);
    lemma_ext_bounds_points(p, j, 1);
    lemma_ext_bounds_points(p, j, 2);
    lemma_ext_bounds_points(p, j, 3);
    assert(0 <= ink_pad(lw) <= lw.micros);
}

} // verus!
