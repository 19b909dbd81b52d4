//! Flattening an interactive form (ISO 32000-1 12.7): each widget's
//! normal appearance stream is painted into its page's content as a form
//! XObject, under a fresh name of the page's `/Resources /XObject`, with
//! a given transformation matrix (ISO 32000-1 12.5.5 gives how the matrix
//! is derived from the stream's `/BBox` and `/Matrix` and the widget's
//! `/Rect`); then the widgets are taken off the pages' `/Annots` and the
//! catalog's `/AcroForm` is removed.

use vstd::prelude::*;
use crate::content_ops::{page_content_in, set_content_v};
use crate::graph::{annots_of, dict_of, ref_id, table_set, EditableDocument, EditorError};
use crate::numfmt::{real_text, write_real};
use crate::object::{
    copy_dictionary, copy_object, entries_get, entries_remove, entries_set, ObjV, Object, ObjectId, PdfArray, PdfDictionary, PdfReal,
};
use crate::outline::obj_in;
use crate::pages::ref_v;
use crate::util::{candidate_name, has_key, unique_resource_name};

verus! {

/// The normal appearance stream a widget's entries `w` name: `/AP /N`
/// when that is a reference; when it is a dictionary of states, the one
/// under `/AS`, else its first entry, when that is a reference.
pub open spec fn normal_ap_v(w: Seq<(Seq<char>, ObjV)>) -> Option<ObjectId> {
    match entries_get(w, "AP"@) {
        Some(ObjV::Dict(ap)) => match entries_get(ap, "N"@) {
            Some(ObjV::Reference(n, g)) => Some(ref_id(n, g)),
            Some(ObjV::Dict(states)) => {
                let by_state = match entries_get(w, "AS"@) {
                    Some(ObjV::Name(s)) => entries_get(states, s),
                    _ => None,
                };
                let entry = if by_state is Some {
                    by_state
                } else if states.len() > 0 {
                    Some(states[0].1)
                } else {
                    None
                };
                match entry {
                    Some(ObjV::Reference(n, g)) => Some(ref_id(n, g)),
                    _ => None,
                }
            },
            _ => None,
        },
        _ => None,
    }
}

/// Whether `i` is the least number from 1 that makes a name absent from
/// the entries `xo` after every smaller one was present.
pub open spec fn least_free(xo: Seq<(Seq<char>, ObjV)>, pref: Seq<char>, i: nat) -> bool {
    &&& i >= 1
    &&& !has_key(xo, candidate_name(pref, i))
    &&& forall|k: nat| 1 <= k < i ==> #[trigger] has_key(xo, candidate_name(pref, k))
}

/// The name `unique_resource_name` picks: `pref` when free, else `pref`
/// followed by the least number that gives a free name.
pub open spec fn fresh_name(xo: Seq<(Seq<char>, ObjV)>, pref: Seq<char>) -> Seq<char> {
    if !has_key(xo, pref) {
        pref
    } else {
        candidate_name(pref, choose|i: nat| #[trigger] least_free(xo, pref, i))
    }
}

/// The operators painting the form XObject `name` with the matrix `m`:
/// `q a b c d e f cm /name Do Q`, one statement per line.
pub open spec fn paint_ops(m: Seq<PdfReal>, name: Seq<char>) -> Seq<u8> {
    "q\n"@.map_values(|c: char| c as u8) + real_text(m[0].micros as int) + seq![32u8] + real_text(m[1].micros as int) + seq![32u8]
        + real_text(m[2].micros as int) + seq![32u8] + real_text(m[3].micros as int) + seq![32u8] + real_text(
        m[4].micros as int,
    ) + seq![32u8] + real_text(m[5].micros as int) + seq![32u8, 99u8, 109u8, 10u8, 47u8] + vstd::utf8::encode_utf8(name)
        + seq![32u8, 68u8, 111u8, 10u8, 81u8, 10u8]
}

/// Content `b` with the painting operators appended, on a line of their
/// own.
pub open spec fn with_paint(b: Seq<u8>, m: Seq<PdfReal>, name: Seq<char>) -> Seq<u8> {
    (if b.len() > 0 && b.last() != 10 {
        b.push(10u8)
    } else {
        b
    }) + paint_ops(m, name)
}

/// The page entries `pd` with the stream `ap` added to the XObjects of
/// their resources (inline, or the dictionary they refer to) under a
/// fresh name (see `fresh_name`), the resources then stored inline; and
/// that name.
pub open spec fn xobject_page_v(doc: &EditableDocument, pd: Seq<(Seq<char>, ObjV)>, ap: ObjectId) -> Result<
    (Seq<(Seq<char>, ObjV)>, Seq<char>),
    EditorError,
> {
    let res: Result<Seq<(Seq<char>, ObjV)>, EditorError> = match entries_get(pd, "Resources"@) {
        Some(ObjV::Dict(d)) => Ok(d),
        Some(ObjV::Reference(n, g)) => match doc.dict(ref_id(n, g)) {
            Some(d) => Ok(d),
            None => Err(EditorError::UnresolvedObject(n, g)),
        },
        _ => Ok(Seq::empty()),
    };
    match res {
        Err(e) => Err(e),
        Ok(rd) => {
            let xo = match entries_get(rd, "XObject"@) {
                Some(ObjV::Dict(d)) => d,
                _ => Seq::empty(),
            };
            if xo.len() >= usize::MAX {
                Err(EditorError::ResourceLimitExceeded)
            } else {
                let name = fresh_name(xo, "FlatForm"@);
                let rd2 = entries_set(rd, "XObject"@, ObjV::Dict(entries_set(xo, name, ref_v(ap))));
                Ok((entries_set(pd, "Resources"@, ObjV::Dict(rd2)), name))
            }
        },
    }
}

/// Flattening the widget `widget` onto the page `page` with the paint
/// matrix `m`: when the widget names a normal appearance that is a
/// stored stream, the page's resources (inline or referred to) are
/// stored inline with that stream added to `/XObject` under a fresh name
/// (see `fresh_name`), and the painting operators are appended to the
/// page content (see `set_content_v`); otherwise nothing changes. The
/// objects after it, the next number and the result.
pub open spec fn flatten_widget_v(
    doc: &EditableDocument,
    widget: ObjectId,
    page: ObjectId,
    m: Seq<PdfReal>,
) -> (Seq<(ObjectId, ObjV)>, u32, Result<(), EditorError>) {
    let ov = doc.overlay_v();
    let base = doc.base_v();
    let next = doc.next_number();
    match doc.dict(widget) {
        None => (ov, next, Err(EditorError::UnresolvedObject(widget.number, widget.generation))),
        Some(w) => match normal_ap_v(w) {
            None => (ov, next, Ok(())),
            Some(ap) => if !(doc.object(ap) matches Some(ObjV::Stream(_, _))) {
                (ov, next, Ok(()))
            } else {
                match doc.dict(page) {
                    None => (ov, next, Err(EditorError::UnresolvedObject(page.number, page.generation))),
                    Some(pd) => match xobject_page_v(doc, pd, ap) {
                        Err(e) => (ov, next, Err(e)),
                        Ok((pd2, name)) => {
                            let ov1 = table_set(ov, page, ObjV::Dict(pd2));
                            match page_content_in(ov1, base, page) {
                                Err(e) => (ov1, next, Err(e)),
                                Ok(b) => set_content_v(ov1, base, next, page, with_paint(b, m, name)),
                            }
                        },
                    },
                }
            },
        },
    }
}

/// The normal appearance stream a widget dictionary names (see
/// `normal_ap_v`).
pub fn normal_appearance_of(widget: &PdfDictionary) -> (r: Option<ObjectId>)
    ensures
        r == normal_ap_v(widget.view_entries()),
{
    match widget.get("AP") {
        Some(Object::Dictionary(ap)) => match ap.get("N") {
            Some(Object::Reference(id)) => {
                assert(ref_id(id.number, id.generation) == *id);
                Some(*id)
            },
            Some(Object::Dictionary(states)) => {
                let by_state = match widget.get("AS") {
                    Some(Object::Name(n)) => states.get(n.as_str()),
                    _ => None,
                };
                let entry = match by_state {
                    Some(o) => Some(o),
                    None => {
                        if states.entries.len() > 0 {
                            proof {
                                crate::object::lemma_view_entries(states.entries@);
                            }
                            Some(&states.entries[0].1)
                        } else {
                            proof {
                                crate::object::lemma_view_entries(states.entries@);
                            }
                            None
                        }
                    },
                };
                match entry {
                    Some(Object::Reference(id)) => {
                        assert(ref_id(id.number, id.generation) == *id);
                        Some(*id)
                    },
                    _ => None,
                }
            },
            _ => None,
        },
        _ => None,
    }
}

/// The name `unique_resource_name` gives is `fresh_name`.
proof fn lemma_fresh_name(xo: Seq<(Seq<char>, ObjV)>, pref: Seq<char>, r: Seq<char>)
    requires
        !has_key(xo, pref) ==> r == pref,
        has_key(xo, pref) ==> exists|i: nat|
            #![trigger candidate_name(pref, i)]
            i >= 1 && r == candidate_name(pref, i) && !has_key(xo, candidate_name(pref, i)) && forall|k: nat|
                1 <= k < i ==> #[trigger] has_key(xo, candidate_name(pref, k)),
    ensures
        r == fresh_name(xo, pref),
{
    if has_key(xo, pref) {
        let i = choose|i: nat|
            #![trigger candidate_name(pref, i)]
            i >= 1 && r == candidate_name(pref, i) && !has_key(xo, candidate_name(pref, i)) && forall|k: nat|
                1 <= k < i ==> #[trigger] has_key(xo, candidate_name(pref, k));
        assert(least_free(xo, pref, i));
        let j = choose|j: nat| #[trigger] least_free(xo, pref, j);
        assert(least_free(xo, pref, j));
        if j < i {
            assert(has_key(xo, candidate_name(pref, j)));
        }
        if i < j {
            assert(has_key(xo, candidate_name(pref, i)));
        }
        assert(i == j);
    }
}

/// Appends the ASCII text `s` to `out`.
fn push_ascii_str(out: &mut Vec<u8>, s: &str)
    ensures
        final(out)@ == old(out)@ + vstd::utf8::encode_utf8(s@),
{
    let b = s.as_bytes();
    let ghost start = out@;
    let mut i: usize = 0;
    while i < b.len()
        invariant
            i <= b@.len(),
            b@ == vstd::string::StringSliceAdditionalSpecFns::spec_bytes(s),
            out@ == start + b@.subrange(0, i as int),
        decreases b@.len() - i,
    {
        out.push(b[i]);
        assert(out@ =~= start + b@.subrange(0, i as int + 1));
        i = i + 1;
    }
    assert(b@.subrange(0, b@.len() as int) =~= b@);
}

/// Appends a real and a space.
fn push_real_sp(out: &mut Vec<u8>, v: PdfReal)
    ensures
        final(out)@ == old(out)@ + real_text(v.micros as int) + seq![32u8],
{
    let ghost start = out@;
    write_real(out, v.micros);
    let ghost mid = out@;
    out.push(32u8);
    assert(out@ =~= mid.push(32u8));
    assert(mid.push(32u8) =~= start + real_text(v.micros as int) + seq![32u8]);
}

/// The painting operators (see `paint_ops`).
#[verifier::rlimit(40)]
fn paint_op_bytes(paint: &[PdfReal; 6], name: &str) -> (r: Vec<u8>)
    ensures
        r@ == paint_ops(paint@, name@),
{
    let mut ops: Vec<u8> = Vec::new();
    ops.push(113u8);
    ops.push(10u8);
    let ghost s0 = ops@;
    assert(s0 =~= seq![113u8, 10u8]);
    push_real_sp(&mut ops, paint[0]);
    push_real_sp(&mut ops, paint[1]);
    push_real_sp(&mut ops, paint[2]);
    push_real_sp(&mut ops, paint[3]);
    push_real_sp(&mut ops, paint[4]);
    write_real(&mut ops, paint[5].micros);
    let ghost s1 = ops@;
    let tail1: Vec<u8> = vec![32u8, 99u8, 109u8, 10u8, 47u8];
    let mut k: usize = 0;
    while k < tail1.len()
        invariant
            k <= tail1@.len(),
            tail1@ == seq![32u8, 99u8, 109u8, 10u8, 47u8],
            ops@ == s1 + tail1@.subrange(0, k as int),
        decreases tail1@.len() - k,
    {
        ops.push(tail1[k]);
        assert(ops@ =~= s1 + tail1@.subrange(0, k as int + 1));
        k = k + 1;
    }
    let ghost s2 = ops@;
    push_ascii_str(&mut ops, name);
    let ghost s3 = ops@;
    let tail2: Vec<u8> = vec![32u8, 68u8, 111u8, 10u8, 81u8, 10u8];
    let mut k: usize = 0;
    while k < tail2.len()
        invariant
            k <= tail2@.len(),
            tail2@ == seq![32u8, 68u8, 111u8, 10u8, 81u8, 10u8],
            ops@ == s3 + tail2@.subrange(0, k as int),
        decreases tail2@.len() - k,
    {
        ops.push(tail2[k]);
        assert(ops@ =~= s3 + tail2@.subrange(0, k as int + 1));
        k = k + 1;
    }
    proof {
        reveal_strlit("q\n");
        assert("q\n"@.map_values(|c: char| c as u8) =~= seq![113u8, 10u8]);
        assert(tail1@.subrange(0, 5) =~= tail1@);
        assert(tail2@.subrange(0, 6) =~= tail2@);
        assert(ops@ =~= paint_ops(paint@, name@));
    }
    ops
}

/// `b` with the painting operators appended (see `with_paint`).
fn paint_bytes(b: Vec<u8>, paint: &[PdfReal; 6], name: &str) -> (r: Vec<u8>)
    ensures
        r@ == with_paint(b@, paint@, name@),
{
    let mut bytes = b;
    let ghost b0 = bytes@;
    if bytes.len() > 0 && bytes[bytes.len() - 1] != 10u8 {
        bytes.push(10u8);
    }
    let ghost b1 = bytes@;
    let ops = paint_op_bytes(paint, name);
    let mut k: usize = 0;
    while k < ops.len()
        invariant
            k <= ops@.len(),
            bytes@ == b1 + ops@.subrange(0, k as int),
        decreases ops@.len() - k,
    {
        bytes.push(ops[k]);
        assert(bytes@ =~= b1 + ops@.subrange(0, k as int + 1));
        k = k + 1;
    }
    assert(ops@.subrange(0, ops@.len() as int) =~= ops@);
    bytes
}

impl EditableDocument {
    /// The page entries with the stream `ap` added as a form XObject
    /// (see `xobject_page_v`).
    fn xobject_page(&self, page: &PdfDictionary, ap: ObjectId) -> (r: Result<(PdfDictionary, String), EditorError>)
        ensures
            match xobject_page_v(self, page.view_entries(), ap) {
                Ok((e, n)) => r matches Ok((d, s)) && d.view_entries() == e && s@ == n,
                Err(x) => r == Err::<(PdfDictionary, String), EditorError>(x),
            },
    {
        let mut page = copy_dictionary(page);
        let mut resources = match page.get("Resources") {
            Some(Object::Dictionary(d)) => copy_dictionary(d),
            Some(Object::Reference(id)) => {
                assert(ref_id(id.number, id.generation) == *id);
                match self.get_dictionary(*id) {
                    Ok(d) => d,
                    Err(e) => {
                        return Err(e);
                    },
                }
            },
            _ => {
                let d = PdfDictionary::new();
                assert(d.view_entries() =~= Seq::<(Seq<char>, ObjV)>::empty());
                d
            },
        };
        let mut xobjects = match resources.get("XObject") {
            Some(Object::Dictionary(d)) => copy_dictionary(d),
            _ => {
                let d = PdfDictionary::new();
                assert(d.view_entries() =~= Seq::<(Seq<char>, ObjV)>::empty());
                d
            },
        };
        proof {
            crate::object::lemma_view_entries(xobjects.entries@);
        }
        if xobjects.entries.len() == usize::MAX {
            return Err(EditorError::ResourceLimitExceeded);
        }
        let name = unique_resource_name(&xobjects, "FlatForm");
        proof {
            lemma_fresh_name(xobjects.view_entries(), "FlatForm"@, name@);
        }
        xobjects.set(name.as_str(), Object::Reference(ap));
        resources.set("XObject", Object::Dictionary(xobjects));
        page.set("Resources", Object::Dictionary(resources));
        Ok((page, name))
    }
}

impl EditableDocument {
    /// Paints the normal appearance of the widget `widget_id` into the
    /// content of the page `page_id` with the transformation matrix
    /// `paint` (see `flatten_widget_v`): the fixed part of flattening a
    /// form field; a widget with no normal appearance stream is left as
    /// it is.
    pub fn flatten_widget_onto(&mut self, widget_id: ObjectId, page_id: ObjectId, paint: [PdfReal; 6]) -> (r: Result<
        (),
        EditorError,
    >)
        requires
            old(self).wf(),
            old(self).next_number() < u32::MAX,
        ensures
            final(self).wf(),
            final(self).same_but_overlay_next(old(self)),
            (final(self).overlay_v(), final(self).next_number(), r) == flatten_widget_v(old(self), widget_id, page_id, paint@),
    {
        let ghost start = *self;
        let widget = match self.get_dictionary(widget_id) {
            Ok(w) => w,
            Err(e) => {
                return Err(e);
            },
        };
        let ap_id = match normal_appearance_of(&widget) {
            Some(a) => a,
            None => {
                return Ok(());
            },
        };
        match self.get_object(ap_id) {
            Some(Object::Stream(_)) => {},
            _ => {
                return Ok(());
            },
        }
        let page = match self.get_dictionary(page_id) {
            Ok(p) => p,
            Err(e) => {
                return Err(e);
            },
        };
        let (page2, name) = match self.xobject_page(&page, ap_id) {
            Ok(x) => x,
            Err(e) => {
                return Err(e);
            },
        };
        proof {
            self.lemma_stored_below_next(page_id);
        }
        self.set_object(page_id, Object::Dictionary(page2));
        let bytes = match self.page_content_bytes(page_id) {
            Ok(b) => b,
            Err(e) => {
                return Err(e);
            },
        };
        let bytes = paint_bytes(bytes, &paint, name.as_str());
        self.set_page_content_bytes(page_id, bytes)
    }
}

/// The first of `pages` whose `/Annots` refers to `annot`; an error for
/// a page that is not a stored dictionary, met before it.
pub open spec fn annot_page_in(
    ov: Seq<(ObjectId, ObjV)>,
    base: Seq<(ObjectId, ObjV)>,
    pages: Seq<ObjectId>,
    annot: ObjectId,
) -> Result<Option<ObjectId>, EditorError>
    decreases pages.len(),
{
    if pages.len() == 0 {
        Ok(None)
    } else {
        match dict_of(obj_in(ov, base, pages[0])) {
            None => Err(EditorError::UnresolvedObject(pages[0].number, pages[0].generation)),
            Some(d) => if annots_of(d).contains(ref_v(annot)) {
                Ok(Some(pages[0]))
            } else {
                annot_page_in(ov, base, pages.drop_first(), annot)
            },
        }
    }
}

/// `annots` without the references to any of `ws`.
pub open spec fn without_widgets(annots: Seq<ObjV>, ws: Seq<ObjectId>) -> Seq<ObjV>
    decreases annots.len(),
{
    if annots.len() == 0 {
        Seq::empty()
    } else {
        without_widgets(annots.drop_last(), ws) + match annots.last() {
            ObjV::Reference(n, g) => if ws.contains(ref_id(n, g)) {
                Seq::empty()
            } else {
                seq![annots.last()]
            },
            other => seq![other],
        }
    }
}

/// Detaching the widgets `ws` from one page: when its `/Annots` is an
/// array, the page is stored again with them left out of it (and
/// without `/Annots` when nothing is left).
pub open spec fn detach_page_v(
    ov: Seq<(ObjectId, ObjV)>,
    base: Seq<(ObjectId, ObjV)>,
    page: ObjectId,
    ws: Seq<ObjectId>,
) -> Result<Seq<(ObjectId, ObjV)>, EditorError> {
    match dict_of(obj_in(ov, base, page)) {
        None => Err(EditorError::UnresolvedObject(page.number, page.generation)),
        Some(pd) => match entries_get(pd, "Annots"@) {
            Some(ObjV::Array(a)) => {
                let kept = without_widgets(a, ws);
                Ok(
                    table_set(
                        ov,
                        page,
                        ObjV::Dict(
                            if kept.len() == 0 {
                                entries_remove(pd, "Annots"@)
                            } else {
                                entries_set(pd, "Annots"@, ObjV::Array(kept))
                            },
                        ),
                    ),
                )
            },
            _ => Ok(ov),
        },
    }
}

/// Detaching the widgets `ws` from each of `pages` in turn: the objects
/// after it, and the first error (the pages before it detached).
pub open spec fn detach_pages_v(
    ov: Seq<(ObjectId, ObjV)>,
    base: Seq<(ObjectId, ObjV)>,
    pages: Seq<ObjectId>,
    ws: Seq<ObjectId>,
) -> (Seq<(ObjectId, ObjV)>, Result<(), EditorError>)
    decreases pages.len(),
{
    if pages.len() == 0 {
        (ov, Ok(()))
    } else {
        match detach_page_v(ov, base, pages[0], ws) {
            Err(e) => (ov, Err(e)),
            Ok(ov1) => detach_pages_v(ov1, base, pages.drop_first(), ws),
        }
    }
}

/// Detaching the widgets `ws` from every page, then removing the
/// catalog's `/AcroForm`: the objects after it and the result.
pub open spec fn detach_form_v(doc: &EditableDocument, ws: Seq<ObjectId>) -> (Seq<(ObjectId, ObjV)>, Result<(), EditorError>) {
    let ov = doc.overlay_v();
    let base = doc.base_v();
    match doc.spec_page_ids() {
        Err(e) => (ov, Err(e)),
        Ok(pages) => {
            let (ov1, r1) = detach_pages_v(ov, base, pages, ws);
            match r1 {
                Err(e) => (ov1, Err(e)),
                Ok(_) => {
                    let root = doc.root_id();
                    match dict_of(obj_in(ov1, base, root)) {
                        None => (ov1, Err(EditorError::UnresolvedObject(root.number, root.generation))),
                        Some(cd) => if has_key(cd, "AcroForm"@) {
                            (table_set(ov1, root, ObjV::Dict(entries_remove(cd, "AcroForm"@))), Ok(()))
                        } else {
                            (ov1, Ok(()))
                        },
                    }
                },
            }
        },
    }
}

/// Whether `ws` holds `id`.
pub(crate) fn holds_id(ws: &[ObjectId], id: ObjectId) -> (b: bool)
    ensures
        b == ws@.contains(id),
{
    let mut i: usize = 0;
    while i < ws.len()
        invariant
            i <= ws@.len(),
            forall|j: int| 0 <= j < i ==> ws@[j] != id,
        decreases ws@.len() - i,
    {
        if ws[i] == id {
            assert(ws@[i as int] == id);
            return true;
        }
        i = i + 1;
    }
    false
}

/// Whether the array `a` holds a reference to `id`.
fn refers_to(a: &PdfArray, id: ObjectId) -> (b: bool)
    ensures
        b == a.view_items().contains(ref_v(id)),
{
    proof {
        crate::object::lemma_view_objs(a.items@);
    }
    let mut i: usize = 0;
    while i < a.items.len()
        invariant
            i <= a.items@.len(),
            a.view_items().len() == a.items@.len(),
            forall|j: int| 0 <= j < a.items@.len() ==> #[trigger] a.view_items()[j] == a.items@[j].v(),
            forall|j: int| 0 <= j < i ==> a.view_items()[j] != ref_v(id),
        decreases a.items@.len() - i,
    {
        if let Object::Reference(x) = &a.items[i] {
            if *x == id {
                assert(a.view_items()[i as int] == ref_v(id));
                return true;
            }
        }
        i = i + 1;
    }
    false
}

/// The items of `a` without the references to any of `ws`.
fn without_widget_refs(a: &PdfArray, ws: &[ObjectId]) -> (r: PdfArray)
    ensures
        r.view_items() == without_widgets(a.view_items(), ws@),
{
    proof {
        crate::object::lemma_view_objs(a.items@);
    }
    let ghost v = a.view_items();
    let mut kept = PdfArray::new();
    let mut i: usize = 0;
    proof {
        assert(v.take(0) =~= Seq::<ObjV>::empty());
        assert(kept.view_items() =~= Seq::<ObjV>::empty());
    }
    while i < a.items.len()
        invariant
            i <= a.items@.len(),
            v == a.view_items(),
            v.len() == a.items@.len(),
            forall|j: int| 0 <= j < a.items@.len() ==> #[trigger] v[j] == a.items@[j].v(),
            kept.view_items() == without_widgets(v.take(i as int), ws@),
        decreases a.items@.len() - i,
    {
        let ghost t = v.take(i + 1);
        proof {
            assert(t.drop_last() =~= v.take(i as int));
            assert(t.last() == v[i as int]);
        }
        let drop = match &a.items[i] {
            Object::Reference(x) => {
                assert(ref_id(x.number, x.generation) == *x);
                holds_id(ws, *x)
            },
            _ => false,
        };
        if !drop {
            let ghost k0 = kept.items@;
            kept.push(copy_object(&a.items[i]));
            proof {
                assert(kept.items@.drop_last() =~= k0);
                assert(crate::object::view_objs(kept.items@) == crate::object::view_objs(kept.items@.drop_last()).push(
                    kept.items@.last().v(),
                ));
            }
        }
        i = i + 1;
    }
    proof {
        assert(v.take(v.len() as int) =~= v);
    }
    kept
}

impl EditableDocument {
    /// The first page whose `/Annots` refers to the annotation
    /// `annot_id`, in document order (see `annot_page_in`); `None` when
    /// no page does.
    pub fn find_annotation_page(&self, annot_id: ObjectId) -> (r: Result<Option<ObjectId>, EditorError>)
        ensures
            r == match self.spec_page_ids() {
                Err(e) => Err(e),
                Ok(pages) => annot_page_in(self.overlay_v(), self.base_v(), pages, annot_id),
            },
    {
        let pages = match self.page_ids() {
            Ok(p) => p,
            Err(e) => {
                return Err(e);
            },
        };
        let ghost all = pages@;
        let mut i: usize = 0;
        proof {
            assert(all.skip(0) =~= all);
        }
        while i < pages.len()
            invariant
                i <= pages@.len(),
                all == pages@,
                self.spec_page_ids() == Ok::<Seq<ObjectId>, EditorError>(all),
                annot_page_in(self.overlay_v(), self.base_v(), all, annot_id) == annot_page_in(
                    self.overlay_v(),
                    self.base_v(),
                    all.skip(i as int),
                    annot_id,
                ),
            decreases pages@.len() - i,
        {
            let pid = pages[i];
            proof {
                assert(all.skip(i as int)[0] == pid);
                assert(all.skip(i as int).drop_first() =~= all.skip(i + 1));
            }
            let dict = match self.get_dictionary(pid) {
                Ok(d) => d,
                Err(e) => {
                    return Err(e);
                },
            };
            if let Some(Object::Array(a)) = dict.get("Annots") {
                if refers_to(a, annot_id) {
                    return Ok(Some(pid));
                }
            }
            i = i + 1;
        }
        proof {
            assert(all.skip(i as int).len() == 0);
        }
        Ok(None)
    }

    /// Takes the widgets `widgets` off every page's `/Annots` (dropping
    /// an `/Annots` left empty) and removes the catalog's `/AcroForm`
    /// (see `detach_form_v`): the last step of flattening a form, once
    /// each widget has been painted onto its page.
    pub fn detach_form_widgets(&mut self, widgets: &[ObjectId]) -> (r: Result<(), EditorError>)
        requires
            old(self).wf(),
        ensures
            final(self).wf(),
            final(self).same_but_overlay(old(self)),
            (final(self).overlay_v(), r) == detach_form_v(old(self), widgets@),
    {
        let ghost start = *self;
        let pages = match self.page_ids() {
            Ok(p) => p,
            Err(e) => {
                return Err(e);
            },
        };
        let ghost all = pages@;
        let mut i: usize = 0;
        proof {
            assert(all.skip(0) =~= all);
        }
        while i < pages.len()
            invariant
                i <= pages@.len(),
                all == pages@,
                start == *old(self),
                start.spec_page_ids() == Ok::<Seq<ObjectId>, EditorError>(all),
                self.wf(),
                self.same_but_overlay(&start),
                detach_pages_v(start.overlay_v(), start.base_v(), all, widgets@) == detach_pages_v(
                    self.overlay_v(),
                    self.base_v(),
                    all.skip(i as int),
                    widgets@,
                ),
            decreases pages@.len() - i,
        {
            let pid = pages[i];
            proof {
                assert(all.skip(i as int)[0] == pid);
                assert(all.skip(i as int).drop_first() =~= all.skip(i + 1));
            }
            let mut page = match self.get_dictionary(pid) {
                Ok(d) => d,
                Err(e) => {
                    return Err(e);
                },
            };
            let kept = match page.get("Annots") {
                Some(Object::Array(a)) => Some(without_widget_refs(a, widgets)),
                _ => None,
            };
            if let Some(k) = kept {
                if k.items.len() == 0 {
                    page.remove("Annots");
                } else {
                    page.set("Annots", Object::Array(k));
                }
                self.store_dict(pid, page);
            }
            i = i + 1;
        }
        proof {
            assert(all.skip(i as int).len() == 0);
        }
        let mut catalog = match self.catalog() {
            Ok(c) => c,
            Err(e) => {
                return Err(e);
            },
        };
        if catalog.remove("AcroForm").is_some() {
            let root = self.catalog_id();
            self.store_dict(root, catalog);
        }
        Ok(())
    }
}

} // verus!
