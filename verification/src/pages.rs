//! Page-tree editing: insert, delete, move and rotate pages (ISO 32000-1
//! 7.7.3).
//!
//! Every structural operation first flattens the page tree into a single
//! `/Kids` array under the `/Pages` root. Balancing a page tree has no
//! effect on the document's logical structure (ISO 32000-1 7.7.3.2), and a
//! flat tree turns each index-based operation into a splice of one list
//! instead of a `/Count` update along an arbitrary path. The intermediate
//! nodes left unreferenced stay in the object graph until a full rewrite
//! drops them.

use vstd::prelude::*;
use std::collections::HashSet;
use crate::graph::{LoadedFile, annots_of, dict_of, id_key, ref_id, table_set, walk_fails, walk_result, EditableDocument, EditorError};
use crate::object::{
    entries_get, entries_remove, entries_set, lemma_entries_get_set, ObjV, Object, ObjectId, PdfArray, PdfDictionary,
    PdfName, PdfReal,
};
use crate::types::Rectangle;
use crate::refs::{import_v, media_box_of, parse_media_box, remap_object};
use crate::writer::lookup_id;

verus! {

/// How many `/Parent` links an inherited attribute is looked up through.
pub const MAX_INHERIT_DEPTH: usize = 64;

/// The reference value naming `id`.
pub open spec fn ref_v(id: ObjectId) -> ObjV {
    ObjV::Reference(id.number, id.generation)
}

/// The effective `/Rotate` of the node `id`, looking through at most `k`
/// nodes up the `/Parent` chain: the first integer `/Rotate` found, else
/// 0 (ISO 32000-1 Table 30, an inheritable attribute).
pub open spec fn rotate_walk(doc: &EditableDocument, id: ObjectId, k: nat) -> Result<i64, EditorError>
    decreases k,
{
    if k == 0 {
        Ok(0)
    } else {
        match doc.dict(id) {
            None => Err(EditorError::UnresolvedObject(id.number, id.generation)),
            Some(d) => match entries_get(d, "Rotate"@) {
                Some(ObjV::Integer(r)) => Ok(r),
                _ => match entries_get(d, "Parent"@) {
                    Some(ObjV::Reference(n, g)) => rotate_walk(doc, ref_id(n, g), (k - 1) as nat),
                    _ => Ok(0),
                },
            },
        }
    }
}

/// The effective `/MediaBox` of the node `id`, looking through at most `k`
/// nodes up the `/Parent` chain: the first well-formed one found
/// (`media_box_of`), else none.
pub open spec fn media_box_walk(doc: &EditableDocument, id: ObjectId, k: nat) -> Result<
    Option<(int, int, int, int)>,
    EditorError,
>
    decreases k,
{
    if k == 0 {
        Ok(None)
    } else {
        match doc.dict(id) {
            None => Err(EditorError::UnresolvedObject(id.number, id.generation)),
            Some(d) => {
                let own = match entries_get(d, "MediaBox"@) {
                    Some(ObjV::Array(items)) => media_box_of(items),
                    _ => None,
                };
                if own is Some {
                    Ok(own)
                } else {
                    match entries_get(d, "Parent"@) {
                        Some(ObjV::Reference(n, g)) => media_box_walk(doc, ref_id(n, g), (k - 1) as nat),
                        _ => Ok(None),
                    }
                }
            },
        }
    }
}

/// The references to `leaves`, in order.
pub open spec fn kid_refs(leaves: Seq<ObjectId>) -> Seq<ObjV> {
    Seq::new(leaves.len(), |k: int| ref_v(leaves[k]))
}

/// A `/Pages` node's entries with `/Type /Pages`, `/Kids` the references
/// to `leaves`, and `/Count` their number.
pub open spec fn with_kids(d: Seq<(Seq<char>, ObjV)>, leaves: Seq<ObjectId>) -> Seq<(Seq<char>, ObjV)> {
    entries_set(
        entries_set(entries_set(d, "Type"@, ObjV::Name("Pages"@)), "Kids"@, ObjV::Array(kid_refs(leaves))),
        "Count"@,
        ObjV::Integer(leaves.len() as i64),
    )
}

/// A leaf page's object with its `/Parent` pointing at `root`: unchanged
/// when it already does, else its entries as a dictionary with `/Parent`
/// set.
pub open spec fn reparented(o: Option<ObjV>, root: ObjectId) -> Option<ObjV> {
    match dict_of(o) {
        Some(d) => if entries_get(d, "Parent"@) == Some(ref_v(root)) {
            o
        } else {
            Some(ObjV::Dict(entries_set(d, "Parent"@, ref_v(root))))
        },
        None => o,
    }
}

/// The object under `x` once every leaf in `leaves` points at `root`.
pub open spec fn after_reparent(doc: &EditableDocument, root: ObjectId, leaves: Seq<ObjectId>, x: ObjectId) -> Option<
    ObjV,
> {
    if leaves.contains(x) {
        reparented(doc.object(x), root)
    } else {
        doc.object(x)
    }
}

/// The object under `x` once the page tree is flattened to `leaves` under
/// `root`.
pub open spec fn after_flatten(doc: &EditableDocument, root: ObjectId, leaves: Seq<ObjectId>, x: ObjectId) -> Option<
    ObjV,
> {
    if x == root {
        match dict_of(after_reparent(doc, root, leaves, root)) {
            Some(d) => Some(ObjV::Dict(with_kids(d, leaves))),
            None => None,
        }
    } else {
        after_reparent(doc, root, leaves, x)
    }
}

/// The object under `x` once `root`'s kids are `leaves`.
pub open spec fn after_rewrite(doc: &EditableDocument, root: ObjectId, leaves: Seq<ObjectId>, x: ObjectId) -> Option<
    ObjV,
> {
    if x == root {
        match doc.dict(root) {
            Some(d) => Some(ObjV::Dict(with_kids(d, leaves))),
            None => None,
        }
    } else {
        doc.object(x)
    }
}

impl EditableDocument {
    /// The effective `/Rotate` of a page: its own, else the nearest
    /// ancestor's through `/Parent` (at most `MAX_INHERIT_DEPTH` nodes),
    /// else 0.
    pub fn effective_rotate(&self, id: ObjectId) -> (r: Result<i64, EditorError>)
        ensures
            r == rotate_walk(self, id, 64),
    {
        let mut cur = id;
        let mut k: usize = 0;
        while k < MAX_INHERIT_DEPTH
            invariant
                k <= 64,
                rotate_walk(self, cur, (64 - k) as nat) == rotate_walk(self, id, 64),
            decreases 64 - k,
        {
            let dict = self.get_dictionary(cur)?;
            match dict.get("Rotate") {
                Some(Object::Integer(r)) => {
                    return Ok(*r);
                },
                _ => {},
            }
            match dict.get("Parent") {
                Some(Object::Reference(parent)) => {
                    assert(ref_id(parent.number, parent.generation) == *parent);
                    cur = *parent;
                },
                _ => {
                    return Ok(0);
                },
            }
            k = k + 1;
        }
        Ok(0)
    }

    /// The effective `/MediaBox` of a page: its own well-formed one, else
    /// the nearest ancestor's through `/Parent` (at most
    /// `MAX_INHERIT_DEPTH` nodes), else a US Letter page. The corners are
    /// put in order.
    pub fn effective_media_box(&self, id: ObjectId) -> (r: Result<Rectangle, EditorError>)
        ensures
            match media_box_walk(self, id, 64) {
                Ok(Some(b)) => r matches Ok(rect) && b == (
                    rect.llx.micros as int,
                    rect.lly.micros as int,
                    rect.urx.micros as int,
                    rect.ury.micros as int,
                ),
                Ok(None) => r == Ok::<Rectangle, EditorError>(Rectangle::spec_letter()),
                Err(e) => r == Err::<Rectangle, EditorError>(e),
            },
    {
        let mut cur = id;
        let mut k: usize = 0;
        while k < MAX_INHERIT_DEPTH
            invariant
                k <= 64,
                media_box_walk(self, cur, (64 - k) as nat) == media_box_walk(self, id, 64),
            decreases 64 - k,
        {
            let dict = self.get_dictionary(cur)?;
            match dict.get("MediaBox") {
                Some(Object::Array(arr)) => {
                    match parse_media_box(arr) {
                        Some(rect) => {
                            return Ok(rect);
                        },
                        None => {},
                    }
                },
                _ => {},
            }
            match dict.get("Parent") {
                Some(Object::Reference(parent)) => {
                    assert(ref_id(parent.number, parent.generation) == *parent);
                    cur = *parent;
                },
                _ => {
                    return Ok(Rectangle::letter());
                },
            }
            k = k + 1;
        }
        Ok(Rectangle::letter())
    }
}

/// An array of references to `leaves`, in order.
fn kids_array(leaves: &[ObjectId]) -> (a: PdfArray)
    ensures
        a.view_items() == kid_refs(leaves@),
{
    let mut a = PdfArray::new();
    let mut i: usize = 0;
    assert(a.view_items() =~= kid_refs(leaves@.take(0)));
    while i < leaves.len()
        invariant
            i <= leaves@.len(),
            a.view_items() == kid_refs(leaves@.take(i as int)),
        decreases leaves@.len() - i,
    {
        let ghost before = a.items@;
        a.push(Object::Reference(leaves[i]));
        proof {
            assert(a.items@.drop_last() =~= before);
            assert(crate::object::view_objs(a.items@) == crate::object::view_objs(a.items@.drop_last()).push(
                a.items@.last().v(),
            ));
            assert(a.view_items() =~= kid_refs(leaves@.take(i + 1)));
        }
        i = i + 1;
    }
    assert(leaves@.take(leaves@.len() as int) =~= leaves@);
    a
}

impl EditableDocument {
    /// Makes `leaves` the whole `/Kids` array of the `/Pages` node
    /// `pages_root`, with `/Type /Pages` and `/Count` their number.
    pub fn rewrite_kids(&mut self, pages_root: ObjectId, leaves: &[ObjectId]) -> (r: Result<(), EditorError>)
        requires
            old(self).wf(),
        ensures
            final(self).wf(),
            final(self).same_but_overlay(old(self)),
            match old(self).dict(pages_root) {
                None => r == Err::<(), EditorError>(EditorError::UnresolvedObject(pages_root.number, pages_root.generation))
                    && final(self).overlay_v() == old(self).overlay_v(),
                Some(d) => r is Ok && final(self).overlay_v() == table_set(
                    old(self).overlay_v(),
                    pages_root,
                    ObjV::Dict(with_kids(d, leaves@)),
                ),
            },
            r is Ok ==> forall|x: ObjectId| #[trigger] final(self).object(x) == after_rewrite(old(self), pages_root, leaves@, x),
    {
        let mut dict = self.get_dictionary(pages_root)?;
        proof {
            self.lemma_stored_below_next(pages_root);
        }
        let ghost d0 = dict.view_entries();
        let ghost before = *self;
        let kids = kids_array(leaves);
        dict.set("Type", Object::Name(PdfName::new_unchecked("Pages")));
        dict.set("Kids", Object::Array(kids));
        #[verifier::truncate]
        let count = leaves.len() as i64;
        dict.set("Count", Object::Integer(count));
        assert(dict.view_entries() == with_kids(d0, leaves@));
        self.set_object(pages_root, Object::Dictionary(dict));
        proof {
            self.lemma_object_after_set(&before, pages_root, ObjV::Dict(with_kids(d0, leaves@)));
        }
        Ok(())
    }
}

impl EditableDocument {
    /// Flattens the page tree into one `/Kids` array under the `/Pages`
    /// root, pointing every leaf page's `/Parent` at the root, and returns
    /// the root and the leaves in document order.
    pub fn flatten_page_tree(&mut self) -> (r: Result<(ObjectId, Vec<ObjectId>), EditorError>)
        requires
            old(self).wf(),
        ensures
            final(self).wf(),
            final(self).same_but_overlay(old(self)),
            match old(self).spec_page_ids() {
                Err(e) => r == Err::<(ObjectId, Vec<ObjectId>), EditorError>(e) && final(self).overlay_v()
                    == old(self).overlay_v(),
                Ok(ids) => old(self).spec_pages_root() matches Ok(root) && r matches Ok((rt, lv)) && rt == root
                    && lv@ == ids && forall|x: ObjectId| #[trigger] final(self).object(x) == after_flatten(
                    old(self),
                    root,
                    ids,
                    x,
                ),
            },
    {
        let pages_root = self.pages_root_id()?;
        let leaves = self.page_ids()?;
        let ghost start = *self;
        proof {
            self.lemma_page_ids_dicts();
            assert(ref_id(pages_root.number, pages_root.generation) == pages_root);
        }
        let mut i: usize = 0;
        while i < leaves.len()
            invariant
                i <= leaves@.len(),
                self.wf(),
                self.same_but_overlay(&start),
                start.wf(),
                forall|k: int| 0 <= k < leaves@.len() ==> #[trigger] start.dict(leaves@[k]) is Some,
                forall|x: ObjectId| #[trigger] self.object(x) == after_reparent(&start, pages_root, leaves@.take(i as int), x),
            decreases leaves@.len() - i,
        {
            let leaf = leaves[i];
            let ghost cur = *self;
            proof {
                assert(start.dict(leaf) is Some);
                assert(self.object(leaf) == after_reparent(&start, pages_root, leaves@.take(i as int), leaf));
            }
            let mut dict = self.get_dictionary(leaf)?;
            let already = match dict.get("Parent") {
                Some(Object::Reference(p)) => *p == pages_root,
                _ => false,
            };
            proof {
                assert(leaves@.take(i + 1) =~= leaves@.take(i as int).push(leaf));
                self.lemma_stored_below_next(leaf);
            }
            if !already {
                let ghost d0 = dict.view_entries();
                dict.set("Parent", Object::Reference(pages_root));
                self.set_object(leaf, Object::Dictionary(dict));
                proof {
                    let v = ObjV::Dict(entries_set(d0, "Parent"@, ref_v(pages_root)));
                    self.lemma_object_after_set(&cur, leaf, v);
                    assert(!leaves@.take(i as int).contains(leaf)) by {
                        if leaves@.take(i as int).contains(leaf) {
                            let o = start.object(leaf);
                            let d = dict_of(o)->0;
                            if entries_get(d, "Parent"@) != Some(ref_v(pages_root)) {
                                lemma_entries_get_set(d, "Parent"@, ref_v(pages_root), "Parent"@);
                            }
                        }
                    }
                    assert forall|x: ObjectId| #[trigger] self.object(x) == after_reparent(
                        &start,
                        pages_root,
                        leaves@.take(i + 1),
                        x,
                    ) by {
                        if x != leaf {
                            assert(leaves@.take(i + 1).contains(x) == leaves@.take(i as int).contains(x));
                        } else {
                            assert(leaves@.take(i + 1)[i as int] == leaf);
                            assert(leaves@.take(i + 1).contains(x));
                        }
                    }
                }
            } else {
                proof {
                    assert forall|x: ObjectId| #[trigger] self.object(x) == after_reparent(
                        &start,
                        pages_root,
                        leaves@.take(i + 1),
                        x,
                    ) by {
                        if x != leaf {
                            assert(leaves@.take(i + 1).contains(x) == leaves@.take(i as int).contains(x));
                        } else {
                            assert(leaves@.take(i + 1)[i as int] == leaf);
                            assert(leaves@.take(i + 1)[i as int] == leaf);
                            assert(leaves@.take(i + 1).contains(x));
                            if !leaves@.take(i as int).contains(leaf) {
                                assert(entries_get(dict_of(start.object(leaf))->0, "Parent"@) == Some(ref_v(pages_root)));
                            } else {
                                let o = start.object(leaf);
                                let d = dict_of(o)->0;
                                if entries_get(d, "Parent"@) != Some(ref_v(pages_root)) {
                                    lemma_entries_get_set(d, "Parent"@, ref_v(pages_root), "Parent"@);
                                }
                            }
                        }
                    }
                }
            }
            i = i + 1;
        }
        proof {
            assert(leaves@.take(leaves@.len() as int) =~= leaves@);
        }
        let ghost mid = *self;
        proof {
            assert(self.object(pages_root) == after_reparent(&start, pages_root, leaves@, pages_root));
            assert(start.object(pages_root) is Some);
        }
        self.rewrite_kids(pages_root, leaves.as_slice())?;
        proof {
            assert forall|x: ObjectId| #[trigger] self.object(x) == after_flatten(&start, pages_root, leaves@, x) by {
                assert(self.object(x) == after_rewrite(&mid, pages_root, leaves@, x));
                assert(mid.object(x) == after_reparent(&start, pages_root, leaves@, x));
            }
        }
        Ok((pages_root, leaves))
    }
}

/// The entries of a new blank page under `root` with a `width` by
/// `height` media box from the origin and no resources.
pub open spec fn blank_page(root: ObjectId, width: PdfReal, height: PdfReal) -> Seq<(Seq<char>, ObjV)> {
    seq![
        ("Type"@, ObjV::Name("Page"@)),
        ("Parent"@, ref_v(root)),
        ("MediaBox"@, ObjV::Array(seq![ObjV::Real(0), ObjV::Real(0), ObjV::Real(width.micros), ObjV::Real(height.micros)])),
        ("Resources"@, ObjV::Dict(Seq::empty())),
    ]
}

/// The Euclidean remainder of `x` by 360, in `0..360`.
fn normalize_degrees(x: i128) -> (r: i64)
    requires
        -0x1_0000_0000_0000_0000 <= x <= 0x1_0000_0000_0000_0000,
    ensures
        r == x as int % 360,
{
    if x >= 0 {
        let m = (x as u128) % 360;
        m as i64
    } else {
        let m = ((-x) as u128) % 360;
        proof {
            assert(((-x) as int) % 360 == m);
        }
        let r: i64 = if m == 0 { 0 } else { (360 - m) as i64 };
        proof {
            let q = ((-x) as int) / 360;
            assert((-x) as int == 360 * q + m) by (nonlinear_arith)
                requires m == ((-x) as int) % 360, q == ((-x) as int) / 360;
            if m == 0 {
                assert(x as int == 360 * (-q));
                assert((x as int) % 360 == 0) by (nonlinear_arith)
                    requires x as int == 360 * (-q);
            } else {
                assert(x as int == 360 * (-q - 1) + (360 - m));
                assert((x as int) % 360 == 360 - m) by (nonlinear_arith)
                    requires x as int == 360 * (-q - 1) + (360 - m), 0 < 360 - m < 360;
            }
        }
        r
    }
}

/// Whether `d` is a multiple of 90.
fn is_right_angle(d: i64) -> (b: bool)
    ensures
        b == (d as int % 90 == 0),
{
    let a: u128 = if d < 0 { (-(d as i128)) as u128 } else { d as u128 };
    proof {
        let q = (a as int) / 90;
        let m = (a as int) % 90;
        assert(a as int == 90 * q + m) by (nonlinear_arith)
            requires m == (a as int) % 90, q == (a as int) / 90;
        if d < 0 {
            assert(d as int == 90 * (-q) - m);
            if m == 0 {
                assert((d as int) % 90 == 0) by (nonlinear_arith)
                    requires d as int == 90 * (-q);
            } else {
                assert(d as int == 90 * (-q - 1) + (90 - m));
                assert((d as int) % 90 == 90 - m) by (nonlinear_arith)
                    requires d as int == 90 * (-q - 1) + (90 - m), 0 < 90 - m < 90;
            }
        }
    }
    a % 90 == 0
}

impl EditableDocument {
    /// Inserts a new blank page at `index` (0-based; the page count
    /// appends it at the end), with a `width` by `height` media box in
    /// points, and returns its id. The page tree is flattened first, also
    /// when `index` is out of range.
    pub fn insert_blank_page(&mut self, index: usize, width: PdfReal, height: PdfReal) -> (r: Result<ObjectId, EditorError>)
        requires
            old(self).wf(),
            old(self).next_number() < u32::MAX,
        ensures
            final(self).wf(),
            final(self).same_but_overlay_next(old(self)),
            match old(self).spec_page_ids() {
                Err(e) => r == Err::<ObjectId, EditorError>(e) && final(self).overlay_v() == old(self).overlay_v()
                    && final(self).next_number() == old(self).next_number(),
                Ok(ids) => old(self).spec_pages_root() matches Ok(root) && if index > ids.len() {
                    &&& r == Err::<ObjectId, EditorError>(EditorError::InvalidPageIndex { index, count: ids.len() as usize })
                    &&& final(self).next_number() == old(self).next_number()
                    &&& forall|x: ObjectId| #[trigger] final(self).object(x) == after_flatten(old(self), root, ids, x)
                } else {
                    &&& final(self).next_number() == old(self).next_number() + 1
                    &&& r matches Ok(id) && id == ObjectId { number: old(self).next_number(), generation: 0 }
                        && forall|x: ObjectId| #[trigger] final(self).object(x) == (if x == root {
                        Some(ObjV::Dict(with_kids(dict_of(after_flatten(old(self), root, ids, root))->0, ids.insert(index as int, id))))
                    } else if x == id {
                        Some(ObjV::Dict(blank_page(root, width, height)))
                    } else {
                        after_flatten(old(self), root, ids, x)
                    })
                },
            },
    {
        let ghost start = *self;
        let (pages_root, mut leaves) = self.flatten_page_tree()?;
        if index > leaves.len() {
            return Err(EditorError::InvalidPageIndex { index, count: leaves.len() });
        }
        let ghost mid = *self;
        proof {
            start.lemma_page_ids_dicts();
            assert(mid.object(pages_root) == after_flatten(&start, pages_root, leaves@, pages_root));
        }
        let page_id = self.allocate_id();
        let mut dict = PdfDictionary::new();
        proof {
            reveal_strlit("Type");
            reveal_strlit("Parent");
            reveal_strlit("MediaBox");
            reveal_strlit("Resources");
            assert(dict.view_entries() =~= Seq::<(Seq<char>, ObjV)>::empty());
        }
        dict.set("Type", Object::Name(PdfName::new_unchecked("Page")));
        let ghost e1 = dict.view_entries();
        assert(e1 =~= seq![("Type"@, ObjV::Name("Page"@))]);
        dict.set("Parent", Object::Reference(pages_root));
        proof {
            assert forall|i: int| 0 <= i < e1.len() implies e1[i].0 != "Parent"@ by {
                assert(e1[i].0.len() != "Parent"@.len());
            }
            crate::object::lemma_entries_set_fresh(e1, "Parent"@, ref_v(pages_root));
        }
        let ghost e2 = dict.view_entries();
        let mut media_box = PdfArray::new();
        media_box.push(Object::Real(PdfReal::from_micros(0)));
        media_box.push(Object::Real(PdfReal::from_micros(0)));
        media_box.push(Object::Real(width));
        media_box.push(Object::Real(height));
        proof {
            assert(media_box.view_items() =~= seq![ObjV::Real(0), ObjV::Real(0), ObjV::Real(width.micros), ObjV::Real(height.micros)]) by {
                reveal_with_fuel(crate::object::view_objs, 5);
            }
        }
        let ghost mbv = Object::Array(media_box).v();
        dict.set("MediaBox", Object::Array(media_box));
        proof {
            assert forall|i: int| 0 <= i < e2.len() implies e2[i].0 != "MediaBox"@ by {
                assert(e2[i].0.len() != "MediaBox"@.len());
            }
            crate::object::lemma_entries_set_fresh(e2, "MediaBox"@, mbv);
        }
        let ghost e3 = dict.view_entries();
        let resources = PdfDictionary::new();
        proof {
            assert(resources.view_entries() =~= Seq::<(Seq<char>, ObjV)>::empty());
        }
        dict.set("Resources", Object::Dictionary(resources));
        proof {
            assert forall|i: int| 0 <= i < e3.len() implies e3[i].0 != "Resources"@ by {
                assert(e3[i].0.len() != "Resources"@.len());
            }
            crate::object::lemma_entries_set_fresh(e3, "Resources"@, ObjV::Dict(Seq::empty()));
            assert(dict.view_entries() =~= blank_page(pages_root, width, height));
        }
        let ghost alloc = *self;
        proof {
            assert forall|x: ObjectId| alloc.object(x) is Some && x.number == page_id.number implies x == page_id by {
                assert(alloc.object(x) == mid.object(x));
            }
        }
        self.set_object(page_id, Object::Dictionary(dict));
        proof {
            self.lemma_object_after_set(&alloc, page_id, ObjV::Dict(blank_page(pages_root, width, height)));
            assert(mid.object(pages_root) is Some);
            assert(page_id != pages_root);
        }
        leaves.insert(index, page_id);
        let ghost before = *self;
        let res = self.rewrite_kids(pages_root, leaves.as_slice());
        proof {
            assert(before.dict(pages_root) == dict_of(after_flatten(&start, pages_root, start.spec_page_ids()->Ok_0, pages_root)));
        }
        res?;
        proof {
            let ids = start.spec_page_ids()->Ok_0;
            assert(leaves@ == ids.insert(index as int, page_id));
            assert forall|x: ObjectId| #[trigger] self.object(x) == (if x == pages_root {
                Some(ObjV::Dict(with_kids(dict_of(after_flatten(&start, pages_root, ids, pages_root))->0, ids.insert(index as int, page_id))))
            } else if x == page_id {
                Some(ObjV::Dict(blank_page(pages_root, width, height)))
            } else {
                after_flatten(&start, pages_root, ids, x)
            }) by {
                assert(self.object(x) == after_rewrite(&before, pages_root, leaves@, x));
                assert(alloc.object(x) == mid.object(x));
            }
        }
        Ok(page_id)
    }

    /// Moves the page at `from` to position `to` (both 0-based), shifting
    /// the pages between. The page tree is flattened first, also when an
    /// index is out of range.
    pub fn move_page(&mut self, from: usize, to: usize) -> (r: Result<(), EditorError>)
        requires
            old(self).wf(),
        ensures
            final(self).wf(),
            final(self).same_but_overlay(old(self)),
            match old(self).spec_page_ids() {
                Err(e) => r == Err::<(), EditorError>(e) && final(self).overlay_v() == old(self).overlay_v(),
                Ok(ids) => old(self).spec_pages_root() matches Ok(root) && if from >= ids.len() {
                    &&& r == Err::<(), EditorError>(EditorError::InvalidPageIndex { index: from, count: ids.len() as usize })
                    &&& forall|x: ObjectId| #[trigger] final(self).object(x) == after_flatten(old(self), root, ids, x)
                } else if to >= ids.len() {
                    &&& r == Err::<(), EditorError>(EditorError::InvalidPageIndex { index: to, count: ids.len() as usize })
                    &&& forall|x: ObjectId| #[trigger] final(self).object(x) == after_flatten(old(self), root, ids, x)
                } else {
                    &&& r is Ok
                    &&& forall|x: ObjectId| #[trigger] final(self).object(x) == (if x == root {
                        Some(
                            ObjV::Dict(
                                with_kids(
                                    dict_of(after_flatten(old(self), root, ids, root))->0,
                                    ids.remove(from as int).insert(to as int, ids[from as int]),
                                ),
                            ),
                        )
                    } else {
                        after_flatten(old(self), root, ids, x)
                    })
                },
            },
    {
        let ghost start = *self;
        let (pages_root, mut leaves) = self.flatten_page_tree()?;
        if from >= leaves.len() {
            return Err(EditorError::InvalidPageIndex { index: from, count: leaves.len() });
        }
        if to >= leaves.len() {
            return Err(EditorError::InvalidPageIndex { index: to, count: leaves.len() });
        }
        let ghost mid = *self;
        proof {
            start.lemma_page_ids_dicts();
        }
        let id = leaves.remove(from);
        leaves.insert(to, id);
        let res = self.rewrite_kids(pages_root, leaves.as_slice());
        proof {
            assert(mid.dict(pages_root) == dict_of(after_flatten(&start, pages_root, start.spec_page_ids()->Ok_0, pages_root)));
        }
        res
    }

    /// Turns the page at `index` by a further `degrees`, which must be a
    /// multiple of 90 and may be negative, setting its `/Rotate` (ISO
    /// 32000-1 Table 30) to the total brought into `0..360`.
    pub fn rotate_page(&mut self, index: usize, degrees: i64) -> (r: Result<(), EditorError>)
        requires
            old(self).wf(),
        ensures
            final(self).wf(),
            final(self).same_but_overlay(old(self)),
            if degrees as int % 90 != 0 {
                r == Err::<(), EditorError>(EditorError::InvalidRotation) && final(self).overlay_v() == old(self).overlay_v()
            } else {
                match old(self).spec_page_ids() {
                    Err(e) => r == Err::<(), EditorError>(e) && final(self).overlay_v() == old(self).overlay_v(),
                    Ok(ids) => if index >= ids.len() {
                        r == Err::<(), EditorError>(EditorError::InvalidPageIndex { index, count: ids.len() as usize })
                            && final(self).overlay_v() == old(self).overlay_v()
                    } else {
                        let page = ids[index as int];
                        match rotate_walk(old(self), page, 64) {
                            Err(e) => r == Err::<(), EditorError>(e) && final(self).overlay_v() == old(self).overlay_v(),
                            Ok(cur) => r is Ok && final(self).overlay_v() == table_set(
                                old(self).overlay_v(),
                                page,
                                ObjV::Dict(
                                    entries_set(
                                        old(self).dict(page)->0,
                                        "Rotate"@,
                                        ObjV::Integer(((cur as int + degrees as int) % 360) as i64),
                                    ),
                                ),
                            ),
                        }
                    },
                }
            },
    {
        if !is_right_angle(degrees) {
            return Err(EditorError::InvalidRotation);
        }
        proof {
            self.lemma_page_ids_dicts();
        }
        let page_id = self.page_id_at(index)?;
        let current = self.effective_rotate(page_id)?;
        let normalized = normalize_degrees(current as i128 + degrees as i128);
        let mut dict = self.get_dictionary(page_id)?;
        proof {
            self.lemma_stored_below_next(page_id);
        }
        dict.set("Rotate", Object::Integer(normalized));
        self.set_object(page_id, Object::Dictionary(dict));
        Ok(())
    }
}

/// The page a destination points at: the page reference that opens a
/// destination array (ISO 32000-1 12.3.2.2), following one reference to
/// the array.
pub open spec fn dest_target_v(doc: &EditableDocument, o: ObjV) -> Option<ObjectId> {
    let resolved = match o {
        ObjV::Reference(n, g) => doc.object(ref_id(n, g)),
        _ => Some(o),
    };
    match resolved {
        Some(ObjV::Array(items)) => if items.len() > 0 {
            match items[0] {
                ObjV::Reference(n, g) => Some(ref_id(n, g)),
                _ => None,
            }
        } else {
            None
        },
        _ => None,
    }
}

/// The entries without their `/Dest` when it points at `page`.
pub open spec fn strip_dest_entry(doc: &EditableDocument, d: Seq<(Seq<char>, ObjV)>, page: ObjectId) -> Seq<
    (Seq<char>, ObjV),
> {
    match entries_get(d, "Dest"@) {
        Some(x) => if dest_target_v(doc, x) == Some(page) {
            entries_remove(d, "Dest"@)
        } else {
            d
        },
        None => d,
    }
}

/// Whether the entries hold a `/GoTo` action `/A` whose `/D` points at
/// `page`.
pub open spec fn goto_points_at(doc: &EditableDocument, d: Seq<(Seq<char>, ObjV)>, page: ObjectId) -> bool {
    &&& entries_get(d, "A"@) matches Some(ObjV::Dict(a))
    &&& entries_get(a, "S"@) == Some(ObjV::Name("GoTo"@))
    &&& entries_get(a, "D"@) matches Some(x)
    &&& dest_target_v(doc, x) == Some(page)
}

/// The entries of an outline item or annotation without a destination
/// pointing at `page`: its `/Dest`, and a `/GoTo` action `/A`.
pub open spec fn strip_dest(doc: &EditableDocument, d: Seq<(Seq<char>, ObjV)>, page: ObjectId) -> Seq<
    (Seq<char>, ObjV),
> {
    let d1 = strip_dest_entry(doc, d, page);
    if goto_points_at(doc, d1, page) {
        entries_remove(d1, "A"@)
    } else {
        d1
    }
}

/// Whether `strip_dest` removes anything.
pub open spec fn strips(doc: &EditableDocument, d: Seq<(Seq<char>, ObjV)>, page: ObjectId) -> bool {
    ||| (entries_get(d, "Dest"@) matches Some(x) && dest_target_v(doc, x) == Some(page))
    ||| goto_points_at(doc, strip_dest_entry(doc, d, page), page)
}

/// Removing the first entry under one key leaves what other keys read.
pub(crate) proof fn lemma_remove_other(entries: Seq<(Seq<char>, ObjV)>, key: Seq<char>, other: Seq<char>)
    requires
        other != key,
    ensures
        entries_get(entries_remove(entries, key), other) == entries_get(entries, other),
    decreases entries.len(),
{
    if entries.len() > 0 && entries[0].0 != key {
        lemma_remove_other(entries.drop_first(), key, other);
        let s = entries_remove(entries, key);
        assert(s.drop_first() =~= entries_remove(entries.drop_first(), key));
    }
}

/// `strip_dest` leaves every key other than `/Dest` and `/A` reading as
/// before.
pub proof fn lemma_strip_keeps_others(doc: &EditableDocument, d: Seq<(Seq<char>, ObjV)>, page: ObjectId, k: Seq<char>)
    requires
        k != "Dest"@,
        k != "A"@,
    ensures
        entries_get(strip_dest(doc, d, page), k) == entries_get(d, k),
{
    lemma_remove_other(d, "Dest"@, k);
    lemma_remove_other(strip_dest_entry(doc, d, page), "A"@, k);
}

/// Whether `after` differs from `before` at most by `/Dest` and `/A`
/// entries removed from dictionaries: every other object is as it was,
/// and every dictionary stays one and reads as before at every other key.
pub open spec fn only_dests_removed(before: &EditableDocument, after: &EditableDocument) -> bool {
    &&& after.same_but_overlay(before)
    &&& forall|x: ObjectId| dict_of(#[trigger] before.object(x)) is None ==> after.object(x) == before.object(x)
    &&& forall|x: ObjectId| dict_of(#[trigger] before.object(x)) is Some ==> dict_of(after.object(x)) is Some
    &&& forall|x: ObjectId, k: Seq<char>|
        k != "Dest"@ && k != "A"@ && dict_of(before.object(x)) is Some ==> #[trigger] entries_get(
            dict_of(after.object(x))->0,
            k,
        ) == entries_get(dict_of(before.object(x))->0, k)
}

/// Removing destinations twice is removing them once.
pub proof fn lemma_only_dests_removed_trans(a: &EditableDocument, b: &EditableDocument, c: &EditableDocument)
    requires
        only_dests_removed(a, b),
        only_dests_removed(b, c),
    ensures
        only_dests_removed(a, c),
{
    assert forall|x: ObjectId| dict_of(#[trigger] a.object(x)) is None implies c.object(x) == a.object(x) by {
        assert(b.object(x) == a.object(x));
    }
    assert forall|x: ObjectId| dict_of(#[trigger] a.object(x)) is Some implies dict_of(c.object(x)) is Some by {
        assert(dict_of(b.object(x)) is Some);
    }
    assert forall|x: ObjectId, k: Seq<char>|
        k != "Dest"@ && k != "A"@ && dict_of(a.object(x)) is Some implies #[trigger] entries_get(
        dict_of(c.object(x))->0,
        k,
    ) == entries_get(dict_of(a.object(x))->0, k) by {
        assert(dict_of(b.object(x)) is Some);
        assert(entries_get(dict_of(b.object(x))->0, k) == entries_get(dict_of(a.object(x))->0, k));
        assert(entries_get(dict_of(c.object(x))->0, k) == entries_get(dict_of(b.object(x))->0, k));
    }
}

/// A document removes nothing from itself.
pub proof fn lemma_only_dests_removed_refl(a: &EditableDocument)
    ensures
        only_dests_removed(a, a),
{
}

impl EditableDocument {
    /// The page a destination points at (see `dest_target_v`).
    pub fn dest_target(&self, obj: &Object) -> (r: Option<ObjectId>)
        ensures
            r == dest_target_v(self, obj.v()),
    {
        match obj {
            Object::Reference(id) => {
                assert(ref_id(id.number, id.generation) == *id);
                match self.get_object(*id) {
                    Some(resolved) => first_page_ref(&resolved),
                    None => None,
                }
            },
            other => first_page_ref(other),
        }
    }

    /// Removes from `dict` its `/Dest`, then a `/GoTo` action `/A`, when
    /// they point at `page_id`; returns whether anything was removed.
    pub fn strip_dest_if_points_to(&self, dict: &mut PdfDictionary, page_id: ObjectId) -> (changed: bool)
        ensures
            final(dict).view_entries() == strip_dest(self, old(dict).view_entries(), page_id),
            changed == strips(self, old(dict).view_entries(), page_id),
    {
        let mut changed = false;
        let hit = match dict.get("Dest") {
            Some(dest) => match self.dest_target(dest) {
                Some(t) => t == page_id,
                None => false,
            },
            None => false,
        };
        if hit {
            dict.remove("Dest");
            changed = true;
        }
        let goto_hit = match dict.get("A") {
            Some(Object::Dictionary(action)) => {
                let is_goto = match action.get("S") {
                    Some(Object::Name(n)) => crate::object::str_eq(n.as_str(), "GoTo"),
                    _ => false,
                };
                if is_goto {
                    match action.get("D") {
                        Some(d) => match self.dest_target(d) {
                            Some(t) => t == page_id,
                            None => false,
                        },
                        None => false,
                    }
                } else {
                    false
                }
            },
            _ => false,
        };
        if goto_hit {
            dict.remove("A");
            changed = true;
        }
        changed
    }
}

/// The page reference opening a destination array.
fn first_page_ref(o: &Object) -> (r: Option<ObjectId>)
    ensures
        r == (match o.v() {
            ObjV::Array(items) => if items.len() > 0 {
                match items[0] {
                    ObjV::Reference(n, g) => Some(ref_id(n, g)),
                    _ => None,
                }
            } else {
                None
            },
            _ => None,
        }),
{
    match o {
        Object::Array(arr) => {
            proof {
                crate::object::lemma_view_objs(arr.items@);
            }
            if arr.items.len() > 0 {
                match &arr.items[0] {
                    Object::Reference(id) => Some(*id),
                    _ => None,
                }
            } else {
                None
            }
        },
        _ => None,
    }
}

/// The most outline items a prune visits.
pub const MAX_OUTLINE_NODES: usize = 200000;

/// The key a walk records a visited node under.
fn visit_key(id: ObjectId) -> (k: u64)
    ensures
        k == id_key(id),
{
    id.number as u64 * 65536 + id.generation as u64
}

/// Documents that differ only by removed destinations walk their page
/// trees alike.
pub proof fn lemma_walk_same(
    a: &EditableDocument,
    b: &EditableDocument,
    node: ObjectId,
    depth: int,
    visited: Set<u64>,
    out: Seq<ObjectId>,
)
    requires
        only_dests_removed(a, b),
    ensures
        a.walk(node, depth, visited, out) == b.walk(node, depth, visited, out),
    decreases 65 - depth, 1int, 0int,
{
    reveal_strlit("Kids");
    reveal_strlit("Dest");
    reveal_strlit("A");
    assert("Kids"@ != "A"@) by {
        assert("Kids"@.len() != "A"@.len());
    }
    assert("Kids"@ != "Dest"@) by {
        assert("Kids"@[0] != "Dest"@[0]);
    }
    if depth <= 64 && out.len() + visited.len() <= 500000 && !visited.contains(id_key(node)) {
        let v2 = visited.insert(id_key(node));
        assert(a.object(node) == a.object(node));
        if a.dict(node) is Some {
            assert(entries_get(dict_of(b.object(node))->0, "Kids"@) == entries_get(dict_of(a.object(node))->0, "Kids"@));
            match entries_get(a.dict(node)->0, "Kids"@) {
                Some(ObjV::Array(kids)) => {
                    lemma_walk_kids_same(a, b, kids, 0, depth, v2, out);
                },
                _ => {},
            }
        } else {
            assert(b.object(node) == a.object(node));
        }
    }
}

/// The kids' walk of the same.
pub proof fn lemma_walk_kids_same(
    a: &EditableDocument,
    b: &EditableDocument,
    kids: Seq<ObjV>,
    i: int,
    depth: int,
    visited: Set<u64>,
    out: Seq<ObjectId>,
)
    requires
        only_dests_removed(a, b),
    ensures
        a.walk_kids(kids, i, depth, visited, out) == b.walk_kids(kids, i, depth, visited, out),
    decreases 65 - depth, 0int, kids.len() - i,
{
    if !(depth > 64 || i < 0 || i >= kids.len()) {
        match kids[i] {
            ObjV::Reference(n, g) => {
                lemma_walk_same(a, b, ref_id(n, g), depth + 1, visited, out);
                match a.walk(ref_id(n, g), depth + 1, visited, out) {
                    Ok((v, o)) => {
                        lemma_walk_kids_same(a, b, kids, i + 1, depth, v, o);
                    },
                    Err(_) => {},
                }
            },
            _ => {
                lemma_walk_kids_same(a, b, kids, i + 1, depth, visited, out);
            },
        }
    }
}

/// Documents that differ only by removed destinations list the same
/// pages.
pub proof fn lemma_page_ids_same(a: &EditableDocument, b: &EditableDocument)
    requires
        only_dests_removed(a, b),
    ensures
        a.spec_page_ids() == b.spec_page_ids(),
{
    reveal_strlit("Pages");
    reveal_strlit("Dest");
    reveal_strlit("A");
    assert("Pages"@ != "A"@) by {
        assert("Pages"@.len() != "A"@.len());
    }
    assert("Pages"@ != "Dest"@) by {
        assert("Pages"@.len() != "Dest"@.len());
    }
    let r = a.root_id();
    assert(a.object(r) == a.object(r));
    if a.dict(r) is Some {
        assert(entries_get(dict_of(b.object(r))->0, "Pages"@) == entries_get(dict_of(a.object(r))->0, "Pages"@));
    } else {
        assert(b.object(r) == a.object(r));
    }
    match a.spec_pages_root() {
        Ok(root) => {
            lemma_walk_same(a, b, root, 0, Set::empty(), Seq::empty());
        },
        Err(_) => {},
    }
}

/// The outline item an entry of `d` links to by reference, if any.
pub open spec fn link_of(d: Seq<(Seq<char>, ObjV)>, key: Seq<char>) -> Option<ObjectId> {
    match entries_get(d, key) {
        Some(ObjV::Reference(n, g)) => Some(ref_id(n, g)),
        _ => None,
    }
}

/// Whether the items `x` links to by `/First` and `/Next` are in `s` or
/// waiting in `pending`.
pub open spec fn links_within(doc: &EditableDocument, s: Set<ObjectId>, pending: Seq<ObjectId>, x: ObjectId) -> bool {
    match dict_of(doc.object(x)) {
        None => true,
        Some(d) => {
            &&& link_of(d, "First"@) matches Some(c) ==> s.contains(c) || pending.contains(c)
            &&& link_of(d, "Next"@) matches Some(c) ==> s.contains(c) || pending.contains(c)
        },
    }
}

/// What pruning destinations to `page` does to the item `x`: a
/// dictionary that points there is stored without them, as a plain
/// dictionary; anything else is left as it was.
pub open spec fn pruned_item(before: &EditableDocument, after: &EditableDocument, x: ObjectId, page: ObjectId) -> bool {
    match dict_of(before.object(x)) {
        Some(d) => if strips(before, d, page) {
            after.object(x) == Some(ObjV::Dict(strip_dest(before, d, page)))
        } else {
            after.object(x) == before.object(x)
        },
        None => after.object(x) == before.object(x),
    }
}

/// `after` is `before` with the destinations to `page` pruned from the
/// items `s`, and nothing else changed; `s` holds `start` and is either
/// closed under `/First` and `/Next` or as large as the walk's cap.
pub open spec fn outline_pruned(before: &EditableDocument, after: &EditableDocument, start: ObjectId, page: ObjectId, s: Set<ObjectId>) -> bool {
    &&& s.finite()
    &&& s.contains(start)
    &&& forall|x: ObjectId| s.contains(x) ==> #[trigger] pruned_item(before, after, x, page)
    &&& forall|x: ObjectId| !s.contains(x) ==> #[trigger] after.object(x) == before.object(x)
    &&& s.len() >= MAX_OUTLINE_NODES || forall|x: ObjectId| s.contains(x) ==> #[trigger] links_within(before, s, Seq::empty(), x)
}

/// An element of a sequence stays in it when another is pushed.
proof fn lemma_push_contains(s: Seq<ObjectId>, a: ObjectId)
    ensures
        s.push(a).contains(a),
        forall|c: ObjectId| s.contains(c) ==> #[trigger] s.push(a).contains(c),
{
    assert(s.push(a)[s.len() as int] == a);
    assert forall|c: ObjectId| s.contains(c) implies #[trigger] s.push(a).contains(c) by {
        let w = choose|w: int| 0 <= w < s.len() && s[w] == c;
        assert(s.push(a)[w] == c);
    }
}

/// Destination targets read alike in documents that differ only by
/// removed destinations.
proof fn lemma_dest_target_same(a: &EditableDocument, b: &EditableDocument, o: ObjV)
    requires
        only_dests_removed(a, b),
    ensures
        dest_target_v(a, o) == dest_target_v(b, o),
{
    if let ObjV::Reference(n, g) = o {
        let r = ref_id(n, g);
        if dict_of(a.object(r)) is None {
            assert(b.object(r) == a.object(r));
        } else {
            assert(dict_of(b.object(r)) is Some);
        }
    }
}

/// Stripping reads alike in documents that differ only by removed
/// destinations.
proof fn lemma_strip_same(a: &EditableDocument, b: &EditableDocument, d: Seq<(Seq<char>, ObjV)>, page: ObjectId)
    requires
        only_dests_removed(a, b),
    ensures
        strip_dest(a, d, page) == strip_dest(b, d, page),
        strips(a, d, page) == strips(b, d, page),
{
    if let Some(x) = entries_get(d, "Dest"@) {
        lemma_dest_target_same(a, b, x);
    }
    let d1 = strip_dest_entry(a, d, page);
    assert(d1 == strip_dest_entry(b, d, page));
    if let Some(ObjV::Dict(act)) = entries_get(d1, "A"@) {
        if let Some(x) = entries_get(act, "D"@) {
            lemma_dest_target_same(a, b, x);
        }
    }
    assert(goto_points_at(a, d1, page) == goto_points_at(b, d1, page));
}

impl EditableDocument {
    /// Removes destinations pointing at `page_id` from the outline items
    /// reachable from `start` through `/First` and `/Next`, visiting each
    /// at most once and at most `MAX_OUTLINE_NODES` in all.
    pub fn prune_outline_subtree(&mut self, start: ObjectId, page_id: ObjectId) -> (r: Result<(), EditorError>)
        requires
            old(self).wf(),
        ensures
            final(self).wf(),
            only_dests_removed(old(self), final(self)),
            exists|s: Set<ObjectId>| outline_pruned(old(self), final(self), start, page_id, s),
            r is Ok,
    {
        let ghost first_doc = *self;
        let mut visited: HashSet<u64> = HashSet::new();
        let mut n_visited: usize = 0;
        let mut stack: Vec<ObjectId> = Vec::new();
        let ghost mut seen: Set<ObjectId> = Set::empty();
        stack.push(start);
        proof {
            assert(stack@ =~= seq![start]);
        }
        while stack.len() > 0
            invariant
                self.wf(),
                only_dests_removed(&first_doc, self),
                n_visited <= MAX_OUTLINE_NODES,
                seen.finite(),
                seen.len() == n_visited,
                forall|x: ObjectId| #[trigger] visited@.contains(id_key(x)) == seen.contains(x),
                seen.contains(start) || (n_visited == 0 && stack@ == seq![start]),
                forall|x: ObjectId| seen.contains(x) ==> #[trigger] pruned_item(&first_doc, self, x, page_id),
                forall|x: ObjectId| !seen.contains(x) ==> #[trigger] self.object(x) == first_doc.object(x),
                n_visited >= MAX_OUTLINE_NODES || forall|x: ObjectId| seen.contains(x) ==> #[trigger] links_within(&first_doc, seen, stack@, x),
            ensures
                n_visited >= MAX_OUTLINE_NODES || stack@.len() == 0,
            decreases MAX_OUTLINE_NODES - n_visited, stack@.len(),
        {
            let ghost st0 = stack@;
            let node_id = match stack.pop() {
                Some(n) => n,
                None => {
                    break;
                },
            };
            proof {
                assert(st0 == stack@.push(node_id));
                assert forall|c: ObjectId| st0.contains(c) implies c == node_id || stack@.contains(c) by {
                    let w = choose|w: int| 0 <= w < st0.len() && st0[w] == c;
                    if w < stack@.len() {
                        assert(stack@[w] == c);
                    }
                }
            }
            if n_visited >= MAX_OUTLINE_NODES {
                break;
            }
            if !visited.insert(visit_key(node_id)) {
                proof {
                    assert(seen.contains(node_id));
                    if !seen.contains(start) {
                        assert(seen.remove(node_id).len() + 1 == seen.len());
                    }
                    assert forall|x: ObjectId| seen.contains(x) implies #[trigger] links_within(&first_doc, seen, stack@, x) by {
                        assert(links_within(&first_doc, seen, st0, x));
                    }
                }
                continue;
            }
            let ghost seen0 = seen;
            proof {
                assert(!seen0.contains(node_id));
                seen = seen0.insert(node_id);
                assert forall|x: ObjectId| #[trigger] visited@.contains(id_key(x)) == seen.contains(x) by {
                    if id_key(x) == id_key(node_id) {
                        crate::graph::lemma_key_injective(x, node_id);
                    }
                }
                if !seen0.contains(start) {
                    assert(st0 =~= seq![start]);
                    assert(node_id == start);
                }
            }
            n_visited = n_visited + 1;
            let mut dict = match self.get_dictionary(node_id) {
                Ok(d) => d,
                Err(_) => {
                    proof {
                        assert(self.object(node_id) == first_doc.object(node_id));
                        assert(pruned_item(&first_doc, self, node_id, page_id));
                        assert forall|x: ObjectId| seen.contains(x) implies #[trigger] links_within(&first_doc, seen, stack@, x) by {
                            if x != node_id {
                                assert(links_within(&first_doc, seen0, st0, x));
                            }
                        }
                    }
                    continue;
                },
            };
            let ghost d0 = dict.view_entries();
            let ghost cur = *self;
            proof {
                assert(self.object(node_id) == first_doc.object(node_id));
                assert(dict_of(first_doc.object(node_id)) == Some(d0));
                lemma_strip_same(&first_doc, &cur, d0, page_id);
            }
            let changed = self.strip_dest_if_points_to(&mut dict, page_id);
            let first = match dict.get("First") {
                Some(Object::Reference(id)) => Some(*id),
                _ => None,
            };
            let next = match dict.get("Next") {
                Some(Object::Reference(id)) => Some(*id),
                _ => None,
            };
            proof {
                reveal_strlit("First");
                reveal_strlit("Next");
                reveal_strlit("Dest");
                reveal_strlit("A");
                assert("First"@ != "Dest"@ && "First"@ != "A"@) by {
                    assert("First"@.len() != "Dest"@.len() && "First"@.len() != "A"@.len());
                }
                assert("Next"@ != "Dest"@ && "Next"@ != "A"@) by {
                    assert("Next"@[0] != "Dest"@[0] && "Next"@.len() != "A"@.len());
                }
                lemma_strip_keeps_others(&cur, d0, page_id, "First"@);
                lemma_strip_keeps_others(&cur, d0, page_id, "Next"@);
                assert(link_of(d0, "First"@) == first);
                assert(link_of(d0, "Next"@) == next);
            }
            if changed {
                proof {
                    self.lemma_stored_below_next(node_id);
                }
                let ghost v = ObjV::Dict(dict.view_entries());
                self.set_object(node_id, Object::Dictionary(dict));
                proof {
                    self.lemma_object_after_set(&cur, node_id, v);
                    assert forall|x: ObjectId, k: Seq<char>|
                        k != "Dest"@ && k != "A"@ && dict_of(cur.object(x)) is Some implies #[trigger] entries_get(
                        dict_of(self.object(x))->0,
                        k,
                    ) == entries_get(dict_of(cur.object(x))->0, k) by {
                        if x == node_id {
                            lemma_strip_keeps_others(&cur, d0, page_id, k);
                        }
                    }
                    assert(only_dests_removed(&cur, self));
                    lemma_only_dests_removed_trans(&first_doc, &cur, self);
                    assert(pruned_item(&first_doc, self, node_id, page_id));
                    assert forall|x: ObjectId| seen.contains(x) implies #[trigger] pruned_item(&first_doc, self, x, page_id) by {
                        if x != node_id {
                            assert(pruned_item(&first_doc, &cur, x, page_id));
                        }
                    }
                    assert forall|x: ObjectId| !seen.contains(x) implies #[trigger] self.object(x) == first_doc.object(x) by {
                        assert(cur.object(x) == first_doc.object(x));
                    }
                }
            } else {
                proof {
                    assert(pruned_item(&first_doc, self, node_id, page_id));
                }
            }
            let ghost sp = stack@;
            match first {
                Some(f) => {
                    stack.push(f);
                    proof {
                        lemma_push_contains(sp, f);
                    }
                },
                None => {},
            }
            let ghost sq = stack@;
            match next {
                Some(nx) => {
                    stack.push(nx);
                    proof {
                        lemma_push_contains(sq, nx);
                    }
                },
                None => {},
            }
            proof {
                assert forall|c: ObjectId| sp.contains(c) implies stack@.contains(c) by {
                    assert(sq.contains(c));
                }
                assert(first matches Some(f) ==> stack@.contains(f));
                assert(next matches Some(nx) ==> stack@.contains(nx));
                assert forall|x: ObjectId| seen.contains(x) implies #[trigger] links_within(&first_doc, seen, stack@, x) by {
                    if x != node_id {
                        assert(links_within(&first_doc, seen0, st0, x));
                    }
                }
            }
        }
        proof {
            if n_visited < MAX_OUTLINE_NODES {
                assert(stack@ =~= Seq::<ObjectId>::empty());
            }
            assert(outline_pruned(&first_doc, self, start, page_id, seen));
        }
        Ok(())
    }

    /// Removes every outline item's or link annotation's destination that
    /// points at `page_id` (ISO 32000-1 12.3.3, 12.5.6.5): a `/Dest`, or a
    /// `/GoTo` action whose `/D` points there. Named destinations are not
    /// followed.
    pub fn prune_references_to_page(&mut self, page_id: ObjectId) -> (r: Result<(), EditorError>)
        requires
            old(self).wf(),
        ensures
            final(self).wf(),
            only_dests_removed(old(self), final(self)),
            match old(self).spec_page_ids() {
                Ok(_) => r is Ok,
                Err(e) => r == Err::<(), EditorError>(e),
            },
    {
        let ghost first_doc = *self;
        match self.catalog() {
            Ok(catalog) => {
                match catalog.get("Outlines") {
                    Some(Object::Reference(outlines_id)) => {
                        self.prune_outline_subtree(*outlines_id, page_id)?;
                    },
                    _ => {},
                }
            },
            Err(_) => {},
        }
        proof {
            lemma_page_ids_same(&first_doc, self);
            self.lemma_page_ids_dicts();
        }
        let ids = self.page_ids()?;
        let ghost after_outline = *self;
        let mut i: usize = 0;
        while i < ids.len()
            invariant
                i <= ids@.len(),
                self.wf(),
                only_dests_removed(&first_doc, self),
                only_dests_removed(&after_outline, self),
                forall|k: int| 0 <= k < ids@.len() ==> #[trigger] after_outline.dict(ids@[k]) is Some,
            decreases ids@.len() - i,
        {
            let pid = ids[i];
            proof {
                assert(after_outline.dict(pid) is Some);
                assert(after_outline.object(pid) == after_outline.object(pid));
            }
            let dict = self.get_dictionary(pid)?;
            match dict.get("Annots") {
                Some(Object::Array(annots)) => {
                    let mut j: usize = 0;
                    while j < annots.items.len()
                        invariant
                            j <= annots.items@.len(),
                            self.wf(),
                            only_dests_removed(&first_doc, self),
                            only_dests_removed(&after_outline, self),
                        decreases annots.items@.len() - j,
                    {
                        match &annots.items[j] {
                            Object::Reference(annot_id) => {
                                match self.get_dictionary(*annot_id) {
                                    Ok(mut annot_dict) => {
                                        let ghost d0 = annot_dict.view_entries();
                                        let ghost cur = *self;
                                        if self.strip_dest_if_points_to(&mut annot_dict, page_id) {
                                            proof {
                                                self.lemma_stored_below_next(*annot_id);
                                            }
                                            let ghost v = ObjV::Dict(annot_dict.view_entries());
                                            self.set_object(*annot_id, Object::Dictionary(annot_dict));
                                            proof {
                                                self.lemma_object_after_set(&cur, *annot_id, v);
                                                assert forall|x: ObjectId, k: Seq<char>|
                                                    k != "Dest"@ && k != "A"@ && dict_of(cur.object(x)) is Some implies #[trigger] entries_get(
                                                    dict_of(self.object(x))->0,
                                                    k,
                                                ) == entries_get(dict_of(cur.object(x))->0, k) by {
                                                    if x == *annot_id {
                                                        lemma_strip_keeps_others(&cur, d0, page_id, k);
                                                    }
                                                }
                                                assert(only_dests_removed(&cur, self));
                                                lemma_only_dests_removed_trans(&first_doc, &cur, self);
                                                lemma_only_dests_removed_trans(&after_outline, &cur, self);
                                            }
                                        }
                                    },
                                    Err(_) => {},
                                }
                            },
                            _ => {},
                        }
                        j = j + 1;
                    }
                },
                _ => {},
            }
            i = i + 1;
        }
        Ok(())
    }
}

/// The object under `x` once the page tree is flattened to `leaves`
/// under `root` and the leaf at `index` dropped from its kids.
pub open spec fn after_delete(doc: &EditableDocument, root: ObjectId, leaves: Seq<ObjectId>, index: int, x: ObjectId) -> Option<
    ObjV,
> {
    if x == root {
        Some(ObjV::Dict(with_kids(dict_of(after_flatten(doc, root, leaves, root))->0, leaves.remove(index))))
    } else {
        after_flatten(doc, root, leaves, x)
    }
}

impl EditableDocument {
    /// Deletes the page at `index` (0-based) from the page tree, and
    /// removes every outline item's or link annotation's destination that
    /// pointed at it. The page tree is flattened first, also when `index`
    /// is out of range.
    pub fn delete_page(&mut self, index: usize) -> (r: Result<(), EditorError>)
        requires
            old(self).wf(),
        ensures
            final(self).wf(),
            final(self).same_but_overlay(old(self)),
            match old(self).spec_page_ids() {
                Err(e) => r == Err::<(), EditorError>(e) && final(self).overlay_v() == old(self).overlay_v(),
                Ok(ids) => old(self).spec_pages_root() matches Ok(root) && if index >= ids.len() {
                    &&& r == Err::<(), EditorError>(EditorError::InvalidPageIndex { index, count: ids.len() as usize })
                    &&& forall|x: ObjectId| #[trigger] final(self).object(x) == after_flatten(old(self), root, ids, x)
                } else {
                    &&& forall|x: ObjectId|
                        dict_of(#[trigger] after_delete(old(self), root, ids, index as int, x)) is None ==> final(self).object(x)
                            == after_delete(old(self), root, ids, index as int, x)
                    &&& forall|x: ObjectId|
                        dict_of(#[trigger] after_delete(old(self), root, ids, index as int, x)) is Some ==> dict_of(
                            final(self).object(x),
                        ) is Some
                    &&& forall|x: ObjectId, k: Seq<char>|
                        k != "Dest"@ && k != "A"@ && dict_of(after_delete(old(self), root, ids, index as int, x)) is Some
                            ==> #[trigger] entries_get(dict_of(final(self).object(x))->0, k) == entries_get(
                            dict_of(after_delete(old(self), root, ids, index as int, x))->0,
                            k,
                        )
                },
            },
    {
        let ghost start = *self;
        let (pages_root, mut leaves) = self.flatten_page_tree()?;
        if index >= leaves.len() {
            return Err(EditorError::InvalidPageIndex { index, count: leaves.len() });
        }
        let ghost flat = *self;
        proof {
            start.lemma_page_ids_dicts();
        }
        let removed = leaves.remove(index);
        self.rewrite_kids(pages_root, leaves.as_slice())?;
        let ghost mid = *self;
        proof {
            assert forall|x: ObjectId| #[trigger] mid.object(x) == after_delete(&start, pages_root, start.spec_page_ids()->Ok_0, index as int, x) by {
                assert(mid.object(x) == after_rewrite(&flat, pages_root, leaves@, x));
            }
        }
        let res = self.prune_references_to_page(removed);
        proof {
            let ids = start.spec_page_ids()->Ok_0;
            assert forall|x: ObjectId|
                dict_of(#[trigger] after_delete(&start, pages_root, ids, index as int, x)) is None implies self.object(x)
                    == after_delete(&start, pages_root, ids, index as int, x) by {
                assert(mid.object(x) == after_delete(&start, pages_root, ids, index as int, x));
            }
            assert forall|x: ObjectId|
                dict_of(#[trigger] after_delete(&start, pages_root, ids, index as int, x)) is Some implies dict_of(
                    self.object(x),
                ) is Some by {
                assert(mid.object(x) == after_delete(&start, pages_root, ids, index as int, x));
            }
            assert forall|x: ObjectId, k: Seq<char>|
                k != "Dest"@ && k != "A"@ && dict_of(after_delete(&start, pages_root, ids, index as int, x)) is Some
                    implies #[trigger] entries_get(dict_of(self.object(x))->0, k) == entries_get(
                    dict_of(after_delete(&start, pages_root, ids, index as int, x))->0,
                    k,
                ) by {
                assert(mid.object(x) == after_delete(&start, pages_root, ids, index as int, x));
            }
        }
        res
    }
}

/// The most objects one import copies.
pub const MAX_IMPORT_OBJECTS: usize = 2000000;

/// The pairs (old id, new id) that number `order` from `first` on, in
/// order.
pub open spec fn import_numbering(order: Seq<ObjectId>, first: u32) -> Seq<(ObjectId, ObjectId)> {
    Seq::new(order.len(), |i: int| (order[i], ObjectId { number: (first + i) as u32, generation: 0 }))
}

/// The object under `x` once the objects of `source` under `order` are
/// copied under the numbers from `first` on, their references renumbered
/// and their `/Parent` and `/P` entries dropped.
pub open spec fn after_import(
    doc: &EditableDocument,
    source: &EditableDocument,
    order: Seq<ObjectId>,
    first: u32,
    x: ObjectId,
) -> Option<ObjV> {
    if x.generation == 0 && first <= x.number < first + order.len() {
        Some(
            import_v(
                match source.object(order[x.number - first]) {
                    Some(v) => v,
                    None => ObjV::Null,
                },
                import_numbering(order, first),
            ),
        )
    } else {
        doc.object(x)
    }
}

impl EditableDocument {
    /// Copies the objects of `source` reachable from `roots` (not through
    /// `/Parent` or `/P`, which point back up rather than into what the
    /// roots need) into this document under fresh numbers, in the order a
    /// breadth-first walk visits them; references are renumbered, a
    /// reference outside the copied set becomes `null`, and `/Parent` and
    /// `/P` entries are dropped. Returns the pairs (old id, new id).
    /// Refuses to copy more than `MAX_IMPORT_OBJECTS` objects.
    pub fn import_subgraph(&mut self, source: &EditableDocument, roots: &[ObjectId]) -> (r: Result<
        Vec<(ObjectId, ObjectId)>,
        EditorError,
    >)
        requires
            old(self).wf(),
            old(self).next_number() + 2000000 < u32::MAX,
        ensures
            final(self).wf(),
            final(self).same_but_overlay_next(old(self)),
            final(self).next_number() <= old(self).next_number() + 2000000,
            match r {
                Ok(map) => exists|order: Seq<ObjectId>|
                    walk_result(source, roots@, true, 2000000, order) && #[trigger] import_numbering(
                        order,
                        old(self).next_number(),
                    ) == map@ && final(self).next_number() == old(self).next_number() + order.len() && forall|x: ObjectId|
                        #[trigger] final(self).object(x) == after_import(old(self), source, order, old(self).next_number(), x),
                Err(e) => e == EditorError::ResourceLimitExceeded && walk_fails(source, roots@, true, 2000000)
                    && final(self).overlay_v() == old(self).overlay_v() && final(self).next_number() == old(self).next_number(),
            },
    {
        let res = source.graph_walk(roots, true, MAX_IMPORT_OBJECTS);
        proof {
            assert(MAX_IMPORT_OBJECTS as nat == 2000000nat);
        }
        let (order, objects) = match res {
            Ok(p) => p,
            Err(e) => {
                return Err(e);
            },
        };
        let ghost start = *self;
        let first = self.next_object_number();
        let mut map: Vec<(ObjectId, ObjectId)> = Vec::new();
        let mut i: usize = 0;
        while i < order.len()
            invariant
                i <= order@.len(),
                order@.len() <= 2000000,
                first == start.next_number(),
                first + 2000000 < u32::MAX,
                self.wf(),
                self.next_number() == first + i,
                self.overlay_v() == start.overlay_v(),
                self.same_but_overlay_next(&start),
                map@ == import_numbering(order@, first).take(i as int),
            decreases order@.len() - i,
        {
            let id = self.allocate_id();
            map.push((order[i], id));
            proof {
                assert(map@ =~= import_numbering(order@, first).take(i + 1));
            }
            i = i + 1;
        }
        proof {
            assert(map@ =~= import_numbering(order@, first));
        }
        let ghost alloc = *self;
        let mut k: usize = 0;
        while k < order.len()
            invariant
                k <= order@.len(),
                order@.len() <= 2000000,
                objects@.len() == order@.len(),
                forall|j: int| 0 <= j < order@.len() ==> #[trigger] objects@[j].0 == order@[j] && source.object(order@[j])
                    == Some(objects@[j].1.v()),
                first == start.next_number(),
                first + 2000000 < u32::MAX,
                map@ == import_numbering(order@, first),
                alloc.next_number() == first + order@.len(),
                alloc.overlay_v() == start.overlay_v(),
                alloc.same_but_overlay_next(&start),
                start.wf(),
                self.wf(),
                self.next_number() == alloc.next_number(),
                self.same_but_overlay_next(&start),
                forall|x: ObjectId| #[trigger] self.object(x) == (if x.generation == 0 && first <= x.number < first + k {
                    after_import(&start, source, order@, first, x)
                } else {
                    start.object(x)
                }),
            decreases order@.len() - k,
        {
            let new_id = map[k].1;
            let remapped = remap_object(&objects[k].1, map.as_slice());
            let ghost cur = *self;
            proof {
                assert(new_id == ObjectId { number: (first + k) as u32, generation: 0 });
                assert(start.object(new_id) is None) by {
                    if start.object(new_id) is Some {
                        start.lemma_stored_below_next(new_id);
                    }
                }
                assert forall|x: ObjectId| cur.object(x) is Some && x.number == new_id.number implies x == new_id by {
                    if x.generation == 0 && first <= x.number < first + k {
                    } else if cur.object(x) is Some {
                        assert(start.object(x) is Some);
                        start.lemma_stored_below_next(x);
                    }
                }
                assert(objects@[k as int].0 == order@[k as int]);
            }
            self.set_object(new_id, remapped);
            proof {
                self.lemma_object_after_set(&cur, new_id, remapped.v());
            }
            k = k + 1;
        }
        proof {
            let n_steps = choose|n: nat|
                #[trigger] source.walk_run(crate::graph::walk_start(roots@), n, true, 2000000) matches Ok(st) && st.queue.len()
                    == 0 && st.order == order@;
            assert(walk_result(source, roots@, true, 2000000, order@));
            assert forall|x: ObjectId| #[trigger] self.object(x) == after_import(&start, source, order@, first, x) by {
            }
        }
        Ok(map)
    }
}

/// Whether `after` differs from `before` at most by new objects and by
/// the entries under `keys` of dictionaries: every other stored object is
/// as it was, and every dictionary stays one and reads as before at every
/// other key.
pub open spec fn changes_only(before: &EditableDocument, after: &EditableDocument, keys: Seq<Seq<char>>) -> bool {
    &&& after.same_but_overlay_next(before)
    &&& before.next_number() <= after.next_number()
    &&& forall|x: ObjectId|
        #![trigger after.object(x)]
        before.object(x) is Some && dict_of(before.object(x)) is None ==> after.object(x) == before.object(x)
    &&& forall|x: ObjectId|
        #![trigger after.object(x)]
        dict_of(before.object(x)) is Some ==> dict_of(after.object(x)) is Some
    &&& forall|x: ObjectId, k: Seq<char>|
        !keys.contains(k) && dict_of(before.object(x)) is Some ==> #[trigger] entries_get(dict_of(after.object(x))->0, k)
            == entries_get(dict_of(before.object(x))->0, k)
}

/// Setting one entry of a stored dictionary changes only that key.
proof fn lemma_set_entry_changes_only(
    before: &EditableDocument,
    after: &EditableDocument,
    id: ObjectId,
    key: Seq<char>,
    value: ObjV,
    keys: Seq<Seq<char>>,
)
    requires
        keys.contains(key),
        dict_of(before.object(id)) is Some,
        after.same_but_overlay(before),
        forall|x: ObjectId| #[trigger] after.object(x) == (if x == id {
            Some(ObjV::Dict(entries_set(dict_of(before.object(id))->0, key, value)))
        } else {
            before.object(x)
        }),
    ensures
        changes_only(before, after, keys),
{
    assert forall|x: ObjectId, k: Seq<char>|
        !keys.contains(k) && dict_of(before.object(x)) is Some implies #[trigger] entries_get(
        dict_of(after.object(x))->0,
        k,
    ) == entries_get(dict_of(before.object(x))->0, k) by {
        if x == id {
            lemma_entries_get_set(dict_of(before.object(id))->0, key, value, k);
        }
    }
}

/// Changes compose.
proof fn lemma_changes_only_trans(a: &EditableDocument, b: &EditableDocument, c: &EditableDocument, keys: Seq<Seq<char>>)
    requires
        changes_only(a, b, keys),
        changes_only(b, c, keys),
    ensures
        changes_only(a, c, keys),
{
    assert forall|x: ObjectId|
        #![trigger c.object(x)]
        a.object(x) is Some && dict_of(a.object(x)) is None implies c.object(x) == a.object(x) by {
        assert(b.object(x) == a.object(x));
    }
    assert forall|x: ObjectId|
        #![trigger c.object(x)]
        dict_of(a.object(x)) is Some implies dict_of(c.object(x)) is Some by {
        assert(dict_of(b.object(x)) is Some);
    }
    assert forall|x: ObjectId, k: Seq<char>|
        !keys.contains(k) && dict_of(a.object(x)) is Some implies #[trigger] entries_get(dict_of(c.object(x))->0, k)
        == entries_get(dict_of(a.object(x))->0, k) by {
        assert(dict_of(b.object(x)) is Some);
        assert(entries_get(dict_of(b.object(x))->0, k) == entries_get(dict_of(a.object(x))->0, k));
        assert(entries_get(dict_of(c.object(x))->0, k) == entries_get(dict_of(b.object(x))->0, k));
    }
}

/// The keys an AcroForm merge sets.
pub open spec fn acroform_keys() -> Seq<Seq<char>> {
    seq!["AcroForm"@, "Fields"@]
}

/// The entries of `doc`'s interactive form `/Fields` array (empty when
/// the catalog, the `/AcroForm` reference, its dictionary or the array is
/// missing).
pub open spec fn form_fields(doc: &EditableDocument) -> Seq<ObjV> {
    match doc.dict(doc.root_id()) {
        Some(c) => match link_of(c, "AcroForm"@) {
            Some(af) => match doc.dict(af) {
                Some(a) => prior_fields(a),
                None => Seq::empty(),
            },
            None => Seq::empty(),
        },
        None => Seq::empty(),
    }
}

/// The elements of a form dictionary's `/Fields` array, or none.
pub open spec fn prior_fields(a: Seq<(Seq<char>, ObjV)>) -> Seq<ObjV> {
    match entries_get(a, "Fields"@) {
        Some(ObjV::Array(items)) => items,
        _ => Seq::empty(),
    }
}

/// The ids `map` gives the fields referenced among `items`, in order,
/// those it has no entry for left out.
pub open spec fn mapped_fields(items: Seq<ObjV>, map: Seq<(ObjectId, ObjectId)>) -> Seq<ObjectId>
    decreases items.len(),
{
    if items.len() == 0 {
        Seq::empty()
    } else {
        let rest = mapped_fields(items.drop_last(), map);
        match items.last() {
            ObjV::Reference(n, g) => match crate::writer::id_lookup(map, n, g) {
                Some(t) => rest.push(t),
                None => rest,
            },
            _ => rest,
        }
    }
}

/// What merging the copied fields `added` into `before`'s form gives:
/// the result, and, on success, the form dictionary's id and entries
/// after it, and the catalog's entries when a form was created.
pub open spec fn form_merge(before: &EditableDocument, added: Seq<ObjectId>) -> Result<
    (ObjectId, Seq<(Seq<char>, ObjV)>, Option<Seq<(Seq<char>, ObjV)>>),
    EditorError,
> {
    let root = before.root_id();
    match before.dict(root) {
        None => Err(EditorError::UnresolvedObject(root.number, root.generation)),
        Some(c) => match entries_get(c, "AcroForm"@) {
            Some(ObjV::Reference(n, g)) => match before.dict(ref_id(n, g)) {
                None => Err(EditorError::UnresolvedObject(n, g)),
                Some(a) => Ok(
                    (
                        ref_id(n, g),
                        entries_set(a, "Fields"@, ObjV::Array(prior_fields(a) + kid_refs(added))),
                        None,
                    ),
                ),
            },
            _ => {
                let af = ObjectId { number: before.next_number(), generation: 0 };
                Ok(
                    (
                        af,
                        entries_set(Seq::empty(), "Fields"@, ObjV::Array(kid_refs(added))),
                        Some(entries_set(c, "AcroForm"@, ref_v(af))),
                    ),
                )
            },
        },
    }
}

impl EditableDocument {
    /// After an import, adds to this document's interactive form (ISO
    /// 32000-1 12.7.2) the copies of the fields of `source`'s `/AcroForm
    /// /Fields` that were copied (`id_map` pairs old and new ids),
    /// creating the form when the catalog has none. A field whose widgets
    /// hang under a parent field is not relinked, since imports do not
    /// follow `/Parent`.
    pub fn merge_acroform_fields(&mut self, source: &EditableDocument, id_map: &[(ObjectId, ObjectId)]) -> (r: Result<
        (),
        EditorError,
    >)
        requires
            old(self).wf(),
            old(self).next_number() < u32::MAX,
        ensures
            final(self).wf(),
            changes_only(old(self), final(self), acroform_keys()),
            final(self).next_number() <= old(self).next_number() + 1,
            r matches Err(e) ==> e matches EditorError::UnresolvedObject(n, g) && old(self).dict(ref_id(n, g)) is None,
            ({
                let added = mapped_fields(form_fields(source), id_map@);
                if added.len() == 0 {
                    r is Ok && final(self).overlay_v() == old(self).overlay_v() && final(self).next_number()
                        == old(self).next_number()
                } else {
                    match form_merge(old(self), added) {
                        Err(e) => r == Err::<(), EditorError>(e),
                        Ok((af, a, cat)) => {
                            &&& r is Ok
                            &&& final(self).object(af) == Some(ObjV::Dict(a))
                            &&& cat matches Some(c) ==> final(self).object(old(self).root_id()) == Some(ObjV::Dict(c))
                        },
                    }
                }
            }),
    {
        let ghost start = *self;
        proof {
            assert(changes_only(&start, self, acroform_keys()));
        }
        let source_catalog = match source.catalog() {
            Ok(c) => c,
            Err(_) => {
                return Ok(());
            },
        };
        let source_acroform_id = match source_catalog.get("AcroForm") {
            Some(Object::Reference(id)) => *id,
            _ => {
                return Ok(());
            },
        };
        let source_acroform = match source.get_dictionary(source_acroform_id) {
            Ok(d) => d,
            Err(_) => {
                return Ok(());
            },
        };
        let source_fields = match source_acroform.get("Fields") {
            Some(Object::Array(a)) => a,
            _ => {
                return Ok(());
            },
        };
        proof {
            assert(form_fields(source) == source_fields.view_items());
            crate::object::lemma_view_objs(source_fields.items@);
            assert(source_fields.view_items().take(0) =~= Seq::<ObjV>::empty());
        }
        let mut new_field_ids: Vec<ObjectId> = Vec::new();
        let mut i: usize = 0;
        while i < source_fields.items.len()
            invariant
                i <= source_fields.items@.len(),
                source_fields.view_items().len() == source_fields.items@.len(),
                forall|k: int| 0 <= k < source_fields.items@.len() ==> #[trigger] source_fields.view_items()[k] == source_fields.items@[k].v(),
                new_field_ids@ == mapped_fields(source_fields.view_items().take(i as int), id_map@),
            decreases source_fields.items@.len() - i,
        {
            let ghost items = source_fields.view_items();
            proof {
                assert(items.take(i + 1).drop_last() =~= items.take(i as int));
                assert(items.take(i + 1).last() == source_fields.items@[i as int].v());
            }
            match &source_fields.items[i] {
                Object::Reference(old_id) => {
                    match lookup_id(id_map, *old_id) {
                        Some(new_id) => new_field_ids.push(new_id),
                        None => {},
                    }
                },
                _ => {},
            }
            i = i + 1;
        }
        proof {
            assert(source_fields.view_items().take(i as int) =~= source_fields.view_items());
            assert(new_field_ids@ == mapped_fields(form_fields(source), id_map@));
        }
        if new_field_ids.len() == 0 {
            return Ok(());
        }
        let mut catalog = match self.catalog() {
            Ok(c) => c,
            Err(e) => {
                return Err(e);
            },
        };
        let root = self.catalog_id();
        proof {
            start.lemma_root_stored();
            start.lemma_stored_below_next(root);
        }
        let acroform_id = match catalog.get("AcroForm") {
            Some(Object::Reference(id)) => *id,
            _ => {
                let id = self.allocate_id();
                let ghost a0 = *self;
                let empty = PdfDictionary::new();
                proof {
                    assert(empty.view_entries() =~= Seq::<(Seq<char>, ObjV)>::empty());
                    assert forall|x: ObjectId| a0.object(x) is Some && x.number == id.number implies x == id by {
                        assert(a0.object(x) == start.object(x));
                    }
                }
                self.set_object(id, Object::Dictionary(empty));
                let ghost a1 = *self;
                proof {
                    self.lemma_object_after_set(&a0, id, ObjV::Dict(Seq::empty()));
                    assert(a0.object(id) == start.object(id));
                    assert(changes_only(&start, self, acroform_keys())) by {
                        assert forall|x: ObjectId|
                            #![trigger self.object(x)]
                            start.object(x) is Some && dict_of(start.object(x)) is None implies self.object(x)
                            == start.object(x) by {
                            assert(a0.object(x) == start.object(x));
                        }
                        assert forall|x: ObjectId|
                            #![trigger self.object(x)]
                            dict_of(start.object(x)) is Some implies dict_of(self.object(x)) is Some by {
                            assert(a0.object(x) == start.object(x));
                        }
                        assert forall|x: ObjectId, k: Seq<char>|
                            !acroform_keys().contains(k) && dict_of(start.object(x)) is Some implies #[trigger] entries_get(
                            dict_of(self.object(x))->0,
                            k,
                        ) == entries_get(dict_of(start.object(x))->0, k) by {
                            assert(a0.object(x) == start.object(x));
                        }
                    }
                    self.lemma_root_stored();
                    self.lemma_stored_below_next(root);
                    assert(self.object(root) == start.object(root));
                }
                let ghost d0 = catalog.view_entries();
                catalog.set("AcroForm", Object::Reference(id));
                self.set_object(root, Object::Dictionary(catalog));
                proof {
                    self.lemma_object_after_set(&a1, root, ObjV::Dict(entries_set(d0, "AcroForm"@, ObjV::Reference(id.number, id.generation))));
                    assert(dict_of(a1.object(root)) == Some(d0));
                    lemma_set_entry_changes_only(&a1, self, root, "AcroForm"@, ObjV::Reference(id.number, id.generation), acroform_keys());
                    lemma_changes_only_trans(&start, &a1, self, acroform_keys());
                }
                id
            },
        };
        let mut acroform = match self.get_dictionary(acroform_id) {
            Ok(d) => d,
            Err(e) => {
                return Err(e);
            },
        };
        let ghost b0 = *self;
        proof {
            self.lemma_stored_below_next(acroform_id);
        }
        let mut fields = match acroform.get("Fields") {
            Some(Object::Array(a)) => crate::object::copy_array(a),
            _ => PdfArray::new(),
        };
        let ghost prior = prior_fields(acroform.view_entries());
        proof {
            assert(fields.view_items() == prior);
            assert(kid_refs(new_field_ids@.take(0)) =~= Seq::<ObjV>::empty());
            assert(prior + Seq::<ObjV>::empty() =~= prior);
        }
        let mut j: usize = 0;
        while j < new_field_ids.len()
            invariant
                j <= new_field_ids@.len(),
                fields.view_items() == prior + kid_refs(new_field_ids@.take(j as int)),
            decreases new_field_ids@.len() - j,
        {
            let ghost f0 = fields.items@;
            fields.push(Object::Reference(new_field_ids[j]));
            proof {
                let fi = fields.items@;
                assert(fi.drop_last() =~= f0);
                assert(fi.len() > 0);
                assert(fi.last() == Object::Reference(new_field_ids@[j as int]));
                assert(fi.last().v() == ref_v(new_field_ids@[j as int]));
                assert(crate::object::view_objs(fi) == crate::object::view_objs(fi.drop_last()).push(fi.last().v()));
                assert(fields.view_items() == crate::object::view_objs(f0).push(ref_v(new_field_ids@[j as int])));
                assert(kid_refs(new_field_ids@.take(j + 1)) =~= kid_refs(new_field_ids@.take(j as int)).push(
                    ref_v(new_field_ids@[j as int]),
                ));
                assert(fields.view_items() =~= prior + kid_refs(new_field_ids@.take(j + 1)));
            }
            j = j + 1;
        }
        proof {
            assert(new_field_ids@.take(j as int) =~= new_field_ids@);
        }
        let ghost d1 = acroform.view_entries();
        let ghost fv = Object::Array(fields).v();
        acroform.set("Fields", Object::Array(fields));
        self.set_object(acroform_id, Object::Dictionary(acroform));
        proof {
            self.lemma_object_after_set(&b0, acroform_id, ObjV::Dict(entries_set(d1, "Fields"@, fv)));
            lemma_set_entry_changes_only(&b0, self, acroform_id, "Fields"@, fv, acroform_keys());
            lemma_changes_only_trans(&start, &b0, self, acroform_keys());
        }
        Ok(())
    }
}

/// What a lookup finds is a target of the map.
proof fn lemma_lookup_in(map: Seq<(ObjectId, ObjectId)>, n: u32, g: u16)
    ensures
        crate::writer::id_lookup(map, n, g) matches Some(t) ==> exists|i: int| 0 <= i < map.len() && map[i].1 == t,
    decreases map.len(),
{
    if map.len() > 0 && !(map[0].0.number == n && map[0].0.generation == g) {
        lemma_lookup_in(map.drop_first(), n, g);
        match crate::writer::id_lookup(map, n, g) {
            Some(t) => {
                let i = choose|i: int| 0 <= i < map.drop_first().len() && map.drop_first()[i].1 == t;
                assert(map[i + 1].1 == t);
            },
            None => {},
        }
    }
}

/// Whether an object is a dictionary whose `/Parent` is `root`.
pub open spec fn parent_is(o: Option<ObjV>, root: ObjectId) -> bool {
    dict_of(o) matches Some(pd) && entries_get(pd, "Parent"@) == Some(ref_v(root))
}

/// The `/Kids` and `/Count` of a `/Pages` node whose kids are `leaves`.
pub open spec fn has_kids(d: Seq<(Seq<char>, ObjV)>, leaves: Seq<ObjectId>) -> bool {
    &&& entries_get(d, "Kids"@) == Some(ObjV::Array(kid_refs(leaves)))
    &&& entries_get(d, "Count"@) == Some(ObjV::Integer(leaves.len() as i64))
}

/// `with_kids` gives the node its kids.
proof fn lemma_with_kids(d: Seq<(Seq<char>, ObjV)>, leaves: Seq<ObjectId>)
    ensures
        has_kids(with_kids(d, leaves), leaves),
{
    reveal_strlit("Kids");
    reveal_strlit("Count");
    assert("Kids"@ != "Count"@) by {
        assert("Kids"@.len() != "Count"@.len());
    }
    let d1 = entries_set(d, "Type"@, ObjV::Name("Pages"@));
    let d2 = entries_set(d1, "Kids"@, ObjV::Array(kid_refs(leaves)));
    lemma_entries_get_set(d1, "Kids"@, ObjV::Array(kid_refs(leaves)), "Kids"@);
    lemma_entries_get_set(d2, "Count"@, ObjV::Integer(leaves.len() as i64), "Kids"@);
    lemma_entries_get_set(d2, "Count"@, ObjV::Integer(leaves.len() as i64), "Count"@);
}

impl EditableDocument {
    /// Copies the pages `source_page_ids` of `source`, with what they
    /// reference, into this document (see `import_subgraph`), appends
    /// them after this document's pages in the flattened page tree, and
    /// relinks the form fields that came along. Returns the new ids, in
    /// the order given.
    pub fn import_pages_from(&mut self, source: &EditableDocument, source_page_ids: &[ObjectId]) -> (r: Result<
        Vec<ObjectId>,
        EditorError,
    >)
        requires
            old(self).wf(),
            old(self).next_number() + 2000002 < u32::MAX,
        ensures
            final(self).wf(),
            final(self).same_but_overlay_next(old(self)),
            match old(self).spec_page_ids() {
                Err(e) => r == Err::<Vec<ObjectId>, EditorError>(e) && final(self).overlay_v() == old(self).overlay_v()
                    && final(self).next_number() == old(self).next_number(),
                Ok(ids) => old(self).spec_pages_root() matches Ok(root) && (r matches Ok(new_ids) ==> {
                    &&& new_ids@.len() == source_page_ids@.len()
                    &&& dict_of(final(self).object(root)) matches Some(d) && has_kids(d, ids + new_ids@)
                    &&& forall|k: int| 0 <= k < new_ids@.len() ==> parent_is(#[trigger] final(self).object(new_ids@[k]), root)
                }),
            },
            import_owed(old(self), source, source_page_ids@) ==> r is Ok,
            r is Ok ==> !walk_fails(source, source_page_ids@, true, 2000000),
    {
        let ghost start = *self;
        let (pages_root, mut leaves) = self.flatten_page_tree()?;
        let ghost flat = *self;
        proof {
            start.lemma_page_ids_dicts();
            assert(flat.object(pages_root) == after_flatten(&start, pages_root, leaves@, pages_root));
            assert(dict_of(flat.object(pages_root)) is Some);
            flat.lemma_stored_below_next(pages_root);
        }
        let ghost first = self.next_number();
        let id_map = self.import_subgraph(source, source_page_ids)?;
        let ghost imported = *self;
        let ghost order = choose|order: Seq<ObjectId>|
            walk_result(source, source_page_ids@, true, 2000000, order) && #[trigger] import_numbering(order, first)
                == id_map@ && imported.next_number() == first + order.len() && forall|x: ObjectId|
                #[trigger] imported.object(x) == after_import(&flat, source, order, first, x);
        proof {
            assert(id_map@.len() == order.len());
            lemma_walk_exclusive(source, source_page_ids@, true, 2000000, order);
            start.lemma_root_stored();
            start.lemma_stored_below_next(start.root_id());
            let rt = start.root_id();
            if import_owed(&start, source, source_page_ids@) {
                assert(flat.object(rt) == after_flatten(&start, pages_root, leaves@, rt));
                assert(flat.object(rt) == start.object(rt));
            }
            assert(imported.object(rt) == after_import(&flat, source, order, first, rt));
            assert(imported.object(rt) == flat.object(rt));
            assert forall|x: ObjectId| dict_of(imported.object(x)) is Some implies #[trigger] dict_of(self.object(x)) is Some by {}
        }
        proof {
            assert(imported.object(pages_root) == flat.object(pages_root));
        }
        let mut new_ids: Vec<ObjectId> = Vec::new();
        let ghost ids0 = leaves@;
        let mut i: usize = 0;
        while i < source_page_ids.len()
            invariant
                i <= source_page_ids@.len(),
                self.wf(),
                self.same_but_overlay_next(&start),
                self.next_number() == imported.next_number(),
                imported.next_number() <= start.next_number() + 2000000,
                start.next_number() + 2000002 < u32::MAX,
                start.spec_page_ids() is Ok,
                start.spec_pages_root() == Ok::<ObjectId, EditorError>(pages_root),
                ids0 == start.spec_page_ids()->Ok_0,
                start == *old(self),
                pages_root.number < first,
                first == flat.next_number(),
                first + 2000000 < u32::MAX,
                id_map@.len() <= 2000000,
                exists|order: Seq<ObjectId>| #[trigger] import_numbering(order, first) == id_map@,
                import_numbering(order, first) == id_map@,
                walk_result(source, source_page_ids@, true, 2000000, order),
                !walk_fails(source, source_page_ids@, true, 2000000),
                forall|x: ObjectId| #[trigger] imported.object(x) == after_import(&flat, source, order, first, x),
                forall|x: ObjectId| dict_of(imported.object(x)) is Some ==> #[trigger] dict_of(self.object(x)) is Some,
                start.root_id().number < first,
                self.object(start.root_id()) == imported.object(start.root_id()),
                import_owed(&start, source, source_page_ids@) ==> imported.object(start.root_id()) == start.object(start.root_id()),
                new_ids@.len() == i,
                leaves@ == ids0 + new_ids@,
                dict_of(self.object(pages_root)) is Some,
                self.object(pages_root) == imported.object(pages_root),
                flat.object(pages_root) is Some,
                forall|k: int|
                    0 <= k < new_ids@.len() ==> new_ids@[k] != pages_root && parent_is(#[trigger] self.object(new_ids@[k]), pages_root),
            decreases source_page_ids@.len() - i,
        {
            let old_id = source_page_ids[i];
            proof {
                if import_owed(&start, source, source_page_ids@) {
                    assert(source.dict(source_page_ids@[i as int]) is Some);
                    let n = choose|n: nat|
                        #[trigger] source.walk_run(crate::graph::walk_start(source_page_ids@), n, true, 2000000) matches Ok(st)
                            && st.queue.len() == 0 && st.order == order;
                    assert(source_page_ids@.contains(old_id)) by {
                        assert(source_page_ids@[i as int] == old_id);
                    }
                    source.lemma_walk_visits_roots(source_page_ids@, n, old_id, true, 2000000);
                    let w = choose|w: int| 0 <= w < order.len() && order[w] == old_id;
                    assert(import_numbering(order, first)[w].0 == old_id);
                    lemma_lookup_found(import_numbering(order, first), old_id, w);
                }
            }
            let new_id = match lookup_id(id_map.as_slice(), old_id) {
                Some(t) => t,
                None => {
                    return Err(EditorError::UnresolvedObject(old_id.number, old_id.generation));
                },
            };
            proof {
                lemma_lookup_entry(id_map@, old_id.number, old_id.generation);
                let w = choose|w: int|
                    0 <= w < id_map@.len() && id_map@[w].1 == new_id && #[trigger] id_map@[w].0 == ref_id(
                        old_id.number,
                        old_id.generation,
                    );
                assert(id_map@[w] == import_numbering(order, first)[w]);
                assert(((first + w) as u32) as int == first + w);
                assert(new_id.number - first == w);
                assert(order[w] == old_id);
                assert(imported.object(new_id) == after_import(&flat, source, order, first, new_id));
                if import_owed(&start, source, source_page_ids@) {
                    assert(source.dict(source_page_ids@[i as int]) is Some);
                    assert(dict_of(imported.object(new_id)) is Some);
                    assert(dict_of(self.object(new_id)) is Some);
                }
            }
            let mut dict = self.get_dictionary(new_id)?;
            let ghost cur = *self;
            proof {
                self.lemma_stored_below_next(new_id);
                lemma_lookup_in(id_map@, old_id.number, old_id.generation);
                let order = choose|order: Seq<ObjectId>| #[trigger] import_numbering(order, first) == id_map@;
                let w = choose|w: int| 0 <= w < id_map@.len() && id_map@[w].1 == new_id;
                assert(id_map@[w] == import_numbering(order, first)[w]);
                assert(((first + w) as u32) as int == first + w);
                assert(new_id.number >= first);
                assert(new_id != pages_root);
            }
            let ghost d0 = dict.view_entries();
            dict.set("Parent", Object::Reference(pages_root));
            self.set_object(new_id, Object::Dictionary(dict));
            proof {
                let v = ObjV::Dict(entries_set(d0, "Parent"@, ref_v(pages_root)));
                self.lemma_object_after_set(&cur, new_id, v);
                lemma_entries_get_set(d0, "Parent"@, ref_v(pages_root), "Parent"@);
                assert(new_id != start.root_id());
                assert forall|x: ObjectId| dict_of(imported.object(x)) is Some implies #[trigger] dict_of(self.object(x)) is Some by {
                    if x != new_id {
                        assert(dict_of(cur.object(x)) is Some);
                    }
                }
            }
            leaves.push(new_id);
            new_ids.push(new_id);
            proof {
                assert(leaves@ =~= ids0 + new_ids@);
            }
            i = i + 1;
        }
        let ghost before_rewrite = *self;
        self.rewrite_kids(pages_root, leaves.as_slice())?;
        let ghost rewritten_doc = *self;
        proof {
            lemma_with_kids(dict_of(before_rewrite.object(pages_root))->0, leaves@);
            assert(dict_of(self.object(pages_root)) matches Some(d) && has_kids(d, leaves@));
            let rt = start.root_id();
            if import_owed(&start, source, source_page_ids@) {
                assert(self.object(rt) == after_rewrite(&before_rewrite, pages_root, leaves@, rt));
                assert(self.object(rt) == start.object(rt));
                assert(self.root_id() == rt);
            }
        }
        self.merge_acroform_fields(source, id_map.as_slice())?;
        proof {
            reveal_strlit("Kids");
            reveal_strlit("Count");
            reveal_strlit("Parent");
            reveal_strlit("AcroForm");
            reveal_strlit("Fields");
            assert(!acroform_keys().contains("Kids"@)) by {
                if acroform_keys().contains("Kids"@) {
                    let w = choose|w: int| 0 <= w < acroform_keys().len() && acroform_keys()[w] == "Kids"@;
                    assert(acroform_keys()[w].len() != "Kids"@.len() || acroform_keys()[w][0] != "Kids"@[0]);
                }
            }
            assert(!acroform_keys().contains("Count"@)) by {
                if acroform_keys().contains("Count"@) {
                    let w = choose|w: int| 0 <= w < acroform_keys().len() && acroform_keys()[w] == "Count"@;
                    assert(acroform_keys()[w].len() != "Count"@.len() || acroform_keys()[w][0] != "Count"@[0]);
                }
            }
            assert(!acroform_keys().contains("Parent"@)) by {
                if acroform_keys().contains("Parent"@) {
                    let w = choose|w: int| 0 <= w < acroform_keys().len() && acroform_keys()[w] == "Parent"@;
                    assert(acroform_keys()[w][0] != "Parent"@[0]);
                }
            }
            assert(entries_get(dict_of(self.object(pages_root))->0, "Kids"@) == entries_get(
                dict_of(rewritten_doc.object(pages_root))->0,
                "Kids"@,
            ));
            assert(entries_get(dict_of(self.object(pages_root))->0, "Count"@) == entries_get(
                dict_of(rewritten_doc.object(pages_root))->0,
                "Count"@,
            ));
            assert forall|k: int| 0 <= k < new_ids@.len() implies parent_is(#[trigger] self.object(new_ids@[k]), pages_root) by {
                let x = new_ids@[k];
                assert(rewritten_doc.object(x) == before_rewrite.object(x));
                assert(entries_get(dict_of(self.object(x))->0, "Parent"@) == entries_get(
                    dict_of(rewritten_doc.object(x))->0,
                    "Parent"@,
                ));
            }
        }
        Ok(new_ids)
    }
}

/// A walk that finished stays finished, and one that failed stays failed.
proof fn lemma_walk_run_settles(
    doc: &EditableDocument,
    st: crate::graph::GraphWalk,
    n: nat,
    m: nat,
    skip: bool,
    limit: nat,
)
    requires
        n <= m,
    ensures
        doc.walk_run(st, n, skip, limit) is Err ==> doc.walk_run(st, m, skip, limit) is Err,
        (doc.walk_run(st, n, skip, limit) matches Ok(s) && s.queue.len() == 0) ==> doc.walk_run(st, m, skip, limit)
            == doc.walk_run(st, n, skip, limit),
    decreases m - n,
{
    if n < m {
        lemma_walk_run_settles(doc, st, n, (m - 1) as nat, skip, limit);
    }
}

/// A walk does not both finish and fail.
pub(crate) proof fn lemma_walk_exclusive(doc: &EditableDocument, roots: Seq<ObjectId>, skip: bool, limit: nat, order: Seq<ObjectId>)
    requires
        walk_result(doc, roots, skip, limit, order),
    ensures
        !walk_fails(doc, roots, skip, limit),
{
    let st = crate::graph::walk_start(roots);
    let n1 = choose|n: nat|
        #[trigger] doc.walk_run(st, n, skip, limit) matches Ok(s) && s.queue.len() == 0 && s.order == order;
    assert forall|n2: nat| !(#[trigger] doc.walk_run(st, n2, skip, limit) is Err) by {
        if n1 <= n2 {
            lemma_walk_run_settles(doc, st, n1, n2, skip, limit);
        } else {
            lemma_walk_run_settles(doc, st, n2, n1, skip, limit);
        }
    }
}

/// A walk from no roots does not fail.
proof fn lemma_walk_none_ok(doc: &EditableDocument, skip: bool, limit: nat)
    ensures
        !walk_fails(doc, Seq::empty(), skip, limit),
{
    let st = crate::graph::walk_start(Seq::empty());
    assert(crate::refs::id_pairs(Seq::<ObjectId>::empty()).len() == 0);
    assert(st.queue.len() == 0);
    assert forall|n: nat| !(#[trigger] doc.walk_run(st, n, skip, limit) is Err) by {
        lemma_walk_run_settles(doc, st, 0, n, skip, limit);
    }
}

/// What a lookup finds is the target of an entry for the id looked up.
proof fn lemma_lookup_entry(map: Seq<(ObjectId, ObjectId)>, n: u32, g: u16)
    ensures
        crate::writer::id_lookup(map, n, g) matches Some(t) ==> exists|w: int|
            0 <= w < map.len() && map[w].1 == t && #[trigger] map[w].0 == ref_id(n, g),
    decreases map.len(),
{
    if map.len() > 0 {
        if map[0].0.number == n && map[0].0.generation == g {
            assert(map[0].0 == ref_id(n, g));
        } else {
            lemma_lookup_entry(map.drop_first(), n, g);
            if let Some(t) = crate::writer::id_lookup(map, n, g) {
                let w = choose|w: int|
                    0 <= w < map.drop_first().len() && map.drop_first()[w].1 == t && #[trigger] map.drop_first()[w].0
                        == ref_id(n, g);
                assert(map[w + 1].0 == ref_id(n, g));
            }
        }
    }
}

/// A lookup of an id some entry is for finds something.
proof fn lemma_lookup_found(map: Seq<(ObjectId, ObjectId)>, id: ObjectId, w: int)
    requires
        0 <= w < map.len(),
        map[w].0 == id,
    ensures
        crate::writer::id_lookup(map, id.number, id.generation) is Some,
    decreases map.len(),
{
    if !(map[0].0.number == id.number && map[0].0.generation == id.generation) {
        assert(map.drop_first()[w - 1].0 == id);
        lemma_lookup_found(map.drop_first(), id, w - 1);
    }
}

/// Whether importing the pages `roots` of `source` into `doc` is owed to
/// succeed: `doc`'s page tree reads, its catalog is neither the page tree
/// root nor a page and has no `/AcroForm`, each of `roots` is a
/// dictionary, and the walk from them stays within its limit.
pub open spec fn import_owed(doc: &EditableDocument, source: &EditableDocument, roots: Seq<ObjectId>) -> bool {
    &&& doc.spec_page_ids() matches Ok(ids) && !ids.contains(doc.root_id())
    &&& doc.spec_pages_root() matches Ok(pr) && pr != doc.root_id()
    &&& doc.dict(doc.root_id()) matches Some(c) && entries_get(c, "AcroForm"@) is None
    &&& forall|k: int| 0 <= k < roots.len() ==> #[trigger] source.dict(roots[k]) is Some
    &&& !walk_fails(source, roots, true, 2000000)
}

/// The page ids at `indices` among `ids`.
pub open spec fn selected_pages(ids: Seq<ObjectId>, indices: Seq<usize>) -> Seq<ObjectId> {
    Seq::new(indices.len(), |k: int| ids[indices[k] as int])
}

/// Whether extracting the pages at `indices` of `doc` is owed to succeed:
/// no pages are asked for, or the page tree reads, each index is in range
/// and the walk from the pages asked for stays within its limit.
pub open spec fn extract_owed(doc: &EditableDocument, indices: Seq<usize>) -> bool {
    ||| indices.len() == 0
    ||| doc.spec_page_ids() matches Ok(ids) && (forall|k: int| 0 <= k < indices.len() ==> #[trigger] indices[k] < ids.len())
        && !walk_fails(doc, selected_pages(ids, indices), true, 2000000)
}

/// Whether an object is a `/Pages` node with `n` kids.
pub open spec fn counts_kids(o: Option<ObjV>, n: nat) -> bool {
    dict_of(o) matches Some(d) && exists|ids: Seq<ObjectId>| ids.len() == n && #[trigger] has_kids(d, ids)
}

impl EditableDocument {
    /// A new, empty document held in memory: a catalog (object 1) and a
    /// page tree root with no kids (object 2), written as a PDF 1.7 file.
    pub fn new_empty() -> (r: Result<EditableDocument, EditorError>)
        ensures
            r matches Ok(doc) && doc.wf() && doc.spec_page_ids() == Ok::<Seq<ObjectId>, EditorError>(Seq::empty())
                && doc.spec_pages_root() == Ok::<ObjectId, EditorError>(ObjectId { number: 2, generation: 0 })
                && doc.overlay_v().len() == 0 && doc.next_number() == 3 && doc.root_id() == (ObjectId {
                number: 1,
                generation: 0,
            }) && (doc.dict(doc.root_id()) matches Some(c) && entries_get(c, "AcroForm"@) is None),
    {
        let head = crate::document::header_bytes(crate::version::PdfVersion::V1_7);
        let mut w = crate::writer::ObjectWriter::new(head.as_slice());
        let mut catalog = PdfDictionary::new();
        let ghost c0 = catalog.view_entries();
        catalog.set("Type", Object::Name(PdfName::new_unchecked("Catalog")));
        let ghost c1 = catalog.view_entries();
        catalog.set("Pages", Object::Reference(ObjectId::new(2)));
        proof {
            lemma_entries_get_set(c1, "Pages"@, ObjV::Reference(2, 0), "Pages"@);
            reveal_strlit("AcroForm");
            reveal_strlit("Pages");
            reveal_strlit("Type");
            assert("AcroForm"@.len() != "Pages"@.len() && "AcroForm"@.len() != "Type"@.len());
            assert(c0 =~= Seq::<(Seq<char>, ObjV)>::empty());
            lemma_entries_get_set(c0, "Type"@, ObjV::Name("Catalog"@), "AcroForm"@);
            lemma_entries_get_set(c1, "Pages"@, ObjV::Reference(2, 0), "AcroForm"@);
            assert(entries_get(catalog.view_entries(), "AcroForm"@) is None);
        }
        let mut pages = PdfDictionary::new();
        pages.set("Type", Object::Name(PdfName::new_unchecked("Pages")));
        let ghost p1 = pages.view_entries();
        let kids = PdfArray::new();
        proof {
            assert(kids.view_items() =~= Seq::<ObjV>::empty());
        }
        pages.set("Kids", Object::Array(kids));
        let ghost p2 = pages.view_entries();
        pages.set("Count", Object::Integer(0));
        proof {
            reveal_strlit("Kids");
            reveal_strlit("Count");
            assert("Kids"@ != "Count"@) by {
                assert("Kids"@.len() != "Count"@.len());
            }
            lemma_entries_get_set(p1, "Kids"@, ObjV::Array(Seq::empty()), "Kids"@);
            lemma_entries_get_set(p2, "Count"@, ObjV::Integer(0), "Kids"@);
        }
        let catalog_obj = Object::Dictionary(catalog);
        let pages_obj = Object::Dictionary(pages);
        w.emit(&catalog_obj);
        w.emit(&pages_obj);
        let xref_at: u64 = w.len() as u64;
        let data = w.finish(ObjectId::new(1), None, None);
        let mut objects: Vec<(ObjectId, Object)> = Vec::new();
        objects.push((ObjectId::new(1), catalog_obj));
        objects.push((ObjectId::new(2), pages_obj));
        let ghost cv = objects@[0].1.v();
        let ghost pv = objects@[1].1.v();
        let file = LoadedFile {
            data,
            version: crate::version::PdfVersion::V1_7,
            objects,
            root: ObjectId::new(1),
            info: None,
            id: None,
            startxref: Some(xref_at),
        };
        proof {
            crate::graph::lemma_view_table(file.objects@);
            assert(crate::graph::view_table(file.objects@) =~= seq![(ObjectId { number: 1, generation: 0 }, cv), (ObjectId { number: 2, generation: 0 }, pv)]);
        }
        let r = EditableDocument::from_loaded(file);
        proof {
            if r is Ok {
                let doc = r->Ok_0;
                let t = crate::graph::view_table(file.objects@);
                assert(t.drop_first() =~= seq![(ObjectId { number: 2, generation: 0 }, pv)]);
                assert(crate::graph::table_get(t.drop_first(), ObjectId { number: 2, generation: 0 }) == Some(pv));
                assert(crate::graph::table_get(t, ObjectId { number: 2, generation: 0 }) == Some(pv));
                assert(doc.object(ObjectId { number: 2, generation: 0 }) == Some(pv));
                assert(doc.object(ObjectId { number: 1, generation: 0 }) == Some(cv));
                assert(crate::graph::max_number(t) == 2) by {
                    assert(t.drop_last() =~= seq![(ObjectId { number: 1, generation: 0 }, cv)]);
                    assert(t.drop_last().drop_last() =~= Seq::<(ObjectId, ObjV)>::empty());
                    assert(crate::graph::max_number(t.drop_last().drop_last()) == 0);
                    assert(crate::graph::max_number(t.drop_last()) == 1);
                }
                assert(doc.spec_pages_root() == Ok::<ObjectId, EditorError>(ObjectId { number: 2, generation: 0 }));
                let v2 = Set::<u64>::empty().insert(crate::graph::id_key(ObjectId { number: 2, generation: 0 }));
                assert(doc.walk_kids(Seq::empty(), 0, 0, v2, Seq::empty()) == Ok::<(Set<u64>, Seq<ObjectId>), EditorError>(
                    (v2, Seq::empty()),
                ));
            }
        }
        r
    }
    /// Extracts the pages at `indices` (0-based) into a new, standalone
    /// document, with what they reference; this document is unchanged.
    pub fn extract_pages(&self, indices: &[usize]) -> (r: Result<EditableDocument, EditorError>)
        ensures
            r is Ok <==> extract_owed(self, indices@),
            (self.spec_page_ids() matches Ok(ids) && exists|k: int| 0 <= k < indices@.len() && indices@[k] >= ids.len())
                ==> r is Err,
            r matches Ok(doc) ==> doc.wf() && counts_kids(doc.object(ObjectId { number: 2, generation: 0 }), indices@.len()),
    {
        let mut new_doc = EditableDocument::new_empty()?;
        let mut page_ids: Vec<ObjectId> = Vec::new();
        let mut i: usize = 0;
        proof {
            self.lemma_page_ids_dicts();
        }
        while i < indices.len()
            invariant
                i <= indices@.len(),
                page_ids@.len() == i,
                self.spec_page_ids() matches Ok(ids) ==> forall|k: int| 0 <= k < i ==> indices@[k] < ids.len(),
                i > 0 ==> self.spec_page_ids() is Ok,
                self.spec_page_ids() matches Ok(ids) ==> page_ids@ == selected_pages(ids, indices@.take(i as int)),
            decreases indices@.len() - i,
        {
            let id = match self.page_id_at(indices[i]) {
                Ok(id) => id,
                Err(e) => {
                    return Err(e);
                },
            };
            page_ids.push(id);
            proof {
                if let Ok(ids) = self.spec_page_ids() {
                    assert(page_ids@ =~= selected_pages(ids, indices@.take(i + 1)));
                }
            }
            i = i + 1;
        }
        let ghost fresh = new_doc;
        proof {
            self.lemma_page_ids_dicts();
            if indices@.len() == 0 {
                assert(page_ids@ =~= Seq::<ObjectId>::empty());
                lemma_walk_none_ok(self, true, 2000000);
            } else {
                let ids = self.spec_page_ids()->Ok_0;
                assert(indices@.take(i as int) =~= indices@);
                assert forall|k: int| 0 <= k < page_ids@.len() implies #[trigger] self.dict(page_ids@[k]) is Some by {
                    assert(page_ids@[k] == ids[indices@[k] as int]);
                }
            }
            assert(fresh.spec_page_ids() == Ok::<Seq<ObjectId>, EditorError>(Seq::empty()));
            assert(!Seq::<ObjectId>::empty().contains(fresh.root_id()));
            if extract_owed(self, indices@) {
                assert(import_owed(&fresh, self, page_ids@));
            }
        }
        let new_ids = match new_doc.import_pages_from(self, page_ids.as_slice()) {
            Ok(ids) => ids,
            Err(e) => {
                return Err(e);
            },
        };
        proof {
            assert(Seq::<ObjectId>::empty() + new_ids@ =~= new_ids@);
        }
        Ok(new_doc)
    }
}

} // verus!
