//! Saving an edited document: a rewrite of every object still reachable
//! from the catalog and `/Info`, renumbered densely in the order a
//! breadth-first walk visits them, so that whatever an edit orphaned is
//! dropped (ISO 32000-1 7.5).

use vstd::prelude::*;
use crate::document::{header_bytes, header_text};
use crate::graph::{view_table, walk_fails, walk_result, EditableDocument, EditorError};
use crate::object::{slice_to_vec_u8, ObjV, Object, ObjectId};
use crate::version::PdfVersion;
use crate::writer::{
    body_offsets, body_text, classic_xref_text, id_lookup, indirect_text, info_field, lookup_id, numbers_ascending,
    prev_field, remap_all, remap_v, root_field, size_field, startxref_text, trailer_close, trailer_open,
    write_incremental_xref_and_trailer, write_indirect_object, xref_keyword, xref_subsections, ObjectWriter,
};
use crate::numfmt::{dec, write_dec};
use crate::object::{PdfDictionary, PdfName, PdfStream};
use crate::serialize::{obj_text, to_pdf_bytes};
use crate::writer::{build_xref_stream, file_id_view, write_stream_object, xref_stream_data, xref_stream_entries, XrefTarget};
use std::collections::HashMap;
use crate::serialize::write_bytes;

verus! {

/// The ids a rewrite starts its walk from: the catalog, then `/Info`.
pub open spec fn save_roots(doc: &EditableDocument) -> Seq<ObjectId> {
    match doc.info_id() {
        Some(i) => seq![doc.root_id(), i],
        None => seq![doc.root_id()],
    }
}

/// The pairs (old id, new id) that number `order` 1, 2, ... in order.
pub open spec fn renumbering(order: Seq<ObjectId>) -> Seq<(ObjectId, ObjectId)> {
    Seq::new(order.len(), |i: int| (order[i], ObjectId { number: (i + 1) as u32, generation: 0 }))
}

/// The new id of `id` under `map`.
pub open spec fn renumbered(map: Seq<(ObjectId, ObjectId)>, id: ObjectId) -> ObjectId {
    match id_lookup(map, id.number, id.generation) {
        Some(t) => t,
        None => id,
    }
}

/// The objects under the ids of `order`, their references renumbered.
pub open spec fn rewritten(doc: &EditableDocument, order: Seq<ObjectId>) -> Seq<ObjV> {
    Seq::new(
        order.len(),
        |i: int|
            remap_v(
                match doc.object(order[i]) {
                    Some(v) => v,
                    None => ObjV::Null,
                },
                renumbering(order),
            ),
    )
}

/// The file a rewrite writes, its objects visited in `order`: the header
/// for `version`, the rewritten objects numbered 1, 2, ..., a classic
/// cross-reference table, and a trailer with the renumbered catalog and
/// `/Info` and the file's `/ID`, or `fresh_id` twice when it has none.
pub open spec fn rewrite_text(doc: &EditableDocument, version: PdfVersion, order: Seq<ObjectId>, fresh_id: Seq<u8>) -> Seq<
    u8,
> {
    let h = header_text(version);
    let objs = rewritten(doc, order);
    let map = renumbering(order);
    h + body_text(objs) + classic_xref_text(
        body_offsets(h.len(), objs),
        (order.len() + 1) as u32,
        renumbered(map, doc.root_id()),
        match doc.info_id() {
            Some(i) => Some(renumbered(map, i)),
            None => None,
        },
        Some(
            match doc.file_id() {
                Some(p) => p,
                None => (fresh_id, fresh_id),
            },
        ),
    ) + startxref_text(h.len() + body_text(objs).len())
}

/// `renumbering(order)` finds each id of `order`.
proof fn lemma_renumbering_finds(order: Seq<ObjectId>, id: ObjectId)
    requires
        order.contains(id),
    ensures
        id_lookup(renumbering(order), id.number, id.generation) is Some,
    decreases order.len(),
{
    let m = renumbering(order);
    if order[0] != id {
        assert(order.drop_first().contains(id)) by {
            let w = choose|w: int| 0 <= w < order.len() && order[w] == id;
            assert(order.drop_first()[w - 1] == id);
        }
        lemma_renumbering_finds(order.drop_first(), id);
        assert(m.drop_first().len() == renumbering(order.drop_first()).len());
        lemma_renumbering_shift(order, id);
    }
}

/// Looking up past the first pair of `renumbering(order)` finds what the
/// renumbering of the rest of `order` finds, one number higher.
proof fn lemma_renumbering_shift(order: Seq<ObjectId>, id: ObjectId)
    requires
        order.len() > 0,
        order[0] != id,
        id_lookup(renumbering(order.drop_first()), id.number, id.generation) is Some,
    ensures
        id_lookup(renumbering(order), id.number, id.generation) is Some,
{
    let m = renumbering(order);
    let r = renumbering(order.drop_first());
    assert(m[0].0 == order[0]);
    if m[0].0.number == id.number && m[0].0.generation == id.generation {
        assert(m[0].0 == id);
    }
    lemma_lookup_some_suffix(m.drop_first(), r, id);
}

/// Two maps whose keys agree find the same ids.
proof fn lemma_lookup_some_suffix(a: Seq<(ObjectId, ObjectId)>, b: Seq<(ObjectId, ObjectId)>, id: ObjectId)
    requires
        a.len() == b.len(),
        forall|i: int| 0 <= i < a.len() ==> #[trigger] a[i].0 == b[i].0,
        id_lookup(b, id.number, id.generation) is Some,
    ensures
        id_lookup(a, id.number, id.generation) is Some,
    decreases a.len(),
{
    if a.len() > 0 {
        assert(a[0].0 == b[0].0);
        if !(b[0].0.number == id.number && b[0].0.generation == id.generation) {
            assert forall|i: int| 0 <= i < a.drop_first().len() implies #[trigger] a.drop_first()[i].0 == b.drop_first()[i].0 by {
                assert(a[i + 1].0 == b[i + 1].0);
            }
            lemma_lookup_some_suffix(a.drop_first(), b.drop_first(), id);
        }
    }
}

impl EditableDocument {
    /// Writes every object reachable from the catalog and `/Info` as an
    /// ordinary indirect object, renumbered 1, 2, ... in the order a
    /// breadth-first walk visits them, then a classic cross-reference
    /// table and trailer (ISO 32000-1 7.5.4), with no object streams or
    /// cross-reference stream: a layout PDF/A-1 (ISO 19005-1, defined on
    /// PDF 1.4) permits. The header states `version`. The trailer's `/ID`
    /// is the file's, or `fresh_id` twice when the file has none (a
    /// PDF/A file must have one). Streams are written as they are stored.
    /// Refuses a graph too large to walk, and an output whose offsets
    /// would not fit the table's 32-bit width.
    pub fn save_pdfa_compatible_to_bytes(&self, version: PdfVersion, fresh_id: &[u8]) -> (r: Result<Vec<u8>, EditorError>)
        requires
            self.wf(),
            self.info_id() matches Some(i) ==> self.object(i) is Some,
        ensures
            match r {
                Ok(out) => exists|order: Seq<ObjectId>|
                    walk_result(self, save_roots(self), false, 5000000, order) && #[trigger] rewrite_text(self, version, order, fresh_id@)
                        == out@,
                Err(e) => e == EditorError::ResourceLimitExceeded && (walk_fails(self, save_roots(self), false, 5000000) || exists|
                    order: Seq<ObjectId>,
                |
                    walk_result(self, save_roots(self), false, 5000000, order) && #[trigger] body_text(rewritten(self, order)).len()
                        + header_text(version).len() > u32::MAX),
            },
    {
        let (order, objects, map, new_root, new_info) = self.rewrite_plan()?;
        let head = header_bytes(version);
        let mut w = ObjectWriter::new(head.as_slice());
        let mut k: usize = 0;
        while k < objects.len()
            invariant
                k <= objects@.len(),
                objects@.len() == order@.len(),
                order@.len() <= 5000000,
                map@ == renumbering(order@),
                forall|j: int| 0 <= j < order@.len() ==> #[trigger] objects@[j].0 == order@[j] && self.object(order@[j])
                    == Some(objects@[j].1.v()),
                w.wf(),
                w.head() == header_text(version),
                w.objs() == rewritten(self, order@).take(k as int),
            decreases objects@.len() - k,
        {
            let remapped = remap_all(&objects[k].1, map.as_slice());
            proof {
                assert(objects@[k as int].0 == order@[k as int]);
                assert(remapped.v() == rewritten(self, order@)[k as int]);
            }
            w.emit(&remapped);
            proof {
                assert(w.objs() =~= rewritten(self, order@).take(k + 1));
            }
            k = k + 1;
        }
        proof {
            assert(w.objs() =~= rewritten(self, order@));
        }
        if w.len() > 0xFFFF_FFFFusize {
            return Err(EditorError::ResourceLimitExceeded);
        }
        let file_id = match self.trailer_file_id() {
            Some((a, b)) => (a, b),
            None => (slice_to_vec_u8(fresh_id), slice_to_vec_u8(fresh_id)),
        };
        let out = w.finish(new_root, new_info, Some(file_id));
        proof {
            assert(rewrite_text(self, version, order@, fresh_id@) == out@);
        }
        Ok(out)
    }
}

/// The definitions of `objs`, one after the other.
pub open spec fn overlay_text(objs: Seq<(ObjectId, ObjV)>) -> Seq<u8>
    decreases objs.len(),
{
    if objs.len() == 0 {
        Seq::empty()
    } else {
        overlay_text(objs.drop_last()) + indirect_text(objs.last().0, objs.last().1)
    }
}

/// The (number, offset) pairs of the definitions of `objs` when they
/// start at byte `start`.
pub open spec fn overlay_offsets(start: nat, objs: Seq<(ObjectId, ObjV)>) -> Seq<(u32, u64)> {
    Seq::new(objs.len(), |k: int| (objs[k].0.number, (start + overlay_text(objs.take(k)).len()) as u64))
}

/// The bytes, ending in a line feed.
pub open spec fn with_final_newline(b: Seq<u8>) -> Seq<u8> {
    if b.len() > 0 && b.last() == 10u8 {
        b
    } else {
        b.push(10u8)
    }
}

/// The file an incremental update writes: the original bytes (ending in
/// a line feed), the definitions of the objects added or replaced, a
/// cross-reference section listing them by `sorted` (their numbers and
/// offsets), a trailer chained to the original's section at `prev`, and
/// `startxref`.
pub open spec fn incremental_text(doc: &EditableDocument, sorted: Seq<(u32, u64)>, prev: u64) -> Seq<u8> {
    let base = with_final_newline(doc.file_data());
    let body = overlay_text(doc.overlay_v());
    base + body + xref_keyword() + xref_subsections(sorted) + trailer_open() + size_field(doc.next_number())
        + root_field(doc.root_id()) + info_field(doc.info_id()) + prev_field(prev) + trailer_close() + startxref_text(
        base.len() + body.len(),
    )
}

/// No two pairs share a number.
pub open spec fn numbers_distinct(v: Seq<(u32, u64)>) -> bool {
    forall|i: int, j: int| 0 <= i < j < v.len() ==> #[trigger] v[i].0 != #[trigger] v[j].0
}

/// `v` sorted by number.
fn sort_by_number(v: &Vec<(u32, u64)>) -> (r: Vec<(u32, u64)>)
    requires
        numbers_distinct(v@),
    ensures
        r@.to_multiset() == v@.to_multiset(),
        numbers_ascending(r@),
{
    broadcast use vstd::seq_lib::group_to_multiset_ensures;
    let mut out: Vec<(u32, u64)> = Vec::new();
    let mut i: usize = 0;
    assert(v@.take(0) =~= Seq::<(u32, u64)>::empty());
    while i < v.len()
        invariant
            i <= v@.len(),
            numbers_distinct(v@),
            out@.to_multiset() == v@.take(i as int).to_multiset(),
            numbers_ascending(out@),
        decreases v@.len() - i,
    {
        let x = v[i];
        let mut k: usize = 0;
        while k < out.len() && out[k].0 < x.0
            invariant
                k <= out@.len(),
                forall|m: int| 0 <= m < k ==> #[trigger] out@[m].0 < x.0,
            decreases out@.len() - k,
        {
            k = k + 1;
        }
        proof {
            assert forall|m: int| 0 <= m < out@.len() implies #[trigger] out@[m].0 != x.0 by {
                assert(out@.contains(out@[m]));
                vstd::seq_lib::to_multiset_contains(out@, out@[m]);
                vstd::seq_lib::to_multiset_contains(v@.take(i as int), out@[m]);
                assert(out@.to_multiset().count(out@[m]) > 0);
                assert(v@.take(i as int).to_multiset().count(out@[m]) > 0);
                assert(v@.take(i as int).contains(out@[m]));
                let w = choose|w: int| 0 <= w < i && v@.take(i as int)[w] == out@[m];
                assert(v@[w] == out@[m]);
            }
        }
        let ghost before = out@;
        out.insert(k, x);
        proof {
            assert(v@.take(i + 1) =~= v@.take(i as int).push(x));
            vstd::seq_lib::to_multiset_insert(before, k as int, x);
            vstd::seq_lib::to_multiset_build(v@.take(i as int), x);
            assert forall|a: int, b: int| 0 <= a < b < out@.len() implies out@[a].0 < out@[b].0 by {
                if b < k {
                } else if a < k && b == k {
                } else if a < k {
                    assert(out@[b] == before[b - 1]);
                } else if a == k {
                    assert(out@[b] == before[b - 1]);
                    assert(before[k as int].0 >= x.0);
                    if b - 1 > k {
                        assert(before[k as int].0 < before[b - 1].0);
                    }
                } else {
                    assert(out@[a] == before[a - 1]);
                    assert(out@[b] == before[b - 1]);
                }
            }
        }
        i = i + 1;
    }
    assert(v@.take(v@.len() as int) =~= v@);
    out
}

impl EditableDocument {
    /// Saves the edits as an incremental update (ISO 32000-1 7.5.6): the
    /// file's bytes unchanged, then the objects added or replaced, a
    /// cross-reference section listing just them and a trailer chained
    /// to the file's own section through `/Prev`. With no edit, the
    /// file's bytes come back unchanged. Refused once a redaction has
    /// been applied, since the removed content would stay in the earlier
    /// bytes, and when the file's cross-reference section was not found.
    pub fn save_incremental_to_bytes(&self) -> (r: Result<Vec<u8>, EditorError>)
        requires
            self.wf(),
        ensures
            match r {
                Ok(out) => {
                    &&& !self.redacted()
                    &&& if self.overlay_v().len() == 0 {
                        out@ == self.file_data()
                    } else {
                        self.file_startxref() matches Some(prev) && exists|sorted: Seq<(u32, u64)>|
                            sorted.to_multiset() == overlay_offsets(
                                with_final_newline(self.file_data()).len(),
                                self.overlay_v(),
                            ).to_multiset() && numbers_ascending(sorted) && #[trigger] incremental_text(self, sorted, prev)
                                == out@
                    }
                },
                Err(e) => if self.redacted() {
                    e == EditorError::RedactionRequiresFullRewrite
                } else {
                    self.overlay_v().len() > 0 && self.file_startxref() is None && e == EditorError::MissingBaseXref
                },
            },
    {
        if self.redaction_applied() {
            return Err(EditorError::RedactionRequiresFullRewrite);
        }
        let data = self.file_bytes();
        let mut out: Vec<u8> = Vec::new();
        write_bytes(&mut out, data);
        assert(out@ =~= data@);
        let overlay = self.overlay_entries();
        if overlay.len() == 0 {
            proof {
                crate::graph::lemma_view_table(overlay@);
            }
            return Ok(out);
        }
        if !(out.len() > 0 && out[out.len() - 1] == 10u8) {
            out.push(10u8);
        }
        assert(out@ == with_final_newline(self.file_data()));
        let prev = match self.base_startxref() {
            Some(p) => p,
            None => {
                proof {
                    crate::graph::lemma_view_table(overlay@);
                }
                return Err(EditorError::MissingBaseXref);
            },
        };
        let ghost base = out@;
        let ghost objs = self.overlay_v();
        proof {
            crate::graph::lemma_view_table(overlay@);
            self.lemma_overlay_numbers_distinct();
        }
        let mut offsets: Vec<(u32, u64)> = Vec::new();
        let mut i: usize = 0;
        assert(objs.take(0) =~= Seq::<(ObjectId, ObjV)>::empty());
        while i < overlay.len()
            invariant
                i <= overlay@.len(),
                objs == view_table(overlay@),
                objs.len() == overlay@.len(),
                forall|j: int| 0 <= j < overlay@.len() ==> #[trigger] objs[j] == (overlay@[j].0, overlay@[j].1.v()),
                out@ == base + overlay_text(objs.take(i as int)),
                offsets@ == overlay_offsets(base.len(), objs).take(i as int),
            decreases overlay@.len() - i,
        {
            let off: u64 = out.len() as u64;
            let (id, obj) = &overlay[i];
            write_indirect_object(&mut out, *id, obj);
            offsets.push((id.number, off));
            proof {
                assert(objs.take(i + 1).drop_last() =~= objs.take(i as int));
                assert(objs.take(i + 1).last() == objs[i as int]);
                assert(out@ =~= base + overlay_text(objs.take(i + 1)));
                assert(offsets@ =~= overlay_offsets(base.len(), objs).take(i + 1));
            }
            i = i + 1;
        }
        proof {
            assert(objs.take(objs.len() as int) =~= objs);
            assert(offsets@ =~= overlay_offsets(base.len(), objs));
            assert(numbers_distinct(offsets@));
        }
        let sorted = sort_by_number(&offsets);
        let xref_at: u64 = out.len() as u64;
        write_incremental_xref_and_trailer(
            &mut out,
            sorted.as_slice(),
            self.next_object_number(),
            self.catalog_id(),
            self.trailer_info(),
            prev,
        );
        write_bytes(&mut out, &[115u8, 116u8, 97u8, 114u8, 116u8, 120u8, 114u8, 101u8, 102u8, 10u8]);
        write_dec(&mut out, xref_at);
        write_bytes(&mut out, &[10u8, 37u8, 37u8, 69u8, 79u8, 70u8, 10u8]);
        proof {
            assert(out@ =~= incremental_text(self, sorted@, prev));
        }
        Ok(out)
    }
}

/// The most objects packed into one object stream.
pub const OBJECTS_PER_STREAM: usize = 200;

/// The id with number `n` and generation 0.
pub open spec fn num_id(n: u32) -> ObjectId {
    ObjectId { number: n, generation: 0 }
}

/// The version a full rewrite states: the file's, raised to 1.5, the
/// first with object and cross-reference streams.
pub open spec fn full_rewrite_version(v: PdfVersion) -> PdfVersion {
    if PdfVersion::V1_5.rank() <= v.rank() {
        v
    } else {
        PdfVersion::V1_5
    }
}

/// The objects numbered 1, 2, ... in `objs` that are streams (with
/// `streams`) or are not, with their numbers, in order.
pub open spec fn split_streams(objs: Seq<ObjV>, streams: bool) -> Seq<(u32, ObjV)>
    decreases objs.len(),
{
    if objs.len() == 0 {
        Seq::empty()
    } else {
        let p = split_streams(objs.drop_last(), streams);
        if (objs.last() is Stream) == streams {
            p.push((objs.len() as u32, objs.last()))
        } else {
            p
        }
    }
}

/// `t` followed by the definitions of the stream objects `sp`, and `m`
/// with each recorded at its offset.
pub open spec fn lay_streams(t: Seq<u8>, m: Map<u32, XrefTarget>, sp: Seq<(u32, ObjV)>) -> (Seq<u8>, Map<u32, XrefTarget>)
    decreases sp.len(),
{
    if sp.len() == 0 {
        (t, m)
    } else {
        let (t1, m1) = lay_streams(t, m, sp.drop_last());
        (
            t1 + indirect_text(num_id(sp.last().0), sp.last().1),
            m1.insert(sp.last().0, XrefTarget::Offset(t1.len() as u64)),
        )
    }
}

/// The objects of an object stream, each followed by a space.
pub open spec fn objstm_body(ch: Seq<(u32, ObjV)>) -> Seq<u8>
    decreases ch.len(),
{
    if ch.len() == 0 {
        Seq::empty()
    } else {
        objstm_body(ch.drop_last()) + obj_text(ch.last().1) + seq![32u8]
    }
}

/// The number and offset (within the body) of each object of an object
/// stream, each followed by a space.
pub open spec fn objstm_header(ch: Seq<(u32, ObjV)>) -> Seq<u8>
    decreases ch.len(),
{
    if ch.len() == 0 {
        Seq::empty()
    } else {
        objstm_header(ch.drop_last()) + dec(ch.last().0 as nat) + seq![32u8] + dec(objstm_body(ch.drop_last()).len())
            + seq![32u8]
    }
}

/// The data of an object stream: its header, then its body.
pub open spec fn objstm_data(ch: Seq<(u32, ObjV)>) -> Seq<u8> {
    objstm_header(ch) + objstm_body(ch)
}

/// The dictionary of an object stream (ISO 32000-1 7.5.7): its type, the
/// number of objects, where the first starts, and the data's length.
pub open spec fn objstm_entries(ch: Seq<(u32, ObjV)>) -> Seq<(Seq<char>, ObjV)> {
    seq![
        ("Type"@, ObjV::Name("ObjStm"@)),
        ("N"@, ObjV::Integer(ch.len() as i64)),
        ("First"@, ObjV::Integer(objstm_header(ch).len() as i64)),
        ("Length"@, ObjV::Integer(objstm_data(ch).len() as i64)),
    ]
}

/// `m` with each object of `ch` recorded inside object stream `stream`.
pub open spec fn objstm_map(m: Map<u32, XrefTarget>, ch: Seq<(u32, ObjV)>, stream: u32) -> Map<u32, XrefTarget>
    decreases ch.len(),
{
    if ch.len() == 0 {
        m
    } else {
        objstm_map(m, ch.drop_last(), stream).insert(
            ch.last().0,
            XrefTarget::Compressed { stream, index: (ch.len() - 1) as u32 },
        )
    }
}

/// The `c`-th group of at most `OBJECTS_PER_STREAM` objects.
pub open spec fn chunk(plain: Seq<(u32, ObjV)>, c: nat) -> Seq<(u32, ObjV)> {
    let lo: int = 200 * c as int;
    let hi: int = if lo + 200 <= plain.len() { lo + 200 } else { plain.len() as int };
    plain.subrange(lo, hi)
}

/// The number of groups `len` objects make.
pub open spec fn n_chunks(len: nat) -> nat {
    (len + 199) / 200
}

/// `t` followed by the first `c` object streams, numbered from
/// `first_num`, and `m` recording them and the objects they hold.
pub open spec fn lay_chunks(t: Seq<u8>, m: Map<u32, XrefTarget>, plain: Seq<(u32, ObjV)>, first_num: nat, c: nat) -> (
    Seq<u8>,
    Map<u32, XrefTarget>,
)
    decreases c,
{
    if c == 0 {
        (t, m)
    } else {
        let (t1, m1) = lay_chunks(t, m, plain, first_num, (c - 1) as nat);
        let ch = chunk(plain, (c - 1) as nat);
        let num = (first_num + c - 1) as u32;
        (
            t1 + indirect_text(num_id(num), ObjV::Stream(objstm_entries(ch), objstm_data(ch))),
            objstm_map(m1, ch, num).insert(num, XrefTarget::Offset(t1.len() as u64)),
        )
    }
}

/// The text of a full rewrite up to its cross-reference stream, the
/// targets recorded, and the cross-reference stream's number.
pub open spec fn full_rewrite_parts(doc: &EditableDocument, order: Seq<ObjectId>) -> (Seq<u8>, Map<u32, XrefTarget>, nat) {
    let objs = rewritten(doc, order);
    let head = header_text(full_rewrite_version(doc.file_version()));
    let (t1, m1) = lay_streams(head, Map::empty(), split_streams(objs, true));
    let plain = split_streams(objs, false);
    let nc = n_chunks(plain.len());
    let (t2, m2) = lay_chunks(t1, m1, plain, order.len() + 1, nc);
    (t2, m2, order.len() + 1 + nc)
}

/// The file a full rewrite writes, its objects visited in `order`: the
/// header, every stream object as an ordinary indirect object, every
/// other object packed into object streams of at most
/// `OBJECTS_PER_STREAM`, then a cross-reference stream (ISO 32000-1
/// 7.5.8) describing them all and itself, with the renumbered catalog
/// and `/Info` and the file's `/ID`, and `startxref`.
pub open spec fn full_rewrite_text(doc: &EditableDocument, order: Seq<ObjectId>) -> Seq<u8> {
    let (t, m, xn) = full_rewrite_parts(doc, order);
    let xref = m.insert(xn as u32, XrefTarget::Offset(t.len() as u64));
    let size = (xn + 1) as u32;
    let map = renumbering(order);
    let data = xref_stream_data(xref, size);
    t + indirect_text(
        num_id(xn as u32),
        ObjV::Stream(
            xref_stream_entries(
                size,
                data.len(),
                renumbered(map, doc.root_id()),
                match doc.info_id() {
                    Some(i) => Some(renumbered(map, i)),
                    None => None,
                },
                doc.file_id(),
            ),
            data,
        ),
    ) + startxref_text(t.len())
}

/// The values of numbered streams.
pub open spec fn streams_view(v: Seq<(u32, PdfStream)>) -> Seq<(u32, ObjV)> {
    Seq::new(v.len(), |i: int| (v[i].0, ObjV::Stream(v[i].1.dictionary.view_entries(), v[i].1.data@)))
}

/// The values of numbered objects.
pub open spec fn plain_view(v: Seq<(u32, Object)>) -> Seq<(u32, ObjV)> {
    Seq::new(v.len(), |i: int| (v[i].0, v[i].1.v()))
}

/// Appends the definitions of the stream objects, recording where each
/// begins.
fn lay_stream_objects(out: &mut Vec<u8>, xref: &mut HashMap<u32, XrefTarget>, streams: &[(u32, PdfStream)])
    ensures
        (final(out)@, final(xref)@) == lay_streams(old(out)@, old(xref)@, streams_view(streams@)),
{
    broadcast use vstd::std_specs::hash::group_hash_axioms;
    let ghost t0 = out@;
    let ghost m0 = xref@;
    let ghost sv = streams_view(streams@);
    let mut k: usize = 0;
    assert(sv.take(0) =~= Seq::<(u32, ObjV)>::empty());
    while k < streams.len()
        invariant
            k <= streams@.len(),
            sv == streams_view(streams@),
            (out@, xref@) == lay_streams(t0, m0, sv.take(k as int)),
        decreases streams@.len() - k,
    {
        let (num, st) = &streams[k];
        let off: u64 = out.len() as u64;
        proof {
            assert(sv.take(k + 1).drop_last() =~= sv.take(k as int));
            assert(sv.take(k + 1).last() == sv[k as int]);
        }
        write_stream_object(out, ObjectId::new(*num), st);
        xref.insert(*num, XrefTarget::Offset(off));
        k = k + 1;
    }
    assert(sv.take(streams@.len() as int) =~= sv);
}

/// The object stream holding `ch`: its header of numbers and offsets,
/// then the objects, with its dictionary (the data is not filtered).
fn build_objstm(ch: &[(u32, Object)]) -> (s: PdfStream)
    ensures
        s.dictionary.view_entries() == objstm_entries(plain_view(ch@)),
        s.data@ == objstm_data(plain_view(ch@)),
{
    let ghost pv = plain_view(ch@);
    let mut header: Vec<u8> = Vec::new();
    let mut body: Vec<u8> = Vec::new();
    let mut k: usize = 0;
    assert(pv.take(0) =~= Seq::<(u32, ObjV)>::empty());
    while k < ch.len()
        invariant
            k <= ch@.len(),
            pv == plain_view(ch@),
            header@ == objstm_header(pv.take(k as int)),
            body@ == objstm_body(pv.take(k as int)),
        decreases ch@.len() - k,
    {
        let (num, obj) = &ch[k];
        proof {
            assert(pv.take(k + 1).drop_last() =~= pv.take(k as int));
            assert(pv.take(k + 1).last() == pv[k as int]);
        }
        write_dec(&mut header, *num as u64);
        header.push(32u8);
        write_dec(&mut header, body.len() as u64);
        header.push(32u8);
        let text = to_pdf_bytes(obj);
        write_bytes(&mut body, text.as_slice());
        body.push(32u8);
        proof {
            assert(header@ =~= objstm_header(pv.take(k + 1)));
            assert(body@ =~= objstm_body(pv.take(k + 1)));
        }
        k = k + 1;
    }
    assert(pv.take(ch@.len() as int) =~= pv);
    let first_len = header.len();
    let mut data = header;
    write_bytes(&mut data, body.as_slice());
    assert(data@ == objstm_data(pv));
    let mut dict = PdfDictionary::new();
    proof {
        reveal_strlit("Type");
        reveal_strlit("N");
        reveal_strlit("First");
        reveal_strlit("Length");
        assert(dict.view_entries() =~= Seq::<(Seq<char>, ObjV)>::empty());
    }
    dict.set("Type", Object::Name(PdfName::new_unchecked("ObjStm")));
    let ghost e1 = dict.view_entries();
    #[verifier::truncate]
    let n = ch.len() as i64;
    dict.set("N", Object::Integer(n));
    proof {
        assert forall|i: int| 0 <= i < e1.len() implies e1[i].0 != "N"@ by {
            assert(e1[i].0.len() != "N"@.len());
        }
        crate::object::lemma_entries_set_fresh(e1, "N"@, ObjV::Integer(n));
    }
    let ghost e2 = dict.view_entries();
    #[verifier::truncate]
    let first = first_len as i64;
    dict.set("First", Object::Integer(first));
    proof {
        assert forall|i: int| 0 <= i < e2.len() implies e2[i].0 != "First"@ by {
            assert(e2[i].0.len() != "First"@.len());
        }
        crate::object::lemma_entries_set_fresh(e2, "First"@, ObjV::Integer(first));
    }
    let ghost e3 = dict.view_entries();
    #[verifier::truncate]
    let len = data.len() as i64;
    dict.set("Length", Object::Integer(len));
    proof {
        assert forall|i: int| 0 <= i < e3.len() implies e3[i].0 != "Length"@ by {
            assert(e3[i].0.len() != "Length"@.len());
        }
        crate::object::lemma_entries_set_fresh(e3, "Length"@, ObjV::Integer(len));
        assert(dict.view_entries() =~= objstm_entries(pv));
    }
    PdfStream::with_dictionary(dict, data)
}

/// Records each object of `ch` inside object stream `stream`.
fn record_objstm(xref: &mut HashMap<u32, XrefTarget>, ch: &[(u32, Object)], stream: u32)
    requires
        ch@.len() <= 200,
    ensures
        final(xref)@ == objstm_map(old(xref)@, plain_view(ch@), stream),
{
    broadcast use vstd::std_specs::hash::group_hash_axioms;
    let ghost m0 = xref@;
    let ghost pv = plain_view(ch@);
    let mut k: usize = 0;
    assert(pv.take(0) =~= Seq::<(u32, ObjV)>::empty());
    while k < ch.len()
        invariant
            k <= ch@.len(),
            ch@.len() <= 200,
            pv == plain_view(ch@),
            xref@ == objstm_map(m0, pv.take(k as int), stream),
        decreases ch@.len() - k,
    {
        proof {
            assert(pv.take(k + 1).drop_last() =~= pv.take(k as int));
            assert(pv.take(k + 1).last() == pv[k as int]);
        }
        xref.insert(ch[k].0, XrefTarget::Compressed { stream, index: k as u32 });
        k = k + 1;
    }
    assert(pv.take(ch@.len() as int) =~= pv);
}

/// Appends the object streams holding `plain`, numbered from
/// `first_num`, recording them and the objects they hold; returns how
/// many there are.
fn lay_object_streams(
    out: &mut Vec<u8>,
    xref: &mut HashMap<u32, XrefTarget>,
    plain: &[(u32, Object)],
    first_num: u32,
) -> (c: usize)
    requires
        plain@.len() <= 5000000,
        first_num <= 5000001,
    ensures
        c == n_chunks(plain@.len()),
        (final(out)@, final(xref)@) == lay_chunks(
            old(out)@,
            old(xref)@,
            plain_view(plain@),
            first_num as nat,
            n_chunks(plain@.len()),
        ),
{
    broadcast use vstd::std_specs::hash::group_hash_axioms;
    let ghost t1 = out@;
    let ghost m1 = xref@;
    let ghost pv = plain_view(plain@);
    let mut c: usize = 0;
    while c * 200 < plain.len()
        invariant
            pv == plain_view(plain@),
            plain@.len() <= 5000000,
            first_num <= 5000001,
            c <= n_chunks(pv.len()),
            (out@, xref@) == lay_chunks(t1, m1, pv, first_num as nat, c as nat),
        decreases n_chunks(pv.len()) - c,
    {
        proof {
            assert((pv.len() + 199) / 200 >= c + 1) by (nonlinear_arith)
                requires
                    c * 200 < pv.len(),
            ;
        }
        let lo = c * 200;
        let hi = if lo + 200 <= plain.len() {
            lo + 200
        } else {
            plain.len()
        };
        let ch = vstd::slice::slice_subrange(plain, lo, hi);
        let num = first_num + c as u32;
        proof {
            assert(plain_view(ch@) =~= chunk(pv, c as nat));
        }
        record_objstm(xref, ch, num);
        let st = build_objstm(ch);
        let off: u64 = out.len() as u64;
        write_stream_object(out, ObjectId::new(num), &st);
        xref.insert(num, XrefTarget::Offset(off));
        c = c + 1;
    }
    proof {
        assert(c == n_chunks(pv.len())) by (nonlinear_arith)
            requires
                c * 200 >= pv.len(),
                c <= (pv.len() + 199) / 200,
        ;
    }
    c
}

impl EditableDocument {
    /// The walk of a rewrite: the ids visited, copies of their objects,
    /// their renumbering, and the renumbered catalog and `/Info`.
    fn rewrite_plan(&self) -> (r: Result<
        (Vec<ObjectId>, Vec<(ObjectId, Object)>, Vec<(ObjectId, ObjectId)>, ObjectId, Option<ObjectId>),
        EditorError,
    >)
        requires
            self.wf(),
            self.info_id() matches Some(i) ==> self.object(i) is Some,
        ensures
            match r {
                Ok((order, objects, map, new_root, new_info)) => {
                    &&& walk_result(self, save_roots(self), false, 5000000, order@)
                    &&& order@.len() <= 5000000
                    &&& objects@.len() == order@.len()
                    &&& forall|j: int| 0 <= j < order@.len() ==> #[trigger] objects@[j].0 == order@[j] && self.object(order@[j])
                        == Some(objects@[j].1.v())
                    &&& map@ == renumbering(order@)
                    &&& new_root == renumbered(map@, self.root_id())
                    &&& new_info == (match self.info_id() {
                        Some(i) => Some(renumbered(map@, i)),
                        None => None,
                    })
                },
                Err(e) => e == EditorError::ResourceLimitExceeded && walk_fails(self, save_roots(self), false, 5000000),
            },
    {
        let mut roots: Vec<ObjectId> = Vec::new();
        roots.push(self.catalog_id());
        let info = self.trailer_info();
        match info {
            Some(i) => roots.push(i),
            None => {},
        }
        assert(roots@ =~= save_roots(self));
        let (order, objects) = self.reachable_objects(roots.as_slice())?;
        let mut map: Vec<(ObjectId, ObjectId)> = Vec::new();
        let mut i: usize = 0;
        while i < order.len()
            invariant
                i <= order@.len(),
                order@.len() <= 5000000,
                map@ == renumbering(order@).take(i as int),
            decreases order@.len() - i,
        {
            map.push((order[i], ObjectId::new((i + 1) as u32)));
            proof {
                assert(map@ =~= renumbering(order@).take(i + 1));
            }
            i = i + 1;
        }
        proof {
            assert(map@ =~= renumbering(order@));
        }
        let ghost n_steps = choose|n: nat|
            #[trigger] self.walk_run(crate::graph::walk_start(save_roots(self)), n, false, 5000000) matches Ok(st) && st.queue.len() == 0
                && st.order == order@;
        proof {
            self.lemma_root_stored();
            self.lemma_walk_visits_roots(save_roots(self), n_steps, self.root_id(), false, 5000000);
            lemma_renumbering_finds(order@, self.root_id());
            match self.info_id() {
                Some(inf) => {
                    assert(save_roots(self)[1] == inf);
                    self.lemma_walk_visits_roots(save_roots(self), n_steps, inf, false, 5000000);
                    lemma_renumbering_finds(order@, inf);
                },
                None => {},
            }
        }
        let new_root = match lookup_id(map.as_slice(), self.catalog_id()) {
            Some(t) => t,
            None => {
                return Err(EditorError::ResourceLimitExceeded);
            },
        };
        let new_info = match info {
            Some(inf) => match lookup_id(map.as_slice(), inf) {
                Some(t) => Some(t),
                None => {
                    return Err(EditorError::ResourceLimitExceeded);
                },
            },
            None => None,
        };
        Ok((order, objects, map, new_root, new_info))
    }

    /// The rewritten objects of a plan, split into the stream objects and
    /// the others, each with its new number.
    fn split_rewritten(
        &self,
        order: &Vec<ObjectId>,
        objects: &Vec<(ObjectId, Object)>,
        map: &Vec<(ObjectId, ObjectId)>,
    ) -> (r: (Vec<(u32, PdfStream)>, Vec<(u32, Object)>))
        requires
            order@.len() <= 5000000,
            objects@.len() == order@.len(),
            forall|j: int| 0 <= j < order@.len() ==> #[trigger] objects@[j].0 == order@[j] && self.object(order@[j])
                == Some(objects@[j].1.v()),
            map@ == renumbering(order@),
        ensures
            streams_view(r.0@) == split_streams(rewritten(self, order@), true),
            plain_view(r.1@) == split_streams(rewritten(self, order@), false),
            r.1@.len() <= order@.len(),
    {
        let ghost objs = rewritten(self, order@);
        let mut streams: Vec<(u32, PdfStream)> = Vec::new();
        let mut plain: Vec<(u32, Object)> = Vec::new();
        let mut k: usize = 0;
        assert(objs.take(0) =~= Seq::<ObjV>::empty());
        assert(streams_view(streams@) =~= Seq::<(u32, ObjV)>::empty());
        assert(plain_view(plain@) =~= Seq::<(u32, ObjV)>::empty());
        while k < objects.len()
            invariant
                k <= objects@.len(),
                objects@.len() == order@.len(),
                order@.len() <= 5000000,
                map@ == renumbering(order@),
                objs == rewritten(self, order@),
                forall|j: int| 0 <= j < order@.len() ==> #[trigger] objects@[j].0 == order@[j] && self.object(order@[j])
                    == Some(objects@[j].1.v()),
                streams_view(streams@) == split_streams(objs.take(k as int), true),
                plain_view(plain@) == split_streams(objs.take(k as int), false),
                plain@.len() <= k,
            decreases objects@.len() - k,
        {
            let remapped = remap_all(&objects[k].1, map.as_slice());
            let num = (k + 1) as u32;
            proof {
                assert(objects@[k as int].0 == order@[k as int]);
                assert(remapped.v() == objs[k as int]);
                assert(objs.take(k + 1).drop_last() =~= objs.take(k as int));
                assert(objs.take(k + 1).last() == objs[k as int]);
            }
            match remapped {
                Object::Stream(st) => {
                    let ghost before = streams@;
                    streams.push((num, st));
                    proof {
                        assert(streams_view(streams@) =~= streams_view(before).push((num, objs[k as int])));
                    }
                },
                other => {
                    let ghost before = plain@;
                    let ghost ov = other.v();
                    plain.push((num, other));
                    proof {
                        assert(plain_view(plain@) =~= plain_view(before).push((num, ov)));
                    }
                },
            }
            k = k + 1;
        }
        proof {
            assert(objs.take(objs.len() as int) =~= objs);
        }
        (streams, plain)
    }

    /// Saves a full, compacted rewrite: every object reachable from the
    /// catalog and `/Info`, renumbered 1, 2, ... in the order a
    /// breadth-first walk visits them; stream objects as ordinary
    /// indirect objects, every other object packed into object streams
    /// of at most `OBJECTS_PER_STREAM` (ISO 32000-1 7.5.7), and one
    /// cross-reference stream (7.5.8) describing all of them and itself.
    /// The header states the file's version, raised to 1.5. Streams are
    /// written as they are stored, object streams unfiltered. Refuses a
    /// graph too large to walk, and an output whose offsets would not fit
    /// the cross-reference stream's 32-bit field.
    pub fn save_full_rewrite_to_bytes(&self) -> (r: Result<Vec<u8>, EditorError>)
        requires
            self.wf(),
            self.info_id() matches Some(i) ==> self.object(i) is Some,
        ensures
            match r {
                Ok(out) => exists|order: Seq<ObjectId>|
                    walk_result(self, save_roots(self), false, 5000000, order) && #[trigger] full_rewrite_text(self, order) == out@,
                Err(e) => e == EditorError::ResourceLimitExceeded && (walk_fails(self, save_roots(self), false, 5000000) || exists|
                    order: Seq<ObjectId>,
                |
                    walk_result(self, save_roots(self), false, 5000000, order) && #[trigger] full_rewrite_parts(self, order).0.len()
                        > u32::MAX),
            },
    {
        broadcast use vstd::std_specs::hash::group_hash_axioms;
        let (order, objects, map, new_root, new_info) = self.rewrite_plan()?;
        let (streams, plain) = self.split_rewritten(&order, &objects, &map);
        let base_version = self.base_version();
        let version = if base_version.supports(PdfVersion::V1_5) {
            base_version
        } else {
            PdfVersion::V1_5
        };
        let mut out = header_bytes(version);
        let mut xref: HashMap<u32, XrefTarget> = HashMap::new();
        lay_stream_objects(&mut out, &mut xref, streams.as_slice());
        let n = order.len();
        let c = lay_object_streams(&mut out, &mut xref, plain.as_slice(), (n + 1) as u32);
        let xref_num = (n + 1 + c) as u32;
        let xref_offset: u64 = out.len() as u64;
        proof {
            assert((out@, xref@) == (full_rewrite_parts(self, order@).0, full_rewrite_parts(self, order@).1));
        }
        xref.insert(xref_num, XrefTarget::Offset(xref_offset));
        if out.len() > 0xFFFF_FFFFusize {
            return Err(EditorError::ResourceLimitExceeded);
        }
        let size = xref_num + 1;
        let xs = build_xref_stream(size, &xref, new_root, new_info, self.trailer_file_id());
        write_stream_object(&mut out, ObjectId::new(xref_num), &xs);
        write_bytes(&mut out, &[115u8, 116u8, 97u8, 114u8, 116u8, 120u8, 114u8, 101u8, 102u8, 10u8]);
        write_dec(&mut out, xref_offset);
        write_bytes(&mut out, &[10u8, 37u8, 37u8, 69u8, 79u8, 70u8, 10u8]);
        proof {
            assert(out@ =~= full_rewrite_text(self, order@));
        }
        Ok(out)
    }
}

} // verus!
