//! Writing indirect objects, cross-reference tables and trailers
//! (ISO 32000-1 7.5.3 - 7.5.5).

use vstd::prelude::*;
use std::collections::HashMap;
use crate::audit::{be32, write_u32};
use crate::numfmt::{dec, pad_zeros, write_dec, write_dec_padded};
use crate::object::{
    entries_set, view_entries, view_objs, Object, ObjV, ObjectId, PdfArray, PdfDictionary, PdfName,
    PdfStream, PdfString, slice_to_vec_u8,
};
use crate::serialize::{
    dict_text, obj_text, stream_close, stream_open, string_text, write_bytes, write_dictionary,
    write_object, write_string,
};

verus! {

/// `N G obj` and a line feed.
pub open spec fn obj_header(id: ObjectId) -> Seq<u8> {
    dec(id.number as nat) + seq![32u8] + dec(id.generation as nat) + seq![32u8, 111u8, 98u8, 106u8, 10u8]
}

/// `endobj` and a line feed.
pub open spec fn endobj_text() -> Seq<u8> {
    seq![101u8, 110u8, 100u8, 111u8, 98u8, 106u8, 10u8]
}

/// The definition of indirect object `id` with value `o`.
pub open spec fn indirect_text(id: ObjectId, o: ObjV) -> Seq<u8> {
    obj_header(id) + obj_text(o) + seq![10u8] + endobj_text()
}

/// A stream's dictionary, `stream`, its data and `endstream`, each
/// keyword on a line of its own.
pub open spec fn stream_body_text(entries: Seq<(Seq<char>, ObjV)>, data: Seq<u8>) -> Seq<u8> {
    dict_text(entries) + stream_open() + data + stream_close() + seq![10u8]
}

/// One in-use entry of a cross-reference table: the offset in ten digits,
/// generation `00000`, `n`, and the two-byte end of line.
pub open spec fn xref_entry(offset: nat) -> Seq<u8> {
    pad_zeros(dec(offset), 10) + seq![32u8, 48u8, 48u8, 48u8, 48u8, 48u8, 32u8, 110u8, 32u8, 10u8]
}

/// The entries for a sequence of (object number, offset) pairs.
pub open spec fn xref_entries(offsets: Seq<(u32, u64)>) -> Seq<u8>
    decreases offsets.len(),
{
    if offsets.len() == 0 {
        Seq::empty()
    } else {
        xref_entries(offsets.drop_last()) + xref_entry(offsets.last().1 as nat)
    }
}

/// The length of the run of consecutive object numbers that starts
/// `offsets` (at least one when it is not empty).
pub open spec fn run_len(offsets: Seq<(u32, u64)>) -> nat
    decreases offsets.len(),
{
    if offsets.len() == 0 {
        0
    } else if offsets.len() >= 2 && offsets[1].0 == offsets[0].0 + 1 {
        1 + run_len(offsets.drop_first())
    } else {
        1
    }
}

/// The subsections of a cross-reference section: each maximal run of
/// consecutive object numbers becomes a `first count` line and its
/// entries.
#[verifier::opaque]
pub open spec fn xref_subsections(offsets: Seq<(u32, u64)>) -> Seq<u8>
    decreases offsets.len(),
{
    if offsets.len() == 0 {
        Seq::empty()
    } else {
        let r = run_len(offsets);
        if r == 0 || r > offsets.len() {
            Seq::empty()
        } else {
            dec(offsets[0].0 as nat) + seq![32u8] + dec(r) + seq![10u8] + xref_entries(
                offsets.take(r as int),
            ) + xref_subsections(offsets.skip(r as int))
        }
    }
}

/// `xref` and a line feed.
pub open spec fn xref_keyword() -> Seq<u8> {
    seq![120u8, 114u8, 101u8, 102u8, 10u8]
}

/// `trailer`, a line feed and `<< `.
pub open spec fn trailer_open() -> Seq<u8> {
    seq![116u8, 114u8, 97u8, 105u8, 108u8, 101u8, 114u8, 10u8, 60u8, 60u8, 32u8]
}

/// `/Size N `.
pub open spec fn size_field(size: u32) -> Seq<u8> {
    seq![47u8, 83u8, 105u8, 122u8, 101u8, 32u8] + dec(size as nat) + seq![32u8]
}

/// `/Root N G R `.
pub open spec fn root_field(root: ObjectId) -> Seq<u8> {
    seq![47u8, 82u8, 111u8, 111u8, 116u8, 32u8] + root.ref_text() + seq![32u8]
}

/// `/Info N G R ` when there is an info dictionary.
pub open spec fn info_field(info: Option<ObjectId>) -> Seq<u8> {
    match info {
        Some(i) => seq![47u8, 73u8, 110u8, 102u8, 111u8, 32u8] + i.ref_text() + seq![32u8],
        None => Seq::empty(),
    }
}

/// `/Prev N `.
pub open spec fn prev_field(prev: u64) -> Seq<u8> {
    seq![47u8, 80u8, 114u8, 101u8, 118u8, 32u8] + dec(prev as nat) + seq![32u8]
}

/// `/ID [<..> <..>] ` when there is a file identifier.
pub open spec fn id_field(file_id: Option<(Seq<u8>, Seq<u8>)>) -> Seq<u8> {
    match file_id {
        Some(ids) => seq![47u8, 73u8, 68u8, 32u8, 91u8] + string_text(true, ids.0) + seq![32u8]
            + string_text(true, ids.1) + seq![93u8, 32u8],
        None => Seq::empty(),
    }
}

/// The bytes of an optional pair of identifiers.
pub open spec fn file_id_view(file_id: Option<(Vec<u8>, Vec<u8>)>) -> Option<(Seq<u8>, Seq<u8>)> {
    match file_id {
        Some(ids) => Some((ids.0@, ids.1@)),
        None => None,
    }
}

/// `>>` and a line feed.
pub open spec fn trailer_close() -> Seq<u8> {
    seq![62u8, 62u8, 10u8]
}

/// The head of the free list: object 0, generation 65535.
pub open spec fn free_head_entry() -> Seq<u8> {
    seq![48u8, 48u8, 48u8, 48u8, 48u8, 48u8, 48u8, 48u8, 48u8, 48u8, 32u8, 54u8, 53u8, 53u8, 51u8, 53u8, 32u8, 102u8, 32u8, 10u8]
}

/// A full cross-reference section `0 size`, headed by the free object 0
/// and followed by one entry per offset in order, and its trailer.
pub open spec fn classic_xref_text(
    offsets: Seq<(u32, u64)>,
    size: u32,
    root: ObjectId,
    info: Option<ObjectId>,
    file_id: Option<(Seq<u8>, Seq<u8>)>,
) -> Seq<u8> {
    xref_keyword() + seq![48u8, 32u8] + dec(size as nat) + seq![10u8] + free_head_entry()
        + xref_entries(offsets) + trailer_open() + size_field(size) + root_field(root) + info_field(
        info,
    ) + id_field(file_id) + trailer_close()
}

/// `startxref`, the offset of the cross-reference section, and `%%EOF`,
/// each on a line of its own.
pub open spec fn startxref_text(offset: nat) -> Seq<u8> {
    seq![115u8, 116u8, 97u8, 114u8, 116u8, 120u8, 114u8, 101u8, 102u8, 10u8] + dec(offset) + seq![
        10u8,
        37u8,
        37u8,
        69u8,
        79u8,
        70u8,
        10u8,
    ]
}

/// The definitions of objects numbered 1, 2, ... in that order.
pub open spec fn body_text(objs: Seq<ObjV>) -> Seq<u8>
    decreases objs.len(),
{
    if objs.len() == 0 {
        Seq::empty()
    } else {
        body_text(objs.drop_last()) + indirect_text(
            ObjectId { number: objs.len() as u32, generation: 0 },
            objs.last(),
        )
    }
}

/// The (number, offset) pairs of the objects of `body_text(objs)` when it
/// starts at byte `start`.
pub open spec fn body_offsets(start: nat, objs: Seq<ObjV>) -> Seq<(u32, u64)> {
    Seq::new(objs.len(), |k: int| ((k + 1) as u32, (start + body_text(objs.take(k)).len()) as u64))
}

/// The object numbers strictly increase.
pub open spec fn numbers_ascending(offsets: Seq<(u32, u64)>) -> bool {
    forall|i: int, j: int| 0 <= i < j < offsets.len() ==> offsets[i].0 < offsets[j].0
}

/// Writes `N G obj` and a line feed.
fn write_obj_header(out: &mut Vec<u8>, id: ObjectId)
    ensures
        final(out)@ == old(out)@ + obj_header(id),
{
    write_dec(out, id.number as u64);
    out.push(32u8);
    write_dec(out, id.generation as u64);
    write_bytes(out, &[32u8, 111u8, 98u8, 106u8, 10u8]);
    assert(final(out)@ =~= old(out)@ + obj_header(id));
}

/// Writes a stream's dictionary, data and keywords.
pub fn write_stream_body(out: &mut Vec<u8>, stream: &PdfStream)
    ensures
        final(out)@ == old(out)@ + stream_body_text(stream.dictionary.view_entries(), stream.data@),
{
    let ghost start = out@;
    write_dictionary(out, &stream.dictionary);
    write_bytes(out, &[10u8, 115u8, 116u8, 114u8, 101u8, 97u8, 109u8, 10u8]);
    write_bytes(out, stream.data.as_slice());
    write_bytes(out, &[10u8, 101u8, 110u8, 100u8, 115u8, 116u8, 114u8, 101u8, 97u8, 109u8, 10u8]);
    assert(out@ =~= start + stream_body_text(stream.dictionary.view_entries(), stream.data@));
}

/// Writes one `N G obj ... endobj` indirect object definition.
pub fn write_indirect_object(out: &mut Vec<u8>, id: ObjectId, obj: &Object)
    ensures
        final(out)@ == old(out)@ + indirect_text(id, obj.v()),
{
    let ghost start = out@;
    write_obj_header(out, id);
    match obj {
        Object::Stream(stream) => {
            write_stream_body(out, stream);
        },
        _ => {
            write_object(out, obj);
            out.push(10u8);
        },
    }
    write_bytes(out, &[101u8, 110u8, 100u8, 111u8, 98u8, 106u8, 10u8]);
    assert(out@ =~= start + indirect_text(id, obj.v()));
}

/// Writes one `N G obj ... endobj` definition of a stream object.
pub fn write_stream_object(out: &mut Vec<u8>, id: ObjectId, stream: &PdfStream)
    ensures
        final(out)@ == old(out)@ + indirect_text(
            id,
            ObjV::Stream(stream.dictionary.view_entries(), stream.data@),
        ),
{
    let ghost start = out@;
    write_obj_header(out, id);
    write_stream_body(out, stream);
    write_bytes(out, &[101u8, 110u8, 100u8, 111u8, 98u8, 106u8, 10u8]);
    assert(out@ =~= start + indirect_text(
        id,
        ObjV::Stream(stream.dictionary.view_entries(), stream.data@),
    ));
}

/// Writes the entry of one offset.
fn write_xref_entry(out: &mut Vec<u8>, offset: u64)
    ensures
        final(out)@ == old(out)@ + xref_entry(offset as nat),
{
    write_dec_padded(out, offset, 10);
    write_bytes(out, &[32u8, 48u8, 48u8, 48u8, 48u8, 48u8, 32u8, 110u8, 32u8, 10u8]);
    assert(final(out)@ =~= old(out)@ + xref_entry(offset as nat));
}

/// Writes the entries of `offsets[from..to]`.
fn write_xref_entries(out: &mut Vec<u8>, offsets: &[(u32, u64)], from: usize, to: usize)
    requires
        from <= to <= offsets@.len(),
    ensures
        final(out)@ == old(out)@ + xref_entries(offsets@.subrange(from as int, to as int)),
{
    let ghost start = out@;
    let mut k = from;
    while k < to
        invariant
            from <= k <= to <= offsets@.len(),
            out@ == start + xref_entries(offsets@.subrange(from as int, k as int)),
        decreases to - k,
    {
        write_xref_entry(out, offsets[k].1);
        proof {
            let s = offsets@.subrange(from as int, k + 1);
            assert(s.drop_last() =~= offsets@.subrange(from as int, k as int));
            assert(s.last() == offsets@[k as int]);
        }
        k = k + 1;
    }
}

/// `run_len` counts exactly the leading run of consecutive numbers.
proof fn lemma_run_len(s: Seq<(u32, u64)>, m: int)
    requires
        1 <= m <= s.len(),
        forall|k: int| 0 < k < m ==> #[trigger] s[k].0 == s[k - 1].0 + 1,
        m == s.len() || s[m].0 != s[m - 1].0 + 1,
    ensures
        run_len(s) == m,
    decreases m,
{
    if m > 1 {
        let t = s.drop_first();
        assert forall|k: int| 0 < k < m - 1 implies #[trigger] t[k].0 == t[k - 1].0 + 1 by {
            assert(s[k + 1].0 == s[k].0 + 1);
        }
        assert(s[1].0 == s[0].0 + 1);
        lemma_run_len(t, m - 1);
    } else {
        if s.len() >= 2 {
            assert(s[1].0 != s[0].0 + 1);
        }
    }
}

/// The subsection at `i` ends at `j` when `i..=j` is a maximal run of
/// consecutive numbers.
proof fn lemma_subsection_split(offsets: Seq<(u32, u64)>, i: int, j: int)
    requires
        0 <= i <= j < offsets.len(),
        forall|k: int| i < k <= j ==> #[trigger] offsets[k].0 == offsets[k - 1].0 + 1,
        j + 1 == offsets.len() || offsets[j + 1].0 != offsets[j].0 + 1,
    ensures
        xref_subsections(offsets.skip(i)) == dec(offsets[i].0 as nat) + seq![32u8] + dec(
            (j - i + 1) as nat,
        ) + seq![10u8] + xref_entries(offsets.subrange(i, j + 1)) + xref_subsections(
            offsets.skip(j + 1),
        ),
{
    let rest = offsets.skip(i);
    let m = j - i + 1;
    assert forall|k: int| 0 < k < m implies #[trigger] rest[k].0 == rest[k - 1].0 + 1 by {
        assert(offsets[i + k].0 == offsets[i + k - 1].0 + 1);
    }
    lemma_run_len(rest, m);
    assert(rest.take(m) =~= offsets.subrange(i, j + 1));
    assert(rest.skip(m) =~= offsets.skip(j + 1));
    reveal(xref_subsections);
}

/// Writes the subsection that starts at `offsets[i]`, returning the index
/// after it.
fn write_one_subsection(out: &mut Vec<u8>, offsets: &[(u32, u64)], i: usize) -> (next: usize)
    requires
        i < offsets@.len(),
    ensures
        i < next <= offsets@.len(),
        old(out)@ + xref_subsections(offsets@.skip(i as int)) == final(out)@ + xref_subsections(
            offsets@.skip(next as int),
        ),
{
    let start_num = offsets[i].0;
    let mut j = i;
    while j + 1 < offsets.len() && (offsets[j + 1].0 as u64) == (offsets[j].0 as u64) + 1
        invariant
            i <= j < offsets@.len(),
            offsets@.len() == offsets.len(),
            forall|k: int| i < k <= j ==> #[trigger] offsets@[k].0 == offsets@[k - 1].0 + 1,
        decreases offsets@.len() - j,
    {
        j = j + 1;
    }
    proof {
        lemma_subsection_split(offsets@, i as int, j as int);
    }
    let ghost head = dec(offsets@[i as int].0 as nat) + seq![32u8] + dec((j - i + 1) as nat) + seq![10u8];
    let ghost before = out@;
    write_dec(out, start_num as u64);
    out.push(32u8);
    write_dec(out, (j - i + 1) as u64);
    out.push(10u8);
    assert(out@ =~= before + head);
    write_xref_entries(out, offsets, i, j + 1);
    proof {
        let e = xref_entries(offsets@.subrange(i as int, j + 1));
        let t = xref_subsections(offsets@.skip(j + 1));
        assert(before + (head + e + t) =~= before + head + e + t);
    }
    j + 1
}

/// Writes the subsections for `offsets`.
fn write_xref_subsections(out: &mut Vec<u8>, offsets: &[(u32, u64)])
    ensures
        final(out)@ == old(out)@ + xref_subsections(offsets@),
{
    let ghost start = out@;
    let mut i: usize = 0;
    assert(offsets@.skip(0) =~= offsets@);
    while i < offsets.len()
        invariant
            i <= offsets@.len(),
            out@ + xref_subsections(offsets@.skip(i as int)) == start + xref_subsections(offsets@),
        decreases offsets@.len() - i,
    {
        i = write_one_subsection(out, offsets, i);
    }
    assert(offsets@.skip(offsets@.len() as int) =~= Seq::<(u32, u64)>::empty());
    assert(xref_subsections(Seq::<(u32, u64)>::empty()) == Seq::<u8>::empty()) by {
        reveal(xref_subsections);
    }
    assert(out@ + Seq::<u8>::empty() =~= out@);
}

/// Writes the `/Size`, `/Root` and `/Info` fields of a trailer.
fn write_trailer_head(out: &mut Vec<u8>, size: u32, root: ObjectId, info: Option<ObjectId>)
    ensures
        final(out)@ == old(out)@ + trailer_open() + size_field(size) + root_field(root) + info_field(info),
{
    let ghost start = out@;
    write_bytes(out, &[116u8, 114u8, 97u8, 105u8, 108u8, 101u8, 114u8, 10u8, 60u8, 60u8, 32u8]);
    write_bytes(out, &[47u8, 83u8, 105u8, 122u8, 101u8, 32u8]);
    write_dec(out, size as u64);
    out.push(32u8);
    write_bytes(out, &[47u8, 82u8, 111u8, 111u8, 116u8, 32u8]);
    root.write_reference(out);
    out.push(32u8);
    match info {
        Some(i) => {
            write_bytes(out, &[47u8, 73u8, 110u8, 102u8, 111u8, 32u8]);
            i.write_reference(out);
            out.push(32u8);
        },
        None => {},
    }
    assert(out@ =~= start + trailer_open() + size_field(size) + root_field(root) + info_field(info));
}

/// Writes a cross-reference section covering exactly the object numbers
/// in `offsets` (ascending, unique), grouped into subsections of
/// consecutive numbers, and a trailer chained to `prev` via `/Prev`.
pub fn write_incremental_xref_and_trailer(
    out: &mut Vec<u8>,
    offsets: &[(u32, u64)],
    size: u32,
    root: ObjectId,
    info: Option<ObjectId>,
    prev: u64,
)
    requires
        numbers_ascending(offsets@),
    ensures
        final(out)@ == old(out)@ + xref_keyword() + xref_subsections(offsets@) + trailer_open()
            + size_field(size) + root_field(root) + info_field(info) + prev_field(prev)
            + trailer_close(),
{
    let ghost start = out@;
    write_bytes(out, &[120u8, 114u8, 101u8, 102u8, 10u8]);
    write_xref_subsections(out, offsets);
    write_trailer_head(out, size, root, info);
    write_bytes(out, &[47u8, 80u8, 114u8, 101u8, 118u8, 32u8]);
    write_dec(out, prev);
    out.push(32u8);
    write_bytes(out, &[62u8, 62u8, 10u8]);
    assert(out@ =~= start + xref_keyword() + xref_subsections(offsets@) + trailer_open()
        + size_field(size) + root_field(root) + info_field(info) + prev_field(prev)
        + trailer_close());
}

/// Writes a full cross-reference section `0 size`, headed by the free
/// object 0 and followed by one entry per offset in order, and a trailer
/// with `/Size`, `/Root`, `/Info` and `/ID` as given.
#[verifier::rlimit(60)]
#[verifier::spinoff_prover]
pub fn write_classic_xref_and_trailer(
    out: &mut Vec<u8>,
    offsets: &[(u32, u64)],
    size: u32,
    root: ObjectId,
    info: Option<ObjectId>,
    file_id: Option<(Vec<u8>, Vec<u8>)>,
)
    ensures
        final(out)@ == old(out)@ + classic_xref_text(offsets@, size, root, info, file_id_view(file_id)),
{
    let ghost start = out@;
    let ghost ids = file_id_view(file_id);
    let ghost a = xref_keyword() + seq![48u8, 32u8] + dec(size as nat) + seq![10u8] + free_head_entry();
    write_bytes(out, &[120u8, 114u8, 101u8, 102u8, 10u8]);
    write_bytes(out, &[48u8, 32u8]);
    write_dec(out, size as u64);
    out.push(10u8);
    write_bytes(out, &[48u8, 48u8, 48u8, 48u8, 48u8, 48u8, 48u8, 48u8, 48u8, 48u8, 32u8, 54u8, 53u8, 53u8, 51u8, 53u8, 32u8, 102u8, 32u8, 10u8]);
    assert(out@ =~= start + a);
    write_xref_entries(out, offsets, 0, offsets.len());
    assert(offsets@.subrange(0, offsets@.len() as int) =~= offsets@);
    let ghost b = a + xref_entries(offsets@);
    assert(out@ =~= start + b);
    write_trailer_head(out, size, root, info);
    let ghost c = b + trailer_open() + size_field(size) + root_field(root) + info_field(info);
    assert(out@ =~= start + c);
    let ghost mid = out@;
    match file_id {
        Some((id1, id2)) => {
            write_bytes(out, &[47u8, 73u8, 68u8, 32u8, 91u8]);
            write_string(out, &PdfString::Hex(id1));
            out.push(32u8);
            write_string(out, &PdfString::Hex(id2));
            write_bytes(out, &[93u8, 32u8]);
        },
        None => {},
    }
    assert(out@ =~= mid + id_field(ids));
    write_bytes(out, &[62u8, 62u8, 10u8]);
    assert(out@ =~= start + (c + id_field(ids) + trailer_close()));
    assert(c + id_field(ids) + trailer_close() =~= classic_xref_text(offsets@, size, root, info, ids));
}

/// Whether `dict` is that of a `/Type /Metadata` stream (ISO 32000-1
/// 14.3.2).
pub fn is_metadata_stream(dict: &PdfDictionary) -> (r: bool)
    ensures
        r == (dict.spec_get("Type"@) == Some(ObjV::Name("Metadata"@))),
{
    match dict.get("Type") {
        Some(Object::Name(n)) => crate::object::str_eq(n.as_str(), "Metadata"),
        _ => false,
    }
}

/// The first target that `map` gives the id `(n, g)`.
pub open spec fn id_lookup(map: Seq<(ObjectId, ObjectId)>, n: u32, g: u16) -> Option<ObjectId>
    decreases map.len(),
{
    if map.len() == 0 {
        None
    } else if map[0].0.number == n && map[0].0.generation == g {
        Some(map[0].1)
    } else {
        id_lookup(map.drop_first(), n, g)
    }
}

/// `o` with every reference rewritten through `map`; a reference that
/// `map` does not cover becomes `null`. Dictionaries are rebuilt entry by
/// entry, as by `PdfDictionary::set`.
pub open spec fn remap_v(o: ObjV, map: Seq<(ObjectId, ObjectId)>) -> ObjV
    decreases o,
{
    match o {
        ObjV::Reference(n, g) => match id_lookup(map, n, g) {
            Some(t) => ObjV::Reference(t.number, t.generation),
            None => ObjV::Null,
        },
        ObjV::Array(items) => ObjV::Array(remap_items(items, map)),
        ObjV::Dict(entries) => ObjV::Dict(remap_entries(entries, map)),
        ObjV::Stream(entries, data) => ObjV::Stream(remap_entries(entries, map), data),
        _ => o,
    }
}

/// `remap_v` of each item.
pub open spec fn remap_items(items: Seq<ObjV>, map: Seq<(ObjectId, ObjectId)>) -> Seq<ObjV>
    decreases items,
{
    if items.len() == 0 {
        Seq::empty()
    } else {
        remap_items(items.drop_last(), map).push(remap_v(items.last(), map))
    }
}

/// The entries, with values remapped, set one after the other into an
/// empty dictionary.
pub open spec fn remap_entries(entries: Seq<(Seq<char>, ObjV)>, map: Seq<(ObjectId, ObjectId)>) -> Seq<
    (Seq<char>, ObjV),
>
    decreases entries,
{
    if entries.len() == 0 {
        Seq::empty()
    } else {
        entries_set(
            remap_entries(entries.drop_last(), map),
            entries.last().0,
            remap_v(entries.last().1, map),
        )
    }
}

/// The target that `map` gives `id`, if any.
pub(crate) fn lookup_id(map: &[(ObjectId, ObjectId)], id: ObjectId) -> (r: Option<ObjectId>)
    ensures
        r == id_lookup(map@, id.number, id.generation),
{
    let mut i: usize = 0;
    assert(map@.skip(0) =~= map@);
    while i < map.len()
        invariant
            i <= map@.len(),
            id_lookup(map@, id.number, id.generation) == id_lookup(
                map@.skip(i as int),
                id.number,
                id.generation,
            ),
        decreases map@.len() - i,
    {
        assert(map@.skip(i as int).drop_first() =~= map@.skip(i + 1));
        if map[i].0.number == id.number && map[i].0.generation == id.generation {
            return Some(map[i].1);
        }
        i = i + 1;
    }
    None
}

/// Rewrites every reference in `obj` through `map` (old id, new id); a
/// reference that `map` does not cover becomes `null` rather than a
/// reference to whatever unrelated object now has that number.
pub fn remap_all(obj: &Object, map: &[(ObjectId, ObjectId)]) -> (r: Object)
    ensures
        r.v() == remap_v(obj.v(), map@),
    decreases obj,
{
    match obj {
        Object::Reference(id) => match lookup_id(map, *id) {
            Some(new_id) => Object::Reference(new_id),
            None => Object::Null,
        },
        Object::Array(arr) => Object::Array(remap_array(arr, map)),
        Object::Dictionary(dict) => Object::Dictionary(remap_dict(dict, map)),
        Object::Stream(s) => Object::Stream(
            PdfStream { dictionary: remap_dict(&s.dictionary, map), data: slice_to_vec_u8(s.data.as_slice()) },
        ),
        Object::Null => Object::Null,
        Object::Boolean(b) => Object::Boolean(*b),
        Object::Integer(n) => Object::Integer(*n),
        Object::Real(x) => Object::Real(*x),
        Object::String(st) => Object::String(st.copy()),
        Object::Name(n) => Object::Name(PdfName::new_unchecked(n.as_str())),
    }
}

/// `arr` with every item remapped.
fn remap_array(arr: &PdfArray, map: &[(ObjectId, ObjectId)]) -> (r: PdfArray)
    ensures
        view_objs(r.items@) == remap_items(view_objs(arr.items@), map@),
    decreases arr,
{
    let mut items: Vec<Object> = Vec::new();
    let mut i: usize = 0;
    assert(view_objs(arr.items@.subrange(0, 0)) =~= Seq::<ObjV>::empty());
    while i < arr.items.len()
        invariant
            i <= arr.items@.len(),
            view_objs(items@) == remap_items(view_objs(arr.items@.subrange(0, i as int)), map@),
        decreases arr.items@.len() - i,
    {
        let ghost prev = items@;
        let o = remap_all(&arr.items[i], map);
        items.push(o);
        proof {
            let s1 = arr.items@.subrange(0, i + 1);
            assert(s1.drop_last() =~= arr.items@.subrange(0, i as int));
            assert(s1.last() == arr.items@[i as int]);
            assert(items@.drop_last() =~= prev);
            assert(view_objs(s1).drop_last() =~= view_objs(arr.items@.subrange(0, i as int)));
        }
        i = i + 1;
    }
    assert(arr.items@.subrange(0, arr.items@.len() as int) =~= arr.items@);
    PdfArray { items }
}

/// `dict` with every value remapped, rebuilt entry by entry.
fn remap_dict(dict: &PdfDictionary, map: &[(ObjectId, ObjectId)]) -> (r: PdfDictionary)
    ensures
        r.view_entries() == remap_entries(dict.view_entries(), map@),
    decreases dict,
{
    let mut out = PdfDictionary::new();
    assert(out.view_entries() =~= Seq::<(Seq<char>, ObjV)>::empty());
    let mut i: usize = 0;
    while i < dict.entries.len()
        invariant
            i <= dict.entries@.len(),
            out.view_entries() == remap_entries(view_entries(dict.entries@.subrange(0, i as int)), map@),
        decreases dict.entries@.len() - i,
    {
        let entry = &dict.entries[i];
        let v = remap_all(&entry.1, map);
        out.set(entry.0.as_str(), v);
        proof {
            let s1 = dict.entries@.subrange(0, i + 1);
            assert(s1.drop_last() =~= dict.entries@.subrange(0, i as int));
            assert(s1.last() == dict.entries@[i as int]);
            assert(view_entries(s1).drop_last() =~= view_entries(dict.entries@.subrange(0, i as int)));
        }
        i = i + 1;
    }
    assert(dict.entries@.subrange(0, dict.entries@.len() as int) =~= dict.entries@);
    out
}

/// Each definition in `body_text(objs)` begins where `body_offsets` says,
/// with the header of its own number: the cross-reference entries of a
/// written file point at the objects they name.
pub proof fn lemma_offsets_point_at_objects(head: Seq<u8>, objs: Seq<ObjV>, k: int)
    requires
        0 <= k < objs.len(),
        objs.len() < u32::MAX,
        head.len() + body_text(objs).len() <= u64::MAX,
    ensures
        ({
            let off = body_offsets(head.len(), objs)[k].1 as int;
            let h = obj_header(ObjectId { number: (k + 1) as u32, generation: 0 });
            &&& body_offsets(head.len(), objs)[k].0 == k + 1
            &&& off + h.len() <= head.len() + body_text(objs).len()
            &&& (head + body_text(objs)).subrange(off, off + h.len()) == h
        }),
{
    let id = ObjectId { number: (k + 1) as u32, generation: 0 };
    lemma_body_prefix(objs, k + 1);
    let before = body_text(objs.take(k));
    let upto = body_text(objs.take(k + 1));
    assert(objs.take(k + 1).drop_last() =~= objs.take(k));
    assert(upto == before + indirect_text(id, objs[k]));
    let off: int = (head.len() + before.len()) as int;
    assert((head.len() + before.len()) as u64 as int == off);
    let h = obj_header(id);
    let whole = head + body_text(objs);
    assert forall|i: int| 0 <= i < h.len() implies #[trigger] whole.subrange(off, off + h.len() as int)[i] == h[i] by {
        assert(whole[off + i] == body_text(objs)[before.len() + i]);
        assert(body_text(objs)[before.len() + i] == upto[before.len() + i]);
        assert(upto[before.len() + i] == indirect_text(id, objs[k])[i]);
    }
    assert(whole.subrange(off, off + h.len() as int) =~= h);
}

/// The definitions of the first `n` objects are a prefix of those of all.
pub proof fn lemma_body_prefix(objs: Seq<ObjV>, n: int)
    requires
        0 <= n <= objs.len(),
    ensures
        body_text(objs.take(n)).len() <= body_text(objs).len(),
        forall|i: int| 0 <= i < body_text(objs.take(n)).len() ==> #[trigger] body_text(objs)[i] == body_text(objs.take(n))[i],
    decreases objs.len() - n,
{
    if n < objs.len() {
        lemma_body_prefix(objs, n + 1);
        assert(objs.take(n + 1).drop_last() =~= objs.take(n));
    } else {
        assert(objs.take(n) =~= objs);
    }
}

/// Writes indirect objects numbered 1, 2, ... one after the other after a
/// header, recording where each begins, then the cross-reference table
/// and trailer.
pub struct ObjectWriter {
    out: Vec<u8>,
    offsets: Vec<(u32, u64)>,
    head: Ghost<Seq<u8>>,
    objs: Ghost<Seq<ObjV>>,
}

impl ObjectWriter {
    /// The header the output starts with.
    pub closed spec fn head(&self) -> Seq<u8> {
        self.head@
    }

    /// The values of the objects written so far, in number order.
    pub closed spec fn objs(&self) -> Seq<ObjV> {
        self.objs@
    }

    /// The output is the header and the definitions of the objects, and
    /// the recorded offsets are theirs.
    pub closed spec fn wf(&self) -> bool {
        &&& self.out@ == self.head@ + body_text(self.objs@)
        &&& self.offsets@ == body_offsets(self.head@.len(), self.objs@)
        &&& self.objs@.len() < u32::MAX
    }

    /// A writer whose output starts with `head`.
    pub fn new(head: &[u8]) -> (w: ObjectWriter)
        ensures
            w.wf(),
            w.head() == head@,
            w.objs().len() == 0,
    {
        let mut out: Vec<u8> = Vec::new();
        write_bytes(&mut out, head);
        let w = ObjectWriter {
            out,
            offsets: Vec::new(),
            head: Ghost(head@),
            objs: Ghost(Seq::empty()),
        };
        assert(w.out@ =~= w.head@ + body_text(w.objs@));
        assert(w.offsets@ =~= body_offsets(w.head@.len(), w.objs@));
        w
    }

    /// The number the next object will get.
    pub fn next_number(&self) -> (n: u32)
        requires
            self.wf(),
        ensures
            n == self.objs().len() + 1,
    {
        (self.offsets.len() + 1) as u32
    }

    /// Writes `obj` as the next object.
    pub fn emit(&mut self, obj: &Object)
        requires
            old(self).wf(),
            old(self).objs().len() + 1 < u32::MAX,
        ensures
            final(self).wf(),
            final(self).head() == old(self).head(),
            final(self).objs() == old(self).objs().push(obj.v()),
    {
        let ghost objs0 = self.objs@;
        let ghost head = self.head@;
        let n: u32 = (self.offsets.len() + 1) as u32;
        let off: u64 = self.out.len() as u64;
        self.offsets.push((n, off));
        write_indirect_object(&mut self.out, ObjectId::new(n), obj);
        self.objs = Ghost(objs0.push(obj.v()));
        proof {
            let objs1 = objs0.push(obj.v());
            assert(objs1.drop_last() =~= objs0);
            assert(body_text(objs1) == body_text(objs0) + indirect_text(
                ObjectId { number: n, generation: 0 },
                obj.v(),
            ));
            assert(self.out@ =~= head + body_text(objs1));
            assert forall|k: int| 0 <= k < objs0.len() implies #[trigger] objs1.take(k) == objs0.take(k) by {
                assert(objs1.take(k) =~= objs0.take(k));
            }
            assert(objs1.take(objs0.len() as int) =~= objs0);
            assert(self.offsets@ =~= body_offsets(head.len(), objs1));
        }
    }

    /// The length of the output so far.
    pub fn len(&self) -> (n: usize)
        requires
            self.wf(),
        ensures
            n == self.head().len() + body_text(self.objs()).len(),
    {
        self.out.len()
    }

    /// Writes the cross-reference table, the trailer (with `file_id` as
    /// its `/ID` when given) and `startxref`, and returns the whole
    /// output.
    pub fn finish(self, root: ObjectId, info: Option<ObjectId>, file_id: Option<(Vec<u8>, Vec<u8>)>) -> (out: Vec<u8>)
        requires
            self.wf(),
        ensures
            out@ == self.head() + body_text(self.objs()) + classic_xref_text(
                body_offsets(self.head().len(), self.objs()),
                (self.objs().len() + 1) as u32,
                root,
                info,
                file_id_view(file_id),
            ) + startxref_text(self.head().len() + body_text(self.objs()).len()),
    {
        let ghost whole = self.out@;
        let mut out = self.out;
        let offsets = self.offsets;
        let xref_at: u64 = out.len() as u64;
        let size: u32 = (offsets.len() + 1) as u32;
        let ghost fid = file_id_view(file_id);
        write_classic_xref_and_trailer(&mut out, offsets.as_slice(), size, root, info, file_id);
        write_bytes(&mut out, &[115u8, 116u8, 97u8, 114u8, 116u8, 120u8, 114u8, 101u8, 102u8, 10u8]);
        write_dec(&mut out, xref_at);
        write_bytes(&mut out, &[10u8, 37u8, 37u8, 69u8, 79u8, 70u8, 10u8]);
        assert(out@ =~= whole + classic_xref_text(offsets@, size, root, info, fid) + startxref_text(
            xref_at as nat,
        ));
        out
    }
}

/// Where an object of a rewritten file stands (ISO 32000-1 Table 18).
#[derive(Debug, Clone, Copy, PartialEq, Eq, Structural)]
pub enum XrefTarget {
    /// An ordinary indirect object at this byte offset.
    Offset(u64),
    /// Packed inside object stream number `stream`, at `index`.
    Compressed { stream: u32, index: u32 },
}

/// The big-endian bytes of the low 16 bits of `x`.
pub open spec fn be16(x: nat) -> Seq<u8> {
    seq![((x / 0x100) % 256) as u8, (x % 256) as u8]
}

/// The seven-byte record (`W [1 4 2]`) of an object: type 1 with its
/// offset, type 2 with its object stream and index, or type 0 (free)
/// when it has no target. Values are cut to the field widths.
pub open spec fn xref_record(t: Option<XrefTarget>) -> Seq<u8> {
    match t {
        Some(XrefTarget::Offset(o)) => seq![1u8] + be32(o as nat) + be16(0),
        Some(XrefTarget::Compressed { stream, index }) => seq![2u8] + be32(stream as nat) + be16(
            index as nat,
        ),
        None => seq![0u8] + be32(0) + be16(0xFFFF),
    }
}

/// The target of `num` in `xref`, if any.
pub open spec fn target_of(xref: Map<u32, XrefTarget>, num: u32) -> Option<XrefTarget> {
    if xref.dom().contains(num) {
        Some(xref[num])
    } else {
        None
    }
}

/// The records of objects `1..n`.
pub open spec fn xref_records(xref: Map<u32, XrefTarget>, n: nat) -> Seq<u8>
    decreases n,
{
    if n <= 1 {
        Seq::empty()
    } else {
        xref_records(xref, (n - 1) as nat) + xref_record(target_of(xref, (n - 1) as u32))
    }
}

/// The data of a cross-reference stream for objects `0..size`: object 0
/// free, then one record per object.
pub open spec fn xref_stream_data(xref: Map<u32, XrefTarget>, size: u32) -> Seq<u8> {
    xref_record(None) + xref_records(xref, size as nat)
}

/// The dictionary entries of a cross-reference stream.
pub open spec fn xref_stream_entries(
    size: u32,
    data_len: nat,
    root: ObjectId,
    info: Option<ObjectId>,
    file_id: Option<(Seq<u8>, Seq<u8>)>,
) -> Seq<(Seq<char>, ObjV)> {
    seq![
        ("Type"@, ObjV::Name("XRef"@)),
        ("Size"@, ObjV::Integer(size as i64)),
        ("W"@, ObjV::Array(seq![ObjV::Integer(1), ObjV::Integer(4), ObjV::Integer(2)])),
        ("Root"@, ObjV::Reference(root.number, root.generation)),
    ] + (match info {
        Some(i) => seq![("Info"@, ObjV::Reference(i.number, i.generation))],
        None => Seq::empty(),
    }) + (match file_id {
        Some(ids) => seq![("ID"@, ObjV::Array(seq![ObjV::Str(true, ids.0), ObjV::Str(true, ids.1)]))],
        None => Seq::empty(),
    }) + seq![("Length"@, ObjV::Integer(data_len as i64))]
}

/// Appends the record of `t`.
fn write_xref_record(out: &mut Vec<u8>, t: Option<&XrefTarget>)
    ensures
        final(out)@ == old(out)@ + xref_record(
            match t {
                Some(x) => Some(*x),
                None => None,
            },
        ),
{
    let ghost start = out@;
    match t {
        Some(XrefTarget::Offset(offset)) => {
            out.push(1u8);
            out.push(((*offset / 0x1000000) % 256) as u8);
            out.push(((*offset / 0x10000) % 256) as u8);
            out.push(((*offset / 0x100) % 256) as u8);
            out.push((*offset % 256) as u8);
            out.push(0u8);
            out.push(0u8);
        },
        Some(XrefTarget::Compressed { stream, index }) => {
            out.push(2u8);
            write_u32(out, *stream);
            out.push(((*index / 0x100) % 256) as u8);
            out.push((*index % 256) as u8);
        },
        None => {
            out.push(0u8);
            write_u32(out, 0);
            out.push(0xFFu8);
            out.push(0xFFu8);
        },
    }
    proof {
        reveal(be32);
        let o = match t {
            Some(x) => Some(*x),
            None => None,
        };
        assert(out@ =~= start + xref_record(o));
    }
}

/// Builds the cross-reference stream (ISO 32000-1 7.5.8) of a rewrite:
/// `W [1 4 2]`, object 0 free, then one record per object `1..size` from
/// `xref` (free where `xref` has none), with `/Root`, `/Info` and `/ID`
/// as given. The data is not filtered.
pub fn build_xref_stream(
    size: u32,
    xref: &HashMap<u32, XrefTarget>,
    root: ObjectId,
    info: Option<ObjectId>,
    file_id: Option<(Vec<u8>, Vec<u8>)>,
) -> (s: PdfStream)
    ensures
        s.data@ == xref_stream_data(xref@, size),
        s.dictionary.view_entries() == xref_stream_entries(
            size,
            s.data@.len(),
            root,
            info,
            file_id_view(file_id),
        ),
{
    broadcast use vstd::std_specs::hash::group_hash_axioms;
    let mut data: Vec<u8> = Vec::new();
    write_xref_record(&mut data, None);
    let ghost first = data@;
    proof {
        reveal(be32);
        assert(xref_records(xref@, 1) == Seq::<u8>::empty());
        assert(data@ =~= first + xref_records(xref@, 1));
    }
    let mut num: u32 = 1;
    while num < size
        invariant
            1 <= num,
            num <= size || (size == 0 && num == 1),
            data@ == first + xref_records(xref@, num as nat),
            first == xref_record(None),
            data@.len() == 7 * num,
        decreases size - num,
    {
        let t = xref.get(&num);
        proof {
            assert(match t {
                Some(x) => Some(*x),
                None => None,
            } == target_of(xref@, num));
        }
        let ghost before = data@;
        write_xref_record(&mut data, t);
        proof {
            reveal(be32);
            assert(xref_records(xref@, (num + 1) as nat) == xref_records(xref@, num as nat)
                + xref_record(target_of(xref@, num)));
            assert(data@ =~= first + xref_records(xref@, (num + 1) as nat));
        }
        num = num + 1;
    }
    proof {
        if size >= 1 {
            assert(num == size);
            assert(data@ =~= xref_stream_data(xref@, size));
        } else {
            assert(xref_records(xref@, size as nat) == Seq::<u8>::empty());
            assert(xref_records(xref@, 1) == Seq::<u8>::empty());
            assert(data@ =~= xref_stream_data(xref@, size));
        }
    }
    let mut dict = PdfDictionary::new();
    let ghost e0 = dict.view_entries();
    assert(e0 =~= Seq::<(Seq<char>, ObjV)>::empty());
    let data_len = data.len();
    assert(data_len == 7 * num);
    xref_stream_dictionary(&mut dict, size, data_len, root, info, file_id);
    PdfStream { dictionary: dict, data }
}

/// Appends the entry `key`, `value` without looking for an existing one.
fn push_entry(dict: &mut PdfDictionary, key: &str, value: Object)
    ensures
        final(dict).view_entries() == old(dict).view_entries().push((key@, value.v())),
{
    let ghost prev = dict.entries@;
    dict.entries.push((String::from_str(key), value));
    assert(dict.entries@.drop_last() =~= prev);
}

/// Fills the empty `dict` with the entries of a cross-reference stream.
fn xref_stream_dictionary(
    dict: &mut PdfDictionary,
    size: u32,
    data_len: usize,
    root: ObjectId,
    info: Option<ObjectId>,
    file_id: Option<(Vec<u8>, Vec<u8>)>,
)
    requires
        old(dict).view_entries().len() == 0,
        data_len <= i64::MAX,
    ensures
        final(dict).view_entries() == xref_stream_entries(size, data_len as nat, root, info, file_id_view(file_id)),
{
    let ghost ids = file_id_view(file_id);
    let ghost e0 = dict.view_entries();
    push_entry(dict, "Type", Object::Name(PdfName::new_unchecked("XRef")));
    push_entry(dict, "Size", Object::Integer(size as i64));
    let mut w = PdfArray::new();
    w.push(Object::Integer(1));
    w.push(Object::Integer(4));
    w.push(Object::Integer(2));
    proof {
        assert(view_objs(w.items@) =~= seq![ObjV::Integer(1), ObjV::Integer(4), ObjV::Integer(2)]) by {
            reveal_with_fuel(view_objs, 4);
        }
    }
    push_entry(dict, "W", Object::Array(w));
    push_entry(dict, "Root", Object::Reference(root));
    let ghost e4 = dict.view_entries();
    assert(e4 =~= seq![
        ("Type"@, ObjV::Name("XRef"@)),
        ("Size"@, ObjV::Integer(size as i64)),
        ("W"@, ObjV::Array(seq![ObjV::Integer(1), ObjV::Integer(4), ObjV::Integer(2)])),
        ("Root"@, ObjV::Reference(root.number, root.generation)),
    ]);
    match info {
        Some(i) => {
            push_entry(dict, "Info", Object::Reference(i));
        },
        None => {},
    }
    let ghost e5 = dict.view_entries();
    assert(e5 =~= e4 + (match info {
        Some(i) => seq![("Info"@, ObjV::Reference(i.number, i.generation))],
        None => Seq::empty(),
    }));
    match file_id {
        Some((id1, id2)) => {
            let mut arr = PdfArray::new();
            arr.push(Object::String(PdfString::Hex(id1)));
            arr.push(Object::String(PdfString::Hex(id2)));
            proof {
                let pair = ids.unwrap();
                assert(view_objs(arr.items@) =~= seq![ObjV::Str(true, pair.0), ObjV::Str(true, pair.1)]) by {
                    reveal_with_fuel(view_objs, 3);
                }
            }
            push_entry(dict, "ID", Object::Array(arr));
        },
        None => {},
    }
    let ghost e6 = dict.view_entries();
    assert(e6 =~= e5 + (match ids {
        Some(p) => seq![("ID"@, ObjV::Array(seq![ObjV::Str(true, p.0), ObjV::Str(true, p.1)]))],
        None => Seq::empty(),
    }));
    push_entry(dict, "Length", Object::Integer(data_len as i64));
    assert(dict.view_entries() =~= xref_stream_entries(size, data_len as nat, root, info, ids));
}

/// `/Encrypt N G R `.
pub open spec fn encrypt_field(id: ObjectId) -> Seq<u8> {
    seq![47u8, 69u8, 110u8, 99u8, 114u8, 121u8, 112u8, 116u8, 32u8] + id.ref_text() + seq![32u8]
}

/// A full cross-reference section with one entry per offset, and a
/// trailer carrying `/Encrypt` and the identifier `file_id` twice in
/// `/ID`.
pub open spec fn encrypted_xref_text(
    offsets: Seq<(u32, u64)>,
    size: u32,
    root: ObjectId,
    info: Option<ObjectId>,
    encrypt_id: ObjectId,
    file_id: Seq<u8>,
) -> Seq<u8> {
    xref_keyword() + seq![48u8, 32u8] + dec(size as nat) + seq![10u8] + free_head_entry()
        + xref_entries(offsets) + trailer_open() + size_field(size) + root_field(root) + info_field(
        info,
    ) + encrypt_field(encrypt_id) + id_field(Some((file_id, file_id))) + trailer_close()
}

/// Writes a full cross-reference section `0 size` and a trailer with
/// `/Size`, `/Root`, `/Info`, `/Encrypt` and `/ID [<id> <id>]`.
#[verifier::rlimit(60)]
#[verifier::spinoff_prover]
pub fn write_encrypted_xref_and_trailer(
    out: &mut Vec<u8>,
    offsets: &[(u32, u64)],
    size: u32,
    root: ObjectId,
    info: Option<ObjectId>,
    encrypt_id: ObjectId,
    file_id: Vec<u8>,
)
    ensures
        final(out)@ == old(out)@ + encrypted_xref_text(offsets@, size, root, info, encrypt_id, file_id@),
{
    let ghost start = out@;
    let ghost fid = file_id@;
    let ghost a = xref_keyword() + seq![48u8, 32u8] + dec(size as nat) + seq![10u8] + free_head_entry();
    write_bytes(out, &[120u8, 114u8, 101u8, 102u8, 10u8]);
    write_bytes(out, &[48u8, 32u8]);
    write_dec(out, size as u64);
    out.push(10u8);
    write_bytes(out, &[48u8, 48u8, 48u8, 48u8, 48u8, 48u8, 48u8, 48u8, 48u8, 48u8, 32u8, 54u8, 53u8, 53u8, 51u8, 53u8, 32u8, 102u8, 32u8, 10u8]);
    assert(out@ =~= start + a);
    write_xref_entries(out, offsets, 0, offsets.len());
    assert(offsets@.subrange(0, offsets@.len() as int) =~= offsets@);
    let ghost b = a + xref_entries(offsets@);
    assert(out@ =~= start + b);
    write_trailer_head(out, size, root, info);
    let ghost c = b + trailer_open() + size_field(size) + root_field(root) + info_field(info);
    assert(out@ =~= start + c);
    write_bytes(out, &[47u8, 69u8, 110u8, 99u8, 114u8, 121u8, 112u8, 116u8, 32u8]);
    encrypt_id.write_reference(out);
    out.push(32u8);
    let ghost c2 = c + encrypt_field(encrypt_id);
    assert(out@ =~= start + c2);
    let copy = slice_to_vec_u8(file_id.as_slice());
    write_bytes(out, &[47u8, 73u8, 68u8, 32u8, 91u8]);
    write_string(out, &PdfString::Hex(copy));
    out.push(32u8);
    write_string(out, &PdfString::Hex(file_id));
    write_bytes(out, &[93u8, 32u8]);
    assert(out@ =~= start + c2 + id_field(Some((fid, fid))));
    write_bytes(out, &[62u8, 62u8, 10u8]);
    assert(out@ =~= start + (c2 + id_field(Some((fid, fid))) + trailer_close()));
    assert(c2 + id_field(Some((fid, fid))) + trailer_close() =~= encrypted_xref_text(
        offsets@,
        size,
        root,
        info,
        encrypt_id,
        fid,
    ));
}

} // verus!
