//! Redaction of a literal text from a page (the byte-level counterpart
//! of area redaction): the matched bytes are deleted from the page's
//! text-showing operators, `/ToUnicode` entries for codes no longer shown
//! are pruned (ISO 32000-1 9.10.3), and the action is recorded in the
//! document's audit trail.

use vstd::prelude::*;
use crate::content_stream::{content_text, view_items, ContentItem, ItemV};
use crate::font_use::{font_entries_v, resources_v, used_codes_v, MAX_RESOURCE_DEPTH};
use crate::graph::{ref_id, table_set, EditableDocument, EditorError};
use crate::audit::RedactionAuditEntry;
use crate::object::{entries_get, lemma_view_entries, lemma_view_objs, view_objs, ObjV, Object, ObjectId, PdfDictionary, PdfName, PdfStream, PdfString};
use crate::text_extract::{parse_tounicode_cmap, pairs_v, tounicode_v};
use crate::util::{lemma_utf16_all_append, push_utf16, unit_bytes, utf16_all, utf16_units};

verus! {

/// The mappings of a CMap that stand: the last one of each code, in the
/// order of those last mappings.
pub open spec fn latest(p: Seq<(u32, Seq<char>)>) -> Seq<(u32, Seq<char>)>
    decreases p.len(),
{
    if p.len() == 0 {
        Seq::empty()
    } else if exists|j: int| 1 <= j < p.len() && #[trigger] p[j].0 == p[0].0 {
        latest(p.drop_first())
    } else {
        seq![p[0]] + latest(p.drop_first())
    }
}

/// The mappings whose code is in `used`, in order.
pub open spec fn keep_used(p: Seq<(u32, Seq<char>)>, used: Set<u32>) -> Seq<(u32, Seq<char>)>
    decreases p.len(),
{
    if p.len() == 0 {
        Seq::empty()
    } else {
        (if used.contains(p[0].0) {
            seq![p[0]]
        } else {
            Seq::empty()
        }) + keep_used(p.drop_first(), used)
    }
}

/// A code as `w` big-endian bytes (the low ones).
pub open spec fn code_bytes_v(c: u32, w: nat) -> Seq<u8> {
    if w <= 1 {
        seq![(c % 256) as u8]
    } else {
        seq![((c / 256) % 256) as u8, (c % 256) as u8]
    }
}

/// The operands of a `bfchar` block for the mappings `p`: each code as a
/// hex string of `w` bytes, then its text as a UTF-16BE hex string.
pub open spec fn bfchar_args_v(p: Seq<(u32, Seq<char>)>, w: nat) -> Seq<ObjV>
    decreases p.len(),
{
    if p.len() == 0 {
        Seq::empty()
    } else {
        seq![ObjV::Str(true, code_bytes_v(p[0].0, w)), ObjV::Str(true, unit_bytes(utf16_all(p[0].1)))] + bfchar_args_v(
            p.drop_first(),
            w,
        )
    }
}

/// The items of a `/ToUnicode` CMap (ISO 32000-1 9.10.3) mapping the
/// codes of `p`, `w` bytes each, to their texts in one `bfchar` block.
pub open spec fn cmap_items_v(p: Seq<(u32, Seq<char>)>, w: nat) -> Seq<ItemV> {
    let lo: Seq<u8> = if w <= 1 { seq![0u8] } else { seq![0u8, 0u8] };
    let hi: Seq<u8> = if w <= 1 { seq![255u8] } else { seq![255u8, 255u8] };
    seq![
        ItemV::Op("findresource"@, seq![ObjV::Name("CIDInit"@), ObjV::Name("ProcSet"@)]),
        ItemV::Op("begin"@, Seq::empty()),
        ItemV::Op("dict"@, seq![ObjV::Integer(12)]),
        ItemV::Op("begin"@, Seq::empty()),
        ItemV::Op("begincmap"@, Seq::empty()),
        ItemV::Op("def"@, seq![ObjV::Name("CMapName"@), ObjV::Name("Adobe-Identity-UCS"@)]),
        ItemV::Op("def"@, seq![ObjV::Name("CMapType"@), ObjV::Integer(2)]),
        ItemV::Op("begincodespacerange"@, seq![ObjV::Integer(1)]),
        ItemV::Op("endcodespacerange"@, seq![ObjV::Str(true, lo), ObjV::Str(true, hi)]),
        ItemV::Op("beginbfchar"@, seq![ObjV::Integer(p.len() as i64)]),
        ItemV::Op("endbfchar"@, bfchar_args_v(p, w)),
        ItemV::Op("endcmap"@, Seq::empty()),
        ItemV::Op("CMapName"@, Seq::empty()),
        ItemV::Op("currentdict"@, Seq::empty()),
        ItemV::Op("defineresource"@, seq![ObjV::Name("CMap"@)]),
        ItemV::Op("pop"@, Seq::empty()),
        ItemV::Op("end"@, Seq::empty()),
        ItemV::Op("end"@, Seq::empty()),
    ]
}

/// The UTF-16BE bytes of a text.
fn utf16_bytes(s: &str) -> (b: Vec<u8>)
    ensures
        b@ == unit_bytes(utf16_all(s@)),
{
    let mut bytes: Vec<u8> = Vec::new();
    let ghost chars = s@;
    assert(bytes@ =~= unit_bytes(utf16_all(chars.take(0))));
    for c in it: s.chars()
        invariant
            it.seq() == chars,
            bytes@ == unit_bytes(utf16_all(chars.take(it.index() as int))),
    {
        let ghost k = it.index() as int;
        proof {
            lemma_utf16_all_append(chars.take(k), seq![chars[k]]);
            assert(chars.take(k + 1) =~= chars.take(k) + seq![chars[k]]);
            assert(utf16_all(seq![chars[k]]) =~= utf16_units(chars[k])) by {
                assert(seq![chars[k]].drop_first() =~= Seq::<char>::empty());
                assert(utf16_all(Seq::<char>::empty()) == Seq::<u16>::empty());
                assert(seq![chars[k]][0] == chars[k]);
                assert(utf16_units(chars[k]) + Seq::<u16>::empty() =~= utf16_units(chars[k]));
            }
            assert(unit_bytes(utf16_all(chars.take(k)) + utf16_units(chars[k])) =~= unit_bytes(utf16_all(chars.take(k)))
                + unit_bytes(utf16_units(chars[k])));
        }
        push_utf16(&mut bytes, c);
    }
    assert(chars.take(chars.len() as int) =~= chars);
    bytes
}

/// A content item `operands operator`.
fn op_item(operator: &str, operands: Vec<Object>) -> (r: ContentItem)
    ensures
        r.v() == ItemV::Op(operator@, view_objs(operands@)),
{
    ContentItem::Op { operator: String::from_str(operator), operands }
}

/// A name object.
fn name(s: &str) -> (o: Object)
    ensures
        o.v() == ObjV::Name(s@),
{
    Object::Name(PdfName::new_unchecked(s))
}

/// A hex string object.
fn hex(b: Vec<u8>) -> (o: Object)
    ensures
        o.v() == ObjV::Str(true, b@),
{
    Object::String(PdfString::Hex(b))
}

/// The views of two objects.
proof fn lemma_two(a: Object, b: Object)
    ensures
        view_objs(seq![a, b]) == seq![a.v(), b.v()],
{
    lemma_view_objs(seq![a, b]);
    assert(view_objs(seq![a, b]) =~= seq![a.v(), b.v()]);
}

/// The views of one object.
proof fn lemma_one(a: Object)
    ensures
        view_objs(seq![a]) == seq![a.v()],
{
    lemma_view_objs(seq![a]);
    assert(view_objs(seq![a]) =~= seq![a.v()]);
}

/// The code `c` as `w` bytes (see `code_bytes_v`).
fn code_bytes(c: u32, w: usize) -> (b: Vec<u8>)
    ensures
        b@ == code_bytes_v(c, w as nat),
{
    if w <= 1 {
        vec![(c % 256) as u8]
    } else {
        vec![((c / 256) % 256) as u8, (c % 256) as u8]
    }
}

/// The bytes of a `/ToUnicode` CMap mapping the codes of `p` (see
/// `cmap_items_v`).
pub fn build_tounicode_cmap(p: &Vec<(u32, String)>, w: usize) -> (b: Vec<u8>)
    requires
        p@.len() <= i64::MAX,
    ensures
        b@ == content_text(cmap_items_v(pairs_v(p@), w as nat)),
{
    let ghost pv = pairs_v(p@);
    let mut args: Vec<Object> = Vec::new();
    assert(pv.skip(0) =~= pv);
    assert(view_objs(args@) + bfchar_args_v(pv.skip(0), w as nat) =~= bfchar_args_v(pv, w as nat));
    let mut i: usize = 0;
    while i < p.len()
        invariant
            i <= p@.len(),
            pv == pairs_v(p@),
            view_objs(args@) + bfchar_args_v(pv.skip(i as int), w as nat) == bfchar_args_v(pv, w as nat),
        decreases p@.len() - i,
    {
        let ghost before = args@;
        let c = hex(code_bytes(p[i].0, w));
        let t = hex(utf16_bytes(p[i].1.as_str()));
        args.push(c);
        args.push(t);
        proof {
            let rest = pv.skip(i as int);
            assert(rest.drop_first() =~= pv.skip(i as int + 1));
            assert(rest[0] == pv[i as int]);
            lemma_view_objs(args@);
            lemma_view_objs(before);
            assert(view_objs(args@) =~= view_objs(before) + seq![c.v(), t.v()]);
            assert(view_objs(args@) + bfchar_args_v(pv.skip(i as int + 1), w as nat) =~= view_objs(before) + bfchar_args_v(
                rest,
                w as nat,
            ));
        }
        i = i + 1;
    }
    assert(pv.skip(i as int) =~= Seq::<(u32, Seq<char>)>::empty());
    assert(view_objs(args@) =~= bfchar_args_v(pv, w as nat));
    let lo = if w <= 1 { vec![0u8] } else { vec![0u8, 0u8] };
    let hi = if w <= 1 { vec![255u8] } else { vec![255u8, 255u8] };
    assert(lo@ =~= (if w <= 1 { seq![0u8] } else { seq![0u8, 0u8] }));
    assert(hi@ =~= (if w <= 1 { seq![255u8] } else { seq![255u8, 255u8] }));
    let n = p.len() as i64;
    let (a, b) = (name("CIDInit"), name("ProcSet"));
    proof { lemma_two(a, b); }
    let w1 = vec![a, b];
    assert(w1@ =~= seq![a, b]);
    let i0 = op_item("findresource", w1);
    let i1 = op_item("begin", Vec::new());
    let a = Object::Integer(12);
    proof { lemma_one(a); }
    let v2 = vec![a];
    assert(v2@ =~= seq![a]);
    let i2 = op_item("dict", v2);
    assert(i2.v() == ItemV::Op("dict"@, seq![ObjV::Integer(12)]));
    let i3 = op_item("begin", Vec::new());
    let i4 = op_item("begincmap", Vec::new());
    let (a, b) = (name("CMapName"), name("Adobe-Identity-UCS"));
    proof { lemma_two(a, b); }
    let w2 = vec![a, b];
    assert(w2@ =~= seq![a, b]);
    let i5 = op_item("def", w2);
    let (a, b) = (name("CMapType"), Object::Integer(2));
    proof { lemma_two(a, b); }
    let w3 = vec![a, b];
    assert(w3@ =~= seq![a, b]);
    let i6 = op_item("def", w3);
    let a = Object::Integer(1);
    proof { lemma_one(a); }
    let v7 = vec![a];
    assert(v7@ =~= seq![a]);
    let i7 = op_item("begincodespacerange", v7);
    let (a, b) = (hex(lo), hex(hi));
    proof { lemma_two(a, b); }
    let w4 = vec![a, b];
    assert(w4@ =~= seq![a, b]);
    let i8 = op_item("endcodespacerange", w4);
    let a = Object::Integer(n);
    proof { lemma_one(a); }
    let w5 = vec![a];
    assert(w5@ =~= seq![a]);
    let i9 = op_item("beginbfchar", w5);
    let i10 = op_item("endbfchar", args);
    let i11 = op_item("endcmap", Vec::new());
    let i12 = op_item("CMapName", Vec::new());
    let i13 = op_item("currentdict", Vec::new());
    let a = name("CMap");
    proof { lemma_one(a); }
    let w6 = vec![a];
    assert(w6@ =~= seq![a]);
    let i14 = op_item("defineresource", w6);
    let i15 = op_item("pop", Vec::new());
    let i16 = op_item("end", Vec::new());
    let i17 = op_item("end", Vec::new());
    let ghost vs = seq![i0.v(), i1.v(), i2.v(), i3.v(), i4.v(), i5.v(), i6.v(), i7.v(), i8.v(), i9.v(), i10.v(), i11.v(),
        i12.v(), i13.v(), i14.v(), i15.v(), i16.v(), i17.v()];
    let items = vec![i0, i1, i2, i3, i4, i5, i6, i7, i8, i9, i10, i11, i12, i13, i14, i15, i16, i17];
    proof {
        crate::content_stream::lemma_view_items(items@);
        lemma_view_objs(Seq::<Object>::empty());
        assert(view_objs(Seq::<Object>::empty()) =~= Seq::<ObjV>::empty());
        let cv = cmap_items_v(pv, w as nat);
        assert(vs[0] == cv[0]);
        assert(vs[1] == cv[1]);
        assert(vs[2] == cv[2]);
        assert(vs[5] == cv[5]);
        assert(vs[6] == cv[6]);
        assert(vs[7] == cv[7]);
        assert(vs[8] == cv[8]);
        assert(vs[9] == cv[9]);
        assert(vs[10] == cv[10]);
        assert(vs[14] == cv[14]);
        assert(vs =~= cv);
        assert(view_items(items@) =~= vs);
    }
    crate::content_stream::serialize_content_stream(items.as_slice())
}

/// The standing mappings (see `latest`).
fn latest_pairs(p: &Vec<(u32, String)>) -> (r: Vec<(u32, String)>)
    ensures
        pairs_v(r@) == latest(pairs_v(p@)),
        r@.len() <= p@.len(),
{
    let ghost pv = pairs_v(p@);
    let mut out: Vec<(u32, String)> = Vec::new();
    assert(pv.skip(0) =~= pv);
    assert(pairs_v(out@) + latest(pv.skip(0)) =~= latest(pv));
    let mut i: usize = 0;
    while i < p.len()
        invariant
            i <= p@.len(),
            pv == pairs_v(p@),
            out@.len() <= i,
            pairs_v(out@) + latest(pv.skip(i as int)) == latest(pv),
        decreases p@.len() - i,
    {
        let ghost rest = pv.skip(i as int);
        assert(rest.drop_first() =~= pv.skip(i as int + 1));
        assert(rest[0] == pv[i as int]);
        let code = p[i].0;
        let mut later = false;
        let mut j: usize = i + 1;
        while j < p.len()
            invariant
                i < j <= p@.len(),
                pv == pairs_v(p@),
                code == pv[i as int].0,
                later <==> exists|k: int| i < k < j && #[trigger] pv[k].0 == code,
            decreases p@.len() - j,
        {
            if p[j].0 == code {
                assert(pv[j as int].0 == code);
                later = true;
            }
            j = j + 1;
        }
        proof {
            if later {
                let k = choose|k: int| i < k < j && #[trigger] pv[k].0 == code;
                assert(rest[k - i].0 == rest[0].0);
            } else {
                assert forall|k: int| 1 <= k < rest.len() implies #[trigger] rest[k].0 != rest[0].0 by {
                    assert(rest[k] == pv[i + k]);
                }
            }
        }
        let ghost before = pairs_v(out@);
        if !later {
            out.push((p[i].0, p[i].1.clone()));
            assert(pairs_v(out@) =~= before.push(pv[i as int]));
            assert(pairs_v(out@) + latest(pv.skip(i as int + 1)) =~= before + latest(rest));
        } else {
            assert(pairs_v(out@) + latest(pv.skip(i as int + 1)) =~= before + latest(rest));
        }
        i = i + 1;
    }
    assert(pv.skip(i as int) =~= Seq::<(u32, Seq<char>)>::empty());
    assert(pairs_v(out@) + Seq::<(u32, Seq<char>)>::empty() =~= pairs_v(out@));
    out
}

/// The mappings whose code is in `used` (see `keep_used`).
fn keep_used_pairs(p: &Vec<(u32, String)>, used: &std::collections::HashSet<u32>) -> (r: Vec<(u32, String)>)
    ensures
        pairs_v(r@) == keep_used(pairs_v(p@), used@),
        r@.len() <= p@.len(),
{
    broadcast use vstd::std_specs::hash::group_hash_axioms;
    let ghost pv = pairs_v(p@);
    let mut out: Vec<(u32, String)> = Vec::new();
    assert(pv.skip(0) =~= pv);
    assert(pairs_v(out@) + keep_used(pv.skip(0), used@) =~= keep_used(pv, used@));
    let mut i: usize = 0;
    while i < p.len()
        invariant
            i <= p@.len(),
            pv == pairs_v(p@),
            out@.len() <= i,
            pairs_v(out@) + keep_used(pv.skip(i as int), used@) == keep_used(pv, used@),
        decreases p@.len() - i,
    {
        let ghost rest = pv.skip(i as int);
        assert(rest.drop_first() =~= pv.skip(i as int + 1));
        assert(rest[0] == pv[i as int]);
        let ghost before = pairs_v(out@);
        if used.contains(&p[i].0) {
            out.push((p[i].0, p[i].1.clone()));
            assert(pairs_v(out@) =~= before.push(pv[i as int]));
        }
        assert(pairs_v(out@) + keep_used(pv.skip(i as int + 1), used@) =~= before + keep_used(rest, used@));
        i = i + 1;
    }
    assert(pv.skip(i as int) =~= Seq::<(u32, Seq<char>)>::empty());
    assert(pairs_v(out@) + Seq::<(u32, Seq<char>)>::empty() =~= pairs_v(out@));
    out
}

/// What pruning the `/ToUnicode` map of `font` does: when the font's
/// `/ToUnicode` refers to a stream stored without a `/Filter` whose
/// standing mappings are not all for codes the document still shows
/// through the font (see `used_codes_v`), that stream is replaced by a
/// CMap of the mappings kept (see `cmap_items_v`), and the number of
/// mappings dropped is returned; otherwise nothing changes and the
/// result is 0. The objects after it and the result.
pub open spec fn prune_v(doc: &EditableDocument, font: ObjectId) -> (Seq<(ObjectId, ObjV)>, Result<usize, EditorError>) {
    let ov = doc.overlay_v();
    match doc.dict(font) {
        None => (ov, Ok(0)),
        Some(d) => match entries_get(d, "ToUnicode"@) {
            Some(ObjV::Reference(n, g)) => match doc.object(ref_id(n, g)) {
                Some(ObjV::Stream(sd, data)) => {
                    let map = latest(tounicode_v(data));
                    if entries_get(sd, "Filter"@) is Some || map.len() == 0 {
                        (ov, Ok(0))
                    } else {
                        let w: nat = if entries_get(d, "Subtype"@) == Some(ObjV::Name("Type0"@)) { 2 } else { 1 };
                        match used_codes_v(doc, font, w) {
                            Err(e) => (ov, Err(e)),
                            Ok(u) => {
                                let kept = keep_used(map, u);
                                if kept.len() < map.len() && kept.len() <= i64::MAX {
                                    (
                                        table_set(ov, ref_id(n, g), ObjV::Stream(Seq::empty(), content_text(cmap_items_v(kept, w)))),
                                        Ok((map.len() - kept.len()) as usize),
                                    )
                                } else {
                                    (ov, Ok(0))
                                }
                            },
                        }
                    }
                },
                _ => (ov, Ok(0)),
            },
            _ => (ov, Ok(0)),
        },
    }
}

/// The fonts a page's effective resources refer to, in order.
pub open spec fn font_ids_v(fd: Seq<(Seq<char>, ObjV)>) -> Seq<ObjectId>
    decreases fd.len(),
{
    if fd.len() == 0 {
        Seq::empty()
    } else {
        let r = font_ids_v(fd.drop_last());
        match fd.last().1 {
            ObjV::Reference(n, g) => r.push(ref_id(n, g)),
            _ => r,
        }
    }
}

impl EditableDocument {
    /// Drops from the `/ToUnicode` map of `font` every mapping for a code
    /// no text of the document shows through it any more; returns how
    /// many were dropped (see `prune_v`).
    pub fn prune_tounicode_for_font(&mut self, font: ObjectId) -> (r: Result<usize, EditorError>)
        requires
            old(self).wf(),
        ensures
            final(self).wf(),
            final(self).same_but_overlay(old(self)),
            (final(self).overlay_v(), r) == prune_v(old(self), font),
    {
        let dict = match self.get_dictionary(font) {
            Ok(d) => d,
            Err(_) => {
                return Ok(0);
            },
        };
        let tid = match dict.get("ToUnicode") {
            Some(Object::Reference(id)) => *id,
            _ => {
                return Ok(0);
            },
        };
        assert(ref_id(tid.number, tid.generation) == tid);
        let stream = match self.get_object(tid) {
            Some(Object::Stream(s)) => s,
            _ => {
                return Ok(0);
            },
        };
        let all = parse_tounicode_cmap(stream.data.as_slice());
        let map = latest_pairs(&all);
        if stream.dictionary.get("Filter").is_some() || map.len() == 0 {
            return Ok(0);
        }
        let composite = match dict.get("Subtype") {
            Some(Object::Name(n)) => crate::object::str_eq(n.as_str(), "Type0"),
            _ => false,
        };
        let w: u8 = if composite { 2 } else { 1 };
        let used = match self.collect_used_codes_for_font(font, w) {
            Ok(u) => u,
            Err(e) => {
                return Err(e);
            },
        };
        let kept = keep_used_pairs(&map, &used);
        if kept.len() < map.len() && (kept.len() as u64) <= 9223372036854775807u64 {
            let removed = map.len() - kept.len();
            let bytes = build_tounicode_cmap(&kept, w as usize);
            let d = PdfDictionary::new();
            assert(d.view_entries() =~= Seq::<(Seq<char>, ObjV)>::empty());
            proof {
                self.lemma_stored_below_next(tid);
            }
            self.set_object(tid, Object::Stream(PdfStream::with_dictionary(d, bytes)));
            return Ok(removed);
        }
        Ok(0)
    }

    /// The fonts the effective resources of `page_id` refer to (see
    /// `font_ids_v`).
    pub fn font_ids_on_page(&self, page_id: ObjectId) -> (r: Result<Vec<ObjectId>, EditorError>)
        ensures
            match resources_v(self, page_id, MAX_RESOURCE_DEPTH as nat) {
                Ok(res) => r matches Ok(v) && v@ == font_ids_v(font_entries_v(self, res)),
                Err(e) => r == Err::<Vec<ObjectId>, EditorError>(e),
            },
    {
        let res = match self.effective_resources(page_id) {
            Ok(d) => d,
            Err(e) => {
                return Err(e);
            },
        };
        let fd = self.font_entries(&res);
        let ghost e = fd.view_entries();
        proof {
            lemma_view_entries(fd.entries@);
        }
        let mut out: Vec<ObjectId> = Vec::new();
        assert(out@ =~= font_ids_v(e.take(0)));
        let mut i: usize = 0;
        while i < fd.entries.len()
            invariant
                i <= fd.entries@.len(),
                e == fd.view_entries(),
                e.len() == fd.entries@.len(),
                forall|j: int| 0 <= j < e.len() ==> #[trigger] e[j] == (fd.entries@[j].0@, fd.entries@[j].1.v()),
                out@ == font_ids_v(e.take(i as int)),
            decreases fd.entries@.len() - i,
        {
            assert(e.take(i as int + 1).drop_last() =~= e.take(i as int));
            match &fd.entries[i].1 {
                Object::Reference(id) => {
                    out.push(*id);
                    assert(ref_id(id.number, id.generation) == *id);
                },
                _ => {},
            }
            i = i + 1;
        }
        assert(e.take(i as int) =~= e);
        Ok(out)
    }
}

/// A copy of a string.
fn copy_string(s: &String) -> (r: String)
    ensures
        r@ == s@,
{
    String::from_str(s.as_str())
}

impl EditableDocument {
    /// Deletes every occurrence of the bytes of `needle` from the string
    /// operands of the text-showing operators of the page at
    /// `page_index` (byte-level, as `replace_page_text` with an empty
    /// replacement); when anything was deleted, prunes the `/ToUnicode`
    /// maps of the fonts the page's resources refer to (see
    /// `prune_tounicode_for_font`); then records the action, with the
    /// current time, in the audit trail (see `persist_audit_entry`),
    /// which blocks incremental saves. Returns the recorded entry.
    pub fn redact_text(&mut self, page_index: usize, needle: &str, actor: &str, reason: &str) -> (r: Result<
        RedactionAuditEntry,
        EditorError,
    >)
        requires
            old(self).wf(),
            old(self).next_number() < u32::MAX,
        ensures
            final(self).wf(),
            final(self).base_v() == old(self).base_v(),
            final(self).root_id() == old(self).root_id(),
            final(self).info_id() == old(self).info_id(),
            match crate::form_create::page_at(old(self).spec_page_ids(), page_index) {
                Err(e) => r == Err::<RedactionAuditEntry, EditorError>(e) && final(self).overlay_v() == old(self).overlay_v()
                    && final(self).audit() == old(self).audit() && final(self).redacted() == old(self).redacted(),
                Ok(page) => {
                    let replaced = crate::content_ops::replace_text_v(
                        old(self).overlay_v(),
                        old(self).base_v(),
                        old(self).next_number(),
                        page,
                        vstd::utf8::encode_utf8(needle@),
                        Seq::empty(),
                    );
                    &&& replaced.2 is Err ==> r == Err::<RedactionAuditEntry, EditorError>(replaced.2->Err_0)
                    &&& r matches Ok(entry) ==> {
                        &&& entry.actor@ == actor@
                        &&& entry.reason@ == reason@
                        &&& entry.page_index == Some(page_index)
                        &&& entry.area is None
                        &&& entry.images_removed == 0
                        &&& replaced.2 == Ok::<usize, EditorError>(entry.text_runs_removed)
                        &&& exists|secs: nat| #[trigger] crate::redact::is_date_string_of(entry.timestamp@, secs)
                        &&& final(self).audit() == old(self).audit().push(entry.v())
                        &&& final(self).redacted()
                        &&& entry.text_runs_removed == 0 ==> entry.tounicode_entries_pruned == 0 && (
                            final(self).overlay_v(),
                            final(self).next_number(),
                            final(self).audit_id(),
                            Ok::<(), EditorError>(()),
                        ) == crate::graph::persist_v(
                            old(self).overlay_v(),
                            old(self).base_v(),
                            old(self).next_number(),
                            old(self).root_id(),
                            old(self).audit_id(),
                            old(self).audit().push(entry.v()),
                        )
                    }
                },
            },
    {
        let ghost start = *self;
        let page_id = match self.page_id_at(page_index) {
            Ok(p) => p,
            Err(e) => {
                return Err(e);
            },
        };
        let count = match self.replace_page_text(page_id, needle, "") {
            Ok(c) => c,
            Err(e) => {
                return Err(e);
            },
        };
        proof {
            reveal_strlit("");
            assert(""@ =~= Seq::<char>::empty());
            assert(vstd::utf8::encode_utf8(Seq::<char>::empty()) =~= Seq::<u8>::empty()) by {
                reveal_with_fuel(vstd::utf8::encode_utf8, 2);
            }
        }
        let ghost after_replace = *self;
        let mut pruned: usize = 0;
        if count > 0 {
            let fonts = match self.font_ids_on_page(page_id) {
                Ok(f) => f,
                Err(e) => {
                    return Err(e);
                },
            };
            let mut i: usize = 0;
            while i < fonts.len()
                invariant
                    i <= fonts@.len(),
                    self.wf(),
                    start == *old(self),
                    self.base_v() == start.base_v(),
                    self.root_id() == start.root_id(),
                    self.info_id() == start.info_id(),
                    self.audit() == start.audit(),
                    self.audit_id() == start.audit_id(),
                    self.redacted() == start.redacted(),
                    self.next_number() == after_replace.next_number(),
                    count > 0,
                    crate::form_create::page_at(start.spec_page_ids(), page_index) == Ok::<ObjectId, EditorError>(page_id),
                    crate::content_ops::replace_text_v(
                        start.overlay_v(),
                        start.base_v(),
                        start.next_number(),
                        page_id,
                        vstd::utf8::encode_utf8(needle@),
                        Seq::empty(),
                    ).2 == Ok::<usize, EditorError>(count),
                decreases fonts@.len() - i,
            {
                let k = match self.prune_tounicode_for_font(fonts[i]) {
                    Ok(k) => k,
                    Err(e) => {
                        return Err(e);
                    },
                };
                pruned = pruned.saturating_add(k);
                i = i + 1;
            }
        }
        if self.next_object_number() >= 4294967294u32 {
            return Err(EditorError::ResourceLimitExceeded);
        }
        let timestamp = crate::redact::now_pdf_date();
        let entry = RedactionAuditEntry {
            actor: String::from_str(actor),
            reason: String::from_str(reason),
            timestamp: copy_string(&timestamp),
            page_index: Some(page_index),
            area: None,
            text_runs_removed: count,
            images_removed: 0,
            tounicode_entries_pruned: pruned,
        };
        let stored = RedactionAuditEntry {
            actor: String::from_str(actor),
            reason: String::from_str(reason),
            timestamp,
            page_index: Some(page_index),
            area: None,
            text_runs_removed: count,
            images_removed: 0,
            tounicode_entries_pruned: pruned,
        };
        assert(stored.v() == entry.v());
        match self.persist_audit_entry(stored) {
            Ok(_) => {},
            Err(e) => {
                return Err(e);
            },
        }
        Ok(entry)
    }
}

/// The objects after clearing the document metadata: the `/Info`
/// dictionary, when stored, emptied; then the catalog, when it is a
/// dictionary, without `/Metadata`. The objects and whether the catalog
/// was found.
pub open spec fn strip_metadata_v(doc: &EditableDocument) -> (Seq<(ObjectId, ObjV)>, Result<(), EditorError>) {
    let ov1 = match doc.info_id() {
        Some(i) => if doc.object(i) is Some {
            table_set(doc.overlay_v(), i, ObjV::Dict(Seq::empty()))
        } else {
            doc.overlay_v()
        },
        None => doc.overlay_v(),
    };
    let root = doc.root_id();
    match crate::graph::dict_of(crate::outline::obj_in(ov1, doc.base_v(), root)) {
        None => (ov1, Err(EditorError::UnresolvedObject(root.number, root.generation))),
        Some(c) => (table_set(ov1, root, ObjV::Dict(crate::object::entries_remove(c, "Metadata"@))), Ok(())),
    }
}

impl EditableDocument {
    /// Clears the document metadata (ISO 32000-1 14.3): empties the
    /// `/Info` dictionary and drops the catalog's `/Metadata` reference,
    /// then records the action, document-wide, in the audit trail (see
    /// `persist_audit_entry`). Returns the recorded entry.
    pub fn strip_document_metadata(&mut self, actor: &str, reason: &str) -> (r: Result<RedactionAuditEntry, EditorError>)
        requires
            old(self).wf(),
            old(self).next_number() < u32::MAX,
        ensures
            final(self).wf(),
            final(self).base_v() == old(self).base_v(),
            final(self).root_id() == old(self).root_id(),
            final(self).info_id() == old(self).info_id(),
            match strip_metadata_v(old(self)) {
                (ov, Err(e)) => r == Err::<RedactionAuditEntry, EditorError>(e) && final(self).overlay_v() == ov
                    && final(self).audit() == old(self).audit(),
                (ov, Ok(_)) => {
                    &&& crate::graph::persist_v(ov, old(self).base_v(), old(self).next_number(), old(self).root_id(), old(self).audit_id(), Seq::empty()).3 is Ok ==> r is Ok
                    &&& r matches Ok(entry) ==> {
                        &&& entry.actor@ == actor@
                        &&& entry.reason@ == reason@
                        &&& entry.page_index is None
                        &&& entry.area is None
                        &&& entry.text_runs_removed == 0
                        &&& entry.images_removed == 0
                        &&& entry.tounicode_entries_pruned == 0
                        &&& exists|secs: nat| #[trigger] crate::redact::is_date_string_of(entry.timestamp@, secs)
                        &&& final(self).audit() == old(self).audit().push(entry.v())
                        &&& final(self).redacted()
                        &&& (final(self).overlay_v(), final(self).next_number(), final(self).audit_id(), Ok::<(), EditorError>(()))
                            == crate::graph::persist_v(
                            ov,
                            old(self).base_v(),
                            old(self).next_number(),
                            old(self).root_id(),
                            old(self).audit_id(),
                            old(self).audit().push(entry.v()),
                        )
                    }
                },
            },
    {
        match self.trailer_info() {
            Some(info_id) => {
                if self.get_object(info_id).is_some() {
                    proof {
                        self.lemma_stored_below_next(info_id);
                    }
                    let d = PdfDictionary::new();
                    assert(d.view_entries() =~= Seq::<(Seq<char>, ObjV)>::empty());
                    self.set_object(info_id, Object::Dictionary(d));
                }
            },
            None => {},
        }
        let mut catalog = match self.catalog() {
            Ok(c) => c,
            Err(e) => {
                return Err(e);
            },
        };
        catalog.remove("Metadata");
        let cat_id = self.catalog_id();
        proof {
            self.lemma_root_stored();
            self.lemma_stored_below_next(cat_id);
        }
        self.set_object(cat_id, Object::Dictionary(catalog));
        let timestamp = crate::redact::now_pdf_date();
        let entry = RedactionAuditEntry {
            actor: String::from_str(actor),
            reason: String::from_str(reason),
            timestamp: copy_string(&timestamp),
            page_index: None,
            area: None,
            text_runs_removed: 0,
            images_removed: 0,
            tounicode_entries_pruned: 0,
        };
        let stored = RedactionAuditEntry {
            actor: String::from_str(actor),
            reason: String::from_str(reason),
            timestamp,
            page_index: None,
            area: None,
            text_runs_removed: 0,
            images_removed: 0,
            tounicode_entries_pruned: 0,
        };
        assert(stored.v() == entry.v());
        match self.persist_audit_entry(stored) {
            Ok(_) => {},
            Err(e) => {
                return Err(e);
            },
        }
        Ok(entry)
    }
}

} // verus!
