//! Reading and rewriting the content streams of a page (ISO 32000-1
//! 7.8.2) of a document opened for editing.

use vstd::prelude::*;
use crate::graph::{dict_of, ref_id, table_set, EditableDocument, EditorError};
use crate::object::{entries_get, entries_set, ObjV, Object, ObjectId, PdfStream};
use crate::outline::obj_in;
use crate::pages::ref_v;
use crate::refs::{content_stream_ids, contents_refs, id_pairs};
use crate::content_stream::{
    cap, content_text, parse_content_stream, replace_in_items, replace_text_in_items, serialize_content_stream,
    spec_parse_content_stream,
};
use vstd::utf8::encode_utf8;

verus! {

/// The most bytes the content streams of one page may add up to.
pub const MAX_CONTENT_STREAM_BYTES: usize = 268435456;

/// `acc` followed by `data`, a newline between them when `acc` is not
/// empty (ISO 32000-1 7.7.3.3: streams of one page are read as if
/// separated by white space).
pub open spec fn content_join(acc: Seq<u8>, data: Seq<u8>) -> Seq<u8> {
    if acc.len() > 0 {
        acc.push(10u8) + data
    } else {
        data
    }
}

/// The bytes `q` and a newline.
pub open spec fn q_open() -> Seq<u8> {
    seq![113u8, 10u8]
}

/// A newline, `Q` and a newline.
pub open spec fn q_close() -> Seq<u8> {
    seq![10u8, 81u8, 10u8]
}

/// `ops` inside a `q` ... `Q` pair (ISO 32000-1 8.4.4).
pub open spec fn wrapped(ops: Seq<u8>) -> Seq<u8> {
    q_open() + ops + q_close()
}

/// `existing` ending on a newline when it is not empty.
pub open spec fn line_ended(existing: Seq<u8>) -> Seq<u8> {
    if existing.len() > 0 && existing.last() != 10u8 {
        existing.push(10u8)
    } else {
        existing
    }
}

/// Storing `data` as the content of the page `page` among the objects
/// `ov` over `base`: the edited objects, the next object number and the
/// result. A `/Contents` reference to a stored object has that object
/// replaced by a new stream; otherwise a new stream is stored under the
/// next number and `/Contents` set to it.
pub open spec fn set_content_v(
    ov: Seq<(ObjectId, ObjV)>,
    base: Seq<(ObjectId, ObjV)>,
    next: u32,
    page: ObjectId,
    data: Seq<u8>,
) -> (Seq<(ObjectId, ObjV)>, u32, Result<(), EditorError>) {
    match dict_of(obj_in(ov, base, page)) {
        None => (ov, next, Err(EditorError::UnresolvedObject(page.number, page.generation))),
        Some(d) => match entries_get(d, "Contents"@) {
            Some(ObjV::Reference(n, g)) if obj_in(ov, base, ref_id(n, g)) is Some => (
                table_set(ov, ref_id(n, g), ObjV::Stream(Seq::empty(), data)),
                next,
                Ok(()),
            ),
            _ => {
                let id = ObjectId { number: next, generation: 0 };
                let ov1 = table_set(ov, id, ObjV::Stream(Seq::empty(), data));
                (table_set(ov1, page, ObjV::Dict(entries_set(d, "Contents"@, ref_v(id)))), (next + 1) as u32, Ok(()))
            },
        },
    }
}

/// The content of the streams `ids` from the `i`-th on, among the
/// objects `ov` over `base`, appended to `acc`: each stream's data joined
/// by newlines; an id that is not a stream is passed over. A missing
/// object, a stream with a `/Filter`, or more than
/// `MAX_CONTENT_STREAM_BYTES` bytes is an error.
pub open spec fn contents_in(
    ov: Seq<(ObjectId, ObjV)>,
    base: Seq<(ObjectId, ObjV)>,
    ids: Seq<(u32, u16)>,
    i: int,
    acc: Seq<u8>,
) -> Result<Seq<u8>, EditorError>
    decreases ids.len() - i,
{
    if i < 0 || i >= ids.len() {
        Ok(acc)
    } else {
        match obj_in(ov, base, ref_id(ids[i].0, ids[i].1)) {
            None => Err(EditorError::UnresolvedObject(ids[i].0, ids[i].1)),
            Some(ObjV::Stream(e, d)) => if entries_get(e, "Filter"@) is Some {
                Err(EditorError::UnsupportedFilter)
            } else if acc.len() + d.len() > MAX_CONTENT_STREAM_BYTES {
                Err(EditorError::ResourceLimitExceeded)
            } else {
                contents_in(ov, base, ids, i + 1, content_join(acc, d))
            },
            Some(_) => contents_in(ov, base, ids, i + 1, acc),
        }
    }
}

/// The content of the page `page` among the objects `ov` over `base`:
/// its `/Contents` streams joined.
pub open spec fn page_content_in(ov: Seq<(ObjectId, ObjV)>, base: Seq<(ObjectId, ObjV)>, page: ObjectId) -> Result<
    Seq<u8>,
    EditorError,
> {
    match dict_of(obj_in(ov, base, page)) {
        None => Err(EditorError::UnresolvedObject(page.number, page.generation)),
        Some(d) => contents_in(ov, base, contents_refs(entries_get(d, "Contents"@)), 0, Seq::empty()),
    }
}

impl EditableDocument {
    /// The content of the page `page`: its `/Contents` streams joined.
    pub open spec fn spec_page_content(&self, page: ObjectId) -> Result<Seq<u8>, EditorError> {
        page_content_in(self.overlay_v(), self.base_v(), page)
    }

    /// The content of a page (ISO 32000-1 7.8.2): its `/Contents` stream,
    /// or the streams of its `/Contents` array joined by newlines.
    /// Streams stored with a `/Filter` are refused.
    pub fn page_content_bytes(&self, page_id: ObjectId) -> (r: Result<Vec<u8>, EditorError>)
        ensures
            match self.spec_page_content(page_id) {
                Ok(b) => r matches Ok(v) && v@ == b,
                Err(e) => r == Err::<Vec<u8>, EditorError>(e),
            },
    {
        let dict = self.get_dictionary(page_id)?;
        let ids = content_stream_ids(dict.get("Contents"));
        let ghost refs = id_pairs(ids@);
        let mut out: Vec<u8> = Vec::new();
        let mut i: usize = 0;
        while i < ids.len()
            invariant
                i <= ids@.len(),
                refs == id_pairs(ids@),
                refs.len() == ids@.len(),
                out@.len() <= MAX_CONTENT_STREAM_BYTES + i,
                self.spec_page_content(page_id) == contents_in(self.overlay_v(), self.base_v(), refs, i as int, out@),
            decreases ids@.len() - i,
        {
            let id = ids[i];
            assert(ref_id(refs[i as int].0, refs[i as int].1) == id);
            let obj = match self.get_object(id) {
                Some(o) => o,
                None => {
                    return Err(EditorError::UnresolvedObject(id.number, id.generation));
                },
            };
            if let Object::Stream(stream) = obj {
                if stream.dictionary.contains_key("Filter") {
                    return Err(EditorError::UnsupportedFilter);
                }
                let mut data = stream.data;
                if out.len() > MAX_CONTENT_STREAM_BYTES || data.len() > MAX_CONTENT_STREAM_BYTES - out.len() {
                    return Err(EditorError::ResourceLimitExceeded);
                }
                if out.len() > 0 {
                    out.push(10u8);
                }
                out.append(&mut data);
            }
            i = i + 1;
        }
        Ok(out)
    }

    /// Stores `data` as the content of a page: a `/Contents` reference to
    /// a stored object has that object replaced by a new stream holding
    /// `data` (so the page dictionary stays as it is); otherwise a new
    /// stream is stored and `/Contents` set to it. The stream is stored
    /// without compression.
    pub fn set_page_content_bytes(&mut self, page_id: ObjectId, data: Vec<u8>) -> (r: Result<(), EditorError>)
        requires
            old(self).wf(),
            old(self).next_number() < u32::MAX,
        ensures
            final(self).wf(),
            final(self).same_but_overlay_next(old(self)),
            (final(self).overlay_v(), final(self).next_number(), r) == set_content_v(
                old(self).overlay_v(),
                old(self).base_v(),
                old(self).next_number(),
                page_id,
                data@,
            ),
    {
        let mut dict = self.get_dictionary(page_id)?;
        let stream = PdfStream::new(data);
        proof {
            assert(crate::object::view_entries(stream.dictionary.entries@) =~= Seq::<(Seq<char>, ObjV)>::empty());
        }
        let existing = match dict.get("Contents") {
            Some(Object::Reference(id)) => {
                assert(ref_id(id.number, id.generation) == *id);
                if self.get_object(*id).is_some() {
                    Some(*id)
                } else {
                    None
                }
            },
            _ => None,
        };
        match existing {
            Some(id) => {
                proof {
                    self.lemma_stored_below_next(id);
                }
                self.set_object(id, Object::Stream(stream));
            },
            None => {
                let ghost before = *self;
                let id = self.allocate_id();
                let ghost alloc = *self;
                proof {
                    assert forall|x: ObjectId| alloc.object(x) is Some && x.number == id.number implies x == id by {
                        assert(alloc.object(x) == before.object(x));
                    }
                }
                let ghost ov0 = self.overlay_v();
                let ghost sv = Object::Stream(stream).v();
                self.set_object(id, Object::Stream(stream));
                dict.set("Contents", Object::Reference(id));
                proof {
                    crate::outline::lemma_obj_in_set(ov0, self.base_v(), id, sv, page_id);
                    self.lemma_stored_below_next(page_id);
                }
                self.set_object(page_id, Object::Dictionary(dict));
            },
        }
        Ok(())
    }

    /// Appends operators to a page's content, inside `q` ... `Q` (ISO
    /// 32000-1 8.4.4) so that they neither see nor leave graphics state
    /// of the existing content; the existing content is ended with a
    /// newline first.
    pub fn append_page_content(&mut self, page_id: ObjectId, ops: &[u8]) -> (r: Result<(), EditorError>)
        requires
            old(self).wf(),
            old(self).next_number() < u32::MAX,
        ensures
            final(self).wf(),
            final(self).same_but_overlay_next(old(self)),
            match old(self).spec_page_content(page_id) {
                Err(e) => r == Err::<(), EditorError>(e) && final(self).overlay_v() == old(self).overlay_v()
                    && final(self).next_number() == old(self).next_number(),
                Ok(b) => (final(self).overlay_v(), final(self).next_number(), r) == set_content_v(
                    old(self).overlay_v(),
                    old(self).base_v(),
                    old(self).next_number(),
                    page_id,
                    line_ended(b) + wrapped(ops@),
                ),
            },
    {
        let mut bytes = self.page_content_bytes(page_id)?;
        if bytes.len() > 0 && bytes[bytes.len() - 1] != 10u8 {
            bytes.push(10u8);
        }
        let ghost b0 = bytes@;
        let mut body = crate::object::slice_to_vec_u8(ops);
        bytes.push(113u8);
        bytes.push(10u8);
        bytes.append(&mut body);
        bytes.push(10u8);
        bytes.push(81u8);
        bytes.push(10u8);
        proof {
            assert(bytes@ =~= b0 + wrapped(ops@));
        }
        self.set_page_content_bytes(page_id, bytes)
    }

    /// Puts operators before a page's content (drawn beneath it), inside
    /// `q` ... `Q`.
    pub fn prepend_page_content(&mut self, page_id: ObjectId, ops: &[u8]) -> (r: Result<(), EditorError>)
        requires
            old(self).wf(),
            old(self).next_number() < u32::MAX,
        ensures
            final(self).wf(),
            final(self).same_but_overlay_next(old(self)),
            match old(self).spec_page_content(page_id) {
                Err(e) => r == Err::<(), EditorError>(e) && final(self).overlay_v() == old(self).overlay_v()
                    && final(self).next_number() == old(self).next_number(),
                Ok(b) => (final(self).overlay_v(), final(self).next_number(), r) == set_content_v(
                    old(self).overlay_v(),
                    old(self).base_v(),
                    old(self).next_number(),
                    page_id,
                    wrapped(ops@) + b,
                ),
            },
    {
        let mut existing = self.page_content_bytes(page_id)?;
        let ghost e0 = existing@;
        let mut bytes: Vec<u8> = Vec::new();
        let mut body = crate::object::slice_to_vec_u8(ops);
        bytes.push(113u8);
        bytes.push(10u8);
        bytes.append(&mut body);
        bytes.push(10u8);
        bytes.push(81u8);
        bytes.push(10u8);
        bytes.append(&mut existing);
        proof {
            assert(bytes@ =~= wrapped(ops@) + e0);
        }
        self.set_page_content_bytes(page_id, bytes)
    }

    /// Replaces a page's content with `ops`.
    pub fn replace_page_content(&mut self, page_id: ObjectId, ops: &[u8]) -> (r: Result<(), EditorError>)
        requires
            old(self).wf(),
            old(self).next_number() < u32::MAX,
        ensures
            final(self).wf(),
            final(self).same_but_overlay_next(old(self)),
            (final(self).overlay_v(), final(self).next_number(), r) == set_content_v(
                old(self).overlay_v(),
                old(self).base_v(),
                old(self).next_number(),
                page_id,
                ops@,
            ),
    {
        self.set_page_content_bytes(page_id, crate::object::slice_to_vec_u8(ops))
    }
}


/// Replacing `find` by `rep` in the text-showing operators of the page
/// `page`'s content: the edited objects, the next object number and the
/// number of string operands changed. The content is stored again only
/// when something was replaced.
pub open spec fn replace_text_v(
    ov: Seq<(ObjectId, ObjV)>,
    base: Seq<(ObjectId, ObjV)>,
    next: u32,
    page: ObjectId,
    find: Seq<u8>,
    rep: Seq<u8>,
) -> (Seq<(ObjectId, ObjV)>, u32, Result<usize, EditorError>) {
    match page_content_in(ov, base, page) {
        Err(e) => (ov, next, Err(e)),
        Ok(b) => if find.len() == 0 {
            (ov, next, Ok(0))
        } else {
            let (ni, c) = replace_in_items(spec_parse_content_stream(b), find, rep);
            if c == 0 {
                (ov, next, Ok(0))
            } else {
                let (ov1, n1, r) = set_content_v(ov, base, next, page, content_text(ni));
                match r {
                    Ok(_) => (ov1, n1, Ok(cap(c) as usize)),
                    Err(e) => (ov1, n1, Err(e)),
                }
            }
        },
    }
}

impl EditableDocument {
    /// Replaces every occurrence of `find` by `replacement` inside the
    /// strings shown by the page's `Tj`, `'`, `"` and `TJ` operators (a
    /// byte-level replacement, meaningful for single-byte text
    /// encodings), storing the content again when anything changed.
    /// Returns the number of string operands changed.
    pub fn replace_page_text(&mut self, page_id: ObjectId, find: &str, replacement: &str) -> (r: Result<usize, EditorError>)
        requires
            old(self).wf(),
            old(self).next_number() < u32::MAX,
        ensures
            final(self).wf(),
            final(self).same_but_overlay_next(old(self)),
            (final(self).overlay_v(), final(self).next_number(), r) == replace_text_v(
                old(self).overlay_v(),
                old(self).base_v(),
                old(self).next_number(),
                page_id,
                encode_utf8(find@),
                encode_utf8(replacement@),
            ),
    {
        let bytes = self.page_content_bytes(page_id)?;
        let mut items = parse_content_stream(bytes.as_slice());
        let count = replace_text_in_items(&mut items, find.as_bytes(), replacement.as_bytes());
        if count > 0 {
            let new_bytes = serialize_content_stream(items.as_slice());
            self.set_page_content_bytes(page_id, new_bytes)?;
        }
        Ok(count)
    }
}

} // verus!
