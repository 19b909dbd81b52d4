//! Walking the references an object holds, rewriting them when objects
//! move between documents, and reading page boxes.

use vstd::prelude::*;
use crate::object::{
    entries_set, str_eq, view_entries, view_objs, Object, ObjV, ObjectId, PdfArray,
    PdfDictionary, PdfName, PdfStream, slice_to_vec_u8,
};
use crate::types::Rectangle;
use crate::util::real_micros;
use crate::writer::id_lookup;

verus! {

/// Keys whose values are not followed when pages are imported from
/// another document: `/Parent` and `/P` point back up the tree.
pub open spec fn skip_import_key(k: Seq<char>) -> bool {
    k == "Parent"@ || k == "P"@
}

/// Whether `k` is one of the keys that page import does not follow.
fn is_skip_import_key(k: &str) -> (b: bool)
    ensures
        b == skip_import_key(k@),
{
    str_eq(k, "Parent") || str_eq(k, "P")
}

/// The references an object holds, in order, at any depth; with `skip`,
/// the values under `/Parent` and `/P` are passed over.
pub open spec fn refs_of(o: ObjV, skip: bool) -> Seq<(u32, u16)>
    decreases o,
{
    match o {
        ObjV::Reference(n, g) => seq![(n, g)],
        ObjV::Array(items) => refs_of_items(items, skip),
        ObjV::Dict(entries) => refs_of_entries(entries, skip),
        ObjV::Stream(entries, _) => refs_of_entries(entries, skip),
        _ => Seq::empty(),
    }
}

/// The references of a sequence of values.
pub open spec fn refs_of_items(items: Seq<ObjV>, skip: bool) -> Seq<(u32, u16)>
    decreases items,
{
    if items.len() == 0 {
        Seq::empty()
    } else {
        refs_of_items(items.drop_last(), skip) + refs_of(items.last(), skip)
    }
}

/// The references of the values of dictionary entries.
pub open spec fn refs_of_entries(entries: Seq<(Seq<char>, ObjV)>, skip: bool) -> Seq<(u32, u16)>
    decreases entries,
{
    if entries.len() == 0 {
        Seq::empty()
    } else {
        refs_of_entries(entries.drop_last(), skip) + (if skip && skip_import_key(entries.last().0) {
            Seq::empty()
        } else {
            refs_of(entries.last().1, skip)
        })
    }
}

/// The (number, generation) pairs of ids.
pub open spec fn id_pairs(ids: Seq<ObjectId>) -> Seq<(u32, u16)> {
    Seq::new(ids.len(), |i: int| (ids[i].number, ids[i].generation))
}

/// Appends the references held by `obj`.
fn collect(obj: &Object, out: &mut Vec<ObjectId>, skip: bool)
    ensures
        id_pairs(final(out)@) == id_pairs(old(out)@) + refs_of(obj.v(), skip),
    decreases obj,
{
    let ghost start = out@;
    match obj {
        Object::Reference(id) => {
            out.push(*id);
            assert(id_pairs(out@) =~= id_pairs(start) + refs_of(obj.v(), skip));
        },
        Object::Array(arr) => {
            collect_items(arr, out, skip);
        },
        Object::Dictionary(dict) => {
            collect_entries(dict, out, skip);
        },
        Object::Stream(s) => {
            collect_entries(&s.dictionary, out, skip);
        },
        _ => {
            assert(id_pairs(out@) =~= id_pairs(start) + refs_of(obj.v(), skip));
        },
    }
}

/// Appends the references held by the items of `arr`.
fn collect_items(arr: &PdfArray, out: &mut Vec<ObjectId>, skip: bool)
    ensures
        id_pairs(final(out)@) == id_pairs(old(out)@) + refs_of_items(view_objs(arr.items@), skip),
    decreases arr,
{
    let ghost start = out@;
    let mut i: usize = 0;
    assert(id_pairs(out@) =~= id_pairs(start) + refs_of_items(view_objs(arr.items@.subrange(0, 0)), skip));
    while i < arr.items.len()
        invariant
            i <= arr.items@.len(),
            id_pairs(out@) == id_pairs(start) + refs_of_items(view_objs(arr.items@.subrange(0, i as int)), skip),
        decreases arr.items@.len() - i,
    {
        collect(&arr.items[i], out, skip);
        proof {
            let s1 = arr.items@.subrange(0, i + 1);
            assert(s1.drop_last() =~= arr.items@.subrange(0, i as int));
            assert(s1.last() == arr.items@[i as int]);
            assert(view_objs(s1).drop_last() =~= view_objs(arr.items@.subrange(0, i as int)));
        }
        i = i + 1;
    }
    assert(arr.items@.subrange(0, arr.items@.len() as int) =~= arr.items@);
}

/// Appends the references held by the values of `dict`.
fn collect_entries(dict: &PdfDictionary, out: &mut Vec<ObjectId>, skip: bool)
    ensures
        id_pairs(final(out)@) == id_pairs(old(out)@) + refs_of_entries(dict.view_entries(), skip),
    decreases dict,
{
    let ghost start = out@;
    let mut i: usize = 0;
    assert(id_pairs(out@) =~= id_pairs(start) + refs_of_entries(view_entries(dict.entries@.subrange(0, 0)), skip));
    while i < dict.entries.len()
        invariant
            i <= dict.entries@.len(),
            id_pairs(out@) == id_pairs(start) + refs_of_entries(view_entries(dict.entries@.subrange(0, i as int)), skip),
        decreases dict.entries@.len() - i,
    {
        let ghost before = out@;
        let entry = &dict.entries[i];
        if !(skip && is_skip_import_key(entry.0.as_str())) {
            collect(&entry.1, out, skip);
        } else {
            assert(id_pairs(out@) =~= id_pairs(before) + Seq::<(u32, u16)>::empty());
        }
        proof {
            let s1 = dict.entries@.subrange(0, i + 1);
            assert(s1.drop_last() =~= dict.entries@.subrange(0, i as int));
            assert(s1.last() == dict.entries@[i as int]);
            assert(view_entries(s1).drop_last() =~= view_entries(dict.entries@.subrange(0, i as int)));
        }
        i = i + 1;
    }
    assert(dict.entries@.subrange(0, dict.entries@.len() as int) =~= dict.entries@);
}

/// Collects every reference reachable inside `obj` (arrays, dictionaries
/// and stream dictionaries at any depth), passing over the values of
/// `/Parent` and `/P`.
pub fn collect_refs(obj: &Object, out: &mut Vec<ObjectId>)
    ensures
        id_pairs(final(out)@) == id_pairs(old(out)@) + refs_of(obj.v(), true),
{
    collect(obj, out, true);
}

/// Collects every reference contained in `obj` at any depth.
pub fn collect_all_refs(obj: &Object, out: &mut Vec<ObjectId>)
    ensures
        id_pairs(final(out)@) == id_pairs(old(out)@) + refs_of(obj.v(), false),
{
    collect(obj, out, false);
}

/// The references among `items`, in order.
pub open spec fn direct_refs(items: Seq<ObjV>) -> Seq<(u32, u16)>
    decreases items.len(),
{
    if items.len() == 0 {
        Seq::empty()
    } else {
        direct_refs(items.drop_last()) + match items.last() {
            ObjV::Reference(n, g) => seq![(n, g)],
            _ => Seq::empty(),
        }
    }
}

/// The content streams a page's `/Contents` names: the reference itself,
/// or the references of an array (other items passed over).
pub open spec fn contents_refs(contents: Option<ObjV>) -> Seq<(u32, u16)> {
    match contents {
        Some(ObjV::Reference(n, g)) => seq![(n, g)],
        Some(ObjV::Array(items)) => direct_refs(items),
        _ => Seq::empty(),
    }
}

/// The ids of the content streams of a page, from its `/Contents` value.
pub fn content_stream_ids(contents: Option<&Object>) -> (ids: Vec<ObjectId>)
    ensures
        id_pairs(ids@) == contents_refs(
            match contents {
                Some(o) => Some(o.v()),
                None => None,
            },
        ),
{
    let mut ids: Vec<ObjectId> = Vec::new();
    match contents {
        Some(Object::Reference(id)) => {
            ids.push(*id);
            assert(id_pairs(ids@) =~= seq![(id.number, id.generation)]);
        },
        Some(Object::Array(arr)) => {
            let mut i: usize = 0;
            assert(id_pairs(ids@) =~= direct_refs(view_objs(arr.items@.subrange(0, 0))));
            while i < arr.items.len()
                invariant
                    i <= arr.items@.len(),
                    id_pairs(ids@) == direct_refs(view_objs(arr.items@.subrange(0, i as int))),
                decreases arr.items@.len() - i,
            {
                let ghost before = ids@;
                match &arr.items[i] {
                    Object::Reference(id) => {
                        ids.push(*id);
                    },
                    _ => {},
                }
                proof {
                    let s1 = arr.items@.subrange(0, i + 1);
                    assert(s1.drop_last() =~= arr.items@.subrange(0, i as int));
                    assert(s1.last() == arr.items@[i as int]);
                    assert(view_objs(s1).drop_last() =~= view_objs(arr.items@.subrange(0, i as int)));
                    assert(view_objs(s1).last() == arr.items@[i as int].v());
                    match arr.items@[i as int] {
                        Object::Reference(id) => {
                            assert(id_pairs(ids@) =~= id_pairs(before).push((id.number, id.generation)));
                        },
                        _ => {
                            assert(ids@ == before);
                        },
                    }
                    assert(id_pairs(ids@) =~= direct_refs(view_objs(s1)));
                }
                i = i + 1;
            }
            assert(arr.items@.subrange(0, arr.items@.len() as int) =~= arr.items@);
        },
        _ => {
            assert(id_pairs(ids@) =~= Seq::<(u32, u16)>::empty());
        },
    }
    ids
}

/// `o` with every reference rewritten through `map` (a reference `map`
/// does not cover becomes `null`) and the entries under `/Parent` and
/// `/P` dropped from every dictionary, which is rebuilt entry by entry.
pub open spec fn import_v(o: ObjV, map: Seq<(ObjectId, ObjectId)>) -> ObjV
    decreases o,
{
    match o {
        ObjV::Reference(n, g) => match id_lookup(map, n, g) {
            Some(t) => ObjV::Reference(t.number, t.generation),
            None => ObjV::Null,
        },
        ObjV::Array(items) => ObjV::Array(import_items(items, map)),
        ObjV::Dict(entries) => ObjV::Dict(import_entries(entries, map)),
        ObjV::Stream(entries, data) => ObjV::Stream(import_entries(entries, map), data),
        _ => o,
    }
}

/// `import_v` of each item.
pub open spec fn import_items(items: Seq<ObjV>, map: Seq<(ObjectId, ObjectId)>) -> Seq<ObjV>
    decreases items,
{
    if items.len() == 0 {
        Seq::empty()
    } else {
        import_items(items.drop_last(), map).push(import_v(items.last(), map))
    }
}

/// The entries other than `/Parent` and `/P`, values imported, set one
/// after the other into an empty dictionary.
pub open spec fn import_entries(entries: Seq<(Seq<char>, ObjV)>, map: Seq<(ObjectId, ObjectId)>) -> Seq<
    (Seq<char>, ObjV),
>
    decreases entries,
{
    if entries.len() == 0 {
        Seq::empty()
    } else if skip_import_key(entries.last().0) {
        import_entries(entries.drop_last(), map)
    } else {
        entries_set(
            import_entries(entries.drop_last(), map),
            entries.last().0,
            import_v(entries.last().1, map),
        )
    }
}

/// The target `map` gives `id`, if any.
fn lookup(map: &[(ObjectId, ObjectId)], id: ObjectId) -> (r: Option<ObjectId>)
    ensures
        r == id_lookup(map@, id.number, id.generation),
{
    let mut i: usize = 0;
    assert(map@.skip(0) =~= map@);
    while i < map.len()
        invariant
            i <= map@.len(),
            id_lookup(map@, id.number, id.generation) == id_lookup(
                map@.skip(i as int),
                id.number,
                id.generation,
            ),
        decreases map@.len() - i,
    {
        assert(map@.skip(i as int).drop_first() =~= map@.skip(i + 1));
        if map[i].0.number == id.number && map[i].0.generation == id.generation {
            return Some(map[i].1);
        }
        i = i + 1;
    }
    None
}

/// Rewrites `obj` for import into another document: every reference
/// through `map` (old id, new id), a reference `map` does not cover
/// becoming `null`, and the entries under `/Parent` and `/P` dropped.
pub fn remap_object(obj: &Object, map: &[(ObjectId, ObjectId)]) -> (r: Object)
    ensures
        r.v() == import_v(obj.v(), map@),
    decreases obj,
{
    match obj {
        Object::Reference(id) => match lookup(map, *id) {
            Some(new_id) => Object::Reference(new_id),
            None => Object::Null,
        },
        Object::Array(arr) => Object::Array(import_array(arr, map)),
        Object::Dictionary(dict) => Object::Dictionary(import_dict(dict, map)),
        Object::Stream(s) => Object::Stream(
            PdfStream { dictionary: import_dict(&s.dictionary, map), data: slice_to_vec_u8(s.data.as_slice()) },
        ),
        Object::Null => Object::Null,
        Object::Boolean(b) => Object::Boolean(*b),
        Object::Integer(n) => Object::Integer(*n),
        Object::Real(x) => Object::Real(*x),
        Object::String(st) => Object::String(st.copy()),
        Object::Name(n) => Object::Name(PdfName::new_unchecked(n.as_str())),
    }
}

/// `arr` with every item imported.
fn import_array(arr: &PdfArray, map: &[(ObjectId, ObjectId)]) -> (r: PdfArray)
    ensures
        view_objs(r.items@) == import_items(view_objs(arr.items@), map@),
    decreases arr,
{
    let mut items: Vec<Object> = Vec::new();
    let mut i: usize = 0;
    assert(view_objs(arr.items@.subrange(0, 0)) =~= Seq::<ObjV>::empty());
    while i < arr.items.len()
        invariant
            i <= arr.items@.len(),
            view_objs(items@) == import_items(view_objs(arr.items@.subrange(0, i as int)), map@),
        decreases arr.items@.len() - i,
    {
        let ghost prev = items@;
        let o = remap_object(&arr.items[i], map);
        items.push(o);
        proof {
            let s1 = arr.items@.subrange(0, i + 1);
            assert(s1.drop_last() =~= arr.items@.subrange(0, i as int));
            assert(s1.last() == arr.items@[i as int]);
            assert(items@.drop_last() =~= prev);
            assert(view_objs(s1).drop_last() =~= view_objs(arr.items@.subrange(0, i as int)));
        }
        i = i + 1;
    }
    assert(arr.items@.subrange(0, arr.items@.len() as int) =~= arr.items@);
    PdfArray { items }
}

/// `dict` without `/Parent` and `/P`, values imported.
fn import_dict(dict: &PdfDictionary, map: &[(ObjectId, ObjectId)]) -> (r: PdfDictionary)
    ensures
        r.view_entries() == import_entries(dict.view_entries(), map@),
    decreases dict,
{
    let mut out = PdfDictionary::new();
    assert(out.view_entries() =~= Seq::<(Seq<char>, ObjV)>::empty());
    let mut i: usize = 0;
    while i < dict.entries.len()
        invariant
            i <= dict.entries@.len(),
            out.view_entries() == import_entries(view_entries(dict.entries@.subrange(0, i as int)), map@),
        decreases dict.entries@.len() - i,
    {
        let entry = &dict.entries[i];
        if !is_skip_import_key(entry.0.as_str()) {
            let v = remap_object(&entry.1, map);
            out.set(entry.0.as_str(), v);
        }
        proof {
            let s1 = dict.entries@.subrange(0, i + 1);
            assert(s1.drop_last() =~= dict.entries@.subrange(0, i as int));
            assert(s1.last() == dict.entries@[i as int]);
            assert(view_entries(s1).drop_last() =~= view_entries(dict.entries@.subrange(0, i as int)));
        }
        i = i + 1;
    }
    assert(dict.entries@.subrange(0, dict.entries@.len() as int) =~= dict.entries@);
    out
}

/// The media box four numbers denote, corners put in order, when it has
/// a positive width and height: `(llx, lly, urx, ury)` in millionths.
pub open spec fn media_box_of(items: Seq<ObjV>) -> Option<(int, int, int, int)> {
    if items.len() == 4 && real_micros(items[0]) is Some && real_micros(items[1]) is Some
        && real_micros(items[2]) is Some && real_micros(items[3]) is Some {
        let x0 = real_micros(items[0])->0;
        let y0 = real_micros(items[1])->0;
        let x1 = real_micros(items[2])->0;
        let y1 = real_micros(items[3])->0;
        if x0 == x1 || y0 == y1 {
            None
        } else {
            Some(
                (
                    crate::util::min_int(x0, x1),
                    crate::util::min_int(y0, y1),
                    crate::util::max_int(x0, x1),
                    crate::util::max_int(y0, y1),
                ),
            )
        }
    } else {
        None
    }
}

/// Reads a `/MediaBox` array: four numbers with their corners put in
/// order; `None` for a wrong element count, a non-number, or a zero width
/// or height.
pub fn parse_media_box(arr: &PdfArray) -> (r: Option<Rectangle>)
    ensures
        r is Some <==> media_box_of(view_objs(arr.items@)) is Some,
        r matches Some(rect) ==> media_box_of(view_objs(arr.items@)) == Some(
            (
                rect.llx.micros as int,
                rect.lly.micros as int,
                rect.urx.micros as int,
                rect.ury.micros as int,
            ),
        ),
{
    match crate::util::rect_from_items(arr) {
        Some(rect) => {
            if rect.llx.micros == rect.urx.micros || rect.lly.micros == rect.ury.micros {
                None
            } else {
                Some(rect)
            }
        },
        None => None,
    }
}

} // verus!
