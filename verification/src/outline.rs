//! The document outline (bookmarks, ISO 32000-1 12.3.3) and named
//! destinations (7.7.4, 7.9.6) of a document opened for editing.

use vstd::prelude::*;
use std::collections::HashSet;
use crate::graph::{chain_bound, dict_of, id_key, node_key, ref_id, table_get, table_set, EditableDocument, EditorError};
use crate::pages::ref_v;
use crate::object::{
    copy_array, entries_get, entries_remove, entries_set, lemma_view_objs, str_eq, ObjV, Object, ObjectId, PdfArray, PdfDictionary,
    PdfName, PdfReal,
};
use crate::util::{as_real, from_pdf_text_string, real_micros, text_of_bytes, text_value, to_pdf_text_string};

verus! {

broadcast use vstd::std_specs::hash::group_hash_axioms;

/// The most outline items a listing or a subtree count visits.
pub const MAX_OUTLINE_NODES: usize = 200000;

/// The most `/Parent` links followed when updating `/Count`.
pub const MAX_PARENT_DEPTH: usize = 1000;

/// A page destination (ISO 32000-1 12.3.2, Table 151): the two fit modes
/// this library writes and reads.
#[derive(Debug, Clone, Copy, PartialEq, Eq, Structural)]
pub enum Destination {
    /// `[page /Fit]`: fit the whole page in the window.
    FitPage {
        /// 0-based target page index.
        page_index: usize,
    },
    /// `[page /XYZ left top zoom]`: scroll to `(left, top)` at `zoom`
    /// magnification; `None` in a position leaves it unchanged.
    Xyz {
        /// 0-based target page index.
        page_index: usize,
        /// Left coordinate in unrotated page space, or `None`.
        left: Option<PdfReal>,
        /// Top coordinate in unrotated page space, or `None`.
        top: Option<PdfReal>,
        /// Zoom factor (1 = 100%), or `None`.
        zoom: Option<PdfReal>,
    },
}

/// The value written for an optional number: the real, or `null`.
pub open spec fn num_or_null_v(v: Option<PdfReal>) -> ObjV {
    match v {
        Some(x) => ObjV::Real(x.micros),
        None => ObjV::Null,
    }
}

/// The elements of the explicit destination array for `d` on the page
/// `page`.
pub open spec fn dest_items(d: Destination, page: ObjectId) -> Seq<ObjV> {
    match d {
        Destination::FitPage { .. } => seq![ObjV::Reference(page.number, page.generation), ObjV::Name("Fit"@)],
        Destination::Xyz { left, top, zoom, .. } => seq![
            ObjV::Reference(page.number, page.generation),
            ObjV::Name("XYZ"@),
            num_or_null_v(left),
            num_or_null_v(top),
            num_or_null_v(zoom),
        ],
    }
}

/// The index of the first occurrence of `id` in `ids` from index `i` on.
pub open spec fn position_from(ids: Seq<ObjectId>, id: ObjectId, i: int) -> Option<int>
    decreases ids.len() - i,
{
    if i < 0 || i >= ids.len() {
        None
    } else if ids[i] == id {
        Some(i)
    } else {
        position_from(ids, id, i + 1)
    }
}

/// The number at index `i` of `items` as a real, if it is a number.
pub open spec fn real_at(items: Seq<ObjV>, i: int) -> Option<PdfReal> {
    if 0 <= i < items.len() {
        match real_micros(items[i]) {
            Some(m) => Some(PdfReal { micros: m as i64 }),
            None => None,
        }
    } else {
        None
    }
}

/// The destination an explicit destination array denotes, given the
/// document's page ids: its first element must reference one of the
/// pages, its second be `/Fit`, `/FitB` or `/XYZ`.
pub open spec fn dest_from(ids: Seq<ObjectId>, items: Seq<ObjV>) -> Option<Destination> {
    if items.len() < 2 {
        None
    } else {
        match items[0] {
            ObjV::Reference(n, g) => match position_from(ids, ref_id(n, g), 0) {
                None => None,
                Some(k) => match items[1] {
                    ObjV::Name(t) => if t == "Fit"@ || t == "FitB"@ {
                        Some(Destination::FitPage { page_index: k as usize })
                    } else if t == "XYZ"@ {
                        Some(
                            Destination::Xyz {
                                page_index: k as usize,
                                left: real_at(items, 2),
                                top: real_at(items, 3),
                                zoom: real_at(items, 4),
                            },
                        )
                    } else {
                        None
                    },
                    _ => None,
                },
            },
            _ => None,
        }
    }
}

/// The id a reference value names, if it is one.
pub open spec fn ref_of(o: Option<ObjV>) -> Option<ObjectId> {
    match o {
        Some(ObjV::Reference(n, g)) => Some(ref_id(n, g)),
        _ => None,
    }
}

/// The value of the first key/value pair of a name-tree leaf array, from
/// the `k`-th pair on, whose key is a string decoding to `name`.
pub open spec fn pair_value(a: Seq<ObjV>, name: Seq<char>, k: int) -> Option<ObjV>
    decreases a.len() - 2 * k,
{
    if k < 0 || 2 * k + 1 >= a.len() {
        None
    } else if a[2 * k] matches ObjV::Str(_, b) && text_of_bytes(b) == name {
        Some(a[2 * k + 1])
    } else {
        pair_value(a, name, k + 1)
    }
}

/// The decoded string keys of the first `k` pairs of a name-tree leaf
/// array, in order; a pair whose key is not a string is passed over.
pub open spec fn pair_names(a: Seq<ObjV>, k: int) -> Seq<Seq<char>>
    decreases k,
{
    if k <= 0 {
        Seq::empty()
    } else {
        pair_names(a, k - 1) + match a[2 * (k - 1)] {
            ObjV::Str(_, b) => seq![text_of_bytes(b)],
            _ => Seq::empty(),
        }
    }
}

impl Destination {
    /// Fit the page at `page_index` to the window.
    pub fn fit(page_index: usize) -> (d: Destination)
        ensures
            d == (Destination::FitPage { page_index }),
    {
        Destination::FitPage { page_index }
    }

    /// The target page index.
    pub open spec fn spec_page_index(self) -> usize {
        match self {
            Destination::FitPage { page_index } => page_index,
            Destination::Xyz { page_index, .. } => page_index,
        }
    }

    fn page_index(&self) -> (i: usize)
        ensures
            i == self.spec_page_index(),
    {
        match self {
            Destination::FitPage { page_index } => *page_index,
            Destination::Xyz { page_index, .. } => *page_index,
        }
    }

    /// The explicit destination array (ISO 32000-1 Table 151) for this
    /// destination in `doc`.
    fn to_array(self, doc: &EditableDocument) -> (r: Result<PdfArray, EditorError>)
        ensures
            match doc.spec_page_ids() {
                Err(e) => r == Err::<PdfArray, EditorError>(e),
                Ok(ids) => if self.spec_page_index() < ids.len() {
                    r matches Ok(a) && a.view_items() == dest_items(self, ids[self.spec_page_index() as int])
                } else {
                    r == Err::<PdfArray, EditorError>(
                        EditorError::InvalidPageIndex { index: self.spec_page_index(), count: ids.len() as usize },
                    )
                },
            },
    {
        let page_id = doc.page_id_at(self.page_index())?;
        let arr = match self {
            Destination::FitPage { .. } => {
                let a = PdfArray::from_objects(vec![Object::Reference(page_id), Object::Name(PdfName::new_unchecked("Fit"))]);
                proof {
                    reveal_with_fuel(crate::object::view_objs, 3);
                    assert(a.view_items() =~= dest_items(self, page_id));
                }
                a
            },
            Destination::Xyz { left, top, zoom, .. } => {
                let a = PdfArray::from_objects(
                    vec![
                        Object::Reference(page_id),
                        Object::Name(PdfName::new_unchecked("XYZ")),
                        num_or_null(left),
                        num_or_null(top),
                        num_or_null(zoom),
                    ],
                );
                proof {
                    reveal_with_fuel(crate::object::view_objs, 6);
                    assert(a.view_items() =~= dest_items(self, page_id));
                }
                a
            },
        };
        Ok(arr)
    }
}

/// An optional number as an object: the real, or `null`.
fn num_or_null(v: Option<PdfReal>) -> (o: Object)
    ensures
        o.v() == num_or_null_v(v),
{
    match v {
        Some(n) => Object::Real(n),
        None => Object::Null,
    }
}

/// The number at index `i` of `arr` as a real.
fn real_item(arr: &PdfArray, i: usize) -> (r: Option<PdfReal>)
    ensures
        r == real_at(arr.view_items(), i as int),
{
    proof {
        lemma_view_objs(arr.items@);
    }
    match arr.get(i) {
        Some(o) => as_real(o),
        None => None,
    }
}

/// The index of the first occurrence of `id` in `ids`.
fn position_of(ids: &Vec<ObjectId>, id: ObjectId) -> (r: Option<usize>)
    ensures
        match position_from(ids@, id, 0) {
            Some(k) => r == Some(k as usize),
            None => r is None,
        },
{
    let mut i: usize = 0;
    while i < ids.len()
        invariant
            i <= ids@.len(),
            position_from(ids@, id, 0) == position_from(ids@, id, i as int),
        decreases ids@.len() - i,
    {
        if ids[i] == id {
            return Some(i);
        }
        i = i + 1;
    }
    None
}

impl EditableDocument {
    /// The destination an explicit destination array denotes; `None` when
    /// the page tree cannot be read.
    pub open spec fn dest_of_items(&self, items: Seq<ObjV>) -> Option<Destination> {
        match self.spec_page_ids() {
            Ok(ids) => dest_from(ids, items),
            Err(_) => None,
        }
    }

    /// The `/Names` array of the document's `/Dests` name tree root
    /// (catalog `/Names` -> `/Dests` -> `/Names`), each link a reference.
    pub open spec fn dests_array(&self) -> Option<Seq<ObjV>> {
        match self.dict(self.root_id()) {
            None => None,
            Some(c) => match ref_of(entries_get(c, "Names"@)) {
                None => None,
                Some(nid) => match self.dict(nid) {
                    None => None,
                    Some(nd) => match ref_of(entries_get(nd, "Dests"@)) {
                        None => None,
                        Some(did) => match self.dict(did) {
                            None => None,
                            Some(dd) => match entries_get(dd, "Names"@) {
                                Some(ObjV::Array(a)) => Some(a),
                                _ => None,
                            },
                        },
                    },
                },
            },
        }
    }

    /// How many name lookups a destination is followed through: the
    /// length of the name array.
    pub open spec fn named_fuel(&self) -> nat {
        match self.dests_array() {
            Some(a) => a.len(),
            None => 0,
        }
    }

    /// The destination a destination value resolves to: an explicit
    /// array, directly or through a reference, or a name or string looked
    /// up among the named destinations, following at most `fuel` names.
    pub open spec fn resolve_v(&self, d: ObjV, fuel: nat) -> Option<Destination>
        decreases fuel, 0int,
    {
        match d {
            ObjV::Array(items) => self.dest_of_items(items),
            ObjV::Reference(n, g) => match self.object(ref_id(n, g)) {
                Some(ObjV::Array(items)) => self.dest_of_items(items),
                _ => None,
            },
            ObjV::Name(t) => if fuel == 0 {
                None
            } else {
                self.named_v(t, (fuel - 1) as nat)
            },
            ObjV::Str(_, b) => if fuel == 0 {
                None
            } else {
                self.named_v(text_of_bytes(b), (fuel - 1) as nat)
            },
            _ => None,
        }
    }

    /// The destination the named destination `name` resolves to.
    pub open spec fn named_v(&self, name: Seq<char>, fuel: nat) -> Option<Destination>
        decreases fuel, 1int,
    {
        match self.dests_array() {
            None => None,
            Some(a) => match pair_value(a, name, 0) {
                None => None,
                Some(v) => self.resolve_v(v, fuel),
            },
        }
    }

    /// The destination an explicit destination array denotes.
    fn dest_from_array(&self, arr: &PdfArray) -> (r: Option<Destination>)
        ensures
            r == self.dest_of_items(arr.view_items()),
    {
        proof {
            lemma_view_objs(arr.items@);
        }
        let page_id = match arr.get(0) {
            Some(Object::Reference(id)) => *id,
            _ => {
                return None;
            },
        };
        assert(ref_id(page_id.number, page_id.generation) == page_id);
        let ids = match self.page_ids() {
            Ok(ids) => ids,
            Err(_) => {
                return None;
            },
        };
        let page_index = match position_of(&ids, page_id) {
            Some(k) => k,
            None => {
                return None;
            },
        };
        let kind = match arr.get(1) {
            Some(Object::Name(n)) => n,
            _ => {
                return None;
            },
        };
        if str_eq(kind.as_str(), "Fit") || str_eq(kind.as_str(), "FitB") {
            Some(Destination::FitPage { page_index })
        } else if str_eq(kind.as_str(), "XYZ") {
            Some(
                Destination::Xyz {
                    page_index,
                    left: real_item(arr, 2),
                    top: real_item(arr, 3),
                    zoom: real_item(arr, 4),
                },
            )
        } else {
            None
        }
    }

    /// The `/Names` array of the `/Dests` name tree root, if the
    /// document has one.
    fn dests_names(&self) -> (r: Option<PdfArray>)
        ensures
            match self.dests_array() {
                Some(a) => r matches Some(x) && x.view_items() == a,
                None => r is None,
            },
    {
        let catalog = match self.catalog() {
            Ok(c) => c,
            Err(_) => {
                return None;
            },
        };
        let names_id = match catalog.get("Names") {
            Some(Object::Reference(id)) => *id,
            _ => {
                return None;
            },
        };
        assert(ref_id(names_id.number, names_id.generation) == names_id);
        let names_dict = match self.get_dictionary(names_id) {
            Ok(d) => d,
            Err(_) => {
                return None;
            },
        };
        let dests_id = match names_dict.get("Dests") {
            Some(Object::Reference(id)) => *id,
            _ => {
                return None;
            },
        };
        assert(ref_id(dests_id.number, dests_id.generation) == dests_id);
        let dests = match self.get_dictionary(dests_id) {
            Ok(d) => d,
            Err(_) => {
                return None;
            },
        };
        match dests.get("Names") {
            Some(Object::Array(a)) => Some(copy_array(a)),
            _ => None,
        }
    }

    /// Resolves a destination value, following at most `fuel` names
    /// through `names`, the document's named-destination array.
    fn resolve_value(&self, dest: &Object, names: &Option<PdfArray>, fuel: usize) -> (r: Option<Destination>)
        requires
            match self.dests_array() {
                Some(a) => names matches Some(x) && x.view_items() == a,
                None => names is None,
            },
        ensures
            r == self.resolve_v(dest.v(), fuel as nat),
        decreases fuel, 0int,
    {
        match dest {
            Object::Array(arr) => self.dest_from_array(arr),
            Object::Reference(id) => {
                assert(ref_id(id.number, id.generation) == *id);
                match self.get_object(*id) {
                    Some(Object::Array(arr)) => self.dest_from_array(&arr),
                    _ => None,
                }
            },
            Object::Name(n) => {
                if fuel == 0 {
                    None
                } else {
                    self.lookup_named(names, n.as_str(), fuel - 1)
                }
            },
            Object::String(s) => {
                if fuel == 0 {
                    None
                } else {
                    let text = from_pdf_text_string(s);
                    self.lookup_named(names, text.as_str(), fuel - 1)
                }
            },
            _ => None,
        }
    }

    /// Looks `name` up among the named destinations `names` and resolves
    /// its value, following at most `fuel` further names.
    fn lookup_named(&self, names: &Option<PdfArray>, name: &str, fuel: usize) -> (r: Option<Destination>)
        requires
            match self.dests_array() {
                Some(a) => names matches Some(x) && x.view_items() == a,
                None => names is None,
            },
        ensures
            r == self.named_v(name@, fuel as nat),
        decreases fuel, 1int,
    {
        let arr = match names {
            Some(a) => a,
            None => {
                return None;
            },
        };
        let ghost a = arr.view_items();
        proof {
            lemma_view_objs(arr.items@);
        }
        let n = arr.items.len();
        let mut k: usize = 0;
        while k < n / 2
            invariant
                n == arr.items@.len(),
                a == arr.view_items(),
                a.len() == n,
                k <= n / 2,
                forall|j: int| 0 <= j < n ==> #[trigger] a[j] == arr.items@[j].v(),
                pair_value(a, name@, 0) == pair_value(a, name@, k as int),
                self.dests_array() == Some(a),
                names matches Some(x) && x.view_items() == a,
            decreases n / 2 - k,
        {
            let key = &arr.items[2 * k];
            if let Object::String(s) = key {
                let text = from_pdf_text_string(s);
                if str_eq(text.as_str(), name) {
                    proof {
                        assert(a[2 * k as int] == key.v());
                        assert(pair_value(a, name@, k as int) == Some(a[2 * k + 1]));
                        assert(a[2 * k + 1] == arr.items@[2 * k + 1].v());
                    }
                    return self.resolve_value(&arr.items[2 * k + 1], names, fuel);
                }
            }
            k = k + 1;
        }
        None
    }

    /// Looks up a named destination (ISO 32000-1 7.7.4) in the `/Dests`
    /// name tree's root array. A value that is itself a name is looked up
    /// in turn, through at most as many names as that array has elements.
    pub fn get_named_destination(&self, name: &str) -> (r: Result<Option<Destination>, EditorError>)
        ensures
            r == Ok::<Option<Destination>, EditorError>(self.named_v(name@, self.named_fuel())),
    {
        let names = self.dests_names();
        let fuel = match &names {
            Some(a) => {
                proof {
                    lemma_view_objs(a.items@);
                }
                a.len()
            },
            None => 0,
        };
        Ok(self.lookup_named(&names, name, fuel))
    }

    /// The names of every named destination, in the order of the name
    /// array (sorted, in a conformant file).
    pub fn named_destinations(&self) -> (r: Result<Vec<String>, EditorError>)
        ensures
            r matches Ok(v) && match self.dests_array() {
                Some(a) => v@.len() == pair_names(a, (a.len() / 2) as int).len() && forall|i: int|
                    0 <= i < v@.len() ==> #[trigger] v@[i]@ == pair_names(a, (a.len() / 2) as int)[i],
                None => v@.len() == 0,
            },
    {
        let mut out: Vec<String> = Vec::new();
        let arr = match self.dests_names() {
            Some(a) => a,
            None => {
                return Ok(out);
            },
        };
        let ghost a = arr.view_items();
        proof {
            lemma_view_objs(arr.items@);
        }
        let n = arr.items.len();
        let mut k: usize = 0;
        while k < n / 2
            invariant
                n == arr.items@.len(),
                a == arr.view_items(),
                a.len() == n,
                k <= n / 2,
                forall|j: int| 0 <= j < n ==> #[trigger] a[j] == arr.items@[j].v(),
                out@.len() == pair_names(a, k as int).len(),
                forall|i: int| 0 <= i < out@.len() ==> #[trigger] out@[i]@ == pair_names(a, k as int)[i],
            decreases n / 2 - k,
        {
            let ghost before = out@;
            if let Object::String(s) = &arr.items[2 * k] {
                out.push(from_pdf_text_string(s));
            }
            proof {
                assert(pair_names(a, k + 1) == pair_names(a, k as int) + match a[2 * k] {
                    ObjV::Str(_, b) => seq![text_of_bytes(b)],
                    _ => Seq::<Seq<char>>::empty(),
                });
            }
            k = k + 1;
        }
        Ok(out)
    }
}


/// One item of the outline tree, as listed by
/// [`EditableDocument::list_bookmarks`].
#[derive(Debug)]
pub struct BookmarkNode {
    /// The outline item's own object id.
    pub id: ObjectId,
    /// Its display title (`/Title`).
    pub title: String,
    /// Where it points, if that resolves.
    pub dest: Option<Destination>,
    /// Its child items, in document order.
    pub children: Vec<BookmarkNode>,
}

/// The value of an outline item: its id, title, destination and
/// children.
pub struct BookmarkV {
    /// The item's object id.
    pub id: ObjectId,
    /// The title's text.
    pub title: Seq<char>,
    /// The destination it resolves to.
    pub dest: Option<Destination>,
    /// The children's values.
    pub children: Seq<BookmarkV>,
}

/// The value of a listed outline item.
pub open spec fn bm_view(n: BookmarkNode) -> BookmarkV
    decreases n,
{
    BookmarkV { id: n.id, title: n.title@, dest: n.dest, children: bms_view(n.children@) }
}

/// The values of a sequence of listed outline items.
pub open spec fn bms_view(s: Seq<BookmarkNode>) -> Seq<BookmarkV>
    decreases s,
{
    if s.len() == 0 {
        Seq::empty()
    } else {
        bms_view(s.drop_last()).push(bm_view(s.last()))
    }
}

impl EditableDocument {
    /// The destination an outline item (or any dictionary) points at: its
    /// `/Dest`, else the `/D` of a `/GoTo` action in `/A`.
    pub open spec fn dest_of_dict(&self, d: Seq<(Seq<char>, ObjV)>) -> Option<Destination> {
        let from_dest = match entries_get(d, "Dest"@) {
            Some(v) => self.resolve_v(v, self.named_fuel()),
            None => None,
        };
        if from_dest is Some {
            from_dest
        } else {
            match entries_get(d, "A"@) {
                Some(ObjV::Dict(action)) => if entries_get(action, "S"@) == Some(ObjV::Name("GoTo"@)) {
                    match entries_get(action, "D"@) {
                        Some(v) => self.resolve_v(v, self.named_fuel()),
                        None => None,
                    }
                } else {
                    None
                },
                _ => None,
            }
        }
    }

    /// The listing of the chain of sibling items starting at `node` (each
    /// followed by its `/Next`), with the keys of the items already
    /// visited: the items and the keys visited after it. An item already
    /// visited, or one past `MAX_OUTLINE_NODES` items, ends the chain; so
    /// does an id that is not a dictionary, and `fuel` running out.
    pub open spec fn outline_chain(&self, node: ObjectId, visited: Set<u64>, fuel: nat) -> (Seq<BookmarkV>, Set<u64>)
        decreases fuel,
    {
        if fuel == 0 || visited.len() >= MAX_OUTLINE_NODES || visited.contains(id_key(node)) {
            (Seq::empty(), visited)
        } else {
            let v1 = visited.insert(id_key(node));
            match self.dict(node) {
                None => (Seq::empty(), v1),
                Some(d) => {
                    let title = match entries_get(d, "Title"@) {
                        Some(ObjV::Str(_, b)) => text_of_bytes(b),
                        _ => Seq::empty(),
                    };
                    let kids = match ref_of(entries_get(d, "First"@)) {
                        Some(f) => self.outline_chain(f, v1, (fuel - 1) as nat),
                        None => (Seq::empty(), v1),
                    };
                    let item = BookmarkV { id: node, title, dest: self.dest_of_dict(d), children: kids.0 };
                    match ref_of(entries_get(d, "Next"@)) {
                        Some(nx) => {
                            let rest = self.outline_chain(nx, kids.1, (fuel - 1) as nat);
                            (seq![item] + rest.0, rest.1)
                        },
                        None => (seq![item], kids.1),
                    }
                },
            }
        }
    }

    /// The first top-level outline item: catalog `/Outlines` -> `/First`.
    pub open spec fn outline_first(&self) -> Option<ObjectId> {
        match self.dict(self.root_id()) {
            None => None,
            Some(c) => match ref_of(entries_get(c, "Outlines"@)) {
                None => None,
                Some(o) => match self.dict(o) {
                    None => None,
                    Some(od) => ref_of(entries_get(od, "First"@)),
                },
            },
        }
    }

    /// The destination `dict` points at (see `dest_of_dict`).
    fn resolve_dest(&self, dict: &crate::object::PdfDictionary, names: &Option<PdfArray>) -> (r: Option<Destination>)
        requires
            match self.dests_array() {
                Some(a) => names matches Some(x) && x.view_items() == a,
                None => names is None,
            },
        ensures
            r == self.dest_of_dict(dict.view_entries()),
    {
        let fuel = match names {
            Some(a) => {
                proof {
                    lemma_view_objs(a.items@);
                }
                a.len()
            },
            None => 0,
        };
        if let Some(dest) = dict.get("Dest") {
            let d = self.resolve_value(dest, names, fuel);
            if d.is_some() {
                return d;
            }
        }
        if let Some(Object::Dictionary(action)) = dict.get("A") {
            let is_goto = match action.get("S") {
                Some(Object::Name(n)) => str_eq(n.as_str(), "GoTo"),
                _ => false,
            };
            proof {
                reveal_strlit("GoTo");
            }
            if is_goto {
                if let Some(d) = action.get("D") {
                    return self.resolve_value(d, names, fuel);
                }
            }
        }
        None
    }

    /// Lists the chain of sibling items starting at `start`, with their
    /// subtrees, recording visited items in `visited`.
    fn list_siblings(&self, start: ObjectId, visited: &mut HashSet<u64>, names: &Option<PdfArray>, Ghost(fuel): Ghost<nat>) -> (out: Vec<BookmarkNode>)
        requires
            match self.dests_array() {
                Some(a) => names matches Some(x) && x.view_items() == a,
                None => names is None,
            },
            old(visited)@.finite(),
            fuel + old(visited)@.len() > MAX_OUTLINE_NODES,
        ensures
            (bms_view(out@), final(visited)@) == self.outline_chain(start, old(visited)@, fuel),
            final(visited)@.finite(),
            old(visited)@.subset_of(final(visited)@),
        decreases fuel,
    {
        let mut out: Vec<BookmarkNode> = Vec::new();
        let mut node = start;
        let ghost mut f: nat = fuel;
        let ghost target = self.outline_chain(start, visited@, fuel);
        let ghost v0 = visited@;
        loop
            invariant
                match self.dests_array() {
                    Some(a) => names matches Some(x) && x.view_items() == a,
                    None => names is None,
                },
                visited@.finite(),
                f + visited@.len() > MAX_OUTLINE_NODES,
                v0.subset_of(visited@),
                f <= fuel,
                (bms_view(out@) + self.outline_chain(node, visited@, f).0, self.outline_chain(node, visited@, f).1) == target,
            ensures
                (bms_view(out@), visited@) == target,
                visited@.finite(),
                v0.subset_of(visited@),
            decreases f,
        {
            let ghost vs = visited@;
            if visited.len() >= MAX_OUTLINE_NODES {
                assert(bms_view(out@) + Seq::<BookmarkV>::empty() =~= bms_view(out@));
                break;
            }
            let key = node_key(node);
            if !visited.insert(key) {
                assert(visited@ =~= vs);
                assert(bms_view(out@) + Seq::<BookmarkV>::empty() =~= bms_view(out@));
                break;
            }
            assert(f > 0);
            let ghost v1 = visited@;
            proof {
                vstd::set::axiom_set_insert_len(vs, key);
            }
            let dict = match self.get_dictionary(node) {
                Ok(d) => d,
                Err(_) => {
                    assert(bms_view(out@) + Seq::<BookmarkV>::empty() =~= bms_view(out@));
                    break;
                },
            };
            let ghost d = dict.view_entries();
            let title = match dict.get("Title") {
                Some(Object::String(s)) => from_pdf_text_string(s),
                _ => String::new(),
            };
            let dest = self.resolve_dest(&dict, names);
            let children = match dict.get("First") {
                Some(Object::Reference(first)) => {
                    assert(ref_id(first.number, first.generation) == *first);
                    self.list_siblings(*first, visited, names, Ghost((f - 1) as nat))
                },
                _ => Vec::new(),
            };
            let ghost v2 = visited@;
            proof {
                vstd::set_lib::lemma_len_subset(v1, v2);
            }
            let ghost kids = bms_view(children@);
            let ghost item = BookmarkV { id: node, title: title@, dest, children: kids };
            let ghost before = out@;
            let ghost gt = title;
            let ghost gc = children;
            out.push(BookmarkNode { id: node, title, dest, children });
            proof {
                assert(out@.drop_last() =~= before);
                assert(out@.last() == BookmarkNode { id: node, title: gt, dest, children: gc });
                assert(bm_view(out@.last()) == item);
                assert(bms_view(out@) == bms_view(before).push(item));
            }
            match dict.get("Next") {
                Some(Object::Reference(next)) => {
                    assert(ref_id(next.number, next.generation) == *next);
                    proof {
                        assert(bms_view(before) + self.outline_chain(node, vs, f).0 =~= bms_view(out@)
                            + self.outline_chain(*next, v2, (f - 1) as nat).0);
                        f = (f - 1) as nat;
                    }
                    node = *next;
                },
                _ => {
                    assert(bms_view(before) + self.outline_chain(node, vs, f).0 =~= bms_view(out@));
                    break;
                },
            }
        }
        out
    }

    /// The outline (bookmark) tree (ISO 32000-1 12.3.3), in document
    /// order. A document without an outline has an empty one; cycles in
    /// the `/First` and `/Next` links are passed over.
    pub fn list_bookmarks(&self) -> (r: Result<Vec<BookmarkNode>, EditorError>)
        ensures
            r matches Ok(v) && match self.outline_first() {
                None => v@.len() == 0,
                Some(first) => bms_view(v@) == self.outline_chain(first, Set::empty(), (MAX_OUTLINE_NODES + 1) as nat).0,
            },
    {
        let catalog = match self.catalog() {
            Ok(c) => c,
            Err(_) => {
                return Ok(Vec::new());
            },
        };
        let outlines_id = match catalog.get("Outlines") {
            Some(Object::Reference(id)) => *id,
            _ => {
                return Ok(Vec::new());
            },
        };
        assert(ref_id(outlines_id.number, outlines_id.generation) == outlines_id);
        let outlines = match self.get_dictionary(outlines_id) {
            Ok(d) => d,
            Err(_) => {
                return Ok(Vec::new());
            },
        };
        let first = match outlines.get("First") {
            Some(Object::Reference(id)) => *id,
            _ => {
                return Ok(Vec::new());
            },
        };
        assert(ref_id(first.number, first.generation) == first);
        let names = self.dests_names();
        let mut visited: HashSet<u64> = HashSet::new();
        proof {
            assert(visited@ =~= Set::<u64>::empty());
        }
        Ok(self.list_siblings(first, &mut visited, &names, Ghost((MAX_OUTLINE_NODES + 1) as nat)))
    }
}


/// The object stored under `id`, given the edited objects `ov` and the
/// file's objects `base`.
pub open spec fn obj_in(ov: Seq<(ObjectId, ObjV)>, base: Seq<(ObjectId, ObjV)>, id: ObjectId) -> Option<ObjV> {
    match table_get(ov, id) {
        Some(v) => Some(v),
        None => table_get(base, id),
    }
}

/// Adding `delta` to the `/Count` of `id` and of its `/Parent` chain, at
/// most `steps` items: the edited objects after it, and whether it
/// succeeded. A missing `/Count` counts as 0; a count that would leave
/// the 64-bit range is refused.
pub open spec fn bump_counts(
    ov: Seq<(ObjectId, ObjV)>,
    base: Seq<(ObjectId, ObjV)>,
    id: ObjectId,
    delta: int,
    steps: nat,
) -> (Seq<(ObjectId, ObjV)>, Result<(), EditorError>)
    decreases steps,
{
    if steps == 0 {
        (ov, Ok(()))
    } else {
        match dict_of(obj_in(ov, base, id)) {
            None => (ov, Err(EditorError::UnresolvedObject(id.number, id.generation))),
            Some(d) => {
                let cur: int = match entries_get(d, "Count"@) {
                    Some(ObjV::Integer(c)) => c as int,
                    _ => 0,
                };
                if !(i64::MIN <= cur + delta <= i64::MAX) {
                    (ov, Err(EditorError::ResourceLimitExceeded))
                } else {
                    let d2 = entries_set(d, "Count"@, ObjV::Integer((cur + delta) as i64));
                    let ov2 = table_set(ov, id, ObjV::Dict(d2));
                    match ref_of(entries_get(d2, "Parent"@)) {
                        Some(p) => bump_counts(ov2, base, p, delta, (steps - 1) as nat),
                        None => (ov2, Ok(())),
                    }
                }
            },
        }
    }
}

/// The outline root in force after making sure the catalog has one: the
/// edited objects, the next object number and the root's id. A catalog
/// without an `/Outlines` reference gets a new `/Type /Outlines`
/// dictionary under the next number.
pub open spec fn with_outlines_root(ov: Seq<(ObjectId, ObjV)>, base: Seq<(ObjectId, ObjV)>, root: ObjectId, next: u32) -> Result<
    (Seq<(ObjectId, ObjV)>, u32, ObjectId),
    EditorError,
> {
    match dict_of(obj_in(ov, base, root)) {
        None => Err(EditorError::UnresolvedObject(root.number, root.generation)),
        Some(c) => match ref_of(entries_get(c, "Outlines"@)) {
            Some(o) => Ok((ov, next, o)),
            None => {
                let id = ObjectId { number: next, generation: 0 };
                let ov1 = table_set(ov, id, ObjV::Dict(seq![("Type"@, ObjV::Name("Outlines"@))]));
                let ov2 = table_set(ov1, root, ObjV::Dict(entries_set(c, "Outlines"@, ref_v(id))));
                Ok((ov2, (next + 1) as u32, id))
            },
        },
    }
}

/// The entries of a new outline item.
pub open spec fn bookmark_entries(title: Seq<char>, parent: ObjectId, dest: Seq<ObjV>) -> Seq<(Seq<char>, ObjV)> {
    entries_set(
        entries_set(entries_set(Seq::empty(), "Title"@, text_value(title)), "Parent"@, ref_v(parent)),
        "Dest"@,
        ObjV::Array(dest),
    )
}

/// Linking the new item `item` as the last child of `parent`: after the
/// old last child (its `/Next`, the item's `/Prev`), or as the first.
pub open spec fn link_last(ov: Seq<(ObjectId, ObjV)>, base: Seq<(ObjectId, ObjV)>, parent: ObjectId, item: ObjectId) -> (
    Seq<(ObjectId, ObjV)>,
    Result<(), EditorError>,
) {
    match dict_of(obj_in(ov, base, parent)) {
        None => (ov, Err(EditorError::UnresolvedObject(parent.number, parent.generation))),
        Some(pd) => match ref_of(entries_get(pd, "Last"@)) {
            Some(last) => match dict_of(obj_in(ov, base, last)) {
                None => (ov, Err(EditorError::UnresolvedObject(last.number, last.generation))),
                Some(ld) => {
                    let ov1 = table_set(ov, last, ObjV::Dict(entries_set(ld, "Next"@, ref_v(item))));
                    match dict_of(obj_in(ov1, base, item)) {
                        None => (ov1, Err(EditorError::UnresolvedObject(item.number, item.generation))),
                        Some(idict) => {
                            let ov2 = table_set(ov1, item, ObjV::Dict(entries_set(idict, "Prev"@, ref_v(last))));
                            (table_set(ov2, parent, ObjV::Dict(entries_set(pd, "Last"@, ref_v(item)))), Ok(()))
                        },
                    }
                },
            },
            None => (
                table_set(ov, parent, ObjV::Dict(entries_set(entries_set(pd, "First"@, ref_v(item)), "Last"@, ref_v(item)))),
                Ok(()),
            ),
        },
    }
}

/// Adding an outline item titled `title` with the destination array
/// `dest` under `parent` (the outline root when `None`): the edited
/// objects, the next object number and the result.
pub open spec fn add_bookmark_v(
    ov: Seq<(ObjectId, ObjV)>,
    base: Seq<(ObjectId, ObjV)>,
    root: ObjectId,
    next: u32,
    parent: Option<ObjectId>,
    title: Seq<char>,
    dest: Seq<ObjV>,
) -> (Seq<(ObjectId, ObjV)>, u32, Result<ObjectId, EditorError>) {
    match with_outlines_root(ov, base, root, next) {
        Err(e) => (ov, next, Err(e)),
        Ok((ov1, next1, outlines)) => {
            let parent_id = match parent {
                Some(p) => p,
                None => outlines,
            };
            let item = ObjectId { number: next1, generation: 0 };
            let ov2 = table_set(ov1, item, ObjV::Dict(bookmark_entries(title, parent_id, dest)));
            let next2 = (next1 + 1) as u32;
            let linked = link_last(ov2, base, parent_id, item);
            match linked.1 {
                Err(e) => (linked.0, next2, Err(e)),
                Ok(_) => {
                    let bumped = bump_counts(linked.0, base, parent_id, 1, MAX_PARENT_DEPTH as nat);
                    match bumped.1 {
                        Err(e) => (bumped.0, next2, Err(e)),
                        Ok(_) => (bumped.0, next2, Ok(item)),
                    }
                },
            }
        },
    }
}

/// Storing `v` under `id` changes what is stored under `id` alone.
pub proof fn lemma_obj_in_set(ov: Seq<(ObjectId, ObjV)>, base: Seq<(ObjectId, ObjV)>, id: ObjectId, v: ObjV, x: ObjectId)
    ensures
        obj_in(table_set(ov, id, v), base, x) == if x == id {
            Some(v)
        } else {
            obj_in(ov, base, x)
        },
{
    crate::graph::lemma_table_get_set(ov, id, v, x);
}

impl EditableDocument {
    /// Adds `delta` to `/Count` (ISO 32000-1 Tables 152, 153) of `start`
    /// and of each item up its `/Parent` chain, at most
    /// `MAX_PARENT_DEPTH` items.
    fn bump_ancestor_counts(&mut self, start: ObjectId, delta: i64) -> (r: Result<(), EditorError>)
        requires
            old(self).wf(),
        ensures
            final(self).wf(),
            final(self).same_but_overlay(old(self)),
            (final(self).overlay_v(), r) == bump_counts(
                old(self).overlay_v(),
                old(self).base_v(),
                start,
                delta as int,
                MAX_PARENT_DEPTH as nat,
            ),
    {
        let ghost target = bump_counts(self.overlay_v(), self.base_v(), start, delta as int, MAX_PARENT_DEPTH as nat);
        let mut id = start;
        let mut i: usize = 0;
        while i < MAX_PARENT_DEPTH
            invariant
                self.wf(),
                self.same_but_overlay(old(self)),
                target == bump_counts(old(self).overlay_v(), old(self).base_v(), start, delta as int, MAX_PARENT_DEPTH as nat),
                i <= MAX_PARENT_DEPTH,
                bump_counts(self.overlay_v(), self.base_v(), id, delta as int, (MAX_PARENT_DEPTH - i) as nat) == target,
            decreases MAX_PARENT_DEPTH - i,
        {
            let mut dict = self.get_dictionary(id)?;
            let current: i64 = match dict.get("Count") {
                Some(Object::Integer(c)) => *c,
                _ => 0,
            };
            let updated = match current.checked_add(delta) {
                Some(v) => v,
                None => {
                    return Err(EditorError::ResourceLimitExceeded);
                },
            };
            dict.set("Count", Object::Integer(updated));
            let parent = match dict.get("Parent") {
                Some(Object::Reference(p)) => Some(*p),
                _ => None,
            };
            self.store_dict(id, dict);
            match parent {
                Some(p) => {
                    assert(ref_id(p.number, p.generation) == p);
                    id = p;
                },
                None => {
                    return Ok(());
                },
            }
            i = i + 1;
        }
        Ok(())
    }

    /// The id of the outline root, creating an empty `/Type /Outlines`
    /// dictionary and the catalog's `/Outlines` entry when there is none.
    fn outlines_root_id(&mut self) -> (r: Result<ObjectId, EditorError>)
        requires
            old(self).wf(),
            old(self).next_number() < u32::MAX,
        ensures
            final(self).wf(),
            final(self).same_but_overlay_next(old(self)),
            match with_outlines_root(old(self).overlay_v(), old(self).base_v(), old(self).root_id(), old(self).next_number()) {
                Err(e) => r == Err::<ObjectId, EditorError>(e) && final(self).overlay_v() == old(self).overlay_v()
                    && final(self).next_number() == old(self).next_number(),
                Ok((ov, next, id)) => r == Ok::<ObjectId, EditorError>(id) && final(self).overlay_v() == ov
                    && final(self).next_number() == next,
            },
    {
        let mut catalog = self.catalog()?;
        if let Some(Object::Reference(id)) = catalog.get("Outlines") {
            assert(ref_id(id.number, id.generation) == *id);
            return Ok(*id);
        }
        let mut outlines = PdfDictionary::new();
        outlines.set("Type", Object::Name(PdfName::new_unchecked("Outlines")));
        proof {
            assert(outlines.view_entries() =~= seq![("Type"@, ObjV::Name("Outlines"@))]);
        }
        let ghost c = catalog.view_entries();
        let id = self.store_new_dict(outlines);
        catalog.set("Outlines", Object::Reference(id));
        let root = self.catalog_id();
        proof {
            self.lemma_root_stored();
        }
        self.store_dict(root, catalog);
        Ok(id)
    }

    /// Adds an outline item (bookmark, ISO 32000-1 12.3.3) titled
    /// `title` pointing at `dest`, as the last child of `parent` (of the
    /// outline root when `None`), creating the outline root when the
    /// document has none, and adds one to the `/Count` of `parent` and of
    /// its ancestors. Returns the new item's id.
    pub fn add_bookmark(&mut self, parent: Option<ObjectId>, title: &str, dest: Destination) -> (r: Result<ObjectId, EditorError>)
        requires
            old(self).wf(),
            old(self).next_number() < u32::MAX - 1,
        ensures
            final(self).wf(),
            final(self).same_but_overlay_next(old(self)),
            match old(self).spec_page_ids() {
                Err(e) => r == Err::<ObjectId, EditorError>(e) && final(self).overlay_v() == old(self).overlay_v()
                    && final(self).next_number() == old(self).next_number(),
                Ok(ids) => if dest.spec_page_index() < ids.len() {
                    (final(self).overlay_v(), final(self).next_number(), r) == add_bookmark_v(
                        old(self).overlay_v(),
                        old(self).base_v(),
                        old(self).root_id(),
                        old(self).next_number(),
                        parent,
                        title@,
                        dest_items(dest, ids[dest.spec_page_index() as int]),
                    )
                } else {
                    &&& r == Err::<ObjectId, EditorError>(
                        EditorError::InvalidPageIndex { index: dest.spec_page_index(), count: ids.len() as usize },
                    )
                    &&& final(self).overlay_v() == old(self).overlay_v()
                    &&& final(self).next_number() == old(self).next_number()
                },
            },
    {
        let dest_array = dest.to_array(self)?;
        let ghost dv = dest_array.view_items();
        let ghost s0 = *self;
        let outlines_id = self.outlines_root_id()?;
        let parent_id = match parent {
            Some(p) => p,
            None => outlines_id,
        };
        let ghost ov1 = self.overlay_v();
        let mut item = PdfDictionary::new();
        proof {
            assert(item.view_entries() =~= Seq::<(Seq<char>, ObjV)>::empty());
        }
        item.set("Title", Object::String(to_pdf_text_string(title)));
        item.set("Parent", Object::Reference(parent_id));
        item.set("Dest", Object::Array(dest_array));
        let item_id = self.store_new_dict(item);
        let ghost ov2 = self.overlay_v();
        let ghost next2 = self.next_number();
        let mut parent_dict = self.get_dictionary(parent_id)?;
        let ghost pd = parent_dict.view_entries();
        match parent_dict.get("Last") {
            Some(Object::Reference(old_last)) => {
                let old_last = *old_last;
                assert(ref_id(old_last.number, old_last.generation) == old_last);
                let mut old_last_dict = self.get_dictionary(old_last)?;
                old_last_dict.set("Next", Object::Reference(item_id));
                let ghost ova = self.overlay_v();
                self.store_dict(old_last, old_last_dict);
                proof {
                    lemma_obj_in_set(ova, self.base_v(), old_last, ObjV::Dict(old_last_dict.view_entries()), parent_id);
                    lemma_obj_in_set(ova, self.base_v(), old_last, ObjV::Dict(old_last_dict.view_entries()), item_id);
                }
                let mut item_dict = self.get_dictionary(item_id)?;
                item_dict.set("Prev", Object::Reference(old_last));
                let ghost ovb = self.overlay_v();
                self.store_dict(item_id, item_dict);
                proof {
                    lemma_obj_in_set(ovb, self.base_v(), item_id, ObjV::Dict(item_dict.view_entries()), parent_id);
                }
            },
            _ => {
                parent_dict.set("First", Object::Reference(item_id));
            },
        }
        parent_dict.set("Last", Object::Reference(item_id));
        self.store_dict(parent_id, parent_dict);
        proof {
            assert((self.overlay_v(), Ok::<(), EditorError>(())) == link_last(ov2, self.base_v(), parent_id, item_id));
        }
        self.bump_ancestor_counts(parent_id, 1)?;
        Ok(item_id)
    }
}


/// The count of the outline subtree at `id` among the objects `ov` over
/// `base`, with the keys of the items already counted: the number of
/// items newly counted (the item and, through its `/First` chain, its
/// descendants) and the keys counted after it. An item already counted,
/// or one past `MAX_OUTLINE_NODES` items, counts 0.
pub open spec fn count_v(ov: Seq<(ObjectId, ObjV)>, base: Seq<(ObjectId, ObjV)>, id: ObjectId, visited: Set<u64>, fuel: nat) -> (
    Result<nat, EditorError>,
    Set<u64>,
)
    decreases fuel, 1int, 0nat,
{
    if fuel == 0 || visited.len() >= MAX_OUTLINE_NODES || visited.contains(id_key(id)) {
        (Ok(0), visited)
    } else {
        let v1 = visited.insert(id_key(id));
        match dict_of(obj_in(ov, base, id)) {
            None => (Ok(1), v1),
            Some(d) => match ref_of(entries_get(d, "First"@)) {
                None => (Ok(1), v1),
                Some(f) => {
                    let c = count_chain(ov, base, f, v1, fuel, chain_bound(ov, base) as nat);
                    match c.0 {
                        Ok(t) => (Ok(1 + t), c.1),
                        Err(e) => (Err(e), c.1),
                    }
                },
            },
        }
    }
}

/// The count of the subtrees of a chain of siblings from `id` (each
/// followed by its `/Next`), for at most `steps` siblings: a longer chain
/// repeats an item. A sibling that is not a dictionary is an error.
pub open spec fn count_chain(
    ov: Seq<(ObjectId, ObjV)>,
    base: Seq<(ObjectId, ObjV)>,
    id: ObjectId,
    visited: Set<u64>,
    fuel: nat,
    steps: nat,
) -> (Result<nat, EditorError>, Set<u64>)
    decreases fuel, 0int, steps,
{
    if fuel == 0 || steps == 0 || visited.len() >= MAX_OUTLINE_NODES {
        (Ok(0), visited)
    } else {
        let c = count_v(ov, base, id, visited, (fuel - 1) as nat);
        match c.0 {
            Err(e) => (Err(e), c.1),
            Ok(t) => match dict_of(obj_in(ov, base, id)) {
                None => (Err(EditorError::UnresolvedObject(id.number, id.generation)), c.1),
                Some(sd) => match ref_of(entries_get(sd, "Next"@)) {
                    None => (Ok(t), c.1),
                    Some(nx) => {
                        let rest = count_chain(ov, base, nx, c.1, fuel, (steps - 1) as nat);
                        match rest.0 {
                            Ok(t2) => (Ok(t + t2), rest.1),
                            Err(e) => (Err(e), rest.1),
                        }
                    },
                },
            },
        }
    }
}

/// A link of `d` under `key` set to `to`, or removed when `to` is `None`.
pub open spec fn relink(d: Seq<(Seq<char>, ObjV)>, key: Seq<char>, to: Option<ObjectId>) -> Seq<(Seq<char>, ObjV)> {
    match to {
        Some(t) => entries_set(d, key, ref_v(t)),
        None => entries_remove(d, key),
    }
}

/// Relinking the siblings around a removed item: `prev`'s `/Next` (or
/// the parent's `/First`) to `next`, then `next`'s `/Prev` (or the
/// parent's `/Last`) to `prev`.
pub open spec fn unlink_v(
    ov: Seq<(ObjectId, ObjV)>,
    base: Seq<(ObjectId, ObjV)>,
    parent: ObjectId,
    prev: Option<ObjectId>,
    next: Option<ObjectId>,
) -> (Seq<(ObjectId, ObjV)>, Result<(), EditorError>) {
    let a = match prev {
        Some(p) => p,
        None => parent,
    };
    let a_key = if prev is Some {
        "Next"@
    } else {
        "First"@
    };
    match dict_of(obj_in(ov, base, a)) {
        None => (ov, Err(EditorError::UnresolvedObject(a.number, a.generation))),
        Some(ad) => {
            let ov1 = table_set(ov, a, ObjV::Dict(relink(ad, a_key, next)));
            let b = match next {
                Some(n) => n,
                None => parent,
            };
            let b_key = if next is Some {
                "Prev"@
            } else {
                "Last"@
            };
            match dict_of(obj_in(ov1, base, b)) {
                None => (ov1, Err(EditorError::UnresolvedObject(b.number, b.generation))),
                Some(bd) => (table_set(ov1, b, ObjV::Dict(relink(bd, b_key, prev))), Ok(())),
            }
        },
    }
}

/// Removing the outline item `id` among the objects `ov` over `base`:
/// the edited objects and the result.
pub open spec fn remove_bookmark_v(ov: Seq<(ObjectId, ObjV)>, base: Seq<(ObjectId, ObjV)>, id: ObjectId) -> (
    Seq<(ObjectId, ObjV)>,
    Result<(), EditorError>,
) {
    match dict_of(obj_in(ov, base, id)) {
        None => (ov, Err(EditorError::OutlineItemNotFound(id.number, id.generation))),
        Some(d) => match ref_of(entries_get(d, "Parent"@)) {
            None => (ov, Err(EditorError::OutlineItemNotFound(id.number, id.generation))),
            Some(parent) => {
                let u = unlink_v(ov, base, parent, ref_of(entries_get(d, "Prev"@)), ref_of(entries_get(d, "Next"@)));
                match u.1 {
                    Err(e) => u,
                    Ok(_) => {
                        let c = count_v(u.0, base, id, Set::empty(), (MAX_OUTLINE_NODES + 1) as nat);
                        match c.0 {
                            Err(e) => (u.0, Err(e)),
                            Ok(t) => bump_counts(u.0, base, parent, -t, MAX_PARENT_DEPTH as nat),
                        }
                    },
                }
            },
        },
    }
}

/// The value a link entry holds after relinking it to `to`.
pub open spec fn link_val(to: Option<ObjectId>) -> Option<ObjV> {
    match to {
        Some(t) => Some(ref_v(t)),
        None => None,
    }
}

/// Whether no two entries share a key.
pub open spec fn keys_distinct(d: Seq<(Seq<char>, ObjV)>) -> bool {
    forall|i: int, j: int| 0 <= i < j < d.len() ==> d[i].0 != d[j].0
}

/// Every entry left by a removal was there before.
proof fn lemma_remove_sub(d: Seq<(Seq<char>, ObjV)>, k: Seq<char>)
    ensures
        forall|i: int| #![trigger entries_remove(d, k)[i]] 0 <= i < entries_remove(d, k).len() ==> exists|j: int| 0 <= j < d.len() && entries_remove(d, k)[i] == #[trigger] d[j] && (j > 0 || d[0].0 != k),
        entries_remove(d, k).len() <= d.len(),
    decreases d.len(),
{
    if d.len() > 0 {
        let rest = d.drop_first();
        lemma_remove_sub(rest, k);
        let s = entries_remove(d, k);
        if d[0].0 != k {
            assert forall|i: int| #![trigger s[i]] 0 <= i < s.len() implies exists|j: int| 0 <= j < d.len() && s[i] == #[trigger] d[j] && (j > 0 || d[0].0 != k) by {
                if i == 0 {
                    assert(s[0] == d[0]);
                } else {
                    assert(s[i] == entries_remove(rest, k)[i - 1]);
                    let j = choose|j: int| 0 <= j < rest.len() && entries_remove(rest, k)[i - 1] == #[trigger] rest[j] && (j > 0 || rest[0].0 != k);
                    assert(s[i] == d[j + 1]);
                }
            }
        } else {
            assert forall|i: int| #![trigger s[i]] 0 <= i < s.len() implies exists|j: int| 0 <= j < d.len() && s[i] == #[trigger] d[j] && (j > 0 || d[0].0 != k) by {
                assert(s[i] == d[i + 1]);
            }
        }
    }
}

/// Removing an entry keeps keys distinct.
proof fn lemma_remove_distinct(d: Seq<(Seq<char>, ObjV)>, k: Seq<char>)
    requires
        keys_distinct(d),
    ensures
        keys_distinct(entries_remove(d, k)),
    decreases d.len(),
{
    if d.len() > 0 {
        let rest = d.drop_first();
        assert(keys_distinct(rest)) by {
            assert forall|i: int, j: int| 0 <= i < j < rest.len() implies rest[i].0 != rest[j].0 by {
                assert(rest[i] == d[i + 1] && rest[j] == d[j + 1]);
            }
        }
        lemma_remove_distinct(rest, k);
        if d[0].0 != k {
            let s = entries_remove(d, k);
            lemma_remove_sub(rest, k);
            assert forall|i: int, j: int| 0 <= i < j < s.len() implies s[i].0 != s[j].0 by {
                if i == 0 {
                    assert(s[j] == entries_remove(rest, k)[j - 1]);
                    let w = choose|w: int| 0 <= w < rest.len() && entries_remove(rest, k)[j - 1] == #[trigger] rest[w] && (w > 0 || rest[0].0 != k);
                    assert(rest[w] == d[w + 1]);
                } else {
                    assert(s[i] == entries_remove(rest, k)[i - 1]);
                    assert(s[j] == entries_remove(rest, k)[j - 1]);
                }
            }
        } else {
            assert(entries_remove(d, k) =~= rest);
        }
    }
}

/// Every key after setting one is that key or a key that was there.
proof fn lemma_set_keys(d: Seq<(Seq<char>, ObjV)>, k: Seq<char>, v: ObjV)
    ensures
        forall|i: int|
            #![trigger entries_set(d, k, v)[i]]
            0 <= i < entries_set(d, k, v).len() ==> entries_set(d, k, v)[i].0 == k || exists|w: int|
                0 <= w < d.len() && entries_set(d, k, v)[i].0 == #[trigger] d[w].0,
    decreases d.len(),
{
    if d.len() > 0 && d[0].0 != k {
        let rest = d.drop_first();
        lemma_set_keys(rest, k, v);
        let s = entries_set(d, k, v);
        assert forall|i: int|
            #![trigger s[i]]
            0 <= i < s.len() implies s[i].0 == k || exists|w: int| 0 <= w < d.len() && s[i].0 == #[trigger] d[w].0 by {
            if i == 0 {
                assert(s[0].0 == d[0].0);
            } else {
                assert(s[i] == entries_set(rest, k, v)[i - 1]);
                if s[i].0 != k {
                    let w = choose|w: int| 0 <= w < rest.len() && entries_set(rest, k, v)[i - 1].0 == #[trigger] rest[w].0;
                    assert(s[i].0 == d[w + 1].0);
                }
            }
        }
    } else if d.len() > 0 {
        let s = entries_set(d, k, v);
        assert forall|i: int|
            #![trigger s[i]]
            0 <= i < s.len() implies s[i].0 == k || exists|w: int| 0 <= w < d.len() && s[i].0 == #[trigger] d[w].0 by {
            if i > 0 {
                assert(s[i].0 == d[i].0);
            }
        }
    }
}

/// Setting an entry keeps keys distinct.
proof fn lemma_set_distinct(d: Seq<(Seq<char>, ObjV)>, k: Seq<char>, v: ObjV)
    requires
        keys_distinct(d),
    ensures
        keys_distinct(entries_set(d, k, v)),
    decreases d.len(),
{
    if d.len() > 0 {
        let rest = d.drop_first();
        assert(keys_distinct(rest)) by {
            assert forall|i: int, j: int| 0 <= i < j < rest.len() implies rest[i].0 != rest[j].0 by {
                assert(rest[i] == d[i + 1] && rest[j] == d[j + 1]);
            }
        }
        let s = entries_set(d, k, v);
        if d[0].0 != k {
            lemma_set_distinct(rest, k, v);
            lemma_set_keys(rest, k, v);
            assert forall|i: int, j: int| 0 <= i < j < s.len() implies s[i].0 != s[j].0 by {
                assert(s[j] == entries_set(rest, k, v)[j - 1]);
                if i == 0 {
                    if s[j].0 != k {
                        let w = choose|w: int| 0 <= w < rest.len() && entries_set(rest, k, v)[j - 1].0 == #[trigger] rest[w].0;
                        assert(rest[w] == d[w + 1]);
                    }
                } else {
                    assert(s[i] == entries_set(rest, k, v)[i - 1]);
                }
            }
        } else {
            assert forall|i: int, j: int| 0 <= i < j < s.len() implies s[i].0 != s[j].0 by {
                assert(s[i].0 == d[i].0 && s[j].0 == d[j].0);
            }
        }
    }
}

/// Relinking sets the entry to the new link, when the dictionary's keys
/// are distinct or the link is present; other keys are kept.
proof fn lemma_relink(d: Seq<(Seq<char>, ObjV)>, key: Seq<char>, to: Option<ObjectId>, other: Seq<char>)
    requires
        to is Some || keys_distinct(d),
    ensures
        entries_get(relink(d, key, to), key) == link_val(to),
        other != key ==> entries_get(relink(d, key, to), other) == entries_get(d, other),
        keys_distinct(d) ==> keys_distinct(relink(d, key, to)),
{
    match to {
        Some(t) => {
            crate::object::lemma_entries_get_set(d, key, ref_v(t), other);
            if keys_distinct(d) {
                lemma_set_distinct(d, key, ref_v(t));
            }
        },
        None => {
            crate::object::lemma_entries_get_remove(d, key, other);
            lemma_remove_distinct(d, key);
        },
    }
}

/// Adding to `/Count` along the parent chain changes no other entry and
/// keeps dictionaries dictionaries.
proof fn lemma_bump_frame(ov: Seq<(ObjectId, ObjV)>, base: Seq<(ObjectId, ObjV)>, id: ObjectId, delta: int, steps: nat)
    ensures
        forall|x: ObjectId| dict_of(obj_in(ov, base, x)) is Some ==> #[trigger] dict_of(obj_in(bump_counts(ov, base, id, delta, steps).0, base, x)) is Some,
        forall|x: ObjectId, k: Seq<char>|
            k != "Count"@ && dict_of(obj_in(ov, base, x)) is Some ==> #[trigger] entries_get(
                dict_of(obj_in(bump_counts(ov, base, id, delta, steps).0, base, x))->0,
                k,
            ) == entries_get(dict_of(obj_in(ov, base, x))->0, k),
    decreases steps,
{
    if steps > 0 {
        if let Some(d) = dict_of(obj_in(ov, base, id)) {
            let cur: int = match entries_get(d, "Count"@) {
                Some(ObjV::Integer(c)) => c as int,
                _ => 0,
            };
            if i64::MIN <= cur + delta <= i64::MAX {
                let d2 = entries_set(d, "Count"@, ObjV::Integer((cur + delta) as i64));
                let ov2 = table_set(ov, id, ObjV::Dict(d2));
                assert forall|x: ObjectId| #[trigger] obj_in(ov2, base, x) == (if x == id { Some(ObjV::Dict(d2)) } else { obj_in(ov, base, x) }) by {
                    lemma_obj_in_set(ov, base, id, ObjV::Dict(d2), x);
                }
                assert forall|k: Seq<char>| k != "Count"@ implies #[trigger] entries_get(d2, k) == entries_get(d, k) by {
                    crate::object::lemma_entries_get_set(d, "Count"@, ObjV::Integer((cur + delta) as i64), k);
                }
                if let Some(p) = ref_of(entries_get(d2, "Parent"@)) {
                    lemma_bump_frame(ov2, base, p, delta, (steps - 1) as nat);
                }
            }
        }
    }
}

/// Removing an outline item relinks its siblings: the previous item's
/// `/Next` (or, when it is the first, the parent's `/First`) becomes the
/// item after it, and the next item's `/Prev` (or, when it is the last,
/// the parent's `/Last`) becomes the item before it. Where a link is
/// removed rather than set, this holds of dictionaries whose keys are
/// distinct.
pub proof fn lemma_remove_bookmark_relinks(ov: Seq<(ObjectId, ObjV)>, base: Seq<(ObjectId, ObjV)>, id: ObjectId)
    requires
        remove_bookmark_v(ov, base, id).1 is Ok,
        forall|x: ObjectId| #[trigger] dict_of(obj_in(ov, base, x)) is Some ==> keys_distinct(dict_of(obj_in(ov, base, x))->0),
    ensures
        ({
            let d = dict_of(obj_in(ov, base, id))->0;
            let parent = ref_of(entries_get(d, "Parent"@))->0;
            let prev = ref_of(entries_get(d, "Prev"@));
            let next = ref_of(entries_get(d, "Next"@));
            let after = remove_bookmark_v(ov, base, id).0;
            let a = match prev {
                Some(p) => p,
                None => parent,
            };
            let b = match next {
                Some(n) => n,
                None => parent,
            };
            &&& entries_get(dict_of(obj_in(after, base, a))->0, if prev is Some { "Next"@ } else { "First"@ }) == link_val(next)
            &&& entries_get(dict_of(obj_in(after, base, b))->0, if next is Some { "Prev"@ } else { "Last"@ }) == link_val(prev)
        }),
{
    reveal_strlit("Next");
    reveal_strlit("First");
    reveal_strlit("Prev");
    reveal_strlit("Last");
    reveal_strlit("Count");
    let d = dict_of(obj_in(ov, base, id))->0;
    let parent = ref_of(entries_get(d, "Parent"@))->0;
    let prev = ref_of(entries_get(d, "Prev"@));
    let next = ref_of(entries_get(d, "Next"@));
    let a = match prev {
        Some(p) => p,
        None => parent,
    };
    let b = match next {
        Some(n) => n,
        None => parent,
    };
    let a_key = if prev is Some { "Next"@ } else { "First"@ };
    let b_key = if next is Some { "Prev"@ } else { "Last"@ };
    assert(a_key != b_key) by {
        assert(a_key[0] != b_key[0] || a_key.len() != b_key.len());
    }
    assert(a_key != "Count"@ && b_key != "Count"@) by {
        assert(a_key.len() != "Count"@.len() || a_key[0] != "Count"@[0]);
        assert(b_key.len() != "Count"@.len() || b_key[0] != "Count"@[0]);
    }
    let ad = dict_of(obj_in(ov, base, a))->0;
    let ov1 = table_set(ov, a, ObjV::Dict(relink(ad, a_key, next)));
    lemma_relink(ad, a_key, next, b_key);
    lemma_obj_in_set(ov, base, a, ObjV::Dict(relink(ad, a_key, next)), b);
    lemma_obj_in_set(ov, base, a, ObjV::Dict(relink(ad, a_key, next)), a);
    let bd = dict_of(obj_in(ov1, base, b))->0;
    assert(keys_distinct(ad));
    assert(keys_distinct(bd));
    lemma_relink(bd, b_key, prev, a_key);
    let ov2 = table_set(ov1, b, ObjV::Dict(relink(bd, b_key, prev)));
    lemma_obj_in_set(ov1, base, b, ObjV::Dict(relink(bd, b_key, prev)), a);
    lemma_obj_in_set(ov1, base, b, ObjV::Dict(relink(bd, b_key, prev)), b);
    assert(entries_get(dict_of(obj_in(ov2, base, a))->0, a_key) == link_val(next));
    assert(entries_get(dict_of(obj_in(ov2, base, b))->0, b_key) == link_val(prev));
    let c = count_v(ov2, base, id, Set::empty(), (MAX_OUTLINE_NODES + 1) as nat);
    let t = c.0->Ok_0;
    assert(unlink_v(ov, base, parent, prev, next) == (ov2, Ok::<(), EditorError>(())));
    let after = bump_counts(ov2, base, parent, -t, MAX_PARENT_DEPTH as nat).0;
    assert(remove_bookmark_v(ov, base, id).0 == after);
    lemma_bump_frame(ov2, base, parent, -t, MAX_PARENT_DEPTH as nat);
    assert(dict_of(obj_in(ov2, base, a)) is Some);
    assert(dict_of(obj_in(ov2, base, b)) is Some);
    assert(entries_get(dict_of(obj_in(after, base, a))->0, a_key) == link_val(next));
    assert(entries_get(dict_of(obj_in(after, base, b))->0, b_key) == link_val(prev));
}

impl EditableDocument {
    /// Counts the outline subtree at `id` (see `count_v`).
    fn count_subtree_inner(&self, id: ObjectId, visited: &mut HashSet<u64>, bound: usize, Ghost(fuel): Ghost<nat>) -> (r:
        Result<usize, EditorError>)
        requires
            old(visited)@.finite(),
            old(visited)@.len() <= MAX_OUTLINE_NODES,
            fuel + old(visited)@.len() > MAX_OUTLINE_NODES,
            bound == chain_bound(self.overlay_v(), self.base_v()),
        ensures
            final(visited)@.finite(),
            final(visited)@.len() <= MAX_OUTLINE_NODES,
            old(visited)@.subset_of(final(visited)@),
            final(visited)@ == count_v(self.overlay_v(), self.base_v(), id, old(visited)@, fuel).1,
            match count_v(self.overlay_v(), self.base_v(), id, old(visited)@, fuel).0 {
                Ok(t) => r == Ok::<usize, EditorError>(t as usize) && t + old(visited)@.len() == final(visited)@.len(),
                Err(e) => r == Err::<usize, EditorError>(e),
            },
        decreases fuel, 1int, 0nat,
    {
        let ghost ov = self.overlay_v();
        let ghost base = self.base_v();
        let ghost v0 = visited@;
        if visited.len() >= MAX_OUTLINE_NODES {
            return Ok(0);
        }
        if !visited.insert(node_key(id)) {
            assert(visited@ =~= v0);
            return Ok(0);
        }
        let ghost v1 = visited@;
        proof {
            vstd::set::axiom_set_insert_len(v0, id_key(id));
        }
        let mut total: usize = 1;
        let dict = match self.get_dictionary(id) {
            Ok(d) => d,
            Err(_) => {
                return Ok(1);
            },
        };
        let first = match dict.get("First") {
            Some(Object::Reference(f)) => *f,
            _ => {
                return Ok(1);
            },
        };
        assert(ref_id(first.number, first.generation) == first);
        let ghost target = count_chain(ov, base, first, v1, fuel, bound as nat);
        assert(count_v(ov, base, id, v0, fuel) == (
            match target.0 {
                Ok(t) => Ok(1 + t),
                Err(e) => Err(e),
            },
            target.1,
        ));
        let mut sibling = first;
        let mut steps = bound;
        loop
            invariant_except_break
                target == ({
                    let c = count_chain(ov, base, sibling, visited@, fuel, steps as nat);
                    (
                        match c.0 {
                            Ok(t) => Ok((t + total - 1) as nat),
                            Err(e) => Err(e),
                        },
                        c.1,
                    )
                }),
            invariant
                v0 == old(visited)@,
                count_v(ov, base, id, v0, fuel) == (
                    match target.0 {
                        Ok(t) => Ok(1 + t),
                        Err(e) => Err::<nat, EditorError>(e),
                    },
                    target.1,
                ),
                visited@.finite(),
                v0.subset_of(visited@),
                v1.subset_of(visited@),
                fuel + visited@.len() > MAX_OUTLINE_NODES + 1,
                ov == self.overlay_v(),
                base == self.base_v(),
                bound == chain_bound(ov, base),
                1 <= total,
                total + v0.len() == visited@.len(),
                visited@.len() <= MAX_OUTLINE_NODES,
            ensures
                visited@.finite(),
                v0.subset_of(visited@),
                total + v0.len() == visited@.len(),
                target == (Ok::<nat, EditorError>((total - 1) as nat), visited@),
            decreases steps,
        {
            if steps == 0 || visited.len() >= MAX_OUTLINE_NODES {
                break;
            }
            let ghost vb = visited@;
            let added = self.count_subtree_inner(sibling, visited, bound, Ghost((fuel - 1) as nat))?;
            proof {
                vstd::set_lib::lemma_len_subset(vb, visited@);
            }
            total = total + added;
            let sdict = self.get_dictionary(sibling)?;
            match sdict.get("Next") {
                Some(Object::Reference(n)) => {
                    assert(ref_id(n.number, n.generation) == *n);
                    sibling = *n;
                },
                _ => {
                    break;
                },
            }
            steps = steps - 1;
        }
        Ok(total)
    }

    /// The number of items in the outline subtree at `id`.
    fn count_subtree(&self, id: ObjectId) -> (r: Result<usize, EditorError>)
        ensures
            match count_v(self.overlay_v(), self.base_v(), id, Set::empty(), (MAX_OUTLINE_NODES + 1) as nat).0 {
                Ok(t) => r == Ok::<usize, EditorError>(t as usize) && t <= MAX_OUTLINE_NODES,
                Err(e) => r == Err::<usize, EditorError>(e),
            },
    {
        let mut visited: HashSet<u64> = HashSet::new();
        proof {
            assert(visited@ =~= Set::<u64>::empty());
        }
        let bound = self.object_slots();
        let r = self.count_subtree_inner(id, &mut visited, bound, Ghost((MAX_OUTLINE_NODES + 1) as nat));
        proof {
            if r is Ok {
                assert(visited@.len() <= MAX_OUTLINE_NODES + 1);
            }
        }
        r
    }
}


impl EditableDocument {
    /// Sets the link `key` of the dictionary stored under `id` to `to`,
    /// or removes it when `to` is `None`.
    fn set_link(&mut self, id: ObjectId, key: &str, to: Option<ObjectId>) -> (r: Result<(), EditorError>)
        requires
            old(self).wf(),
        ensures
            final(self).wf(),
            final(self).same_but_overlay(old(self)),
            match old(self).dict(id) {
                None => r == Err::<(), EditorError>(EditorError::UnresolvedObject(id.number, id.generation))
                    && final(self).overlay_v() == old(self).overlay_v(),
                Some(d) => r is Ok && final(self).overlay_v() == table_set(old(self).overlay_v(), id, ObjV::Dict(relink(d, key@, to))),
            },
    {
        let mut d = self.get_dictionary(id)?;
        match to {
            Some(t) => {
                d.set(key, Object::Reference(t));
            },
            None => {
                d.remove(key);
            },
        }
        self.store_dict(id, d);
        Ok(())
    }

    /// Removes an outline item and its subtree from the outline (ISO
    /// 32000-1 12.3.3), relinking its siblings and its parent's `/First`
    /// and `/Last`, and subtracts the subtree's size from the `/Count` of
    /// its parent and the parent's ancestors. The removed items stay
    /// stored, unreachable.
    pub fn remove_bookmark(&mut self, id: ObjectId) -> (r: Result<(), EditorError>)
        requires
            old(self).wf(),
        ensures
            final(self).wf(),
            final(self).same_but_overlay(old(self)),
            (final(self).overlay_v(), r) == remove_bookmark_v(old(self).overlay_v(), old(self).base_v(), id),
    {
        let dict = match self.get_dictionary(id) {
            Ok(d) => d,
            Err(_) => {
                return Err(EditorError::OutlineItemNotFound(id.number, id.generation));
            },
        };
        let parent_id = match dict.get("Parent") {
            Some(Object::Reference(p)) => *p,
            _ => {
                return Err(EditorError::OutlineItemNotFound(id.number, id.generation));
            },
        };
        assert(ref_id(parent_id.number, parent_id.generation) == parent_id);
        let prev = match dict.get("Prev") {
            Some(Object::Reference(p)) => Some(*p),
            _ => None,
        };
        let next = match dict.get("Next") {
            Some(Object::Reference(n)) => Some(*n),
            _ => None,
        };
        proof {
            if let Some(p) = prev {
                assert(ref_id(p.number, p.generation) == p);
            }
            if let Some(n) = next {
                assert(ref_id(n.number, n.generation) == n);
            }
        }
        match prev {
            Some(p) => self.set_link(p, "Next", next)?,
            None => self.set_link(parent_id, "First", next)?,
        }
        match next {
            Some(n) => self.set_link(n, "Prev", prev)?,
            None => self.set_link(parent_id, "Last", prev)?,
        }
        let removed = self.count_subtree(id)?;
        let delta: i64 = -(removed as i64);
        self.bump_ancestor_counts(parent_id, delta)?;
        Ok(())
    }
}


/// Whether the text `a` comes before `b` from index `i` on, comparing
/// character codes (the order of their UTF-8 bytes).
pub open spec fn chars_lt_at(a: Seq<char>, b: Seq<char>, i: int) -> bool
    decreases a.len() - i,
{
    if i < 0 {
        false
    } else if i >= a.len() {
        i < b.len()
    } else if i >= b.len() {
        false
    } else if a[i] != b[i] {
        (a[i] as u32) < (b[i] as u32)
    } else {
        chars_lt_at(a, b, i + 1)
    }
}

/// Whether the text `a` comes before `b` in lexicographic order of
/// character codes.
pub open spec fn chars_lt(a: Seq<char>, b: Seq<char>) -> bool {
    chars_lt_at(a, b, 0)
}

/// The first index from `j` on whose key comes after `key`, or the
/// length: where a stable insertion puts an entry under `key`.
pub open spec fn upper_pos(s: Seq<(Seq<char>, ObjV)>, key: Seq<char>, j: int) -> int
    decreases s.len() - j,
{
    if j < 0 || j >= s.len() {
        s.len() as int
    } else if chars_lt(key, s[j].0) {
        j
    } else {
        upper_pos(s, key, j + 1)
    }
}

/// The pairs stably sorted by key.
pub open spec fn sort_pairs(s: Seq<(Seq<char>, ObjV)>) -> Seq<(Seq<char>, ObjV)>
    decreases s.len(),
{
    if s.len() == 0 {
        s
    } else {
        let r = sort_pairs(s.drop_last());
        r.insert(upper_pos(r, s.last().0, 0), s.last())
    }
}

/// The key/value pairs among the first `k` pairs of a name array whose
/// key is a string that does not decode to `name`, keys decoded.
pub open spec fn kept_pairs(a: Seq<ObjV>, name: Seq<char>, k: int) -> Seq<(Seq<char>, ObjV)>
    decreases k,
{
    if k <= 0 {
        Seq::empty()
    } else {
        kept_pairs(a, name, k - 1) + match a[2 * (k - 1)] {
            ObjV::Str(_, b) => if text_of_bytes(b) != name {
                seq![(text_of_bytes(b), a[2 * (k - 1) + 1])]
            } else {
                Seq::empty()
            },
            _ => Seq::empty(),
        }
    }
}

/// The name array holding `p`: each key as a text string, then its value.
pub open spec fn flatten_pairs(p: Seq<(Seq<char>, ObjV)>) -> Seq<ObjV>
    decreases p.len(),
{
    if p.len() == 0 {
        Seq::empty()
    } else {
        flatten_pairs(p.drop_last()) + seq![text_value(p.last().0), p.last().1]
    }
}

/// The name array `a` with `name` mapped to `value`: its string-keyed
/// pairs other than `name`, plus the new one, sorted by name.
pub open spec fn with_name(a: Seq<ObjV>, name: Seq<char>, value: ObjV) -> Seq<ObjV> {
    flatten_pairs(sort_pairs(kept_pairs(a, name, (a.len() / 2) as int).push((name, value))))
}

/// The values of exec key/value pairs.
pub open spec fn pairs_view(s: Seq<(Vec<char>, Object)>) -> Seq<(Seq<char>, ObjV)> {
    Seq::new(s.len(), |i: int| (s[i].0@, s[i].1.v()))
}

/// The `/Dests` name tree root in force after making sure there is one:
/// the edited objects, the next object number and its id. A catalog
/// without a `/Names` reference gets an empty dictionary for it; a names
/// dictionary without a `/Dests` reference gets one with an empty
/// `/Names` array.
pub open spec fn with_dests_root(ov: Seq<(ObjectId, ObjV)>, base: Seq<(ObjectId, ObjV)>, root: ObjectId, next: u32) -> (
    Seq<(ObjectId, ObjV)>,
    u32,
    Result<ObjectId, EditorError>,
) {
    match dict_of(obj_in(ov, base, root)) {
        None => (ov, next, Err(EditorError::UnresolvedObject(root.number, root.generation))),
        Some(c) => {
            let step: (Seq<(ObjectId, ObjV)>, u32, ObjectId) = match ref_of(entries_get(c, "Names"@)) {
                Some(n) => (ov, next, n),
                None => {
                    let id = ObjectId { number: next, generation: 0 };
                    let ov1 = table_set(ov, id, ObjV::Dict(Seq::empty()));
                    (table_set(ov1, root, ObjV::Dict(entries_set(c, "Names"@, ref_v(id)))), (next + 1) as u32, id)
                },
            };
            let (ova, nexta, names_id) = step;
            match dict_of(obj_in(ova, base, names_id)) {
                None => (ova, nexta, Err(EditorError::UnresolvedObject(names_id.number, names_id.generation))),
                Some(nd) => match ref_of(entries_get(nd, "Dests"@)) {
                    Some(d) => (ova, nexta, Ok(d)),
                    None => {
                        let did = ObjectId { number: nexta, generation: 0 };
                        let ov3 = table_set(ova, did, ObjV::Dict(seq![("Names"@, ObjV::Array(Seq::empty()))]));
                        (table_set(ov3, names_id, ObjV::Dict(entries_set(nd, "Dests"@, ref_v(did)))), (nexta + 1) as u32, Ok(did))
                    },
                },
            }
        },
    }
}

/// Adding `name` -> `dest` to the `/Dests` name tree root: the edited
/// objects, the next object number and the result.
pub open spec fn add_named_v(
    ov: Seq<(ObjectId, ObjV)>,
    base: Seq<(ObjectId, ObjV)>,
    root: ObjectId,
    next: u32,
    name: Seq<char>,
    dest: Seq<ObjV>,
) -> (Seq<(ObjectId, ObjV)>, u32, Result<(), EditorError>) {
    let (ov1, next1, r) = with_dests_root(ov, base, root, next);
    match r {
        Err(e) => (ov1, next1, Err(e)),
        Ok(did) => match dict_of(obj_in(ov1, base, did)) {
            None => (ov1, next1, Err(EditorError::UnresolvedObject(did.number, did.generation))),
            Some(dd) => {
                let a = match entries_get(dd, "Names"@) {
                    Some(ObjV::Array(a)) => a,
                    _ => Seq::empty(),
                };
                (
                    table_set(ov1, did, ObjV::Dict(entries_set(dd, "Names"@, ObjV::Array(with_name(a, name, ObjV::Array(dest)))))),
                    next1,
                    Ok(()),
                )
            },
        },
    }
}

/// The characters of `s`.
fn chars_of(s: &str) -> (v: Vec<char>)
    ensures
        v@ == s@,
{
    let mut v: Vec<char> = Vec::new();
    let ghost chars = s@;
    for c in it: s.chars()
        invariant
            it.seq() == chars,
            v@ == chars.take(it.index() as int),
    {
        let ghost k = it.index() as int;
        v.push(c);
        assert(v@ =~= chars.take(k + 1));
    }
    assert(chars.take(chars.len() as int) =~= chars);
    v
}

/// The text of the characters `v`.
fn string_of(v: &Vec<char>) -> (s: String)
    ensures
        s@ == v@,
{
    let mut s = String::new();
    let mut i: usize = 0;
    while i < v.len()
        invariant
            i <= v@.len(),
            s@ == v@.take(i as int),
        decreases v@.len() - i,
    {
        crate::stdtext::push_char(&mut s, v[i]);
        assert(s@ =~= v@.take(i + 1));
        i = i + 1;
    }
    assert(v@.take(v@.len() as int) =~= v@);
    s
}

/// Whether `a` comes before `b` (see `chars_lt`).
fn chars_less(a: &Vec<char>, b: &Vec<char>) -> (r: bool)
    ensures
        r == chars_lt(a@, b@),
{
    let mut i: usize = 0;
    while i < a.len() && i < b.len() && a[i] == b[i]
        invariant
            i <= a@.len(),
            i <= b@.len(),
            chars_lt(a@, b@) == chars_lt_at(a@, b@, i as int),
        decreases a@.len() - i,
    {
        i = i + 1;
    }
    if i >= a.len() {
        i < b.len()
    } else if i >= b.len() {
        false
    } else {
        (a[i] as u32) < (b[i] as u32)
    }
}

/// The pairs stably sorted by key (see `sort_pairs`).
fn sort_by_name(pairs: Vec<(Vec<char>, Object)>) -> (r: Vec<(Vec<char>, Object)>)
    ensures
        pairs_view(r@) == sort_pairs(pairs_view(pairs@)),
{
    let mut out: Vec<(Vec<char>, Object)> = Vec::new();
    let ghost all = pairs_view(pairs@);
    let mut rest = pairs;
    let ghost orig = rest@;
    let mut i: usize = 0;
    let n = rest.len();
    // Taking the items in order: reverse so that popping yields them first-to-last.
    let mut stack: Vec<(Vec<char>, Object)> = Vec::new();
    while rest.len() > 0
        invariant
            rest@.len() + stack@.len() == orig.len(),
            forall|j: int| 0 <= j < rest@.len() ==> #[trigger] rest@[j] == orig[j],
            forall|j: int| 0 <= j < stack@.len() ==> #[trigger] stack@[j] == orig[orig.len() - 1 - j],
        decreases rest@.len(),
    {
        let x = rest.pop().unwrap();
        stack.push(x);
    }
    proof {
        assert(pairs_view(orig.take(0)) =~= Seq::<(Seq<char>, ObjV)>::empty());
    }
    while stack.len() > 0
        invariant
            i <= n,
            n == orig.len(),
            stack@.len() + i == n,
            forall|j: int| 0 <= j < stack@.len() ==> #[trigger] stack@[j] == orig[orig.len() - 1 - j],
            all == pairs_view(orig),
            pairs_view(out@) == sort_pairs(pairs_view(orig.take(i as int))),
        decreases stack@.len(),
    {
        let x = stack.pop().unwrap();
        assert(x == orig[i as int]);
        let ghost sv = pairs_view(out@);
        let ghost xv = (x.0@, x.1.v());
        let mut j: usize = 0;
        while j < out.len() && !chars_less(&x.0, &out[j].0)
            invariant
                j <= out@.len(),
                sv == pairs_view(out@),
                xv == (x.0@, x.1.v()),
                upper_pos(sv, xv.0, 0) == upper_pos(sv, xv.0, j as int),
            decreases out@.len() - j,
        {
            j = j + 1;
        }
        proof {
            assert(upper_pos(sv, xv.0, j as int) == j);
        }
        out.insert(j, x);
        proof {
            let t = orig.take(i + 1);
            assert(t.drop_last() =~= orig.take(i as int));
            assert(pairs_view(t).drop_last() =~= pairs_view(t.drop_last()));
            assert(pairs_view(t).last() == xv);
            assert(pairs_view(out@) =~= sv.insert(j as int, xv));
        }
        i = i + 1;
    }
    proof {
        assert(orig.take(n as int) =~= orig);
    }
    out
}

impl EditableDocument {
    /// The id of the `/Dests` name tree root, creating the catalog's
    /// `/Names` dictionary and its `/Dests` root when missing.
    fn names_dests_id(&mut self) -> (r: Result<ObjectId, EditorError>)
        requires
            old(self).wf(),
            old(self).next_number() < u32::MAX - 1,
        ensures
            final(self).wf(),
            final(self).same_but_overlay_next(old(self)),
            (final(self).overlay_v(), final(self).next_number(), r) == with_dests_root(
                old(self).overlay_v(),
                old(self).base_v(),
                old(self).root_id(),
                old(self).next_number(),
            ),
    {
        let mut catalog = self.catalog()?;
        let names_id = match catalog.get("Names") {
            Some(Object::Reference(id)) => {
                assert(ref_id(id.number, id.generation) == *id);
                *id
            },
            _ => {
                let empty = PdfDictionary::new();
                proof {
                    assert(empty.view_entries() =~= Seq::<(Seq<char>, ObjV)>::empty());
                }
                let id = self.store_new_dict(empty);
                catalog.set("Names", Object::Reference(id));
                let root = self.catalog_id();
                proof {
                    self.lemma_root_stored();
                }
                self.store_dict(root, catalog);
                id
            },
        };
        let mut names_dict = self.get_dictionary(names_id)?;
        if let Some(Object::Reference(id)) = names_dict.get("Dests") {
            assert(ref_id(id.number, id.generation) == *id);
            return Ok(*id);
        }
        let mut dests = PdfDictionary::new();
        dests.set("Names", Object::Array(PdfArray::new()));
        proof {
            assert(dests.view_entries() =~= seq![("Names"@, ObjV::Array(Seq::empty()))]);
        }
        let ghost ov_before = self.overlay_v();
        let dests_id = self.store_new_dict(dests);
        names_dict.set("Dests", Object::Reference(dests_id));
        proof {
            assert(self.object(names_id) is Some) by {
                lemma_obj_in_set(ov_before, self.base_v(), dests_id, ObjV::Dict(seq![("Names"@, ObjV::Array(Seq::empty()))]), names_id);
            }
        }
        self.store_dict(names_id, names_dict);
        Ok(dests_id)
    }

    /// Adds (or replaces) the named destination `name` (ISO 32000-1
    /// 7.7.4) in the `/Dests` name tree, kept as one leaf whose `/Names`
    /// array is sorted by name (7.9.6), creating the tree when missing.
    pub fn add_named_destination(&mut self, name: &str, dest: Destination) -> (r: Result<(), EditorError>)
        requires
            old(self).wf(),
            old(self).next_number() < u32::MAX - 1,
        ensures
            final(self).wf(),
            final(self).same_but_overlay_next(old(self)),
            match old(self).spec_page_ids() {
                Err(e) => r == Err::<(), EditorError>(e) && final(self).overlay_v() == old(self).overlay_v()
                    && final(self).next_number() == old(self).next_number(),
                Ok(ids) => if dest.spec_page_index() < ids.len() {
                    (final(self).overlay_v(), final(self).next_number(), r) == add_named_v(
                        old(self).overlay_v(),
                        old(self).base_v(),
                        old(self).root_id(),
                        old(self).next_number(),
                        name@,
                        dest_items(dest, ids[dest.spec_page_index() as int]),
                    )
                } else {
                    &&& r == Err::<(), EditorError>(
                        EditorError::InvalidPageIndex { index: dest.spec_page_index(), count: ids.len() as usize },
                    )
                    &&& final(self).overlay_v() == old(self).overlay_v()
                    &&& final(self).next_number() == old(self).next_number()
                },
            },
    {
        let dest_array = dest.to_array(self)?;
        let ghost dv = dest_array.view_items();
        let dests_id = self.names_dests_id()?;
        let mut dests = self.get_dictionary(dests_id)?;
        let names = match dests.get("Names") {
            Some(Object::Array(a)) => copy_array(a),
            _ => PdfArray::new(),
        };
        let ghost a = names.view_items();
        proof {
            lemma_view_objs(names.items@);
            if !(entries_get(dests.view_entries(), "Names"@) matches Some(ObjV::Array(_))) {
                assert(a =~= Seq::<ObjV>::empty());
            }
        }
        let key = chars_of(name);
        let n = names.items.len();
        let mut pairs: Vec<(Vec<char>, Object)> = Vec::new();
        let mut k: usize = 0;
        while k < n / 2
            invariant
                n == names.items@.len(),
                a == names.view_items(),
                a.len() == n,
                k <= n / 2,
                key@ == name@,
                forall|j: int| 0 <= j < n ==> #[trigger] a[j] == names.items@[j].v(),
                pairs_view(pairs@) == kept_pairs(a, name@, k as int),
            decreases n / 2 - k,
        {
            let ghost before = pairs_view(pairs@);
            if let Object::String(s) = &names.items[2 * k] {
                let text = from_pdf_text_string(s);
                let t = chars_of(text.as_str());
                if !str_eq(text.as_str(), name) {
                    let v = crate::object::copy_object(&names.items[2 * k + 1]);
                    pairs.push((t, v));
                    proof {
                        assert(pairs_view(pairs@) =~= before + seq![(text@, a[2 * k + 1])]);
                    }
                } else {
                    assert(pairs_view(pairs@) =~= before + Seq::<(Seq<char>, ObjV)>::empty());
                }
            } else {
                assert(pairs_view(pairs@) =~= before + Seq::<(Seq<char>, ObjV)>::empty());
            }
            k = k + 1;
        }
        let ghost kept = pairs_view(pairs@);
        let ghost new_entry = (name@, ObjV::Array(dv));
        pairs.push((key, Object::Array(dest_array)));
        proof {
            assert(pairs_view(pairs@) =~= kept.push(new_entry));
        }
        let sorted = sort_by_name(pairs);
        let ghost sv = pairs_view(sorted@);
        let mut flat = PdfArray::new();
        let mut i: usize = 0;
        proof {
            assert(sv.take(0) =~= Seq::<(Seq<char>, ObjV)>::empty());
            assert(flat.view_items() =~= Seq::<ObjV>::empty());
        }
        while i < sorted.len()
            invariant
                i <= sorted@.len(),
                sv == pairs_view(sorted@),
                flat.view_items() == flatten_pairs(sv.take(i as int)),
            decreases sorted@.len() - i,
        {
            let text = string_of(&sorted[i].0);
            let ghost before = flat.items@;
            let key_obj = Object::String(crate::util::to_pdf_text_string(text.as_str()));
            let val_obj = crate::object::copy_object(&sorted[i].1);
            let ghost kv = key_obj.v();
            let ghost vv = val_obj.v();
            flat.push(key_obj);
            let ghost mid = flat.items@;
            flat.push(val_obj);
            proof {
                let t = sv.take(i + 1);
                assert(t.drop_last() =~= sv.take(i as int));
                assert(t.last() == sv[i as int]);
                assert(kv == text_value(t.last().0));
                assert(vv == t.last().1);
                assert(flat.items@.drop_last() =~= mid);
                assert(mid.drop_last() =~= before);
                assert(crate::object::view_objs(mid) == crate::object::view_objs(before).push(kv));
                assert(flat.view_items() == crate::object::view_objs(mid).push(vv));
                assert(flat.view_items() =~= crate::object::view_objs(before) + seq![text_value(t.last().0), t.last().1]);
            }
            i = i + 1;
        }
        proof {
            assert(sv.take(sv.len() as int) =~= sv);
        }
        dests.set("Names", Object::Array(flat));
        self.store_dict(dests_id, dests);
        Ok(())
    }
}

/// The items a `/Count` update starting at `id` visits: `id`, then each
/// `/Parent` in turn, at most `steps` of them.
pub open spec fn parent_chain(ov: Seq<(ObjectId, ObjV)>, base: Seq<(ObjectId, ObjV)>, id: ObjectId, steps: nat) -> Seq<ObjectId>
    decreases steps,
{
    if steps == 0 {
        Seq::empty()
    } else {
        seq![id] + match dict_of(obj_in(ov, base, id)) {
            Some(d) => match ref_of(entries_get(d, "Parent"@)) {
                Some(p) => parent_chain(ov, base, p, (steps - 1) as nat),
                None => Seq::empty(),
            },
            None => Seq::empty(),
        }
    }
}

/// The `/Count` of an outline object, a missing one counting as 0.
pub open spec fn count_in(o: Option<ObjV>) -> int {
    match dict_of(o) {
        Some(d) => match entries_get(d, "Count"@) {
            Some(ObjV::Integer(c)) => c as int,
            _ => 0,
        },
        None => 0,
    }
}

/// Editing an object off the chain leaves the chain as it was.
proof fn lemma_parent_chain_frame(
    ov: Seq<(ObjectId, ObjV)>,
    base: Seq<(ObjectId, ObjV)>,
    id: ObjectId,
    steps: nat,
    x: ObjectId,
    v: ObjV,
)
    requires
        !parent_chain(ov, base, id, steps).contains(x),
    ensures
        parent_chain(table_set(ov, x, v), base, id, steps) == parent_chain(ov, base, id, steps),
    decreases steps,
{
    if steps > 0 {
        assert(parent_chain(ov, base, id, steps)[0] == id);
        crate::graph::lemma_table_get_set(ov, x, v, id);
        assert(obj_in(table_set(ov, x, v), base, id) == obj_in(ov, base, id));
        match dict_of(obj_in(ov, base, id)) {
            Some(d) => match ref_of(entries_get(d, "Parent"@)) {
                Some(p) => {
                    let rest = parent_chain(ov, base, p, (steps - 1) as nat);
                    assert forall|k: int| 0 <= k < rest.len() implies rest[k] != x by {
                        assert(parent_chain(ov, base, id, steps)[k + 1] == rest[k]);
                    }
                    lemma_parent_chain_frame(ov, base, p, (steps - 1) as nat, x, v);
                },
                None => {},
            },
            None => {},
        }
    }
}

/// Adding `delta` to the counts up the `/Parent` chain adds it to the
/// `/Count` of every item on the chain, once each when the chain does not
/// come back to an item, and changes no other object.
pub proof fn lemma_bump_counts_ancestors(ov: Seq<(ObjectId, ObjV)>, base: Seq<(ObjectId, ObjV)>, id: ObjectId, delta: int, steps: nat)
    requires
        bump_counts(ov, base, id, delta, steps).1 is Ok,
        parent_chain(ov, base, id, steps).no_duplicates(),
    ensures
        ({
            let after = bump_counts(ov, base, id, delta, steps).0;
            let chain = parent_chain(ov, base, id, steps);
            &&& forall|i: int|
                0 <= i < chain.len() ==> dict_of(#[trigger] obj_in(after, base, chain[i])) is Some && count_in(
                    obj_in(after, base, chain[i]),
                ) == count_in(obj_in(ov, base, chain[i])) + delta
            &&& forall|x: ObjectId| !chain.contains(x) ==> #[trigger] obj_in(after, base, x) == obj_in(ov, base, x)
        }),
    decreases steps,
{
    reveal_strlit("Count");
    reveal_strlit("Parent");
    if steps > 0 {
        let d = dict_of(obj_in(ov, base, id))->0;
        let cur: int = match entries_get(d, "Count"@) {
            Some(ObjV::Integer(c)) => c as int,
            _ => 0,
        };
        let d2 = entries_set(d, "Count"@, ObjV::Integer((cur + delta) as i64));
        let ov2 = table_set(ov, id, ObjV::Dict(d2));
        assert("Parent"@.len() == 6 && "Count"@.len() == 5);
        assert("Parent"@ != "Count"@);
        crate::object::lemma_entries_get_set(d, "Count"@, ObjV::Integer((cur + delta) as i64), "Parent"@);
        crate::object::lemma_entries_get_set(d, "Count"@, ObjV::Integer((cur + delta) as i64), "Count"@);
        crate::graph::lemma_table_get_set(ov, id, ObjV::Dict(d2), id);
        assert(obj_in(ov2, base, id) == Some(ObjV::Dict(d2)));
        assert(count_in(obj_in(ov, base, id)) == cur);
        assert(count_in(obj_in(ov2, base, id)) == cur + delta);
        assert forall|x: ObjectId| x != id implies #[trigger] obj_in(ov2, base, x) == obj_in(ov, base, x) by {
            crate::graph::lemma_table_get_set(ov, id, ObjV::Dict(d2), x);
        }
        let chain = parent_chain(ov, base, id, steps);
        match ref_of(entries_get(d2, "Parent"@)) {
            Some(p) => {
                let rest = parent_chain(ov, base, p, (steps - 1) as nat);
                assert(chain == seq![id] + rest);
                assert(!rest.contains(id)) by {
                    if rest.contains(id) {
                        let k = choose|k: int| 0 <= k < rest.len() && rest[k] == id;
                        assert(chain[k + 1] == chain[0]);
                    }
                }
                assert(rest.no_duplicates()) by {
                    assert forall|i: int, j: int| 0 <= i < rest.len() && 0 <= j < rest.len() && i != j implies rest[i] != rest[j] by {
                        assert(chain[i + 1] == rest[i] && chain[j + 1] == rest[j]);
                    }
                }
                lemma_parent_chain_frame(ov, base, p, (steps - 1) as nat, id, ObjV::Dict(d2));
                lemma_bump_counts_ancestors(ov2, base, p, delta, (steps - 1) as nat);
                let after = bump_counts(ov, base, id, delta, steps).0;
                assert(after == bump_counts(ov2, base, p, delta, (steps - 1) as nat).0);
                assert forall|i: int| 0 <= i < chain.len() implies dict_of(#[trigger] obj_in(after, base, chain[i])) is Some
                    && count_in(obj_in(after, base, chain[i])) == count_in(obj_in(ov, base, chain[i])) + delta by {
                    if i == 0 {
                        assert(obj_in(after, base, id) == obj_in(ov2, base, id));
                    } else {
                        assert(chain[i] == rest[i - 1]);
                        assert(rest[i - 1] != id);
                    }
                }
                assert forall|x: ObjectId| !chain.contains(x) implies #[trigger] obj_in(after, base, x) == obj_in(ov, base, x) by {
                    assert(x != chain[0]);
                    if rest.contains(x) {
                        let k = choose|k: int| 0 <= k < rest.len() && rest[k] == x;
                        assert(chain[k + 1] == x);
                    }
                }
            },
            None => {
                assert(entries_get(d2, "Parent"@) == entries_get(d, "Parent"@));
                assert(chain == seq![id] + Seq::<ObjectId>::empty());
                assert(chain =~= seq![id]);
                let after = bump_counts(ov, base, id, delta, steps).0;
                assert(after == ov2);
                assert forall|x: ObjectId| !chain.contains(x) implies #[trigger] obj_in(after, base, x) == obj_in(ov, base, x) by {
                    assert(x != chain[0]);
                }
            },
        }
    }
}

/// Two tables that agree on which objects are dictionaries and on their
/// `/Parent` entries.
pub open spec fn same_parents(a: Seq<(ObjectId, ObjV)>, b: Seq<(ObjectId, ObjV)>, base: Seq<(ObjectId, ObjV)>) -> bool {
    forall|x: ObjectId|
        (#[trigger] dict_of(obj_in(a, base, x)) is Some) == (dict_of(obj_in(b, base, x)) is Some) && (dict_of(obj_in(a, base, x))
            is Some ==> entries_get(dict_of(obj_in(a, base, x))->0, "Parent"@) == entries_get(
            dict_of(obj_in(b, base, x))->0,
            "Parent"@,
        ))
}

/// Tables that agree on the `/Parent` links have the same chains.
proof fn lemma_parent_chain_same(a: Seq<(ObjectId, ObjV)>, b: Seq<(ObjectId, ObjV)>, base: Seq<(ObjectId, ObjV)>, id: ObjectId, steps: nat)
    requires
        same_parents(a, b, base),
    ensures
        parent_chain(a, base, id, steps) == parent_chain(b, base, id, steps),
    decreases steps,
{
    if steps > 0 {
        assert(dict_of(obj_in(a, base, id)) is Some == dict_of(obj_in(b, base, id)) is Some);
        match dict_of(obj_in(a, base, id)) {
            Some(d) => match ref_of(entries_get(d, "Parent"@)) {
                Some(p) => lemma_parent_chain_same(a, b, base, p, (steps - 1) as nat),
                None => {},
            },
            None => {},
        }
    }
}

/// Relinking the siblings around a removed item touches no `/Parent`
/// and no `/Count`.
proof fn lemma_unlink_keeps(
    ov: Seq<(ObjectId, ObjV)>,
    base: Seq<(ObjectId, ObjV)>,
    parent: ObjectId,
    prev: Option<ObjectId>,
    next: Option<ObjectId>,
)
    requires
        unlink_v(ov, base, parent, prev, next).1 is Ok,
        forall|x: ObjectId| #[trigger] dict_of(obj_in(ov, base, x)) is Some ==> keys_distinct(dict_of(obj_in(ov, base, x))->0),
    ensures
        same_parents(unlink_v(ov, base, parent, prev, next).0, ov, base),
        forall|x: ObjectId| #[trigger] count_in(obj_in(unlink_v(ov, base, parent, prev, next).0, base, x)) == count_in(obj_in(ov, base, x)),
{
    reveal_strlit("Next");
    reveal_strlit("First");
    reveal_strlit("Prev");
    reveal_strlit("Last");
    reveal_strlit("Count");
    reveal_strlit("Parent");
    let a = match prev {
        Some(p) => p,
        None => parent,
    };
    let a_key = if prev is Some { "Next"@ } else { "First"@ };
    let b = match next {
        Some(n) => n,
        None => parent,
    };
    let b_key = if next is Some { "Prev"@ } else { "Last"@ };
    assert("Next"@.len() == 4 && "First"@.len() == 5 && "Prev"@.len() == 4 && "Last"@.len() == 4);
    assert("Parent"@.len() == 6 && "Count"@.len() == 5);
    assert("First"@[0] == 'F' && "Count"@[0] == 'C');
    assert("First"@ != "Count"@);
    assert(a_key != "Parent"@ && a_key != "Count"@);
    assert(b_key != "Parent"@ && b_key != "Count"@);
    let ad = dict_of(obj_in(ov, base, a))->0;
    let ad2 = relink(ad, a_key, next);
    let ov1 = table_set(ov, a, ObjV::Dict(ad2));
    lemma_relink(ad, a_key, next, "Parent"@);
    lemma_relink(ad, a_key, next, "Count"@);
    assert forall|x: ObjectId| #[trigger] dict_of(obj_in(ov1, base, x)) is Some implies keys_distinct(dict_of(obj_in(ov1, base, x))->0)
        && entries_get(dict_of(obj_in(ov1, base, x))->0, "Parent"@) == entries_get(dict_of(obj_in(ov, base, x))->0, "Parent"@)
        && entries_get(dict_of(obj_in(ov1, base, x))->0, "Count"@) == entries_get(dict_of(obj_in(ov, base, x))->0, "Count"@)
        && dict_of(obj_in(ov, base, x)) is Some by {
        crate::graph::lemma_table_get_set(ov, a, ObjV::Dict(ad2), x);
    }
    assert forall|x: ObjectId| #[trigger] dict_of(obj_in(ov, base, x)) is Some implies dict_of(obj_in(ov1, base, x)) is Some by {
        crate::graph::lemma_table_get_set(ov, a, ObjV::Dict(ad2), x);
    }
    let bd = dict_of(obj_in(ov1, base, b))->0;
    let bd2 = relink(bd, b_key, prev);
    let ov2 = table_set(ov1, b, ObjV::Dict(bd2));
    lemma_relink(bd, b_key, prev, "Parent"@);
    lemma_relink(bd, b_key, prev, "Count"@);
    assert(unlink_v(ov, base, parent, prev, next).0 == ov2);
    assert forall|x: ObjectId|
        (#[trigger] dict_of(obj_in(ov2, base, x)) is Some) == (dict_of(obj_in(ov, base, x)) is Some) && (dict_of(obj_in(ov2, base, x))
            is Some ==> entries_get(dict_of(obj_in(ov2, base, x))->0, "Parent"@) == entries_get(
            dict_of(obj_in(ov, base, x))->0,
            "Parent"@,
        ) && entries_get(dict_of(obj_in(ov2, base, x))->0, "Count"@) == entries_get(dict_of(obj_in(ov, base, x))->0, "Count"@)) by {
        crate::graph::lemma_table_get_set(ov1, b, ObjV::Dict(bd2), x);
        crate::graph::lemma_table_get_set(ov, a, ObjV::Dict(ad2), x);
    }
    assert forall|x: ObjectId| #[trigger] count_in(obj_in(ov2, base, x)) == count_in(obj_in(ov, base, x)) by {
        assert(dict_of(obj_in(ov2, base, x)) is Some == dict_of(obj_in(ov, base, x)) is Some);
    }
}

/// Removing an outline item takes the number of items it held away from
/// the `/Count` of its parent and of each ancestor above it, once each
/// when the `/Parent` links do not come back to an item.
pub proof fn lemma_remove_bookmark_counts(ov: Seq<(ObjectId, ObjV)>, base: Seq<(ObjectId, ObjV)>, id: ObjectId)
    requires
        remove_bookmark_v(ov, base, id).1 is Ok,
        forall|x: ObjectId| #[trigger] dict_of(obj_in(ov, base, x)) is Some ==> keys_distinct(dict_of(obj_in(ov, base, x))->0),
        parent_chain(
            ov,
            base,
            ref_of(entries_get(dict_of(obj_in(ov, base, id))->0, "Parent"@))->0,
            MAX_PARENT_DEPTH as nat,
        ).no_duplicates(),
    ensures
        ({
            let d = dict_of(obj_in(ov, base, id))->0;
            let parent = ref_of(entries_get(d, "Parent"@))->0;
            let unlinked = unlink_v(ov, base, parent, ref_of(entries_get(d, "Prev"@)), ref_of(entries_get(d, "Next"@))).0;
            let removed = count_v(unlinked, base, id, Set::empty(), (MAX_OUTLINE_NODES + 1) as nat).0->Ok_0;
            let after = remove_bookmark_v(ov, base, id).0;
            let chain = parent_chain(ov, base, parent, MAX_PARENT_DEPTH as nat);
            forall|i: int|
                0 <= i < chain.len() ==> #[trigger] count_in(obj_in(after, base, chain[i])) == count_in(obj_in(ov, base, chain[i]))
                    - removed
        }),
{
    let d = dict_of(obj_in(ov, base, id))->0;
    let parent = ref_of(entries_get(d, "Parent"@))->0;
    let prev = ref_of(entries_get(d, "Prev"@));
    let next = ref_of(entries_get(d, "Next"@));
    let u = unlink_v(ov, base, parent, prev, next);
    lemma_unlink_keeps(ov, base, parent, prev, next);
    lemma_parent_chain_same(u.0, ov, base, parent, MAX_PARENT_DEPTH as nat);
    let t = count_v(u.0, base, id, Set::empty(), (MAX_OUTLINE_NODES + 1) as nat).0->Ok_0;
    lemma_bump_counts_ancestors(u.0, base, parent, -t, MAX_PARENT_DEPTH as nat);
    let chain = parent_chain(ov, base, parent, MAX_PARENT_DEPTH as nat);
    let after = remove_bookmark_v(ov, base, id).0;
    assert(after == bump_counts(u.0, base, parent, -t, MAX_PARENT_DEPTH as nat).0);
    assert forall|i: int| 0 <= i < chain.len() implies #[trigger] count_in(obj_in(after, base, chain[i])) == count_in(
        obj_in(ov, base, chain[i]),
    ) - t by {
        assert(count_in(obj_in(u.0, base, chain[i])) == count_in(obj_in(ov, base, chain[i])));
    }
}

} // verus!
