//! Tagged-PDF logical structure (ISO 32000-1 14.7, 14.8): the standard
//! structure types this crate writes and the tree it reads back.

use vstd::prelude::*;
use std::collections::HashSet;
use crate::graph::{dict_of, id_key, node_key, ref_id, table_set, EditableDocument, EditorError};
use crate::object::{entries_get, entries_set, ObjV, Object, ObjectId, PdfArray, PdfDictionary, PdfName};
use crate::outline::{obj_in, ref_of};
use crate::pages::ref_v;
use crate::content_ops::{line_ended, page_content_in, set_content_v};
use crate::numfmt::dec;
use crate::util::text_value;
use vstd::utf8::encode_utf8;

verus! {

broadcast use vstd::std_specs::hash::group_hash_axioms;

/// A standard structure type (ISO 32000-1 14.8.4, Table 337).
#[derive(Debug, Clone, Copy, PartialEq, Eq, Structural)]
pub enum StructType {
    /// `/Document`: the root of a document's content.
    Document,
    /// `/H1`..`/H6` for `1..=6` (larger levels written as `/H6`); plain
    /// `/H` for `0`.
    Heading(u8),
    /// `/P`: a paragraph.
    Paragraph,
    /// `/Table`.
    Table,
    /// `/TR`: a table row.
    TableRow,
    /// `/TD`: a (non-header) table data cell.
    TableCell,
    /// `/Figure`.
    Figure,
}

impl StructType {
    /// The structure type name of each type.
    pub open spec fn spec_tag(self) -> Seq<char> {
        match self {
            StructType::Document => "Document"@,
            StructType::Heading(n) => if n == 0 {
                "H"@
            } else {
                "H"@.push(((48 + if n > 6 { 6 } else { n }) as u32) as char)
            },
            StructType::Paragraph => "P"@,
            StructType::Table => "Table"@,
            StructType::TableRow => "TR"@,
            StructType::TableCell => "TD"@,
            StructType::Figure => "Figure"@,
        }
    }

    /// The structure type name (`/S`) of this type.
    pub fn tag(self) -> (s: String)
        ensures
            s@ == self.spec_tag(),
    {
        match self {
            StructType::Document => String::from_str("Document"),
            StructType::Heading(n) => {
                if n == 0 {
                    String::from_str("H")
                } else {
                    let level: u8 = if n > 6 { 6 } else { n };
                    let mut s = String::from_str("H");
                    let c = crate::stdtext::char_from_u32((48 + level) as u32).unwrap();
                    proof {
                        vstd::utf8::char_u32_cast(c, c as u32);
                    }
                    crate::stdtext::push_char(&mut s, c);
                    s
                }
            },
            StructType::Paragraph => String::from_str("P"),
            StructType::Table => String::from_str("Table"),
            StructType::TableRow => String::from_str("TR"),
            StructType::TableCell => String::from_str("TD"),
            StructType::Figure => String::from_str("Figure"),
        }
    }
}

/// A node of the logical structure tree, as read back from a document.
#[derive(Debug)]
pub struct StructNode {
    /// The structure element's own object id.
    pub id: ObjectId,
    /// Its `/S` (structure type name), e.g. `"P"`, `"H1"`, `"Figure"`.
    pub struct_type: String,
    /// Its `/Alt` (alternate description), if any.
    pub alt_text: Option<String>,
    /// The MCID of its own marked-content sequence, if it owns one.
    pub mcid: Option<i64>,
    /// Child structure elements, in document order.
    pub children: Vec<StructNode>,
}


/// The most structure elements read back from a tree.
pub const MAX_STRUCT_NODES: usize = 200000;

/// The entries of a new, empty parent tree (ISO 32000-1 14.7.4.4).
pub open spec fn parent_tree_entries() -> Seq<(Seq<char>, ObjV)> {
    entries_set(Seq::empty(), "Nums"@, ObjV::Array(Seq::empty()))
}

/// The entries of a new, empty structure tree root whose parent tree is
/// `pt` (ISO 32000-1 Table 322).
pub open spec fn struct_root_entries(pt: ObjectId) -> Seq<(Seq<char>, ObjV)> {
    entries_set(
        entries_set(
            entries_set(entries_set(Seq::empty(), "Type"@, ObjV::Name("StructTreeRoot"@)), "K"@, ObjV::Array(Seq::empty())),
            "ParentTree"@,
            ref_v(pt),
        ),
        "ParentTreeNextKey"@,
        ObjV::Integer(0),
    )
}

/// The catalog `c` with its structure tree root set to `sr` and
/// `/MarkInfo << /Marked true >>` (ISO 32000-1 14.7.1).
pub open spec fn marked_catalog(c: Seq<(Seq<char>, ObjV)>, sr: ObjectId) -> Seq<(Seq<char>, ObjV)> {
    entries_set(
        entries_set(c, "StructTreeRoot"@, ref_v(sr)),
        "MarkInfo"@,
        ObjV::Dict(entries_set(Seq::empty(), "Marked"@, ObjV::Boolean(true))),
    )
}

/// The structure tree root in force after making sure the catalog has
/// one: the edited objects, the next object number and the root's id (a
/// new root under the next number, its parent tree under the one after).
pub open spec fn with_struct_root(ov: Seq<(ObjectId, ObjV)>, base: Seq<(ObjectId, ObjV)>, root: ObjectId, next: u32) -> (
    Seq<(ObjectId, ObjV)>,
    u32,
    Result<ObjectId, EditorError>,
) {
    match dict_of(obj_in(ov, base, root)) {
        None => (ov, next, Err(EditorError::UnresolvedObject(root.number, root.generation))),
        Some(c) => match ref_of(entries_get(c, "StructTreeRoot"@)) {
            Some(id) => (ov, next, Ok(id)),
            None => {
                let sr = ObjectId { number: next, generation: 0 };
                let pt = ObjectId { number: (next + 1) as u32, generation: 0 };
                let ov1 = table_set(ov, pt, ObjV::Dict(parent_tree_entries()));
                let ov2 = table_set(ov1, sr, ObjV::Dict(struct_root_entries(pt)));
                (table_set(ov2, root, ObjV::Dict(marked_catalog(c, sr))), (next + 2) as u32, Ok(sr))
            },
        },
    }
}

/// The entries of a new `/Document` structure element under `sr`.
pub open spec fn doc_elem_entries(sr: ObjectId) -> Seq<(Seq<char>, ObjV)> {
    entries_set(
        entries_set(entries_set(Seq::empty(), "Type"@, ObjV::Name("StructElem"@)), "S"@, ObjV::Name("Document"@)),
        "P"@,
        ref_v(sr),
    )
}

/// The `/Document` element that is the first kid of the structure tree
/// root with entries `rd`, if it has one.
pub open spec fn existing_doc_elem(ov: Seq<(ObjectId, ObjV)>, base: Seq<(ObjectId, ObjV)>, rd: Seq<(Seq<char>, ObjV)>) -> Option<
    ObjectId,
> {
    match entries_get(rd, "K"@) {
        Some(ObjV::Array(k)) => if k.len() > 0 {
            match k[0] {
                ObjV::Reference(n, g) => match dict_of(obj_in(ov, base, ref_id(n, g))) {
                    Some(ed) => if entries_get(ed, "S"@) == Some(ObjV::Name("Document"@)) {
                        Some(ref_id(n, g))
                    } else {
                        None
                    },
                    None => None,
                },
                _ => None,
            }
        } else {
            None
        },
        _ => None,
    }
}

/// The kids array of entries `d`: its `/K` array, or an empty one.
pub open spec fn k_array(d: Seq<(Seq<char>, ObjV)>) -> Seq<ObjV> {
    match entries_get(d, "K"@) {
        Some(ObjV::Array(a)) => a,
        _ => Seq::empty(),
    }
}

/// Adding (or finding) the `/Document` element under the structure tree
/// root: the edited objects, the next object number and its id.
pub open spec fn add_doc_root_v(ov: Seq<(ObjectId, ObjV)>, base: Seq<(ObjectId, ObjV)>, root: ObjectId, next: u32) -> (
    Seq<(ObjectId, ObjV)>,
    u32,
    Result<ObjectId, EditorError>,
) {
    let (ov1, n1, r) = with_struct_root(ov, base, root, next);
    match r {
        Err(e) => (ov1, n1, Err(e)),
        Ok(sr) => match dict_of(obj_in(ov1, base, sr)) {
            None => (ov1, n1, Err(EditorError::UnresolvedObject(sr.number, sr.generation))),
            Some(rd) => match existing_doc_elem(ov1, base, rd) {
                Some(e) => (ov1, n1, Ok(e)),
                None => {
                    let e = ObjectId { number: n1, generation: 0 };
                    let ov2 = table_set(ov1, e, ObjV::Dict(doc_elem_entries(sr)));
                    (
                        table_set(ov2, sr, ObjV::Dict(entries_set(rd, "K"@, ObjV::Array(k_array(rd).push(ref_v(e)))))),
                        (n1 + 1) as u32,
                        Ok(e),
                    )
                },
            },
        },
    }
}

impl EditableDocument {
    /// Makes sure the document has a structure tree root (ISO 32000-1
    /// 14.7.2), creating an empty one with an empty parent tree and
    /// marking the document as tagged (`/MarkInfo /Marked true`) when it
    /// has none; returns the root's id.
    pub fn ensure_struct_tree_root(&mut self) -> (r: Result<ObjectId, EditorError>)
        requires
            old(self).wf(),
            old(self).next_number() < u32::MAX - 1,
        ensures
            final(self).wf(),
            final(self).same_but_overlay_next(old(self)),
            (final(self).overlay_v(), final(self).next_number(), r) == with_struct_root(
                old(self).overlay_v(),
                old(self).base_v(),
                old(self).root_id(),
                old(self).next_number(),
            ),
    {
        let mut catalog = self.catalog()?;
        if let Some(Object::Reference(id)) = catalog.get("StructTreeRoot") {
            assert(ref_id(id.number, id.generation) == *id);
            return Ok(*id);
        }
        let ghost pre = *self;
        let root_id = self.allocate_id();
        let mut parent_tree = PdfDictionary::new();
        parent_tree.set("Nums", Object::Array(PdfArray::new()));
        proof {
            assert(crate::object::view_objs(Seq::<Object>::empty()) =~= Seq::<ObjV>::empty());
        }
        let ghost ov0 = self.overlay_v();
        let ghost ptv = ObjV::Dict(parent_tree.view_entries());
        let ghost alloc = *self;
        let parent_tree_id = self.store_new_dict(parent_tree);
        let mut root = PdfDictionary::new();
        root.set("Type", Object::Name(PdfName::new_unchecked("StructTreeRoot")));
        root.set("K", Object::Array(PdfArray::new()));
        root.set("ParentTree", Object::Reference(parent_tree_id));
        root.set("ParentTreeNextKey", Object::Integer(0));
        proof {
            assert forall|x: ObjectId| self.object(x) is Some && x.number == root_id.number implies x == root_id by {
                crate::outline::lemma_obj_in_set(ov0, self.base_v(), parent_tree_id, ptv, x);
                if x != parent_tree_id {
                    assert(alloc.object(x) == pre.object(x));
                    assert(pre.object(x) is Some);
                }
            }
        }
        self.store_at(root_id, root);
        catalog.set("StructTreeRoot", Object::Reference(root_id));
        let mut mark_info = PdfDictionary::new();
        mark_info.set("Marked", Object::Boolean(true));
        catalog.set("MarkInfo", Object::Dictionary(mark_info));
        let cat_id = self.catalog_id();
        proof {
            self.lemma_root_stored();
        }
        self.store_dict(cat_id, catalog);
        Ok(root_id)
    }

    /// The first kid of the structure tree root `root` when it is a
    /// `/Document` element.
    fn first_document_kid(&self, root: &PdfDictionary) -> (r: Option<ObjectId>)
        ensures
            r == existing_doc_elem(self.overlay_v(), self.base_v(), root.view_entries()),
    {
        let k = match root.get("K") {
            Some(Object::Array(k)) => k,
            _ => {
                return None;
            },
        };
        proof {
            crate::object::lemma_view_objs(k.items@);
        }
        let id = match k.get(0) {
            Some(Object::Reference(id)) => *id,
            _ => {
                return None;
            },
        };
        assert(ref_id(id.number, id.generation) == id);
        let d = match self.get_dictionary(id) {
            Ok(d) => d,
            Err(_) => {
                return None;
            },
        };
        let is_doc = match d.get("S") {
            Some(Object::Name(n)) => crate::object::str_eq(n.as_str(), "Document"),
            _ => false,
        };
        if is_doc {
            Some(id)
        } else {
            None
        }
    }

    /// Adds the `/Document` structure element as the last kid of the
    /// structure tree root (creating the root when missing), or returns
    /// the one that already is the root's first kid.
    pub fn add_document_structure_root(&mut self) -> (r: Result<ObjectId, EditorError>)
        requires
            old(self).wf(),
            old(self).next_number() < u32::MAX - 2,
        ensures
            final(self).wf(),
            final(self).same_but_overlay_next(old(self)),
            (final(self).overlay_v(), final(self).next_number(), r) == add_doc_root_v(
                old(self).overlay_v(),
                old(self).base_v(),
                old(self).root_id(),
                old(self).next_number(),
            ),
    {
        let struct_root_id = self.ensure_struct_tree_root()?;
        let mut root = self.get_dictionary(struct_root_id)?;
        let ghost rd = root.view_entries();
        if let Some(id) = self.first_document_kid(&root) {
            return Ok(id);
        }
        let mut elem = PdfDictionary::new();
        elem.set("Type", Object::Name(PdfName::new_unchecked("StructElem")));
        elem.set("S", Object::Name(PdfName::new_unchecked("Document")));
        elem.set("P", Object::Reference(struct_root_id));
        let ghost ov1 = self.overlay_v();
        let ghost ev = ObjV::Dict(elem.view_entries());
        let doc_elem_id = self.store_new_dict(elem);
        let mut k = match root.get("K") {
            Some(Object::Array(a)) => crate::object::copy_array(a),
            _ => PdfArray::new(),
        };
        proof {
            if !(entries_get(rd, "K"@) matches Some(ObjV::Array(_))) {
                assert(k.view_items() =~= Seq::<ObjV>::empty());
            }
        }
        let ghost k0 = k.items@;
        k.push(Object::Reference(doc_elem_id));
        proof {
            assert(k.items@.drop_last() =~= k0);
            assert(crate::object::view_objs(k.items@) == crate::object::view_objs(k.items@.drop_last()).push(
                k.items@.last().v(),
            ));
            assert(k.view_items() == k_array(rd).push(ref_v(doc_elem_id)));
        }
        root.set("K", Object::Array(k));
        proof {
            crate::outline::lemma_obj_in_set(ov1, self.base_v(), doc_elem_id, ev, struct_root_id);
        }
        self.store_dict(struct_root_id, root);
        Ok(doc_elem_id)
    }
}


/// The value of a structure element as read back: its id, type name,
/// alternate text, MCID and children.
pub struct StructV {
    /// The element's object id.
    pub id: ObjectId,
    /// Its `/S`.
    pub struct_type: Seq<char>,
    /// Its `/Alt`, decoded.
    pub alt_text: Option<Seq<char>>,
    /// Its own MCID.
    pub mcid: Option<i64>,
    /// Its children's values.
    pub children: Seq<StructV>,
}

/// The value of a read-back structure node.
pub open spec fn sn_view(n: StructNode) -> StructV
    decreases n,
{
    StructV {
        id: n.id,
        struct_type: n.struct_type@,
        alt_text: match n.alt_text {
            Some(t) => Some(t@),
            None => None,
        },
        mcid: n.mcid,
        children: sns_view(n.children@),
    }
}

/// The values of a sequence of read-back structure nodes.
pub open spec fn sns_view(s: Seq<StructNode>) -> Seq<StructV>
    decreases s,
{
    if s.len() == 0 {
        Seq::empty()
    } else {
        sns_view(s.drop_last()).push(sn_view(s.last()))
    }
}

impl EditableDocument {
    /// The structure elements a `/K` array names from its `i`-th entry
    /// on, with the keys of the elements already read: the elements and
    /// the keys read after it. Entries that are not references, that name
    /// an element already read or one past `MAX_STRUCT_NODES` elements,
    /// or that name no dictionary are passed over. An element's own `/K`
    /// is an MCID (an integer), an array of kids, or one kid reference.
    pub open spec fn struct_children(&self, k: Seq<ObjV>, i: int, visited: Set<u64>, fuel: nat) -> (Seq<StructV>, Set<u64>)
        decreases fuel, k.len() - i,
    {
        if fuel == 0 || i < 0 || i >= k.len() {
            (Seq::empty(), visited)
        } else {
            match k[i] {
                ObjV::Reference(n, g) => {
                    let id = ref_id(n, g);
                    if visited.len() >= MAX_STRUCT_NODES || visited.contains(id_key(id)) {
                        self.struct_children(k, i + 1, visited, fuel)
                    } else {
                        let v1 = visited.insert(id_key(id));
                        match self.dict(id) {
                            None => self.struct_children(k, i + 1, v1, fuel),
                            Some(d) => {
                                let st = match entries_get(d, "S"@) {
                                    Some(ObjV::Name(t)) => t,
                                    _ => Seq::empty(),
                                };
                                let alt = match entries_get(d, "Alt"@) {
                                    Some(ObjV::Str(_, b)) => Some(crate::util::text_of_bytes(b)),
                                    _ => None,
                                };
                                let mcid: Option<i64> = match entries_get(d, "K"@) {
                                    Some(ObjV::Integer(m)) => Some(m),
                                    _ => None,
                                };
                                let kids = match entries_get(d, "K"@) {
                                    Some(ObjV::Array(a)) => self.struct_children(a, 0, v1, (fuel - 1) as nat),
                                    Some(ObjV::Reference(kn, kg)) => self.struct_children(
                                        seq![ObjV::Reference(kn, kg)],
                                        0,
                                        v1,
                                        (fuel - 1) as nat,
                                    ),
                                    _ => (Seq::empty(), v1),
                                };
                                let node = StructV { id, struct_type: st, alt_text: alt, mcid, children: kids.0 };
                                let rest = self.struct_children(k, i + 1, kids.1, fuel);
                                (seq![node] + rest.0, rest.1)
                            },
                        }
                    }
                },
                _ => self.struct_children(k, i + 1, visited, fuel),
            }
        }
    }

    /// The logical structure tree: the catalog's `/StructTreeRoot` and
    /// the elements below it, `None` when there is none.
    pub open spec fn spec_struct_tree(&self) -> Option<StructV> {
        match self.dict(self.root_id()) {
            None => None,
            Some(c) => match ref_of(entries_get(c, "StructTreeRoot"@)) {
                None => None,
                Some(rid) => match self.dict(rid) {
                    None => None,
                    Some(rd) => Some(
                        StructV {
                            id: rid,
                            struct_type: "StructTreeRoot"@,
                            alt_text: None,
                            mcid: None,
                            children: match entries_get(rd, "K"@) {
                                Some(ObjV::Array(k)) => self.struct_children(
                                    k,
                                    0,
                                    Set::empty(),
                                    (MAX_STRUCT_NODES + 1) as nat,
                                ).0,
                                _ => Seq::empty(),
                            },
                        },
                    ),
                },
            },
        }
    }

    /// Reads the structure elements the array `k` names (see
    /// `struct_children`).
    fn read_struct_children(&self, k: &PdfArray, visited: &mut HashSet<u64>, Ghost(fuel): Ghost<nat>) -> (out: Vec<
        StructNode,
    >)
        requires
            old(visited)@.finite(),
            fuel + old(visited)@.len() > MAX_STRUCT_NODES,
        ensures
            (sns_view(out@), final(visited)@) == self.struct_children(k.view_items(), 0, old(visited)@, fuel),
            final(visited)@.finite(),
            old(visited)@.subset_of(final(visited)@),
        decreases fuel,
    {
        let ghost items = k.view_items();
        let ghost target = self.struct_children(items, 0, visited@, fuel);
        let ghost v0 = visited@;
        proof {
            crate::object::lemma_view_objs(k.items@);
        }
        let mut out: Vec<StructNode> = Vec::new();
        let mut i: usize = 0;
        while i < k.items.len()
            invariant
                items == k.view_items(),
                items.len() == k.items@.len(),
                forall|j: int| 0 <= j < k.items@.len() ==> #[trigger] items[j] == k.items@[j].v(),
                i <= k.items@.len(),
                visited@.finite(),
                v0.subset_of(visited@),
                fuel + visited@.len() > MAX_STRUCT_NODES,
                (sns_view(out@) + self.struct_children(items, i as int, visited@, fuel).0, self.struct_children(
                    items,
                    i as int,
                    visited@,
                    fuel,
                ).1) == target,
            decreases k.items@.len() - i,
        {
            let ghost vs = visited@;
            let ghost before = out@;
            if let Object::Reference(id) = &k.items[i] {
                let id = *id;
                assert(ref_id(id.number, id.generation) == id);
                if visited.len() < MAX_STRUCT_NODES && visited.insert(node_key(id)) {
                    proof {
                        vstd::set::axiom_set_insert_len(vs, id_key(id));
                    }
                    let ghost v1 = visited@;
                    if let Ok(dict) = self.get_dictionary(id) {
                        let struct_type = match dict.get("S") {
                            Some(Object::Name(n)) => String::from_str(n.as_str()),
                            _ => String::new(),
                        };
                        let alt_text = match dict.get("Alt") {
                            Some(Object::String(s)) => Some(crate::util::from_pdf_text_string(s)),
                            _ => None,
                        };
                        let (mcid, children) = match dict.get("K") {
                            Some(Object::Integer(m)) => (Some(*m), Vec::new()),
                            Some(Object::Array(kids)) => (None, self.read_struct_children(kids, visited, Ghost((fuel - 1) as nat))),
                            Some(Object::Reference(kid)) => {
                                let one = PdfArray::from_objects(vec![Object::Reference(*kid)]);
                                proof {
                                    reveal_with_fuel(crate::object::view_objs, 2);
                                    assert(one.view_items() =~= seq![ObjV::Reference(kid.number, kid.generation)]);
                                }
                                (None, self.read_struct_children(&one, visited, Ghost((fuel - 1) as nat)))
                            },
                            _ => (None, Vec::new()),
                        };
                        let ghost v2 = visited@;
                        proof {
                            vstd::set_lib::lemma_len_subset(v1, v2);
                        }
                        let ghost gt = struct_type;
                        let ghost ga = alt_text;
                        let ghost gc = children;
                        let ghost node_v = StructV {
                            id,
                            struct_type: gt@,
                            alt_text: match ga {
                                Some(t) => Some(t@),
                                None => None,
                            },
                            mcid,
                            children: sns_view(gc@),
                        };
                        out.push(StructNode { id, struct_type, alt_text, mcid, children });
                        proof {
                            assert(out@.drop_last() =~= before);
                            assert(out@.last() == StructNode { id, struct_type: gt, alt_text: ga, mcid, children: gc });
                            assert(sn_view(out@.last()) == node_v);
                            assert(sns_view(out@) == sns_view(before).push(node_v));
                            assert(sns_view(before) + self.struct_children(items, i as int, vs, fuel).0 =~= sns_view(out@)
                                + self.struct_children(items, i + 1, v2, fuel).0);
                        }
                    }
                } else {
                    assert(visited@ =~= vs);
                }
            }
            i = i + 1;
        }
        proof {
            assert(sns_view(out@) + Seq::<StructV>::empty() =~= sns_view(out@));
        }
        out
    }

    /// The logical structure tree (ISO 32000-1 14.7.2): the structure
    /// tree root and the elements below it, in document order; `None`
    /// when the document has no `/StructTreeRoot`. Elements reached twice
    /// are read once.
    pub fn struct_tree(&self) -> (r: Result<Option<StructNode>, EditorError>)
        ensures
            r matches Ok(t) && match self.spec_struct_tree() {
                None => t is None,
                Some(v) => t matches Some(n) && sn_view(n) == v,
            },
    {
        let catalog = match self.catalog() {
            Ok(c) => c,
            Err(_) => {
                return Ok(None);
            },
        };
        let root_id = match catalog.get("StructTreeRoot") {
            Some(Object::Reference(id)) => *id,
            _ => {
                return Ok(None);
            },
        };
        assert(ref_id(root_id.number, root_id.generation) == root_id);
        let root = match self.get_dictionary(root_id) {
            Ok(d) => d,
            Err(_) => {
                return Ok(None);
            },
        };
        let mut visited: HashSet<u64> = HashSet::new();
        proof {
            assert(visited@ =~= Set::<u64>::empty());
        }
        let children = match root.get("K") {
            Some(Object::Array(k)) => self.read_struct_children(k, &mut visited, Ghost((MAX_STRUCT_NODES + 1) as nat)),
            _ => Vec::new(),
        };
        let node = StructNode {
            id: root_id,
            struct_type: String::from_str("StructTreeRoot"),
            alt_text: None,
            mcid: None,
            children,
        };
        Ok(Some(node))
    }
}


/// Assigning the page `page` a `/StructParents` key: its key when it has
/// one; else the structure tree root `sr`'s `/ParentTreeNextKey` (0 when
/// missing), which is advanced. The edited objects and the key.
pub open spec fn parents_key_v(ov: Seq<(ObjectId, ObjV)>, base: Seq<(ObjectId, ObjV)>, page: ObjectId, sr: ObjectId) -> (
    Seq<(ObjectId, ObjV)>,
    Result<i64, EditorError>,
) {
    match dict_of(obj_in(ov, base, page)) {
        None => (ov, Err(EditorError::UnresolvedObject(page.number, page.generation))),
        Some(pd) => match entries_get(pd, "StructParents"@) {
            Some(ObjV::Integer(k)) => (ov, Ok(k)),
            _ => match dict_of(obj_in(ov, base, sr)) {
                None => (ov, Err(EditorError::UnresolvedObject(sr.number, sr.generation))),
                Some(rd) => {
                    let nk: int = match entries_get(rd, "ParentTreeNextKey"@) {
                        Some(ObjV::Integer(n)) => n as int,
                        _ => 0,
                    };
                    if nk + 1 > i64::MAX {
                        (ov, Err(EditorError::ResourceLimitExceeded))
                    } else {
                        let ov1 = table_set(ov, sr, ObjV::Dict(entries_set(rd, "ParentTreeNextKey"@, ObjV::Integer((nk + 1) as i64))));
                        (table_set(ov1, page, ObjV::Dict(entries_set(pd, "StructParents"@, ObjV::Integer(nk as i64)))), Ok(nk as i64))
                    }
                },
            },
        },
    }
}

/// The array under `key` in a number-tree leaf's `/Nums` (ISO 32000-1
/// 7.9.7), from the `k`-th pair on: the first pair whose key is `key`
/// and whose value is an array; empty when there is none.
pub open spec fn num_lookup(nums: Seq<ObjV>, key: i64, k: int) -> Seq<ObjV>
    decreases nums.len() - 2 * k,
{
    if k < 0 || 2 * k + 1 >= nums.len() {
        Seq::empty()
    } else if nums[2 * k] == ObjV::Integer(key) && nums[2 * k + 1] is Array {
        nums[2 * k + 1]->Array_0
    } else {
        num_lookup(nums, key, k + 1)
    }
}

/// The `/ParentTree` entry under `key` of the structure tree root `sr`:
/// empty when the root has no parent tree reference or the parent tree
/// no such entry.
pub open spec fn parent_tree_arr(ov: Seq<(ObjectId, ObjV)>, base: Seq<(ObjectId, ObjV)>, sr: ObjectId, key: i64) -> Result<
    Seq<ObjV>,
    EditorError,
> {
    match dict_of(obj_in(ov, base, sr)) {
        None => Err(EditorError::UnresolvedObject(sr.number, sr.generation)),
        Some(rd) => match ref_of(entries_get(rd, "ParentTree"@)) {
            None => Ok(Seq::empty()),
            Some(pt) => match dict_of(obj_in(ov, base, pt)) {
                None => Err(EditorError::UnresolvedObject(pt.number, pt.generation)),
                Some(pd) => match entries_get(pd, "Nums"@) {
                    Some(ObjV::Array(nums)) => Ok(num_lookup(nums, key, 0)),
                    _ => Ok(Seq::empty()),
                },
            },
        },
    }
}

/// The integer-keyed pairs among the first `k` pairs of `nums` whose key
/// is not `key`.
pub open spec fn int_pairs_except(nums: Seq<ObjV>, key: i64, k: int) -> Seq<(i64, ObjV)>
    decreases k,
{
    if k <= 0 {
        Seq::empty()
    } else {
        int_pairs_except(nums, key, k - 1) + match nums[2 * (k - 1)] {
            ObjV::Integer(n) => if n != key {
                seq![(n, nums[2 * (k - 1) + 1])]
            } else {
                Seq::empty()
            },
            _ => Seq::empty(),
        }
    }
}

/// The first index from `j` on whose key is greater than `key`, or the
/// length.
pub open spec fn int_upper_pos(s: Seq<(i64, ObjV)>, key: i64, j: int) -> int
    decreases s.len() - j,
{
    if j < 0 || j >= s.len() {
        s.len() as int
    } else if key < s[j].0 {
        j
    } else {
        int_upper_pos(s, key, j + 1)
    }
}

/// The pairs stably sorted by key.
pub open spec fn sort_int_pairs(s: Seq<(i64, ObjV)>) -> Seq<(i64, ObjV)>
    decreases s.len(),
{
    if s.len() == 0 {
        s
    } else {
        let r = sort_int_pairs(s.drop_last());
        r.insert(int_upper_pos(r, s.last().0, 0), s.last())
    }
}

/// The `/Nums` array holding `p`: each key, then its value.
pub open spec fn flatten_int_pairs(p: Seq<(i64, ObjV)>) -> Seq<ObjV>
    decreases p.len(),
{
    if p.len() == 0 {
        Seq::empty()
    } else {
        flatten_int_pairs(p.drop_last()) + seq![ObjV::Integer(p.last().0), p.last().1]
    }
}

/// Setting the `/ParentTree` entry `key` of the structure tree root `sr`
/// to `arr`: the parent tree's integer-keyed pairs other than `key`, plus
/// the new one, sorted by key. A root without a parent tree reference is
/// left as it is.
pub open spec fn set_parent_tree_v(
    ov: Seq<(ObjectId, ObjV)>,
    base: Seq<(ObjectId, ObjV)>,
    sr: ObjectId,
    key: i64,
    arr: Seq<ObjV>,
) -> (Seq<(ObjectId, ObjV)>, Result<(), EditorError>) {
    match dict_of(obj_in(ov, base, sr)) {
        None => (ov, Err(EditorError::UnresolvedObject(sr.number, sr.generation))),
        Some(rd) => match ref_of(entries_get(rd, "ParentTree"@)) {
            None => (ov, Ok(())),
            Some(pt) => match dict_of(obj_in(ov, base, pt)) {
                None => (ov, Err(EditorError::UnresolvedObject(pt.number, pt.generation))),
                Some(pd) => {
                    let nums = match entries_get(pd, "Nums"@) {
                        Some(ObjV::Array(a)) => a,
                        _ => Seq::empty(),
                    };
                    let pairs = int_pairs_except(nums, key, (nums.len() / 2) as int).push((key, ObjV::Array(arr)));
                    (
                        table_set(ov, pt, ObjV::Dict(entries_set(pd, "Nums"@, ObjV::Array(flatten_int_pairs(sort_int_pairs(pairs)))))),
                        Ok(()),
                    )
                },
            },
        },
    }
}

/// The values of exec integer-keyed pairs.
pub open spec fn int_pairs_view(s: Seq<(i64, Object)>) -> Seq<(i64, ObjV)> {
    Seq::new(s.len(), |i: int| (s[i].0, s[i].1.v()))
}

/// The pairs stably sorted by key (see `sort_int_pairs`).
fn sort_by_key(pairs: Vec<(i64, Object)>) -> (r: Vec<(i64, Object)>)
    ensures
        int_pairs_view(r@) == sort_int_pairs(int_pairs_view(pairs@)),
{
    let mut rest = pairs;
    let ghost orig = rest@;
    let n = rest.len();
    let mut stack: Vec<(i64, Object)> = Vec::new();
    while rest.len() > 0
        invariant
            rest@.len() + stack@.len() == orig.len(),
            forall|j: int| 0 <= j < rest@.len() ==> #[trigger] rest@[j] == orig[j],
            forall|j: int| 0 <= j < stack@.len() ==> #[trigger] stack@[j] == orig[orig.len() - 1 - j],
        decreases rest@.len(),
    {
        let x = rest.pop().unwrap();
        stack.push(x);
    }
    let mut out: Vec<(i64, Object)> = Vec::new();
    let mut i: usize = 0;
    proof {
        assert(int_pairs_view(orig.take(0)) =~= Seq::<(i64, ObjV)>::empty());
    }
    while stack.len() > 0
        invariant
            i <= n,
            n == orig.len(),
            stack@.len() + i == n,
            forall|j: int| 0 <= j < stack@.len() ==> #[trigger] stack@[j] == orig[orig.len() - 1 - j],
            int_pairs_view(out@) == sort_int_pairs(int_pairs_view(orig.take(i as int))),
        decreases stack@.len(),
    {
        let x = stack.pop().unwrap();
        assert(x == orig[i as int]);
        let ghost sv = int_pairs_view(out@);
        let ghost xv = (x.0, x.1.v());
        let mut j: usize = 0;
        while j < out.len() && !(x.0 < out[j].0)
            invariant
                j <= out@.len(),
                sv == int_pairs_view(out@),
                xv == (x.0, x.1.v()),
                int_upper_pos(sv, xv.0, 0) == int_upper_pos(sv, xv.0, j as int),
            decreases out@.len() - j,
        {
            j = j + 1;
        }
        proof {
            assert(int_upper_pos(sv, xv.0, j as int) == j);
        }
        out.insert(j, x);
        proof {
            let t = orig.take(i + 1);
            assert(t.drop_last() =~= orig.take(i as int));
            assert(int_pairs_view(t).drop_last() =~= int_pairs_view(t.drop_last()));
            assert(int_pairs_view(t).last() == xv);
            assert(int_pairs_view(out@) =~= sv.insert(j as int, xv));
        }
        i = i + 1;
    }
    proof {
        assert(orig.take(n as int) =~= orig);
    }
    out
}

impl EditableDocument {
    /// The page's `/StructParents` key (ISO 32000-1 14.7.4.4), assigning
    /// the next one from the structure tree root's `/ParentTreeNextKey`
    /// when the page has none.
    fn page_struct_parents_key(&mut self, page_id: ObjectId, struct_root_id: ObjectId) -> (r: Result<i64, EditorError>)
        requires
            old(self).wf(),
        ensures
            final(self).wf(),
            final(self).same_but_overlay(old(self)),
            (final(self).overlay_v(), r) == parents_key_v(old(self).overlay_v(), old(self).base_v(), page_id, struct_root_id),
    {
        let mut page = self.get_dictionary(page_id)?;
        if let Some(Object::Integer(k)) = page.get("StructParents") {
            return Ok(*k);
        }
        let mut root = self.get_dictionary(struct_root_id)?;
        let next: i64 = match root.get("ParentTreeNextKey") {
            Some(Object::Integer(n)) => *n,
            _ => 0,
        };
        if next == i64::MAX {
            return Err(EditorError::ResourceLimitExceeded);
        }
        root.set("ParentTreeNextKey", Object::Integer(next + 1));
        let ghost ov0 = self.overlay_v();
        let ghost rv = ObjV::Dict(root.view_entries());
        self.store_dict(struct_root_id, root);
        page.set("StructParents", Object::Integer(next));
        proof {
            crate::outline::lemma_obj_in_set(ov0, self.base_v(), struct_root_id, rv, page_id);
        }
        self.store_dict(page_id, page);
        Ok(next)
    }

    /// The `/ParentTree` entry under `key` of the structure tree root
    /// (see `parent_tree_arr`).
    fn parent_tree_array(&self, struct_root_id: ObjectId, key: i64) -> (r: Result<PdfArray, EditorError>)
        ensures
            match parent_tree_arr(self.overlay_v(), self.base_v(), struct_root_id, key) {
                Ok(a) => r matches Ok(x) && x.view_items() == a,
                Err(e) => r == Err::<PdfArray, EditorError>(e),
            },
    {
        let root = self.get_dictionary(struct_root_id)?;
        let pt_id = match root.get("ParentTree") {
            Some(Object::Reference(id)) => *id,
            _ => {
                return Ok(PdfArray::new());
            },
        };
        assert(ref_id(pt_id.number, pt_id.generation) == pt_id);
        let pt = self.get_dictionary(pt_id)?;
        let nums = match pt.get("Nums") {
            Some(Object::Array(a)) => a,
            _ => {
                return Ok(PdfArray::new());
            },
        };
        let ghost a = nums.view_items();
        proof {
            crate::object::lemma_view_objs(nums.items@);
        }
        let n = nums.items.len();
        let mut k: usize = 0;
        while k < n / 2
            invariant
                n == nums.items@.len(),
                a == nums.view_items(),
                a.len() == n,
                k <= n / 2,
                forall|j: int| 0 <= j < n ==> #[trigger] a[j] == nums.items@[j].v(),
                num_lookup(a, key, 0) == num_lookup(a, key, k as int),
                parent_tree_arr(self.overlay_v(), self.base_v(), struct_root_id, key) == Ok::<Seq<ObjV>, EditorError>(
                    num_lookup(a, key, 0),
                ),
            decreases n / 2 - k,
        {
            if let Object::Integer(kk) = &nums.items[2 * k] {
                if *kk == key {
                    if let Object::Array(found) = &nums.items[2 * k + 1] {
                        assert(a[2 * k + 1] == ObjV::Array(found.view_items()));
                        assert(a[2 * k as int] == ObjV::Integer(key));
                        assert(2 * k + 1 < a.len());
                        assert(num_lookup(a, key, k as int) == found.view_items());
                        return Ok(crate::object::copy_array(found));
                    }
                }
            }
            k = k + 1;
        }
        Ok(PdfArray::new())
    }

    /// Sets the `/ParentTree` entry `key` of the structure tree root to
    /// `arr` (see `set_parent_tree_v`), keeping `/Nums` sorted by key as a
    /// number-tree leaf must be (ISO 32000-1 7.9.7).
    fn set_parent_tree_array(&mut self, struct_root_id: ObjectId, key: i64, arr: PdfArray) -> (r: Result<(), EditorError>)
        requires
            old(self).wf(),
        ensures
            final(self).wf(),
            final(self).same_but_overlay(old(self)),
            (final(self).overlay_v(), r) == set_parent_tree_v(
                old(self).overlay_v(),
                old(self).base_v(),
                struct_root_id,
                key,
                arr.view_items(),
            ),
    {
        let root = self.get_dictionary(struct_root_id)?;
        let pt_id = match root.get("ParentTree") {
            Some(Object::Reference(id)) => *id,
            _ => {
                return Ok(());
            },
        };
        assert(ref_id(pt_id.number, pt_id.generation) == pt_id);
        let mut pt = self.get_dictionary(pt_id)?;
        let nums = match pt.get("Nums") {
            Some(Object::Array(a)) => crate::object::copy_array(a),
            _ => PdfArray::new(),
        };
        let ghost a = nums.view_items();
        proof {
            crate::object::lemma_view_objs(nums.items@);
            if !(entries_get(pt.view_entries(), "Nums"@) matches Some(ObjV::Array(_))) {
                assert(a =~= Seq::<ObjV>::empty());
            }
        }
        let n = nums.items.len();
        let mut pairs: Vec<(i64, Object)> = Vec::new();
        let mut k: usize = 0;
        while k < n / 2
            invariant
                n == nums.items@.len(),
                a == nums.view_items(),
                a.len() == n,
                k <= n / 2,
                forall|j: int| 0 <= j < n ==> #[trigger] a[j] == nums.items@[j].v(),
                int_pairs_view(pairs@) == int_pairs_except(a, key, k as int),
            decreases n / 2 - k,
        {
            let ghost before = int_pairs_view(pairs@);
            if let Object::Integer(kk) = &nums.items[2 * k] {
                if *kk != key {
                    pairs.push((*kk, crate::object::copy_object(&nums.items[2 * k + 1])));
                    proof {
                        assert(int_pairs_view(pairs@) =~= before + seq![(*kk, a[2 * k + 1])]);
                    }
                } else {
                    assert(int_pairs_view(pairs@) =~= before + Seq::<(i64, ObjV)>::empty());
                }
            } else {
                assert(int_pairs_view(pairs@) =~= before + Seq::<(i64, ObjV)>::empty());
            }
            k = k + 1;
        }
        let ghost kept = int_pairs_view(pairs@);
        let ghost av = arr.view_items();
        pairs.push((key, Object::Array(arr)));
        proof {
            assert(int_pairs_view(pairs@) =~= kept.push((key, ObjV::Array(av))));
        }
        let sorted = sort_by_key(pairs);
        let ghost sv = int_pairs_view(sorted@);
        let mut flat = PdfArray::new();
        let mut i: usize = 0;
        proof {
            assert(sv.take(0) =~= Seq::<(i64, ObjV)>::empty());
            assert(flat.view_items() =~= Seq::<ObjV>::empty());
        }
        while i < sorted.len()
            invariant
                i <= sorted@.len(),
                sv == int_pairs_view(sorted@),
                flat.view_items() == flatten_int_pairs(sv.take(i as int)),
            decreases sorted@.len() - i,
        {
            let ghost before = flat.items@;
            let key_obj = Object::Integer(sorted[i].0);
            let val_obj = crate::object::copy_object(&sorted[i].1);
            let ghost kv = key_obj.v();
            let ghost vv = val_obj.v();
            flat.push(key_obj);
            let ghost mid = flat.items@;
            flat.push(val_obj);
            proof {
                let t = sv.take(i + 1);
                assert(t.drop_last() =~= sv.take(i as int));
                assert(t.last() == sv[i as int]);
                assert(flat.items@.drop_last() =~= mid);
                assert(mid.drop_last() =~= before);
                assert(crate::object::view_objs(mid) == crate::object::view_objs(before).push(kv));
                assert(flat.view_items() == crate::object::view_objs(mid).push(vv));
                assert(flat.view_items() =~= crate::object::view_objs(before) + seq![ObjV::Integer(t.last().0), t.last().1]);
            }
            i = i + 1;
        }
        proof {
            assert(sv.take(sv.len() as int) =~= sv);
        }
        pt.set("Nums", Object::Array(flat));
        self.store_dict(pt_id, pt);
        Ok(())
    }
}


/// The entries of a new structure element of type `tag` under `parent`,
/// owning the marked-content sequence `mcid` on the page `page`.
pub open spec fn tagged_elem_entries(tag: Seq<char>, parent: ObjectId, page: ObjectId, mcid: i64, alt: Option<Seq<char>>) -> Seq<
    (Seq<char>, ObjV),
> {
    let e = entries_set(
        entries_set(
            entries_set(
                entries_set(entries_set(Seq::empty(), "Type"@, ObjV::Name("StructElem"@)), "S"@, ObjV::Name(tag)),
                "P"@,
                ref_v(parent),
            ),
            "Pg"@,
            ref_v(page),
        ),
        "K"@,
        ObjV::Integer(mcid),
    );
    match alt {
        Some(a) => entries_set(e, "Alt"@, text_value(a)),
        None => e,
    }
}

/// The bytes opening a marked-content sequence tagged `tag` with the
/// given MCID (ISO 32000-1 14.6), then `q`.
pub open spec fn mc_open(tag: Seq<char>, mcid: nat) -> Seq<u8> {
    seq![47u8] + encode_utf8(tag) + encode_utf8(" <</MCID "@) + dec(mcid) + encode_utf8(">> BDC\nq\n"@)
}

/// The bytes closing what `mc_open` opened.
pub open spec fn mc_close() -> Seq<u8> {
    encode_utf8("\nQ\nEMC\n"@)
}

/// Adding tagged content on the page `page`: the edited objects, the
/// next object number and the new element's id (see
/// [`EditableDocument::add_tagged_content`]).
pub open spec fn add_tagged_v(
    ov: Seq<(ObjectId, ObjV)>,
    base: Seq<(ObjectId, ObjV)>,
    root: ObjectId,
    next: u32,
    page: ObjectId,
    parent: Option<ObjectId>,
    tag: Seq<char>,
    content: Seq<u8>,
    alt: Option<Seq<char>>,
) -> (Seq<(ObjectId, ObjV)>, u32, Result<ObjectId, EditorError>) {
    let (ov1, n1, r1) = with_struct_root(ov, base, root, next);
    match r1 {
        Err(e) => (ov1, n1, Err(e)),
        Ok(sr) => {
            let parent_ref = match parent {
                Some(p) => p,
                None => sr,
            };
            let (ov2, rk) = parents_key_v(ov1, base, page, sr);
            match rk {
                Err(e) => (ov2, n1, Err(e)),
                Ok(key) => match parent_tree_arr(ov2, base, sr, key) {
                    Err(e) => (ov2, n1, Err(e)),
                    Ok(per_page) => {
                        let mcid = per_page.len() as i64;
                        let elem = ObjectId { number: n1, generation: 0 };
                        let ov3 = table_set(ov2, elem, ObjV::Dict(tagged_elem_entries(tag, parent_ref, page, mcid, alt)));
                        let n2 = (n1 + 1) as u32;
                        match dict_of(obj_in(ov3, base, parent_ref)) {
                            None => (ov3, n2, Err(EditorError::UnresolvedObject(parent_ref.number, parent_ref.generation))),
                            Some(pd) => {
                                let ov4 = table_set(
                                    ov3,
                                    parent_ref,
                                    ObjV::Dict(entries_set(pd, "K"@, ObjV::Array(k_array(pd).push(ref_v(elem))))),
                                );
                                let (ov5, rs) = set_parent_tree_v(ov4, base, sr, key, per_page.push(ref_v(elem)));
                                match rs {
                                    Err(e) => (ov5, n2, Err(e)),
                                    Ok(_) => match page_content_in(ov5, base, page) {
                                        Err(e) => (ov5, n2, Err(e)),
                                        Ok(b) => {
                                            let (ov6, n3, rc) = set_content_v(
                                                ov5,
                                                base,
                                                n2,
                                                page,
                                                line_ended(b) + mc_open(tag, per_page.len()) + content + mc_close(),
                                            );
                                            match rc {
                                                Err(e) => (ov6, n3, Err(e)),
                                                Ok(_) => (ov6, n3, Ok(elem)),
                                            }
                                        },
                                    },
                                }
                            },
                        }
                    },
                },
            }
        },
    }
}

/// Appends the UTF-8 bytes of `s`.
fn push_str_bytes(out: &mut Vec<u8>, s: &str)
    ensures
        final(out)@ == old(out)@ + encode_utf8(s@),
{
    let mut b = crate::object::slice_to_vec_u8(s.as_bytes());
    out.append(&mut b);
}

/// The dictionary of a new structure element (see `tagged_elem_entries`).
fn tagged_elem(tag: &str, parent: ObjectId, page: ObjectId, mcid: i64, alt_text: Option<&str>) -> (d: PdfDictionary)
    ensures
        d.view_entries() == tagged_elem_entries(
            tag@,
            parent,
            page,
            mcid,
            match alt_text {
                Some(a) => Some(a@),
                None => None,
            },
        ),
{
    let mut elem = PdfDictionary::new();
    proof {
        assert(elem.view_entries() =~= Seq::<(Seq<char>, ObjV)>::empty());
    }
    elem.set("Type", Object::Name(PdfName::new_unchecked("StructElem")));
    elem.set("S", Object::Name(PdfName::new_unchecked(tag)));
    elem.set("P", Object::Reference(parent));
    elem.set("Pg", Object::Reference(page));
    elem.set("K", Object::Integer(mcid));
    if let Some(alt) = alt_text {
        elem.set("Alt", Object::String(crate::util::to_pdf_text_string(alt)));
    }
    elem
}

impl EditableDocument {
    /// Appends a reference to `kid` to the `/K` array of `parent`,
    /// creating the array when missing.
    fn append_kid(&mut self, parent: ObjectId, kid: ObjectId) -> (r: Result<(), EditorError>)
        requires
            old(self).wf(),
        ensures
            final(self).wf(),
            final(self).same_but_overlay(old(self)),
            match old(self).dict(parent) {
                None => r == Err::<(), EditorError>(EditorError::UnresolvedObject(parent.number, parent.generation))
                    && final(self).overlay_v() == old(self).overlay_v(),
                Some(pd) => r is Ok && final(self).overlay_v() == table_set(
                    old(self).overlay_v(),
                    parent,
                    ObjV::Dict(entries_set(pd, "K"@, ObjV::Array(k_array(pd).push(ref_v(kid))))),
                ),
            },
    {
        let mut parent_dict = self.get_dictionary(parent)?;
        let ghost pd = parent_dict.view_entries();
        let mut k = match parent_dict.get("K") {
            Some(Object::Array(a)) => crate::object::copy_array(a),
            _ => PdfArray::new(),
        };
        proof {
            if !(entries_get(pd, "K"@) matches Some(ObjV::Array(_))) {
                assert(k.view_items() =~= Seq::<ObjV>::empty());
            }
        }
        let ghost k0 = k.items@;
        k.push(Object::Reference(kid));
        proof {
            assert(k.items@.drop_last() =~= k0);
            assert(crate::object::view_objs(k.items@) == crate::object::view_objs(k.items@.drop_last()).push(
                k.items@.last().v(),
            ));
        }
        parent_dict.set("K", Object::Array(k));
        self.store_dict(parent, parent_dict);
        Ok(())
    }

    /// Appends `content` to the page's content as a marked-content
    /// sequence tagged `tag` with MCID `mcid` (see `mc_open`).
    fn tag_page_content(&mut self, page_id: ObjectId, tag: &str, mcid: usize, content: &[u8]) -> (r: Result<(), EditorError>)
        requires
            old(self).wf(),
            old(self).next_number() < u32::MAX,
        ensures
            final(self).wf(),
            final(self).same_but_overlay_next(old(self)),
            match page_content_in(old(self).overlay_v(), old(self).base_v(), page_id) {
                Err(e) => r == Err::<(), EditorError>(e) && final(self).overlay_v() == old(self).overlay_v()
                    && final(self).next_number() == old(self).next_number(),
                Ok(b) => (final(self).overlay_v(), final(self).next_number(), r) == set_content_v(
                    old(self).overlay_v(),
                    old(self).base_v(),
                    old(self).next_number(),
                    page_id,
                    line_ended(b) + mc_open(tag@, mcid as nat) + content@ + mc_close(),
                ),
            },
    {
        let mut bytes = self.page_content_bytes(page_id)?;
        if bytes.len() > 0 && bytes[bytes.len() - 1] != 10u8 {
            bytes.push(10u8);
        }
        let ghost b0 = bytes@;
        bytes.push(47u8);
        push_str_bytes(&mut bytes, tag);
        push_str_bytes(&mut bytes, " <</MCID ");
        crate::numfmt::write_dec(&mut bytes, mcid as u64);
        push_str_bytes(&mut bytes, ">> BDC\nq\n");
        let mut body = crate::object::slice_to_vec_u8(content);
        bytes.append(&mut body);
        push_str_bytes(&mut bytes, "\nQ\nEMC\n");
        proof {
            assert(bytes@ =~= b0 + mc_open(tag@, mcid as nat) + content@ + mc_close());
        }
        self.set_page_content_bytes(page_id, bytes)
    }
}

impl EditableDocument {
    /// Draws `content` (operator bytes) on the page at `page_index` as a
    /// marked-content sequence (`/Tag <</MCID n>> BDC q ... Q EMC`, ISO
    /// 32000-1 14.6) tied to a new structure element of type
    /// `struct_type`, the last kid of `parent` (of the structure tree root
    /// when `None`): the element records the page and MCID, the page's
    /// entry in the parent tree records the element (14.7.4.4), and
    /// `alt_text` becomes its `/Alt`. Creates the structure tree root when
    /// missing. Returns the new element's id.
    pub fn add_tagged_content(
        &mut self,
        page_index: usize,
        parent: Option<ObjectId>,
        struct_type: StructType,
        content: &[u8],
        alt_text: Option<&str>,
    ) -> (r: Result<ObjectId, EditorError>)
        requires
            old(self).wf(),
            old(self).next_number() < u32::MAX - 4,
        ensures
            final(self).wf(),
            final(self).same_but_overlay_next(old(self)),
            match old(self).spec_page_ids() {
                Err(e) => r == Err::<ObjectId, EditorError>(e) && final(self).overlay_v() == old(self).overlay_v()
                    && final(self).next_number() == old(self).next_number(),
                Ok(ids) => if page_index < ids.len() {
                    (final(self).overlay_v(), final(self).next_number(), r) == add_tagged_v(
                        old(self).overlay_v(),
                        old(self).base_v(),
                        old(self).root_id(),
                        old(self).next_number(),
                        ids[page_index as int],
                        parent,
                        struct_type.spec_tag(),
                        content@,
                        match alt_text {
                            Some(a) => Some(a@),
                            None => None,
                        },
                    )
                } else {
                    &&& r == Err::<ObjectId, EditorError>(
                        EditorError::InvalidPageIndex { index: page_index, count: ids.len() as usize },
                    )
                    &&& final(self).overlay_v() == old(self).overlay_v()
                    &&& final(self).next_number() == old(self).next_number()
                },
            },
    {
        let page_id = self.page_id_at(page_index)?;
        let struct_root_id = self.ensure_struct_tree_root()?;
        let parent_ref = match parent {
            Some(p) => p,
            None => struct_root_id,
        };
        let key = self.page_struct_parents_key(page_id, struct_root_id)?;
        let mut per_page = self.parent_tree_array(struct_root_id, key)?;
        proof {
            crate::object::lemma_view_objs(per_page.items@);
        }
        let ghost pp = per_page.view_items();
        let count = per_page.len();
        let tag = struct_type.tag();
        let elem = tagged_elem(tag.as_str(), parent_ref, page_id, count as i64, alt_text);
        let elem_id = self.store_new_dict(elem);
        self.append_kid(parent_ref, elem_id)?;
        let ghost pi0 = per_page.items@;
        per_page.push(Object::Reference(elem_id));
        proof {
            assert(per_page.items@.drop_last() =~= pi0);
            assert(crate::object::view_objs(per_page.items@) == crate::object::view_objs(per_page.items@.drop_last()).push(
                per_page.items@.last().v(),
            ));
            assert(per_page.view_items() == pp.push(ref_v(elem_id)));
        }
        self.set_parent_tree_array(struct_root_id, key, per_page)?;
        self.tag_page_content(page_id, tag.as_str(), count, content)?;
        Ok(elem_id)
    }
}

} // verus!
