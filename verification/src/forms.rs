//! Reading values of interactive form fields (ISO 32000-1 12.7).

use vstd::prelude::*;
use std::collections::HashSet;
use crate::graph::{dict_of, id_key, node_key, ref_id, table_set, EditableDocument, EditorError};
use crate::object::{entries_get, entries_set, str_eq, ObjV, Object, ObjectId, PdfArray, PdfDictionary, PdfName};
use crate::outline::{obj_in, ref_of};
use crate::util::{from_pdf_text_string, text_of_bytes};

verus! {

broadcast use vstd::std_specs::hash::group_hash_axioms;

/// The text of a string value, decoded as a text string; `None` for any
/// other value.
pub fn text_of(obj: &Object) -> (r: Option<String>)
    ensures
        match obj.v() {
            ObjV::Str(_, b) => r matches Some(s) && s@ == text_of_bytes(b),
            _ => r is None,
        },
{
    match obj {
        Object::String(s) => Some(from_pdf_text_string(s)),
        _ => None,
    }
}

/// Whether a check box or radio button value is on: a name other than
/// `Off`.
pub fn is_on(v: Option<&Object>) -> (b: bool)
    ensures
        b == (match v {
            Some(o) => match o.v() {
                ObjV::Name(n) => n != "Off"@,
                _ => false,
            },
            None => false,
        }),
{
    match v {
        Some(Object::Name(n)) => !str_eq(n.as_str(), "Off"),
        _ => false,
    }
}


/// The most field-tree nodes visited while listing fields.
pub const MAX_FIELD_NODES: usize = 200000;

/// The deepest field nesting, and the longest `/Parent` chain, followed.
pub const MAX_PARENT_DEPTH: u32 = 64;

/// The kind of field an operation needs.
#[derive(Debug, Clone, Copy, PartialEq, Eq, Structural)]
pub enum FieldKind {
    /// A text field (`/FT /Tx`).
    Text,
    /// A check box (`/FT /Btn` without the radio flag).
    Checkbox,
    /// A radio button group (`/FT /Btn` with the radio flag).
    Radio,
    /// A choice field (`/FT /Ch`).
    Choice,
}

/// The decoded text of a string value, if it is one.
pub open spec fn text_opt(o: Option<ObjV>) -> Option<Seq<char>> {
    match o {
        Some(ObjV::Str(_, b)) => Some(text_of_bytes(b)),
        _ => None,
    }
}

/// A field's partial name: its decoded `/T`, or empty.
pub open spec fn partial_name(d: Seq<(Seq<char>, ObjV)>) -> Seq<char> {
    match text_opt(entries_get(d, "T"@)) {
        Some(t) => t,
        None => Seq::empty(),
    }
}

/// The fully qualified name of a field with partial name `own` under a
/// field named `prefix` (ISO 32000-1 12.7.3.2): joined by a period; a
/// field without a partial name takes its parent's name.
pub open spec fn qualified(prefix: Seq<char>, own: Seq<char>) -> Seq<char> {
    if own.len() == 0 {
        prefix
    } else if prefix.len() == 0 {
        own
    } else {
        prefix + "."@ + own
    }
}

/// The id of the first field named `name` among `fields`.
pub open spec fn find_field_v(fields: Seq<(Seq<char>, ObjectId)>, name: Seq<char>, i: int) -> Option<ObjectId>
    decreases fields.len() - i,
{
    if i < 0 || i >= fields.len() {
        None
    } else if fields[i].0 == name {
        Some(fields[i].1)
    } else {
        find_field_v(fields, name, i + 1)
    }
}

/// The values of exec (name, id) pairs.
pub open spec fn named_ids(s: Seq<(String, ObjectId)>) -> Seq<(Seq<char>, ObjectId)> {
    Seq::new(s.len(), |i: int| (s[i].0@, s[i].1))
}

impl EditableDocument {
    /// Whether a value references a widget annotation (`/Subtype
    /// /Widget`).
    pub open spec fn is_widget_ref(&self, o: ObjV) -> bool {
        match o {
            ObjV::Reference(n, g) => match self.dict(ref_id(n, g)) {
                Some(d) => entries_get(d, "Subtype"@) == Some(ObjV::Name("Widget"@)),
                None => false,
            },
            _ => false,
        }
    }

    /// Whether any of `kids` references a widget annotation: such kids are
    /// a terminal field's widgets, not further fields.
    pub open spec fn kids_are_widgets_v(&self, kids: Seq<ObjV>) -> bool {
        exists|i: int| 0 <= i < kids.len() && #[trigger] self.is_widget_ref(kids[i])
    }

    /// The walk of the field tree below `id` at nesting `depth` under a
    /// field named `prefix`, with the keys of the nodes visited and the
    /// terminal fields found so far: the keys and the fields after it
    /// (fully qualified name, id). A node already visited, deeper than
    /// `MAX_PARENT_DEPTH`, or past `MAX_FIELD_NODES` is passed over; a
    /// node whose `/Kids` are fields is walked into, any other dictionary
    /// is a terminal field.
    pub open spec fn field_walk(
        &self,
        id: ObjectId,
        prefix: Seq<char>,
        depth: int,
        visited: Set<u64>,
        out: Seq<(Seq<char>, ObjectId)>,
    ) -> (Set<u64>, Seq<(Seq<char>, ObjectId)>)
        decreases 65 - depth, 1int, 0int,
    {
        if depth > 64 || out.len() + visited.len() > MAX_FIELD_NODES || visited.contains(id_key(id)) {
            (visited, out)
        } else {
            let v1 = visited.insert(id_key(id));
            match self.dict(id) {
                None => (v1, out),
                Some(d) => {
                    let fq = qualified(prefix, partial_name(d));
                    match entries_get(d, "Kids"@) {
                        Some(ObjV::Array(kids)) => if kids.len() > 0 && !self.kids_are_widgets_v(kids) {
                            self.field_kids(kids, 0, fq, depth, v1, out)
                        } else {
                            (v1, out.push((fq, id)))
                        },
                        _ => (v1, out.push((fq, id))),
                    }
                },
            }
        }
    }

    /// The walk of the kids of a field at nesting `depth`, from the
    /// `i`-th on.
    pub open spec fn field_kids(
        &self,
        kids: Seq<ObjV>,
        i: int,
        prefix: Seq<char>,
        depth: int,
        visited: Set<u64>,
        out: Seq<(Seq<char>, ObjectId)>,
    ) -> (Set<u64>, Seq<(Seq<char>, ObjectId)>)
        decreases 65 - depth, 0int, kids.len() - i,
    {
        if depth > 64 || i < 0 || i >= kids.len() {
            (visited, out)
        } else {
            let r = match kids[i] {
                ObjV::Reference(n, g) => self.field_walk(ref_id(n, g), prefix, depth + 1, visited, out),
                _ => (visited, out),
            };
            self.field_kids(kids, i + 1, prefix, depth, r.0, r.1)
        }
    }

    /// The walk of the root fields from the `i`-th on.
    pub open spec fn field_roots_walk(&self, roots: Seq<ObjV>, i: int, visited: Set<u64>, out: Seq<(Seq<char>, ObjectId)>) -> (
        Set<u64>,
        Seq<(Seq<char>, ObjectId)>,
    )
        decreases roots.len() - i,
    {
        if i < 0 || i >= roots.len() {
            (visited, out)
        } else {
            let r = match roots[i] {
                ObjV::Reference(n, g) => self.field_walk(ref_id(n, g), Seq::empty(), 0, visited, out),
                _ => (visited, out),
            };
            self.field_roots_walk(roots, i + 1, r.0, r.1)
        }
    }

    /// The root fields: the catalog's `/AcroForm` reference -> `/Fields`
    /// array; empty when any link is missing.
    pub open spec fn field_roots(&self) -> Seq<ObjV> {
        match self.dict(self.root_id()) {
            None => Seq::empty(),
            Some(c) => match ref_of(entries_get(c, "AcroForm"@)) {
                None => Seq::empty(),
                Some(af) => match self.dict(af) {
                    None => Seq::empty(),
                    Some(ad) => match entries_get(ad, "Fields"@) {
                        Some(ObjV::Array(roots)) => roots,
                        _ => Seq::empty(),
                    },
                },
            },
        }
    }

    /// Every terminal field, with its fully qualified name, in document
    /// order.
    pub open spec fn spec_fields(&self) -> Seq<(Seq<char>, ObjectId)> {
        self.field_roots_walk(self.field_roots(), 0, Set::empty(), Seq::empty()).1
    }

    /// The value of `key` for the field `id`, inherited along `/Parent`
    /// (ISO 32000-1 12.7.3.2), looking at most `steps` nodes up.
    pub open spec fn effective_v(&self, id: ObjectId, key: Seq<char>, steps: nat) -> Option<ObjV>
        decreases steps,
    {
        if steps == 0 {
            None
        } else {
            match self.dict(id) {
                None => None,
                Some(d) => match entries_get(d, key) {
                    Some(v) => Some(v),
                    None => match ref_of(entries_get(d, "Parent"@)) {
                        Some(p) => self.effective_v(p, key, (steps - 1) as nat),
                        None => None,
                    },
                },
            }
        }
    }

    /// Whether the field `id` is a radio button group: its inherited
    /// `/Ff` has the radio flag (bit 16, ISO 32000-1 Table 227).
    pub open spec fn is_radio(&self, id: ObjectId) -> bool {
        match self.effective_v(id, "Ff"@, MAX_PARENT_DEPTH as nat) {
            Some(ObjV::Integer(f)) => f & 0x8000 != 0,
            _ => false,
        }
    }

    /// Whether the field `id` is of the kind `kind`.
    pub open spec fn kind_ok(&self, id: ObjectId, kind: FieldKind) -> bool {
        let ft = match kind {
            FieldKind::Text => "Tx"@,
            FieldKind::Checkbox => "Btn"@,
            FieldKind::Radio => "Btn"@,
            FieldKind::Choice => "Ch"@,
        };
        &&& self.effective_v(id, "FT"@, MAX_PARENT_DEPTH as nat) == Some(ObjV::Name(ft))
        &&& match kind {
            FieldKind::Checkbox => !self.is_radio(id),
            FieldKind::Radio => self.is_radio(id),
            _ => true,
        }
    }

    /// The field named `name`, when it is of the kind `kind`.
    pub open spec fn checked_field(&self, name: Seq<char>, kind: FieldKind) -> Result<ObjectId, EditorError> {
        match find_field_v(self.spec_fields(), name, 0) {
            None => Err(EditorError::FieldNotFound),
            Some(id) => if self.kind_ok(id, kind) {
                Ok(id)
            } else {
                Err(EditorError::WrongFieldType(kind))
            },
        }
    }

    /// Whether the value `o` references a widget annotation.
    fn is_widget(&self, o: &Object) -> (b: bool)
        ensures
            b == self.is_widget_ref(o.v()),
    {
        match o {
            Object::Reference(id) => {
                assert(ref_id(id.number, id.generation) == *id);
                match self.get_dictionary(*id) {
                    Ok(d) => match d.get("Subtype") {
                        Some(Object::Name(n)) => str_eq(n.as_str(), "Widget"),
                        _ => false,
                    },
                    Err(_) => false,
                }
            },
            _ => false,
        }
    }

    /// Whether any of `kids` references a widget annotation.
    fn kids_are_widgets(&self, kids: &PdfArray) -> (b: bool)
        ensures
            b == self.kids_are_widgets_v(kids.view_items()),
    {
        proof {
            crate::object::lemma_view_objs(kids.items@);
        }
        let mut i: usize = 0;
        while i < kids.items.len()
            invariant
                i <= kids.items@.len(),
                kids.view_items().len() == kids.items@.len(),
                forall|j: int| 0 <= j < kids.items@.len() ==> #[trigger] kids.view_items()[j] == kids.items@[j].v(),
                forall|j: int| 0 <= j < i ==> !#[trigger] self.is_widget_ref(kids.view_items()[j]),
            decreases kids.items@.len() - i,
        {
            if self.is_widget(&kids.items[i]) {
                assert(self.is_widget_ref(kids.view_items()[i as int]));
                return true;
            }
            i = i + 1;
        }
        false
    }

    /// Walks the field tree below `id` (see `field_walk`).
    fn walk_field_node(&self, id: ObjectId, prefix: &str, depth: u32, visited: &mut HashSet<u64>, out: &mut Vec<(String, ObjectId)>)
        ensures
            (final(visited)@, named_ids(final(out)@)) == self.field_walk(id, prefix@, depth as int, old(visited)@, named_ids(old(out)@)),
        decreases 65 - depth, 1int, 0int,
    {
        if depth > MAX_PARENT_DEPTH || out.len() > MAX_FIELD_NODES || visited.len() > MAX_FIELD_NODES - out.len() {
            return;
        }
        if !visited.insert(node_key(id)) {
            return;
        }
        let dict = match self.get_dictionary(id) {
            Ok(d) => d,
            Err(_) => {
                return;
            },
        };
        let own = match dict.get("T") {
            Some(Object::String(s)) => from_pdf_text_string(s),
            _ => String::new(),
        };
        let fq = if own.as_str().is_empty() {
            String::from_str(prefix)
        } else if prefix.is_empty() {
            own
        } else {
            let mut n = String::from_str(prefix);
            n.append(".");
            n.append(own.as_str());
            n
        };
        let ghost fqv = fq@;
        assert(fqv == qualified(prefix@, partial_name(dict.view_entries())));
        match dict.get("Kids") {
            Some(Object::Array(kids)) => {
                if kids.items.len() > 0 && !self.kids_are_widgets(kids) {
                    let ghost items = kids.view_items();
                    let ghost target = self.field_kids(items, 0, fqv, depth as int, visited@, named_ids(out@));
                    proof {
                        crate::object::lemma_view_objs(kids.items@);
                    }
                    let mut i: usize = 0;
                    while i < kids.items.len()
                        invariant
                            i <= kids.items@.len(),
                            items == kids.view_items(),
                            items.len() == kids.items@.len(),
                            forall|j: int| 0 <= j < kids.items@.len() ==> #[trigger] items[j] == kids.items@[j].v(),
                            depth <= 64,
                            fqv == fq@,
                            self.field_kids(items, i as int, fqv, depth as int, visited@, named_ids(out@)) == target,
                            self.field_walk(id, prefix@, depth as int, old(visited)@, named_ids(old(out)@)) == target,
                        decreases kids.items@.len() - i,
                    {
                        if let Object::Reference(kid) = &kids.items[i] {
                            assert(ref_id(kid.number, kid.generation) == *kid);
                            self.walk_field_node(*kid, fq.as_str(), depth + 1, visited, out);
                        }
                        i = i + 1;
                    }
                    return;
                }
                let ghost before = out@;
                out.push((fq, id));
                assert(named_ids(out@) =~= named_ids(before).push((fqv, id)));
            },
            _ => {
                let ghost before = out@;
                out.push((fq, id));
                assert(named_ids(out@) =~= named_ids(before).push((fqv, id)));
            },
        }
    }

    /// The root fields' array (see `field_roots`).
    fn field_roots_array(&self) -> (r: Option<PdfArray>)
        ensures
            match r {
                Some(a) => a.view_items() == self.field_roots(),
                None => self.field_roots().len() == 0,
            },
    {
        let catalog = match self.catalog() {
            Ok(c) => c,
            Err(_) => {
                return None;
            },
        };
        let af_id = match catalog.get("AcroForm") {
            Some(Object::Reference(id)) => *id,
            _ => {
                return None;
            },
        };
        assert(ref_id(af_id.number, af_id.generation) == af_id);
        let af = match self.get_dictionary(af_id) {
            Ok(d) => d,
            Err(_) => {
                return None;
            },
        };
        match af.get("Fields") {
            Some(Object::Array(a)) => Some(crate::object::copy_array(a)),
            _ => None,
        }
    }

    /// Every terminal field with its fully qualified name, in document
    /// order (see `spec_fields`).
    fn walk_fields(&self) -> (r: Vec<(String, ObjectId)>)
        ensures
            named_ids(r@) == self.spec_fields(),
    {
        let mut out: Vec<(String, ObjectId)> = Vec::new();
        let mut visited: HashSet<u64> = HashSet::new();
        proof {
            assert(visited@ =~= Set::<u64>::empty());
            assert(named_ids(out@) =~= Seq::<(Seq<char>, ObjectId)>::empty());
        }
        let roots = match self.field_roots_array() {
            Some(a) => a,
            None => {
                return out;
            },
        };
        let ghost items = roots.view_items();
        proof {
            crate::object::lemma_view_objs(roots.items@);
        }
        let mut i: usize = 0;
        while i < roots.items.len()
            invariant
                i <= roots.items@.len(),
                items == roots.view_items(),
                items == self.field_roots(),
                items.len() == roots.items@.len(),
                forall|j: int| 0 <= j < roots.items@.len() ==> #[trigger] items[j] == roots.items@[j].v(),
                self.field_roots_walk(items, i as int, visited@, named_ids(out@)) == self.field_roots_walk(
                    self.field_roots(),
                    0,
                    Set::empty(),
                    Seq::empty(),
                ),
            decreases roots.items@.len() - i,
        {
            let ghost v0 = visited@;
            let ghost o0 = named_ids(out@);
            if let Object::Reference(id) = &roots.items[i] {
                assert(ref_id(id.number, id.generation) == *id);
                assert(items[i as int] == ObjV::Reference(id.number, id.generation));
                proof {
                    reveal_strlit("");
                }
                assert(""@ =~= Seq::<char>::empty());
                self.walk_field_node(*id, "", 0, &mut visited, &mut out);
                assert(self.field_roots_walk(items, i as int, v0, o0) == self.field_roots_walk(
                    items,
                    i + 1,
                    visited@,
                    named_ids(out@),
                ));
            } else {
                assert(!(items[i as int] is Reference));
                assert(self.field_roots_walk(items, i as int, v0, o0) == self.field_roots_walk(items, i + 1, v0, o0));
            }
            i = i + 1;
        }
        out
    }

    /// The fully qualified names of every terminal (fillable) field of
    /// the interactive form (ISO 32000-1 12.7.3.2), in document order.
    pub fn field_names(&self) -> (r: Result<Vec<String>, EditorError>)
        ensures
            r matches Ok(v) && v@.len() == self.spec_fields().len() && forall|i: int|
                0 <= i < v@.len() ==> #[trigger] v@[i]@ == self.spec_fields()[i].0,
    {
        let fields = self.walk_fields();
        let mut names: Vec<String> = Vec::new();
        let mut i: usize = 0;
        while i < fields.len()
            invariant
                i <= fields@.len(),
                named_ids(fields@) == self.spec_fields(),
                names@.len() == i,
                forall|j: int| 0 <= j < i ==> #[trigger] names@[j]@ == fields@[j].0@,
            decreases fields@.len() - i,
        {
            names.push(String::from_str(fields[i].0.as_str()));
            i = i + 1;
        }
        proof {
            assert forall|j: int| 0 <= j < names@.len() implies #[trigger] names@[j]@ == self.spec_fields()[j].0 by {
                assert(named_ids(fields@)[j] == (fields@[j].0@, fields@[j].1));
            }
        }
        Ok(names)
    }

    /// The id of the field named `name`.
    pub fn find_field(&self, name: &str) -> (r: Option<ObjectId>)
        ensures
            r == find_field_v(self.spec_fields(), name@, 0),
    {
        let fields = self.walk_fields();
        let mut i: usize = 0;
        while i < fields.len()
            invariant
                i <= fields@.len(),
                named_ids(fields@) == self.spec_fields(),
                find_field_v(self.spec_fields(), name@, 0) == find_field_v(self.spec_fields(), name@, i as int),
            decreases fields@.len() - i,
        {
            assert(named_ids(fields@)[i as int] == (fields@[i as int].0@, fields@[i as int].1));
            if str_eq(fields[i].0.as_str(), name) {
                return Some(fields[i].1);
            }
            i = i + 1;
        }
        None
    }

    /// The value of `key` for the field `id`, inherited along `/Parent`.
    fn effective(&self, id: ObjectId, key: &str) -> (r: Option<Object>)
        ensures
            match self.effective_v(id, key@, MAX_PARENT_DEPTH as nat) {
                Some(v) => r matches Some(o) && o.v() == v,
                None => r is None,
            },
    {
        let mut cur = id;
        let mut i: u32 = 0;
        while i < MAX_PARENT_DEPTH
            invariant
                i <= MAX_PARENT_DEPTH,
                self.effective_v(id, key@, MAX_PARENT_DEPTH as nat) == self.effective_v(cur, key@, (MAX_PARENT_DEPTH - i) as nat),
            decreases MAX_PARENT_DEPTH - i,
        {
            let dict = match self.get_dictionary(cur) {
                Ok(d) => d,
                Err(_) => {
                    return None;
                },
            };
            if let Some(v) = dict.get(key) {
                return Some(crate::object::copy_object(v));
            }
            match dict.get("Parent") {
                Some(Object::Reference(p)) => {
                    assert(ref_id(p.number, p.generation) == *p);
                    cur = *p;
                },
                _ => {
                    return None;
                },
            }
            i = i + 1;
        }
        None
    }

    /// The PDF field type (`Tx`, `Btn`, `Ch` or `Sig`, ISO 32000-1 Table
    /// 220) of the field named `name`, inherited from an ancestor when the
    /// field does not set it; `None` when there is no such field or no
    /// type name.
    pub fn field_type(&self, name: &str) -> (r: Result<Option<String>, EditorError>)
        ensures
            r matches Ok(t) && match find_field_v(self.spec_fields(), name@, 0) {
                None => t is None,
                Some(id) => match self.effective_v(id, "FT"@, MAX_PARENT_DEPTH as nat) {
                    Some(ObjV::Name(n)) => t matches Some(s) && s@ == n,
                    _ => t is None,
                },
            },
    {
        let id = match self.find_field(name) {
            Some(id) => id,
            None => {
                return Ok(None);
            },
        };
        match self.effective(id, "FT") {
            Some(Object::Name(n)) => Ok(Some(String::from_str(n.as_str()))),
            _ => Ok(None),
        }
    }
}


/// Whether a check box or radio button value is on: a name other than
/// `Off`.
pub open spec fn is_on_v(v: Option<ObjV>) -> bool {
    match v {
        Some(ObjV::Name(n)) => n != "Off"@,
        _ => false,
    }
}

/// The decoded texts of the string elements of `a`, in order.
pub open spec fn string_texts(a: Seq<ObjV>) -> Seq<Seq<char>>
    decreases a.len(),
{
    if a.len() == 0 {
        Seq::empty()
    } else {
        string_texts(a.drop_last()) + match a.last() {
            ObjV::Str(_, b) => seq![text_of_bytes(b)],
            _ => Seq::empty(),
        }
    }
}

/// The selected values of a choice field's `/V` (ISO 32000-1 12.7.4.4):
/// one text string, or an array of them.
pub open spec fn choice_values_v(v: Option<ObjV>) -> Seq<Seq<char>> {
    match v {
        Some(ObjV::Str(_, b)) => seq![text_of_bytes(b)],
        Some(ObjV::Array(a)) => string_texts(a),
        _ => Seq::empty(),
    }
}

/// The display text of one `/Opt` entry: a text string, or the second
/// (else the first) element of an `[export display]` pair.
pub open spec fn option_text(o: ObjV) -> Option<Seq<char>> {
    match o {
        ObjV::Str(_, b) => Some(text_of_bytes(b)),
        ObjV::Array(pair) => if pair.len() > 1 {
            text_opt(Some(pair[1]))
        } else if pair.len() > 0 {
            text_opt(Some(pair[0]))
        } else {
            None
        },
        _ => None,
    }
}

/// The display texts of an `/Opt` array, entries without one passed over.
pub open spec fn option_texts(a: Seq<ObjV>) -> Seq<Seq<char>>
    decreases a.len(),
{
    if a.len() == 0 {
        Seq::empty()
    } else {
        option_texts(a.drop_last()) + match option_text(a.last()) {
            Some(t) => seq![t],
            None => Seq::empty(),
        }
    }
}

/// Whether a value references a widget annotation among the objects `ov`
/// over `base`.
pub open spec fn widget_in(ov: Seq<(ObjectId, ObjV)>, base: Seq<(ObjectId, ObjV)>, o: ObjV) -> bool {
    match o {
        ObjV::Reference(n, g) => match dict_of(obj_in(ov, base, ref_id(n, g))) {
            Some(d) => entries_get(d, "Subtype"@) == Some(ObjV::Name("Widget"@)),
            None => false,
        },
        _ => false,
    }
}

/// The widget annotations of the terminal field `field`: its `/Kids`
/// when they are widgets, else the field itself (a field merged with its
/// one widget).
pub open spec fn widget_ids_in(ov: Seq<(ObjectId, ObjV)>, base: Seq<(ObjectId, ObjV)>, field: ObjectId) -> Result<
    Seq<ObjectId>,
    EditorError,
> {
    match dict_of(obj_in(ov, base, field)) {
        None => Err(EditorError::UnresolvedObject(field.number, field.generation)),
        Some(d) => match entries_get(d, "Kids"@) {
            Some(ObjV::Array(kids)) => if kids.len() > 0 && exists|i: int| 0 <= i < kids.len() && #[trigger] widget_in(ov, base, kids[i]) {
                Ok(Seq::new(crate::refs::direct_refs(kids).len(), |i: int| ref_id(crate::refs::direct_refs(kids)[i].0, crate::refs::direct_refs(kids)[i].1)))
            } else {
                Ok(seq![field])
            },
            _ => Ok(seq![field]),
        },
    }
}

/// The first key other than `Off` among entries `n`.
pub open spec fn first_on_key(n: Seq<(Seq<char>, ObjV)>, i: int) -> Option<Seq<char>>
    decreases n.len() - i,
{
    if i < 0 || i >= n.len() {
        None
    } else if n[i].0 != "Off"@ {
        Some(n[i].0)
    } else {
        first_on_key(n, i + 1)
    }
}

/// The "on" appearance state a widget declares: the first key other
/// than `Off` of its `/AP /N` dictionary.
pub open spec fn on_state_in(ov: Seq<(ObjectId, ObjV)>, base: Seq<(ObjectId, ObjV)>, widget: ObjectId) -> Option<Seq<char>> {
    match dict_of(obj_in(ov, base, widget)) {
        None => None,
        Some(w) => match entries_get(w, "AP"@) {
            Some(ObjV::Dict(ap)) => match entries_get(ap, "N"@) {
                Some(ObjV::Dict(n)) => first_on_key(n, 0),
                _ => None,
            },
            _ => None,
        },
    }
}

/// Setting `key` to `val` in the dictionaries `ws` from the `i`-th on.
pub open spec fn set_in_each(
    ov: Seq<(ObjectId, ObjV)>,
    base: Seq<(ObjectId, ObjV)>,
    ws: Seq<ObjectId>,
    i: int,
    key: Seq<char>,
    val: ObjV,
) -> (Seq<(ObjectId, ObjV)>, Result<(), EditorError>)
    decreases ws.len() - i,
{
    if i < 0 || i >= ws.len() {
        (ov, Ok(()))
    } else {
        match dict_of(obj_in(ov, base, ws[i])) {
            None => (ov, Err(EditorError::UnresolvedObject(ws[i].number, ws[i].generation))),
            Some(d) => set_in_each(table_set(ov, ws[i], ObjV::Dict(entries_set(d, key, val))), base, ws, i + 1, key, val),
        }
    }
}

/// Setting the appearance state `/AS` of the radio buttons `ws` from the
/// `i`-th on: `export` for a button that declares it as its on state,
/// `Off` for the others.
pub open spec fn radio_states(
    ov: Seq<(ObjectId, ObjV)>,
    base: Seq<(ObjectId, ObjV)>,
    ws: Seq<ObjectId>,
    i: int,
    export: Seq<char>,
) -> (Seq<(ObjectId, ObjV)>, Result<(), EditorError>)
    decreases ws.len() - i,
{
    if i < 0 || i >= ws.len() {
        (ov, Ok(()))
    } else {
        let has = on_state_in(ov, base, ws[i]) == Some(export);
        match dict_of(obj_in(ov, base, ws[i])) {
            None => (ov, Err(EditorError::UnresolvedObject(ws[i].number, ws[i].generation))),
            Some(d) => radio_states(
                table_set(ov, ws[i], ObjV::Dict(entries_set(d, "AS"@, ObjV::Name(if has { export } else { "Off"@ })))),
                base,
                ws,
                i + 1,
                export,
            ),
        }
    }
}

impl EditableDocument {
    /// Whether the check box `name` is checked.
    pub open spec fn checkbox_state(&self, name: Seq<char>) -> Result<bool, EditorError> {
        match self.checked_field(name, FieldKind::Checkbox) {
            Err(e) => Err(e),
            Ok(id) => match self.dict(id) {
                None => Err(EditorError::UnresolvedObject(id.number, id.generation)),
                Some(d) => Ok(is_on_v(entries_get(d, "V"@))),
            },
        }
    }

    /// The export value selected in the radio group `name`.
    pub open spec fn radio_value(&self, name: Seq<char>) -> Result<Option<Seq<char>>, EditorError> {
        match self.checked_field(name, FieldKind::Radio) {
            Err(e) => Err(e),
            Ok(id) => match self.dict(id) {
                None => Err(EditorError::UnresolvedObject(id.number, id.generation)),
                Some(d) => Ok(
                    match entries_get(d, "V"@) {
                        Some(ObjV::Name(n)) => if n != "Off"@ {
                            Some(n)
                        } else {
                            None
                        },
                        _ => None,
                    },
                ),
            },
        }
    }

    /// The state name a check box is set to: its first widget's on state
    /// (else `Yes`) when `checked`, `Off` otherwise.
    pub open spec fn checkbox_state_name(&self, ws: Seq<ObjectId>, checked: bool) -> Seq<char> {
        if checked {
            match (if ws.len() > 0 {
                on_state_in(self.overlay_v(), self.base_v(), ws[0])
            } else {
                None
            }) {
                Some(s) => s,
                None => "Yes"@,
            }
        } else {
            "Off"@
        }
    }

    /// Setting the check box `name`: the edited objects and the result.
    pub open spec fn checkbox_set_v(&self, name: Seq<char>, checked: bool) -> (Seq<(ObjectId, ObjV)>, Result<(), EditorError>) {
        match self.checked_field(name, FieldKind::Checkbox) {
            Err(e) => (self.overlay_v(), Err(e)),
            Ok(id) => match widget_ids_in(self.overlay_v(), self.base_v(), id) {
                Err(e) => (self.overlay_v(), Err(e)),
                Ok(ws) => {
                    let state = self.checkbox_state_name(ws, checked);
                    match self.dict(id) {
                        None => (self.overlay_v(), Err(EditorError::UnresolvedObject(id.number, id.generation))),
                        Some(d) => set_in_each(
                            table_set(self.overlay_v(), id, ObjV::Dict(entries_set(d, "V"@, ObjV::Name(state)))),
                            self.base_v(),
                            ws,
                            0,
                            "AS"@,
                            ObjV::Name(state),
                        ),
                    }
                },
            },
        }
    }

    /// Selecting `export` in the radio group `name`: the edited objects
    /// and the result.
    pub open spec fn radio_set_v(&self, name: Seq<char>, export: Seq<char>) -> (Seq<(ObjectId, ObjV)>, Result<(), EditorError>) {
        match self.checked_field(name, FieldKind::Radio) {
            Err(e) => (self.overlay_v(), Err(e)),
            Ok(id) => match self.dict(id) {
                None => (self.overlay_v(), Err(EditorError::UnresolvedObject(id.number, id.generation))),
                Some(d) => {
                    let ov1 = table_set(self.overlay_v(), id, ObjV::Dict(entries_set(d, "V"@, ObjV::Name(export))));
                    match widget_ids_in(ov1, self.base_v(), id) {
                        Err(e) => (ov1, Err(e)),
                        Ok(ws) => radio_states(ov1, self.base_v(), ws, 0, export),
                    }
                },
            },
        }
    }
}

impl EditableDocument {
    /// The field named `name` when it is of the kind `kind` (see
    /// `checked_field`).
    fn require_field(&self, name: &str, kind: FieldKind) -> (r: Result<ObjectId, EditorError>)
        ensures
            r == self.checked_field(name@, kind),
    {
        let id = match self.find_field(name) {
            Some(id) => id,
            None => {
                return Err(EditorError::FieldNotFound);
            },
        };
        let ft = match kind {
            FieldKind::Text => "Tx",
            FieldKind::Checkbox => "Btn",
            FieldKind::Radio => "Btn",
            FieldKind::Choice => "Ch",
        };
        let ft_ok = match self.effective(id, "FT") {
            Some(Object::Name(n)) => str_eq(n.as_str(), ft),
            _ => false,
        };
        let radio = match self.effective(id, "Ff") {
            Some(Object::Integer(f)) => f & 0x8000 != 0,
            _ => false,
        };
        let kind_ok = match kind {
            FieldKind::Checkbox => !radio,
            FieldKind::Radio => radio,
            _ => true,
        };
        proof {
            reveal_strlit("Tx");
            reveal_strlit("Btn");
            reveal_strlit("Ch");
        }
        if ft_ok && kind_ok {
            Ok(id)
        } else {
            Err(EditorError::WrongFieldType(kind))
        }
    }

    /// The widget annotations of the terminal field `field` (see
    /// `widget_ids_in`).
    fn widget_ids_of(&self, field: ObjectId) -> (r: Result<Vec<ObjectId>, EditorError>)
        ensures
            match widget_ids_in(self.overlay_v(), self.base_v(), field) {
                Ok(ws) => r matches Ok(v) && v@ == ws,
                Err(e) => r == Err::<Vec<ObjectId>, EditorError>(e),
            },
    {
        let dict = self.get_dictionary(field)?;
        if let Some(Object::Array(kids)) = dict.get("Kids") {
            if kids.items.len() > 0 && self.kids_are_widgets(kids) {
                proof {
                    assert forall|i: int| 0 <= i < kids.view_items().len() implies #[trigger] self.is_widget_ref(kids.view_items()[i])
                        == widget_in(self.overlay_v(), self.base_v(), kids.view_items()[i]) by {}
                }
                let ids = crate::refs::content_stream_ids(Some(&Object::Array(crate::object::copy_array(kids))));
                proof {
                    assert(ids@ =~= Seq::new(
                        crate::refs::direct_refs(kids.view_items()).len(),
                        |i: int| ref_id(crate::refs::direct_refs(kids.view_items())[i].0, crate::refs::direct_refs(kids.view_items())[i].1),
                    )) by {
                        assert forall|i: int| 0 <= i < ids@.len() implies ids@[i] == ref_id(
                            crate::refs::id_pairs(ids@)[i].0,
                            crate::refs::id_pairs(ids@)[i].1,
                        ) by {}
                    }
                }
                return Ok(ids);
            }
        }
        let mut v: Vec<ObjectId> = Vec::new();
        v.push(field);
        proof {
            assert(v@ =~= seq![field]);
            if let Some(ObjV::Array(kids)) = entries_get(dict.view_entries(), "Kids"@) {
                if kids.len() > 0 {
                    assert(!self.kids_are_widgets_v(kids));
                    assert forall|i: int| 0 <= i < kids.len() implies !#[trigger] widget_in(self.overlay_v(), self.base_v(), kids[i]) by {
                        assert(!self.is_widget_ref(kids[i]));
                    }
                }
            }
        }
        Ok(v)
    }

    /// The "on" appearance state a widget declares (see `on_state_in`).
    fn on_state_name(&self, widget: ObjectId) -> (r: Option<String>)
        ensures
            match on_state_in(self.overlay_v(), self.base_v(), widget) {
                Some(t) => r matches Some(s) && s@ == t,
                None => r is None,
            },
    {
        let w = match self.get_dictionary(widget) {
            Ok(d) => d,
            Err(_) => {
                return None;
            },
        };
        let ap = match w.get("AP") {
            Some(Object::Dictionary(ap)) => ap,
            _ => {
                return None;
            },
        };
        let n = match ap.get("N") {
            Some(Object::Dictionary(n)) => n,
            _ => {
                return None;
            },
        };
        proof {
            crate::object::lemma_view_entries(n.entries@);
        }
        let mut i: usize = 0;
        while i < n.entries.len()
            invariant
                i <= n.entries@.len(),
                n.view_entries().len() == n.entries@.len(),
                forall|j: int| 0 <= j < n.entries@.len() ==> #[trigger] n.view_entries()[j] == (n.entries@[j].0@, n.entries@[j].1.v()),
                first_on_key(n.view_entries(), 0) == first_on_key(n.view_entries(), i as int),
                on_state_in(self.overlay_v(), self.base_v(), widget) == first_on_key(n.view_entries(), 0),
            decreases n.entries@.len() - i,
        {
            if !str_eq(n.entries[i].0.as_str(), "Off") {
                assert(n.view_entries()[i as int].0 == n.entries@[i as int].0@);
                assert(first_on_key(n.view_entries(), i as int) == Some(n.entries@[i as int].0@));
                return Some(String::from_str(n.entries[i].0.as_str()));
            }
            i = i + 1;
        }
        None
    }

    /// A text field's value (`/V`, ISO 32000-1 12.7.4.3), decoded as a
    /// text string; `None` when it has none.
    pub fn get_text_value(&self, name: &str) -> (r: Result<Option<String>, EditorError>)
        ensures
            match self.checked_field(name@, FieldKind::Text) {
                Err(e) => r == Err::<Option<String>, EditorError>(e),
                Ok(id) => match self.dict(id) {
                    None => r == Err::<Option<String>, EditorError>(EditorError::UnresolvedObject(id.number, id.generation)),
                    Some(d) => r matches Ok(v) && match text_opt(entries_get(d, "V"@)) {
                        Some(t) => v matches Some(s) && s@ == t,
                        None => v is None,
                    },
                },
            },
    {
        let id = self.require_field(name, FieldKind::Text)?;
        let dict = self.get_dictionary(id)?;
        match dict.get("V") {
            Some(o) => Ok(text_of(o)),
            None => Ok(None),
        }
    }

    /// Whether a check box is checked: its `/V` is a name other than
    /// `Off` (ISO 32000-1 12.7.4.2.3).
    pub fn get_checkbox_checked(&self, name: &str) -> (r: Result<bool, EditorError>)
        ensures
            r == self.checkbox_state(name@),
    {
        let id = self.require_field(name, FieldKind::Checkbox)?;
        let dict = self.get_dictionary(id)?;
        Ok(is_on(dict.get("V")))
    }

    /// The export value selected in a radio button group, `None` when
    /// nothing is (`/V` is `Off` or missing).
    pub fn get_radio_value(&self, name: &str) -> (r: Result<Option<String>, EditorError>)
        ensures
            match self.radio_value(name@) {
                Err(e) => r == Err::<Option<String>, EditorError>(e),
                Ok(None) => r == Ok::<Option<String>, EditorError>(None),
                Ok(Some(t)) => r matches Ok(Some(s)) && s@ == t,
            },
    {
        let id = self.require_field(name, FieldKind::Radio)?;
        let dict = self.get_dictionary(id)?;
        match dict.get("V") {
            Some(Object::Name(n)) => {
                if !str_eq(n.as_str(), "Off") {
                    Ok(Some(String::from_str(n.as_str())))
                } else {
                    Ok(None)
                }
            },
            _ => Ok(None),
        }
    }

    /// Every selected value of a choice field (`/V`: one text string, or
    /// an array of them for a multiple-selection list box).
    pub fn get_choice_values(&self, name: &str) -> (r: Result<Vec<String>, EditorError>)
        ensures
            match self.checked_field(name@, FieldKind::Choice) {
                Err(e) => r == Err::<Vec<String>, EditorError>(e),
                Ok(id) => match self.dict(id) {
                    None => r == Err::<Vec<String>, EditorError>(EditorError::UnresolvedObject(id.number, id.generation)),
                    Some(d) => r matches Ok(v) && v@.len() == choice_values_v(entries_get(d, "V"@)).len() && forall|i: int|
                        0 <= i < v@.len() ==> #[trigger] v@[i]@ == choice_values_v(entries_get(d, "V"@))[i],
                },
            },
    {
        let id = self.require_field(name, FieldKind::Choice)?;
        let dict = self.get_dictionary(id)?;
        let mut out: Vec<String> = Vec::new();
        match dict.get("V") {
            Some(Object::String(s)) => {
                out.push(from_pdf_text_string(s));
            },
            Some(Object::Array(a)) => {
                let mut i: usize = 0;
                while i < a.items.len()
                    invariant
                        i <= a.items@.len(),
                        out@.len() == string_texts(crate::object::view_objs(a.items@.take(i as int))).len(),
                        forall|j: int| 0 <= j < out@.len() ==> #[trigger] out@[j]@ == string_texts(
                            crate::object::view_objs(a.items@.take(i as int)),
                        )[j],
                    decreases a.items@.len() - i,
                {
                    let ghost t = a.items@.take(i + 1);
                    proof {
                        assert(t.drop_last() =~= a.items@.take(i as int));
                        assert(crate::object::view_objs(t).drop_last() == crate::object::view_objs(t.drop_last()));
                        assert(crate::object::view_objs(t).last() == a.items@[i as int].v());
                    }
                    if let Object::String(s) = &a.items[i] {
                        out.push(from_pdf_text_string(s));
                    }
                    i = i + 1;
                }
                proof {
                    assert(a.items@.take(a.items@.len() as int) =~= a.items@);
                }
            },
            _ => {},
        }
        Ok(out)
    }

    /// The first selected value of a choice field.
    pub fn get_choice_value(&self, name: &str) -> (r: Result<Option<String>, EditorError>)
        ensures
            match self.checked_field(name@, FieldKind::Choice) {
                Err(e) => r == Err::<Option<String>, EditorError>(e),
                Ok(id) => match self.dict(id) {
                    None => r == Err::<Option<String>, EditorError>(EditorError::UnresolvedObject(id.number, id.generation)),
                    Some(d) => r matches Ok(v) && if choice_values_v(entries_get(d, "V"@)).len() > 0 {
                        v matches Some(s) && s@ == choice_values_v(entries_get(d, "V"@))[0]
                    } else {
                        v is None
                    },
                },
            },
    {
        let mut values = self.get_choice_values(name)?;
        if values.len() > 0 {
            Ok(Some(values.swap_remove(0)))
        } else {
            Ok(None)
        }
    }

    /// A choice field's options (`/Opt`, ISO 32000-1 12.7.4.4) as display
    /// texts.
    pub fn choice_options(&self, name: &str) -> (r: Result<Vec<String>, EditorError>)
        ensures
            match self.checked_field(name@, FieldKind::Choice) {
                Err(e) => r == Err::<Vec<String>, EditorError>(e),
                Ok(id) => match self.dict(id) {
                    None => r == Err::<Vec<String>, EditorError>(EditorError::UnresolvedObject(id.number, id.generation)),
                    Some(d) => r matches Ok(v) && match entries_get(d, "Opt"@) {
                        Some(ObjV::Array(a)) => v@.len() == option_texts(a).len() && forall|i: int|
                            0 <= i < v@.len() ==> #[trigger] v@[i]@ == option_texts(a)[i],
                        _ => v@.len() == 0,
                    },
                },
            },
    {
        let id = self.require_field(name, FieldKind::Choice)?;
        let dict = self.get_dictionary(id)?;
        let mut out: Vec<String> = Vec::new();
        if let Some(Object::Array(a)) = dict.get("Opt") {
            let mut i: usize = 0;
            while i < a.items.len()
                invariant
                    i <= a.items@.len(),
                    out@.len() == option_texts(crate::object::view_objs(a.items@.take(i as int))).len(),
                    forall|j: int| 0 <= j < out@.len() ==> #[trigger] out@[j]@ == option_texts(
                        crate::object::view_objs(a.items@.take(i as int)),
                    )[j],
                decreases a.items@.len() - i,
            {
                let ghost t = a.items@.take(i + 1);
                proof {
                    assert(t.drop_last() =~= a.items@.take(i as int));
                    assert(crate::object::view_objs(t).drop_last() == crate::object::view_objs(t.drop_last()));
                    assert(crate::object::view_objs(t).last() == a.items@[i as int].v());
                }
                let text = match &a.items[i] {
                    Object::String(s) => Some(from_pdf_text_string(s)),
                    Object::Array(pair) => {
                        proof {
                            crate::object::lemma_view_objs(pair.items@);
                        }
                        let e = if pair.items.len() > 1 {
                            pair.get(1)
                        } else {
                            pair.get(0)
                        };
                        match e {
                            Some(o) => text_of(o),
                            None => None,
                        }
                    },
                    _ => None,
                };
                if let Some(t) = text {
                    out.push(t);
                }
                i = i + 1;
            }
            proof {
                assert(a.items@.take(a.items@.len() as int) =~= a.items@);
            }
        }
        Ok(out)
    }
}


impl EditableDocument {
    /// Sets `key` to `val` in each dictionary `ws` names, in order (see
    /// `set_in_each`).
    fn set_in_all(&mut self, ws: &Vec<ObjectId>, key: &str, val: &Object) -> (r: Result<(), EditorError>)
        requires
            old(self).wf(),
        ensures
            final(self).wf(),
            final(self).same_but_overlay(old(self)),
            (final(self).overlay_v(), r) == set_in_each(old(self).overlay_v(), old(self).base_v(), ws@, 0, key@, val.v()),
    {
        let mut i: usize = 0;
        while i < ws.len()
            invariant
                i <= ws@.len(),
                self.wf(),
                self.same_but_overlay(old(self)),
                set_in_each(self.overlay_v(), self.base_v(), ws@, i as int, key@, val.v()) == set_in_each(
                    old(self).overlay_v(),
                    old(self).base_v(),
                    ws@,
                    0,
                    key@,
                    val.v(),
                ),
            decreases ws@.len() - i,
        {
            let w = ws[i];
            let mut d = self.get_dictionary(w)?;
            d.set(key, crate::object::copy_object(val));
            self.store_dict(w, d);
            i = i + 1;
        }
        Ok(())
    }

    /// Checks or unchecks a check box: sets its `/V` and every widget's
    /// appearance state `/AS` to the on state (the first one other than
    /// `Off` its first widget declares in `/AP /N`, else `Yes`) or to
    /// `Off` (ISO 32000-1 12.7.4.2.3).
    pub fn set_checkbox_checked(&mut self, name: &str, checked: bool) -> (r: Result<(), EditorError>)
        requires
            old(self).wf(),
        ensures
            final(self).wf(),
            final(self).same_but_overlay(old(self)),
            (final(self).overlay_v(), r) == old(self).checkbox_set_v(name@, checked),
    {
        let id = self.require_field(name, FieldKind::Checkbox)?;
        let widget_ids = self.widget_ids_of(id)?;
        let on = if widget_ids.len() > 0 {
            self.on_state_name(widget_ids[0])
        } else {
            None
        };
        let on_state = match on {
            Some(s) => s,
            None => String::from_str("Yes"),
        };
        let state = if checked {
            on_state
        } else {
            String::from_str("Off")
        };
        let mut dict = self.get_dictionary(id)?;
        dict.set("V", Object::Name(PdfName::new_unchecked(state.as_str())));
        self.store_dict(id, dict);
        let val = Object::Name(PdfName::new_unchecked(state.as_str()));
        self.set_in_all(&widget_ids, "AS", &val)
    }

    /// Selects the button of a radio group that declares `export_value`
    /// as its on state: sets the group's `/V` to it and each widget's
    /// `/AS` to it or to `Off` (ISO 32000-1 12.7.4.2.4).
    pub fn set_radio_value(&mut self, name: &str, export_value: &str) -> (r: Result<(), EditorError>)
        requires
            old(self).wf(),
        ensures
            final(self).wf(),
            final(self).same_but_overlay(old(self)),
            (final(self).overlay_v(), r) == old(self).radio_set_v(name@, export_value@),
    {
        let id = self.require_field(name, FieldKind::Radio)?;
        let mut dict = self.get_dictionary(id)?;
        dict.set("V", Object::Name(PdfName::new_unchecked(export_value)));
        self.store_dict(id, dict);
        let widget_ids = self.widget_ids_of(id)?;
        let ghost ws = widget_ids@;
        let ghost ov1 = self.overlay_v();
        let mut i: usize = 0;
        while i < widget_ids.len()
            invariant
                i <= ws.len(),
                ws == widget_ids@,
                self.wf(),
                self.same_but_overlay(old(self)),
                radio_states(self.overlay_v(), self.base_v(), ws, i as int, export_value@) == radio_states(
                    ov1,
                    self.base_v(),
                    ws,
                    0,
                    export_value@,
                ),
                old(self).checked_field(name@, FieldKind::Radio) == Ok::<ObjectId, EditorError>(id),
                old(self).dict(id) matches Some(d) && ov1 == table_set(
                    old(self).overlay_v(),
                    id,
                    ObjV::Dict(entries_set(d, "V"@, ObjV::Name(export_value@))),
                ),
                widget_ids_in(ov1, old(self).base_v(), id) == Ok::<Seq<ObjectId>, EditorError>(ws),
            decreases ws.len() - i,
        {
            let w = widget_ids[i];
            let has_state = match self.on_state_name(w) {
                Some(s) => str_eq(s.as_str(), export_value),
                None => false,
            };
            let mut wd = self.get_dictionary(w)?;
            let state = if has_state {
                export_value
            } else {
                "Off"
            };
            wd.set("AS", Object::Name(PdfName::new_unchecked(state)));
            proof {
                reveal_strlit("Off");
            }
            self.store_dict(w, wd);
            i = i + 1;
        }
        Ok(())
    }
}


/// Whether the objects `ov2` differ from `ov1` (both over `base`) only in
/// the values that dictionaries hold under the keys in `changed`.
pub open spec fn values_frame(
    ov1: Seq<(ObjectId, ObjV)>,
    ov2: Seq<(ObjectId, ObjV)>,
    base: Seq<(ObjectId, ObjV)>,
    changed: Set<Seq<char>>,
) -> bool {
    &&& forall|x: ObjectId| #[trigger] dict_of(obj_in(ov2, base, x)) is Some == dict_of(obj_in(ov1, base, x)) is Some
    &&& forall|x: ObjectId, k: Seq<char>|
        !changed.contains(k) && dict_of(obj_in(ov1, base, x)) is Some ==> #[trigger] entries_get(
            dict_of(obj_in(ov2, base, x))->0,
            k,
        ) == entries_get(dict_of(obj_in(ov1, base, x))->0, k)
}

/// The keys a form value update changes: `V` and `AS`.
pub open spec fn value_keys() -> Set<Seq<char>> {
    set!["V"@, "AS"@]
}

/// Whether `b`'s dictionaries are `a`'s, but for the values under the
/// keys in `changed`.
pub open spec fn dicts_frame(a: &EditableDocument, b: &EditableDocument, changed: Set<Seq<char>>) -> bool {
    &&& a.root_id() == b.root_id()
    &&& forall|x: ObjectId| #[trigger] b.dict(x) is Some == a.dict(x) is Some
    &&& forall|x: ObjectId, k: Seq<char>|
        !changed.contains(k) && a.dict(x) is Some ==> #[trigger] entries_get(b.dict(x)->0, k) == entries_get(a.dict(x)->0, k)
}

/// Setting one key of one dictionary changes only that key.
proof fn lemma_frame_set(ov: Seq<(ObjectId, ObjV)>, base: Seq<(ObjectId, ObjV)>, id: ObjectId, d: Seq<(Seq<char>, ObjV)>, k: Seq<char>, v: ObjV)
    requires
        dict_of(obj_in(ov, base, id)) == Some(d),
    ensures
        values_frame(ov, table_set(ov, id, ObjV::Dict(entries_set(d, k, v))), base, set![k]),
{
    let ov2 = table_set(ov, id, ObjV::Dict(entries_set(d, k, v)));
    assert forall|x: ObjectId| #[trigger] dict_of(obj_in(ov2, base, x)) is Some == dict_of(obj_in(ov, base, x)) is Some by {
        crate::outline::lemma_obj_in_set(ov, base, id, ObjV::Dict(entries_set(d, k, v)), x);
    }
    assert forall|x: ObjectId, k2: Seq<char>| !set![k].contains(k2) && dict_of(obj_in(ov, base, x)) is Some implies #[trigger] entries_get(
        dict_of(obj_in(ov2, base, x))->0,
        k2,
    ) == entries_get(dict_of(obj_in(ov, base, x))->0, k2) by {
        crate::outline::lemma_obj_in_set(ov, base, id, ObjV::Dict(entries_set(d, k, v)), x);
        crate::object::lemma_entries_get_set(d, k, v, k2);
    }
}

/// Frames compose, their changed keys joined.
proof fn lemma_frame_trans(
    a: Seq<(ObjectId, ObjV)>,
    b: Seq<(ObjectId, ObjV)>,
    c: Seq<(ObjectId, ObjV)>,
    base: Seq<(ObjectId, ObjV)>,
    s1: Set<Seq<char>>,
    s2: Set<Seq<char>>,
)
    requires
        values_frame(a, b, base, s1),
        values_frame(b, c, base, s2),
    ensures
        values_frame(a, c, base, s1.union(s2)),
{
    assert forall|x: ObjectId, k: Seq<char>| !s1.union(s2).contains(k) && dict_of(obj_in(a, base, x)) is Some implies #[trigger] entries_get(
        dict_of(obj_in(c, base, x))->0,
        k,
    ) == entries_get(dict_of(obj_in(a, base, x))->0, k) by {
        assert(dict_of(obj_in(b, base, x)) is Some);
        assert(entries_get(dict_of(obj_in(b, base, x))->0, k) == entries_get(dict_of(obj_in(a, base, x))->0, k));
        assert(entries_get(dict_of(obj_in(c, base, x))->0, k) == entries_get(dict_of(obj_in(b, base, x))->0, k));
    }
}

/// Setting `key` in a series of dictionaries changes only `key`.
proof fn lemma_frame_each(ov: Seq<(ObjectId, ObjV)>, base: Seq<(ObjectId, ObjV)>, ws: Seq<ObjectId>, i: int, key: Seq<char>, val: ObjV)
    ensures
        values_frame(ov, set_in_each(ov, base, ws, i, key, val).0, base, set![key]),
    decreases ws.len() - i,
{
    if i < 0 || i >= ws.len() {
    } else {
        match dict_of(obj_in(ov, base, ws[i])) {
            None => {},
            Some(d) => {
                let ov1 = table_set(ov, ws[i], ObjV::Dict(entries_set(d, key, val)));
                lemma_frame_set(ov, base, ws[i], d, key, val);
                lemma_frame_each(ov1, base, ws, i + 1, key, val);
                lemma_frame_trans(ov, ov1, set_in_each(ov1, base, ws, i + 1, key, val).0, base, set![key], set![key]);
                assert(set![key].union(set![key]) =~= set![key]);
            },
        }
    }
}

/// Setting the radio buttons' states changes only `AS`.
proof fn lemma_frame_radio(ov: Seq<(ObjectId, ObjV)>, base: Seq<(ObjectId, ObjV)>, ws: Seq<ObjectId>, i: int, export: Seq<char>)
    ensures
        values_frame(ov, radio_states(ov, base, ws, i, export).0, base, set!["AS"@]),
    decreases ws.len() - i,
{
    if i < 0 || i >= ws.len() {
    } else {
        let has = on_state_in(ov, base, ws[i]) == Some(export);
        match dict_of(obj_in(ov, base, ws[i])) {
            None => {},
            Some(d) => {
                let val = ObjV::Name(if has { export } else { "Off"@ });
                let ov1 = table_set(ov, ws[i], ObjV::Dict(entries_set(d, "AS"@, val)));
                lemma_frame_set(ov, base, ws[i], d, "AS"@, val);
                lemma_frame_radio(ov1, base, ws, i + 1, export);
                lemma_frame_trans(ov, ov1, radio_states(ov1, base, ws, i + 1, export).0, base, set!["AS"@], set!["AS"@]);
                assert(set!["AS"@].union(set!["AS"@]) =~= set!["AS"@]);
            },
        }
    }
}

/// A frame on the edited objects is a frame on the documents' dictionaries.
proof fn lemma_frame_docs(a: &EditableDocument, b: &EditableDocument, changed: Set<Seq<char>>)
    requires
        a.same_but_overlay(b),
        values_frame(b.overlay_v(), a.overlay_v(), b.base_v(), changed),
    ensures
        dicts_frame(b, a, changed),
{
    assert forall|x: ObjectId| #[trigger] a.dict(x) is Some == b.dict(x) is Some by {
        assert(a.dict(x) == dict_of(obj_in(a.overlay_v(), b.base_v(), x)));
        assert(b.dict(x) == dict_of(obj_in(b.overlay_v(), b.base_v(), x)));
    }
    assert forall|x: ObjectId, k: Seq<char>| !changed.contains(k) && b.dict(x) is Some implies #[trigger] entries_get(a.dict(x)->0, k) == entries_get(b.dict(x)->0, k) by {
        assert(a.dict(x) == dict_of(obj_in(a.overlay_v(), b.base_v(), x)));
        assert(b.dict(x) == dict_of(obj_in(b.overlay_v(), b.base_v(), x)));
        assert(entries_get(dict_of(obj_in(a.overlay_v(), b.base_v(), x))->0, k) == entries_get(dict_of(obj_in(b.overlay_v(), b.base_v(), x))->0, k));
    }
}

/// The keys the field lookups read differ from `V` and `AS`.
proof fn lemma_read_keys()
    ensures
        !value_keys().contains("T"@),
        !value_keys().contains("Kids"@),
        !value_keys().contains("Subtype"@),
        !value_keys().contains("Parent"@),
        !value_keys().contains("FT"@),
        !value_keys().contains("Ff"@),
        !value_keys().contains("AcroForm"@),
        !value_keys().contains("Fields"@),
{
    reveal_strlit("V");
    reveal_strlit("AS");
    reveal_strlit("T");
    reveal_strlit("Kids");
    reveal_strlit("Subtype");
    reveal_strlit("Parent");
    reveal_strlit("FT");
    reveal_strlit("Ff");
    reveal_strlit("AcroForm");
    reveal_strlit("Fields");
    assert("T"@[0] != "V"@[0]);
    assert("T"@.len() != "AS"@.len());
    assert("Kids"@.len() != "V"@.len() && "Kids"@.len() != "AS"@.len());
    assert("Subtype"@.len() != "V"@.len() && "Subtype"@.len() != "AS"@.len());
    assert("Parent"@.len() != "V"@.len() && "Parent"@.len() != "AS"@.len());
    assert("FT"@.len() != "V"@.len() && "FT"@[0] != "AS"@[0]);
    assert("Ff"@.len() != "V"@.len() && "Ff"@[0] != "AS"@[0]);
    assert("AcroForm"@.len() != "V"@.len() && "AcroForm"@.len() != "AS"@.len());
    assert("Fields"@.len() != "V"@.len() && "Fields"@.len() != "AS"@.len());
}

/// A widget test reads no value key.
proof fn lemma_widget_same(a: &EditableDocument, b: &EditableDocument, o: ObjV)
    requires
        dicts_frame(a, b, value_keys()),
    ensures
        a.is_widget_ref(o) == b.is_widget_ref(o),
{
    lemma_read_keys();
    if let ObjV::Reference(n, g) = o {
        if a.dict(ref_id(n, g)) is Some {
            assert(entries_get(b.dict(ref_id(n, g))->0, "Subtype"@) == entries_get(a.dict(ref_id(n, g))->0, "Subtype"@));
        }
    }
}

/// The field walk reads no value key.
proof fn lemma_field_walk_same(
    a: &EditableDocument,
    b: &EditableDocument,
    id: ObjectId,
    prefix: Seq<char>,
    depth: int,
    visited: Set<u64>,
    out: Seq<(Seq<char>, ObjectId)>,
)
    requires
        dicts_frame(a, b, value_keys()),
    ensures
        a.field_walk(id, prefix, depth, visited, out) == b.field_walk(id, prefix, depth, visited, out),
    decreases 65 - depth, 1int, 0int,
{
    lemma_read_keys();
    if depth > 64 || out.len() + visited.len() > MAX_FIELD_NODES || visited.contains(id_key(id)) {
    } else {
        let v1 = visited.insert(id_key(id));
        if let Some(d) = a.dict(id) {
            let d2 = b.dict(id)->0;
            assert(entries_get(d2, "T"@) == entries_get(d, "T"@));
            assert(entries_get(d2, "Kids"@) == entries_get(d, "Kids"@));
            let fq = qualified(prefix, partial_name(d));
            if let Some(ObjV::Array(kids)) = entries_get(d, "Kids"@) {
                assert forall|i: int| 0 <= i < kids.len() implies #[trigger] a.is_widget_ref(kids[i]) == b.is_widget_ref(kids[i]) by {
                    lemma_widget_same(a, b, kids[i]);
                }
                if a.kids_are_widgets_v(kids) {
                    let j = choose|j: int| 0 <= j < kids.len() && #[trigger] a.is_widget_ref(kids[j]);
                    assert(b.is_widget_ref(kids[j]));
                }
                if b.kids_are_widgets_v(kids) {
                    let j = choose|j: int| 0 <= j < kids.len() && #[trigger] b.is_widget_ref(kids[j]);
                    assert(a.is_widget_ref(kids[j]));
                }
                assert(a.kids_are_widgets_v(kids) == b.kids_are_widgets_v(kids));
                lemma_field_kids_same(a, b, kids, 0, fq, depth, v1, out);
            }
        }
    }
}

/// The walk of a field's kids reads no value key.
proof fn lemma_field_kids_same(
    a: &EditableDocument,
    b: &EditableDocument,
    kids: Seq<ObjV>,
    i: int,
    prefix: Seq<char>,
    depth: int,
    visited: Set<u64>,
    out: Seq<(Seq<char>, ObjectId)>,
)
    requires
        dicts_frame(a, b, value_keys()),
    ensures
        a.field_kids(kids, i, prefix, depth, visited, out) == b.field_kids(kids, i, prefix, depth, visited, out),
    decreases 65 - depth, 0int, kids.len() - i,
{
    if depth > 64 || i < 0 || i >= kids.len() {
    } else {
        let r = match kids[i] {
            ObjV::Reference(n, g) => {
                lemma_field_walk_same(a, b, ref_id(n, g), prefix, depth + 1, visited, out);
                a.field_walk(ref_id(n, g), prefix, depth + 1, visited, out)
            },
            _ => (visited, out),
        };
        lemma_field_kids_same(a, b, kids, i + 1, prefix, depth, r.0, r.1);
    }
}

/// The walk of the root fields reads no value key.
proof fn lemma_roots_walk_same(
    a: &EditableDocument,
    b: &EditableDocument,
    roots: Seq<ObjV>,
    i: int,
    visited: Set<u64>,
    out: Seq<(Seq<char>, ObjectId)>,
)
    requires
        dicts_frame(a, b, value_keys()),
    ensures
        a.field_roots_walk(roots, i, visited, out) == b.field_roots_walk(roots, i, visited, out),
    decreases roots.len() - i,
{
    if i < 0 || i >= roots.len() {
    } else {
        let r = match roots[i] {
            ObjV::Reference(n, g) => {
                lemma_field_walk_same(a, b, ref_id(n, g), Seq::empty(), 0, visited, out);
                a.field_walk(ref_id(n, g), Seq::empty(), 0, visited, out)
            },
            _ => (visited, out),
        };
        lemma_roots_walk_same(a, b, roots, i + 1, r.0, r.1);
    }
}

/// Inherited attributes other than the value keys are unchanged.
proof fn lemma_effective_same(a: &EditableDocument, b: &EditableDocument, id: ObjectId, key: Seq<char>, steps: nat)
    requires
        dicts_frame(a, b, value_keys()),
        !value_keys().contains(key),
    ensures
        a.effective_v(id, key, steps) == b.effective_v(id, key, steps),
    decreases steps,
{
    lemma_read_keys();
    if steps > 0 {
        if let Some(d) = a.dict(id) {
            assert(entries_get(b.dict(id)->0, key) == entries_get(d, key));
            assert(entries_get(b.dict(id)->0, "Parent"@) == entries_get(d, "Parent"@));
            if let Some(p) = ref_of(entries_get(d, "Parent"@)) {
                lemma_effective_same(a, b, p, key, (steps - 1) as nat);
            }
        }
    }
}

/// Changing form values leaves the fields and their kinds as they were.
proof fn lemma_fields_same(a: &EditableDocument, b: &EditableDocument, name: Seq<char>, kind: FieldKind)
    requires
        dicts_frame(a, b, value_keys()),
    ensures
        a.spec_fields() == b.spec_fields(),
        a.checked_field(name, kind) == b.checked_field(name, kind),
{
    lemma_read_keys();
    let r = a.root_id();
    if let Some(c) = a.dict(r) {
        assert(entries_get(b.dict(r)->0, "AcroForm"@) == entries_get(c, "AcroForm"@));
        if let Some(af) = ref_of(entries_get(c, "AcroForm"@)) {
            if let Some(ad) = a.dict(af) {
                assert(entries_get(b.dict(af)->0, "Fields"@) == entries_get(ad, "Fields"@));
            }
        }
    }
    assert(a.field_roots() == b.field_roots());
    lemma_roots_walk_same(a, b, a.field_roots(), 0, Set::empty(), Seq::empty());
    if let Some(id) = find_field_v(a.spec_fields(), name, 0) {
        lemma_effective_same(a, b, id, "FT"@, MAX_PARENT_DEPTH as nat);
        lemma_effective_same(a, b, id, "Ff"@, MAX_PARENT_DEPTH as nat);
    }
}

/// The first key other than `Off` is not `Off`.
proof fn lemma_first_on_key(n: Seq<(Seq<char>, ObjV)>, i: int)
    ensures
        first_on_key(n, i) matches Some(k) ==> k != "Off"@,
    decreases n.len() - i,
{
    if 0 <= i < n.len() && n[i].0 == "Off"@ {
        lemma_first_on_key(n, i + 1);
    }
}

/// Checking or unchecking a check box and reading it back gives the
/// state set.
pub proof fn lemma_checkbox_round_trip(before: &EditableDocument, after: &EditableDocument, name: Seq<char>, checked: bool)
    requires
        after.same_but_overlay(before),
        before.checkbox_set_v(name, checked).1 is Ok,
        after.overlay_v() == before.checkbox_set_v(name, checked).0,
    ensures
        after.checkbox_state(name) == Ok::<bool, EditorError>(checked),
{
    let id = before.checked_field(name, FieldKind::Checkbox)->Ok_0;
    let ws = widget_ids_in(before.overlay_v(), before.base_v(), id)->Ok_0;
    let state = before.checkbox_state_name(ws, checked);
    let d = before.dict(id)->0;
    let base = before.base_v();
    let ov1 = table_set(before.overlay_v(), id, ObjV::Dict(entries_set(d, "V"@, ObjV::Name(state))));
    lemma_frame_set(before.overlay_v(), base, id, d, "V"@, ObjV::Name(state));
    lemma_frame_each(ov1, base, ws, 0, "AS"@, ObjV::Name(state));
    lemma_frame_trans(before.overlay_v(), ov1, after.overlay_v(), base, set!["V"@], set!["AS"@]);
    assert(set!["V"@].union(set!["AS"@]) =~= value_keys());
    lemma_frame_docs(after, before, value_keys());
    lemma_fields_same(before, after, name, FieldKind::Checkbox);
    reveal_strlit("V");
    reveal_strlit("AS");
    assert("V"@.len() != "AS"@.len());
    crate::outline::lemma_obj_in_set(before.overlay_v(), base, id, ObjV::Dict(entries_set(d, "V"@, ObjV::Name(state))), id);
    crate::object::lemma_entries_get_set(d, "V"@, ObjV::Name(state), "V"@);
    assert(!set!["AS"@].contains("V"@));
    assert(dict_of(obj_in(ov1, base, id)) is Some);
    assert(entries_get(dict_of(obj_in(after.overlay_v(), base, id))->0, "V"@) == entries_get(dict_of(obj_in(ov1, base, id))->0, "V"@));
    assert(after.dict(id) == dict_of(obj_in(after.overlay_v(), base, id)));
    assert(entries_get(after.dict(id)->0, "V"@) == Some(ObjV::Name(state)));
    reveal_strlit("Off");
    reveal_strlit("Yes");
    assert("Yes"@[0] != "Off"@[0]);
    if checked && ws.len() > 0 {
        if let Some(w) = on_state_in(before.overlay_v(), base, ws[0]) {
            let wd = dict_of(obj_in(before.overlay_v(), base, ws[0]))->0;
            let ap = entries_get(wd, "AP"@)->0->Dict_0;
            let n = entries_get(ap, "N"@)->0->Dict_0;
            lemma_first_on_key(n, 0);
        }
    }
}

/// Selecting a radio button and reading the group back gives the value
/// selected (none for `Off`).
pub proof fn lemma_radio_round_trip(before: &EditableDocument, after: &EditableDocument, name: Seq<char>, export: Seq<char>)
    requires
        after.same_but_overlay(before),
        before.radio_set_v(name, export).1 is Ok,
        after.overlay_v() == before.radio_set_v(name, export).0,
    ensures
        after.radio_value(name) == Ok::<Option<Seq<char>>, EditorError>(
            if export == "Off"@ {
                None
            } else {
                Some(export)
            },
        ),
{
    let id = before.checked_field(name, FieldKind::Radio)->Ok_0;
    let d = before.dict(id)->0;
    let base = before.base_v();
    let ov1 = table_set(before.overlay_v(), id, ObjV::Dict(entries_set(d, "V"@, ObjV::Name(export))));
    let ws = widget_ids_in(ov1, base, id)->Ok_0;
    lemma_frame_set(before.overlay_v(), base, id, d, "V"@, ObjV::Name(export));
    lemma_frame_radio(ov1, base, ws, 0, export);
    lemma_frame_trans(before.overlay_v(), ov1, after.overlay_v(), base, set!["V"@], set!["AS"@]);
    assert(set!["V"@].union(set!["AS"@]) =~= value_keys());
    lemma_frame_docs(after, before, value_keys());
    lemma_fields_same(before, after, name, FieldKind::Radio);
    reveal_strlit("V");
    reveal_strlit("AS");
    assert("V"@.len() != "AS"@.len());
    crate::outline::lemma_obj_in_set(before.overlay_v(), base, id, ObjV::Dict(entries_set(d, "V"@, ObjV::Name(export))), id);
    crate::object::lemma_entries_get_set(d, "V"@, ObjV::Name(export), "V"@);
    assert(!set!["AS"@].contains("V"@));
    assert(dict_of(obj_in(ov1, base, id)) is Some);
    assert(entries_get(dict_of(obj_in(after.overlay_v(), base, id))->0, "V"@) == entries_get(dict_of(obj_in(ov1, base, id))->0, "V"@));
    assert(after.dict(id) == dict_of(obj_in(after.overlay_v(), base, id)));
    assert(entries_get(after.dict(id)->0, "V"@) == Some(ObjV::Name(export)));
}

/// The widgets of each of `fields` in turn (see `widget_ids_in`),
/// concatenated; the first error met.
pub open spec fn widgets_of_fields(
    ov: Seq<(ObjectId, ObjV)>,
    base: Seq<(ObjectId, ObjV)>,
    fields: Seq<(Seq<char>, ObjectId)>,
) -> Result<Seq<ObjectId>, EditorError>
    decreases fields.len(),
{
    if fields.len() == 0 {
        Ok(Seq::empty())
    } else {
        match widgets_of_fields(ov, base, fields.drop_last()) {
            Err(e) => Err(e),
            Ok(ws) => match widget_ids_in(ov, base, fields.last().1) {
                Err(e) => Err(e),
                Ok(w) => Ok(ws + w),
            },
        }
    }
}

impl EditableDocument {
    /// The widget annotations of every terminal field, field by field in
    /// document order (see `widgets_of_fields`): what flattening the form
    /// paints onto the pages.
    pub fn form_widget_ids(&self) -> (r: Result<Vec<ObjectId>, EditorError>)
        ensures
            match widgets_of_fields(self.overlay_v(), self.base_v(), self.spec_fields()) {
                Ok(ws) => r matches Ok(v) && v@ == ws,
                Err(e) => r == Err::<Vec<ObjectId>, EditorError>(e),
            },
    {
        let fields = self.walk_fields();
        let ghost fs = named_ids(fields@);
        let mut out: Vec<ObjectId> = Vec::new();
        let mut i: usize = 0;
        proof {
            assert(fs.take(0) =~= Seq::<(Seq<char>, ObjectId)>::empty());
        }
        while i < fields.len()
            invariant
                i <= fields@.len(),
                fs == named_ids(fields@),
                fs == self.spec_fields(),
                widgets_of_fields(self.overlay_v(), self.base_v(), fs.take(i as int)) == Ok::<Seq<ObjectId>, EditorError>(out@),
            decreases fields@.len() - i,
        {
            let ghost t = fs.take(i + 1);
            proof {
                assert(t.drop_last() =~= fs.take(i as int));
                assert(t.last().1 == fields@[i as int].1);
            }
            let ws = match self.widget_ids_of(fields[i].1) {
                Ok(w) => w,
                Err(e) => {
                    proof {
                        lemma_widgets_of_fields_err(self.overlay_v(), self.base_v(), fs, i + 1);
                    }
                    return Err(e);
                },
            };
            let mut j: usize = 0;
            let ghost o0 = out@;
            while j < ws.len()
                invariant
                    j <= ws@.len(),
                    out@ == o0 + ws@.take(j as int),
                decreases ws@.len() - j,
            {
                out.push(ws[j]);
                proof {
                    assert(ws@.take(j + 1) =~= ws@.take(j as int).push(ws@[j as int]));
                }
                j = j + 1;
            }
            proof {
                assert(ws@.take(ws@.len() as int) =~= ws@);
            }
            i = i + 1;
        }
        proof {
            assert(fs.take(fs.len() as int) =~= fs);
        }
        Ok(out)
    }
}

/// An error among the first `k` fields is the error for them all.
proof fn lemma_widgets_of_fields_err(
    ov: Seq<(ObjectId, ObjV)>,
    base: Seq<(ObjectId, ObjV)>,
    fs: Seq<(Seq<char>, ObjectId)>,
    k: int,
)
    requires
        0 <= k <= fs.len(),
        widgets_of_fields(ov, base, fs.take(k)) is Err,
    ensures
        widgets_of_fields(ov, base, fs) == widgets_of_fields(ov, base, fs.take(k)),
    decreases fs.len() - k,
{
    if k < fs.len() {
        assert(fs.take(k + 1).drop_last() =~= fs.take(k));
        lemma_widgets_of_fields_err(ov, base, fs, k + 1);
    } else {
        assert(fs.take(k) =~= fs);
    }
}

/// The first index from `i` on at which `s` holds `v`.
pub open spec fn first_index(s: Seq<Seq<char>>, v: Seq<char>, i: int) -> Option<int>
    decreases s.len() - i,
{
    if i < 0 || i >= s.len() {
        None
    } else if s[i] == v {
        Some(i)
    } else {
        first_index(s, v, i + 1)
    }
}

/// The default appearance string of a field when neither it, its
/// ancestors nor the form set one: 12-point Helvetica, black.
pub open spec fn default_da() -> Seq<char> {
    "/Helv 12 Tf 0 g"@
}

impl EditableDocument {
    /// The default appearance string (`/DA`, ISO 32000-1 12.7.3.3) of the
    /// field `field`: its own or inherited one, else the one of the
    /// `/AcroForm` the catalog refers to, else `default_da`.
    pub open spec fn da_v(&self, field: ObjectId) -> Seq<char> {
        let form_da = match self.dict(self.root_id()) {
            Some(c) => match entries_get(c, "AcroForm"@) {
                Some(ObjV::Reference(n, g)) => match self.dict(ref_id(n, g)) {
                    Some(a) => match entries_get(a, "DA"@) {
                        Some(ObjV::Str(_, b)) => text_of_bytes(b),
                        _ => default_da(),
                    },
                    None => default_da(),
                },
                _ => default_da(),
            },
            None => default_da(),
        };
        match self.effective_v(field, "DA"@, MAX_PARENT_DEPTH as nat) {
            Some(ObjV::Str(_, b)) => text_of_bytes(b),
            _ => form_da,
        }
    }

    /// Setting the value of the text field `name` to `value`: its `/V`,
    /// and the widgets whose appearance shows it (read after the change).
    pub open spec fn text_set_v(&self, name: Seq<char>, value: Seq<char>) -> (Seq<(ObjectId, ObjV)>, Result<Seq<ObjectId>, EditorError>) {
        let ov = self.overlay_v();
        match self.checked_field(name, FieldKind::Text) {
            Err(e) => (ov, Err(e)),
            Ok(id) => match self.dict(id) {
                None => (ov, Err(EditorError::UnresolvedObject(id.number, id.generation))),
                Some(d) => {
                    let ov1 = table_set(ov, id, ObjV::Dict(entries_set(d, "V"@, crate::form_create::text_v(value))));
                    (ov1, widget_ids_in(ov1, self.base_v(), id))
                },
            },
        }
    }

    /// Setting the value of the choice field `name` to `value`: its `/V`,
    /// and its selected index `/I` when `value` is one of its options
    /// (the first that is); and the widgets whose appearance shows it.
    pub open spec fn choice_set_v(&self, name: Seq<char>, value: Seq<char>) -> (Seq<(ObjectId, ObjV)>, Result<Seq<ObjectId>, EditorError>) {
        let ov = self.overlay_v();
        match self.checked_field(name, FieldKind::Choice) {
            Err(e) => (ov, Err(e)),
            Ok(id) => match self.dict(id) {
                None => (ov, Err(EditorError::UnresolvedObject(id.number, id.generation))),
                Some(d) => {
                    let opts = match entries_get(d, "Opt"@) {
                        Some(ObjV::Array(a)) => option_texts(a),
                        _ => Seq::empty(),
                    };
                    let d1 = entries_set(d, "V"@, crate::form_create::text_v(value));
                    let d2 = match first_index(opts, value, 0) {
                        Some(k) => entries_set(d1, "I"@, ObjV::Array(seq![ObjV::Integer(k as i64)])),
                        None => d1,
                    };
                    let ov1 = table_set(ov, id, ObjV::Dict(d2));
                    (ov1, widget_ids_in(ov1, self.base_v(), id))
                },
            },
        }
    }

    /// The default appearance string of the field `field` (see `da_v`):
    /// the font and colour its appearance draws the value in.
    pub fn effective_da_string(&self, field: ObjectId) -> (r: String)
        ensures
            r@ == self.da_v(field),
    {
        if let Some(Object::String(s)) = self.effective(field, "DA") {
            return from_pdf_text_string(&s);
        }
        if let Ok(catalog) = self.catalog() {
            if let Some(Object::Reference(af)) = catalog.get("AcroForm") {
                assert(ref_id(af.number, af.generation) == *af);
                if let Ok(acroform) = self.get_dictionary(*af) {
                    if let Some(Object::String(s)) = acroform.get("DA") {
                        return from_pdf_text_string(s);
                    }
                }
            }
        }
        String::from_str("/Helv 12 Tf 0 g")
    }

    /// Sets the value `/V` of the text field `name` (ISO 32000-1
    /// 12.7.4.3). Returns the field's widgets, whose appearance is to
    /// show the new value (see `text_set_v`).
    pub fn set_text_value(&mut self, name: &str, value: &str) -> (r: Result<Vec<ObjectId>, EditorError>)
        requires
            old(self).wf(),
        ensures
            final(self).wf(),
            final(self).same_but_overlay(old(self)),
            final(self).overlay_v() == old(self).text_set_v(name@, value@).0,
            match old(self).text_set_v(name@, value@).1 {
                Ok(ws) => r matches Ok(v) && v@ == ws,
                Err(e) => r == Err::<Vec<ObjectId>, EditorError>(e),
            },
    {
        let id = match self.require_field(name, FieldKind::Text) {
            Ok(i) => i,
            Err(e) => {
                return Err(e);
            },
        };
        let mut dict = match self.get_dictionary(id) {
            Ok(d) => d,
            Err(e) => {
                return Err(e);
            },
        };
        dict.set("V", crate::form_create::text_obj(value));
        self.store_dict(id, dict);
        self.widget_ids_of(id)
    }

    /// Sets the value `/V` of the choice field `name` (ISO 32000-1
    /// 12.7.4.4), with the selected index `/I` when `value` is one of its
    /// options. Returns the field's widgets, whose appearance is to show
    /// the new value (see `choice_set_v`).
    pub fn set_choice_value(&mut self, name: &str, value: &str) -> (r: Result<Vec<ObjectId>, EditorError>)
        requires
            old(self).wf(),
        ensures
            final(self).wf(),
            final(self).same_but_overlay(old(self)),
            final(self).overlay_v() == old(self).choice_set_v(name@, value@).0,
            match old(self).choice_set_v(name@, value@).1 {
                Ok(ws) => r matches Ok(v) && v@ == ws,
                Err(e) => r == Err::<Vec<ObjectId>, EditorError>(e),
            },
    {
        let id = match self.require_field(name, FieldKind::Choice) {
            Ok(i) => i,
            Err(e) => {
                return Err(e);
            },
        };
        let mut dict = match self.get_dictionary(id) {
            Ok(d) => d,
            Err(e) => {
                return Err(e);
            },
        };
        let options = match self.choice_options(name) {
            Ok(o) => o,
            Err(e) => {
                return Err(e);
            },
        };
        let ghost opts = match entries_get(dict.view_entries(), "Opt"@) {
            Some(ObjV::Array(a)) => option_texts(a),
            _ => Seq::<Seq<char>>::empty(),
        };
        let mut k: usize = 0;
        let mut found: Option<usize> = None;
        while found.is_none() && k < options.len()
            invariant
                k <= options@.len(),
                options@.len() == opts.len(),
                forall|j: int| 0 <= j < options@.len() ==> #[trigger] options@[j]@ == opts[j],
                match found {
                    Some(i) => first_index(opts, value@, 0) == Some(i as int),
                    None => first_index(opts, value@, 0) == first_index(opts, value@, k as int),
                },
            decreases options@.len() - k + (if found is None { 1int } else { 0int }),
        {
            if str_eq(options[k].as_str(), value) {
                found = Some(k);
            } else {
                k = k + 1;
            }
        }
        proof {
            if found is None {
                assert(first_index(opts, value@, k as int) is None);
            }
        }
        dict.set("V", crate::form_create::text_obj(value));
        if let Some(idx) = found {
            let mut arr = PdfArray::new();
            arr.push(Object::Integer(idx as i64));
            proof {
                crate::object::lemma_view_objs(arr.items@);
                assert(arr.view_items() =~= seq![ObjV::Integer(idx as i64)]);
            }
            dict.set("I", Object::Array(arr));
        }
        self.store_dict(id, dict);
        self.widget_ids_of(id)
    }
}

/// The number of string elements of `a`.
pub open spec fn string_count(a: Seq<ObjV>) -> nat
    decreases a.len(),
{
    if a.len() == 0 {
        0
    } else {
        string_count(a.drop_first()) + if a[0] is Str {
            1nat
        } else {
            0nat
        }
    }
}

/// The texts of the string elements of two arrays one after the other
/// are the texts of the first followed by those of the second; one string
/// gives its text, any other element none.
pub proof fn lemma_string_texts_concat(a: Seq<ObjV>, b: Seq<ObjV>)
    ensures
        string_texts(a + b) == string_texts(a) + string_texts(b),
        forall|h: bool, x: Seq<u8>| #[trigger] string_texts(seq![ObjV::Str(h, x)]) == seq![text_of_bytes(x)],
        forall|o: ObjV| !(o is Str) ==> #[trigger] string_texts(seq![o]) == Seq::<Seq<char>>::empty(),
    decreases b.len(),
{
    assert forall|h: bool, x: Seq<u8>| #[trigger] string_texts(seq![ObjV::Str(h, x)]) == seq![text_of_bytes(x)] by {
        reveal_with_fuel(string_texts, 2);
        assert(seq![ObjV::Str(h, x)].drop_last() =~= Seq::<ObjV>::empty());
        assert(Seq::<Seq<char>>::empty() + seq![text_of_bytes(x)] =~= seq![text_of_bytes(x)]);
    }
    assert forall|o: ObjV| !(o is Str) implies #[trigger] string_texts(seq![o]) == Seq::<Seq<char>>::empty() by {
        reveal_with_fuel(string_texts, 2);
        assert(seq![o].drop_last() =~= Seq::<ObjV>::empty());
        assert(Seq::<Seq<char>>::empty() + Seq::<Seq<char>>::empty() =~= Seq::<Seq<char>>::empty());
    }
    if b.len() == 0 {
        assert(a + b =~= a);
        assert(string_texts(a) + Seq::<Seq<char>>::empty() =~= string_texts(a));
    } else {
        lemma_string_texts_concat(a, b.drop_last());
        assert((a + b).drop_last() =~= a + b.drop_last());
        assert((a + b).last() == b.last());
        let tail = match b.last() {
            ObjV::Str(_, x) => seq![text_of_bytes(x)],
            _ => Seq::<Seq<char>>::empty(),
        };
        assert(string_texts(a) + string_texts(b.drop_last()) + tail =~= string_texts(a) + (string_texts(b.drop_last()) + tail));
    }
}

/// A choice field whose `/V` is an array selects one value per string
/// element of it, in order: the `k`-th value is the text of the `k`-th
/// string element.
pub proof fn lemma_choice_values_of_array(a: Seq<ObjV>)
    ensures
        choice_values_v(Some(ObjV::Array(a))).len() == string_count(a),
        forall|j: int|
            0 <= j < a.len() && #[trigger] a[j] is Str ==> string_count(a.take(j)) < string_count(a) && choice_values_v(
                Some(ObjV::Array(a)),
            )[string_count(a.take(j)) as int] == text_of_bytes(a[j]->Str_1),
    decreases a.len(),
{
    if a.len() == 0 {
        assert(string_texts(a) =~= Seq::<Seq<char>>::empty());
    } else {
        let rest = a.drop_first();
        lemma_choice_values_of_array(rest);
        assert(a =~= seq![a[0]] + rest);
        lemma_string_texts_concat(seq![a[0]], rest);
        let head = string_texts(seq![a[0]]);
        let t = string_texts(rest);
        assert(string_texts(a) == head + t);
        if a[0] is Str {
            let h0 = a[0]->Str_0;
            let x0 = a[0]->Str_1;
            assert(a[0] == ObjV::Str(h0, x0));
            assert(string_texts(seq![ObjV::Str(h0, x0)]) == seq![text_of_bytes(x0)]);
            assert(head == seq![text_of_bytes(a[0]->Str_1)]);
        } else {
            assert(head == Seq::<Seq<char>>::empty());
        }
        assert(head.len() == if a[0] is Str { 1nat } else { 0nat });
        assert forall|j: int|
            0 <= j < a.len() && #[trigger] a[j] is Str implies string_count(a.take(j)) < string_count(a) && string_texts(a)[string_count(
            a.take(j),
        ) as int] == text_of_bytes(a[j]->Str_1) by {
            if j == 0 {
                assert(a.take(0) =~= Seq::<ObjV>::empty());
                assert(string_count(a.take(0)) == 0);
            } else {
                assert(a[j] == rest[j - 1]);
                assert(a.take(j).drop_first() =~= rest.take(j - 1));
                assert(a.take(j)[0] == a[0]);
                assert(string_count(a.take(j)) == string_count(rest.take(j - 1)) + head.len());
                assert((head + t)[(head.len() + string_count(rest.take(j - 1))) as int] == t[string_count(rest.take(j - 1)) as int]);
            }
        }
    }
}

/// The option texts of two `/Opt` runs one after the other are those of
/// each run in turn; an entry gives its display text when it has one,
/// else nothing.
pub proof fn lemma_option_texts_concat(a: Seq<ObjV>, b: Seq<ObjV>)
    ensures
        option_texts(a + b) == option_texts(a) + option_texts(b),
        forall|o: ObjV| #[trigger] option_texts(seq![o]) == match option_text(o) {
            Some(t) => seq![t],
            None => Seq::<Seq<char>>::empty(),
        },
    decreases b.len(),
{
    assert forall|o: ObjV| #[trigger] option_texts(seq![o]) == match option_text(o) {
        Some(t) => seq![t],
        None => Seq::<Seq<char>>::empty(),
    } by {
        reveal_with_fuel(option_texts, 2);
        assert(seq![o].drop_last() =~= Seq::<ObjV>::empty());
        assert(Seq::<Seq<char>>::empty() + Seq::<Seq<char>>::empty() =~= Seq::<Seq<char>>::empty());
        if let Some(t) = option_text(o) {
            assert(Seq::<Seq<char>>::empty() + seq![t] =~= seq![t]);
        }
    }
    if b.len() == 0 {
        assert(a + b =~= a);
        assert(option_texts(a) + Seq::<Seq<char>>::empty() =~= option_texts(a));
    } else {
        lemma_option_texts_concat(a, b.drop_last());
        assert((a + b).drop_last() =~= a + b.drop_last());
        assert((a + b).last() == b.last());
        let tail = match option_text(b.last()) {
            Some(t) => seq![t],
            None => Seq::<Seq<char>>::empty(),
        };
        assert(option_texts(a) + option_texts(b.drop_last()) + tail =~= option_texts(a) + (option_texts(b.drop_last()) + tail));
    }
}

/// `first_index` finds the first position holding the value, and none
/// exactly when no position does.
pub proof fn lemma_first_index(s: Seq<Seq<char>>, v: Seq<char>, i: int)
    requires
        0 <= i,
    ensures
        first_index(s, v, i) matches Some(k) ==> i <= k < s.len() && s[k] == v && forall|j: int| i <= j < k ==> #[trigger] s[j] != v,
        first_index(s, v, i) is None ==> forall|j: int| i <= j < s.len() ==> #[trigger] s[j] != v,
    decreases s.len() - i,
{
    if i < s.len() && s[i] != v {
        lemma_first_index(s, v, i + 1);
    }
}

} // verus!
