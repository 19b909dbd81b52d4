//! The object graph of a document opened for editing: the objects read
//! from the file, an overlay of objects added or replaced since, and the
//! page tree over them (ISO 32000-1 7.7.3).
//!
//! Every read goes through the overlay first, so a caller always sees its
//! own edits; every write touches only the overlay, never the objects
//! read from the file.

use vstd::prelude::*;
use std::collections::HashSet;
use crate::audit::{load_from_catalog, resolved_log, view_log, EntryV, RedactionAuditEntry, AUDIT_LOG_CATALOG_KEY};
use crate::refs::{collect_all_refs, collect_refs, id_pairs, refs_of};
use crate::version::PdfVersion;
use crate::object::{
    copy_dictionary, copy_object, entries_get, entries_set, lemma_view_entries, lemma_view_objs, view_objs, ObjV, Object, ObjectId, PdfArray,
    PdfDictionary,
};

verus! {

broadcast use vstd::std_specs::hash::group_hash_axioms;

/// The most page-tree nodes a walk visits.
pub const MAX_PAGE_TREE_NODES: usize = 500000;

/// The deepest `/Kids` nesting a walk follows.
pub const MAX_PAGE_TREE_DEPTH: u32 = 64;

/// The most objects a walk of the whole object graph visits.
pub const MAX_REACHABLE_OBJECTS: usize = 5000000;

/// The values of a table of numbered objects.
pub open spec fn view_table(t: Seq<(ObjectId, Object)>) -> Seq<(ObjectId, ObjV)>
    decreases t.len(),
{
    if t.len() == 0 {
        Seq::empty()
    } else {
        view_table(t.drop_last()).push((t.last().0, t.last().1.v()))
    }
}

/// Entry `i` of the values is the value of entry `i`.
pub proof fn lemma_view_table(t: Seq<(ObjectId, Object)>)
    ensures
        view_table(t).len() == t.len(),
        forall|i: int| 0 <= i < t.len() ==> #[trigger] view_table(t)[i] == (t[i].0, t[i].1.v()),
    decreases t.len(),
{
    if t.len() > 0 {
        lemma_view_table(t.drop_last());
    }
}

/// The index of the first entry for `id`, or the length when none is.
pub open spec fn table_find(t: Seq<(ObjectId, ObjV)>, id: ObjectId) -> int
    decreases t.len(),
{
    if t.len() == 0 {
        0
    } else if t[0].0 == id {
        0
    } else {
        1 + table_find(t.drop_first(), id)
    }
}

/// The value of the first entry for `id`, if any.
pub open spec fn table_get(t: Seq<(ObjectId, ObjV)>, id: ObjectId) -> Option<ObjV>
    decreases t.len(),
{
    if t.len() == 0 {
        None
    } else if t[0].0 == id {
        Some(t[0].1)
    } else {
        table_get(t.drop_first(), id)
    }
}

/// `t` with the first entry for `id` given `value` in place, or with
/// `(id, value)` appended when there is none.
pub open spec fn table_set(t: Seq<(ObjectId, ObjV)>, id: ObjectId, value: ObjV) -> Seq<(ObjectId, ObjV)>
    decreases t.len(),
{
    if t.len() == 0 {
        seq![(id, value)]
    } else if t[0].0 == id {
        t.update(0, (id, value))
    } else {
        seq![t[0]] + table_set(t.drop_first(), id, value)
    }
}

/// `table_find` locates the first entry for `id`.
pub proof fn lemma_table_find(t: Seq<(ObjectId, ObjV)>, id: ObjectId)
    ensures
        0 <= table_find(t, id) <= t.len(),
        forall|j: int| 0 <= j < table_find(t, id) ==> t[j].0 != id,
        table_find(t, id) < t.len() ==> t[table_find(t, id)].0 == id,
        table_find(t, id) < t.len() ==> table_get(t, id) == Some(t[table_find(t, id)].1),
        table_find(t, id) == t.len() ==> table_get(t, id) is None,
        table_find(t, id) < t.len() ==> table_set(t, id, ObjV::Null).len() == t.len(),
    decreases t.len(),
{
    if t.len() > 0 && t[0].0 != id {
        let rest = t.drop_first();
        lemma_table_find(rest, id);
        assert forall|j: int| 0 <= j < table_find(t, id) implies t[j].0 != id by {
            if j > 0 {
                assert(t[j] == rest[j - 1]);
            }
        }
    }
}

/// Setting at the index `table_find` locates is `table_set`.
proof fn lemma_table_set_at(t: Seq<(ObjectId, ObjV)>, id: ObjectId, value: ObjV, i: int)
    requires
        i == table_find(t, id),
    ensures
        i < t.len() ==> table_set(t, id, value) =~= t.update(i, (id, value)),
        i == t.len() ==> table_set(t, id, value) =~= t.push((id, value)),
    decreases t.len(),
{
    lemma_table_find(t, id);
    if t.len() > 0 && t[0].0 != id {
        lemma_table_set_at(t.drop_first(), id, value, i - 1);
    }
}

/// Reading an id right after setting it gives the value set; other ids
/// are unaffected.
pub proof fn lemma_table_get_set(t: Seq<(ObjectId, ObjV)>, id: ObjectId, value: ObjV, other: ObjectId)
    ensures
        table_get(table_set(t, id, value), id) == Some(value),
        other != id ==> table_get(table_set(t, id, value), other) == table_get(t, other),
    decreases t.len(),
{
    let s = table_set(t, id, value);
    if t.len() > 0 && t[0].0 != id {
        lemma_table_get_set(t.drop_first(), id, value, other);
        assert(s.drop_first() =~= table_set(t.drop_first(), id, value));
        assert(s[0] == t[0]);
        if other != id {
            if t[0].0 == other {
                assert(table_get(s, other) == Some(t[0].1));
            } else {
                assert(table_get(s, other) == table_get(s.drop_first(), other));
            }
        }
    } else if t.len() > 0 {
        assert(s.drop_first() =~= t.drop_first());
        assert(s[0] == (id, value));
        if other != id {
            assert(table_get(s, other) == table_get(s.drop_first(), other));
        }
    } else {
        assert(s.drop_first() =~= Seq::<(ObjectId, ObjV)>::empty());
        assert(s[0] == (id, value));
        if other != id {
            assert(table_get(s, other) == table_get(s.drop_first(), other));
        }
    }
}

/// Every id that `table_set` leaves in the table was `id` or was there.
proof fn lemma_table_set_ids(t: Seq<(ObjectId, ObjV)>, id: ObjectId, value: ObjV)
    ensures
        forall|j: int|
            0 <= j < table_set(t, id, value).len() ==> #[trigger] table_set(t, id, value)[j].0 == id || exists|
                k: int,
            |
                0 <= k < t.len() && t[k].0 == table_set(t, id, value)[j].0,
{
    let i = table_find(t, id);
    lemma_table_find(t, id);
    lemma_table_set_at(t, id, value, i);
    let s = table_set(t, id, value);
    assert forall|j: int| 0 <= j < s.len() implies #[trigger] s[j].0 == id || exists|k: int|
        0 <= k < t.len() && t[k].0 == s[j].0 by {
        if j < t.len() && j != i {
            assert(t[j].0 == s[j].0);
        }
    }
}

/// The highest object number in a table, 0 for an empty one.
pub open spec fn max_number(t: Seq<(ObjectId, ObjV)>) -> nat
    decreases t.len(),
{
    if t.len() == 0 {
        0
    } else {
        let m = max_number(t.drop_last());
        if t.last().0.number > m {
            t.last().0.number as nat
        } else {
            m
        }
    }
}

/// No number in the table exceeds `max_number`.
proof fn lemma_max_number(t: Seq<(ObjectId, ObjV)>)
    ensures
        forall|i: int| 0 <= i < t.len() ==> #[trigger] t[i].0.number <= max_number(t),
        t.len() > 0 ==> exists|i: int| 0 <= i < t.len() && t[i].0.number == max_number(t),
        t.len() == 0 ==> max_number(t) == 0,
    decreases t.len(),
{
    if t.len() > 0 {
        let d = t.drop_last();
        lemma_max_number(d);
        assert forall|i: int| 0 <= i < t.len() implies #[trigger] t[i].0.number <= max_number(t) by {
            if i < d.len() {
                assert(t[i] == d[i]);
            }
        }
        if t.last().0.number <= max_number(d) && d.len() > 0 {
            let w = choose|i: int| 0 <= i < d.len() && d[i].0.number == max_number(d);
            assert(t[w] == d[w]);
        }
        if d.len() == 0 {
            assert(t[t.len() - 1] == t.last());
        }
    }
}

/// Which limit a page-tree walk ran into.
#[derive(Debug, Clone, Copy, PartialEq, Eq, Structural)]
pub enum PageTreeLimit {
    /// `/Kids` nested deeper than `MAX_PAGE_TREE_DEPTH`.
    Depth,
    /// More than `MAX_PAGE_TREE_NODES` nodes.
    NodeCount,
}

/// Why an editing operation failed.
#[derive(Debug, Clone, Copy, PartialEq, Eq, Structural)]
pub enum EditorError {
    /// The catalog is missing, not a dictionary, or has no `/Pages`
    /// reference.
    MissingCatalog,
    /// The object does not resolve to a dictionary.
    UnresolvedObject(u32, u16),
    /// The page tree is too deep or too large.
    PageTreeTooLarge(PageTreeLimit),
    /// A page-tree node does not resolve to a dictionary.
    MalformedPageTree(ObjectId),
    /// A page index is out of range.
    InvalidPageIndex { index: usize, count: usize },
    /// A rotation is not a multiple of 90 degrees.
    InvalidRotation,
    /// The object graph or the output is larger than this library
    /// handles.
    ResourceLimitExceeded,
    /// An incremental update cannot make a redaction permanent: the
    /// removed content would stay in the file's earlier bytes.
    RedactionRequiresFullRewrite,
    /// The file's last cross-reference section was not found, so an
    /// update cannot chain to it.
    MissingBaseXref,
    /// The object is not an outline item with a `/Parent`.
    OutlineItemNotFound(u32, u16),
    /// A stream is encoded with a `/Filter`, which this library does not
    /// decode.
    UnsupportedFilter,
    /// No interactive form field has the given fully qualified name.
    FieldNotFound,
    /// The field is not of the kind the operation needs.
    WrongFieldType(crate::forms::FieldKind),
    /// The annotation does not exist or is not on the page.
    AnnotationNotFound(u32, u16),
    /// A form field of the given fully qualified name already exists.
    DuplicateFieldName,
    /// The bytes given as an ICC profile do not pass
    /// `validate_icc_header`.
    InvalidIccProfile(crate::icc::IccError),
    /// An ink annotation was given no point to draw.
    EmptyInkStrokes,
    /// A text markup annotation was given no quadrilateral to mark.
    EmptyQuadPoints,
}

/// One more than the number of entries of two object tables, capped at
/// `usize::MAX`.
pub open spec fn chain_bound(ov: Seq<(ObjectId, ObjV)>, base: Seq<(ObjectId, ObjV)>) -> usize {
    if ov.len() + base.len() + 1 <= usize::MAX {
        (ov.len() + base.len() + 1) as usize
    } else {
        usize::MAX
    }
}

/// The value of an object as a dictionary: a dictionary's entries, or a
/// stream's dictionary entries.
pub open spec fn dict_of(o: Option<ObjV>) -> Option<Seq<(Seq<char>, ObjV)>> {
    match o {
        Some(ObjV::Dict(e)) => Some(e),
        Some(ObjV::Stream(e, _)) => Some(e),
        _ => None,
    }
}

/// Whether a catalog read from `objects` at `root` can be edited: it is
/// a dictionary with a `/Pages` reference.
pub open spec fn catalog_ok(objects: Seq<(ObjectId, ObjV)>, root: ObjectId) -> bool {
    &&& table_get(objects, root) matches Some(ObjV::Dict(e))
    &&& entries_get(e, "Pages"@) matches Some(ObjV::Reference(_, _))
}

/// The data of the stream `objects` holds under `id`, when it is stored
/// without a `/Filter`.
pub open spec fn unfiltered_data(objects: Seq<(ObjectId, ObjV)>, id: ObjectId) -> Option<Seq<u8>> {
    match table_get(objects, id) {
        Some(ObjV::Stream(e, d)) => if entries_get(e, "Filter"@) is None {
            Some(d)
        } else {
            None
        },
        _ => None,
    }
}

/// The index of the first entry for `id` in `t`.
fn find_id(t: &Vec<(ObjectId, Object)>, id: ObjectId) -> (i: usize)
    ensures
        i == table_find(view_table(t@), id),
{
    proof {
        lemma_view_table(t@);
        lemma_table_find(view_table(t@), id);
    }
    let mut i: usize = 0;
    while i < t.len()
        invariant
            i <= t@.len(),
            view_table(t@).len() == t@.len(),
            forall|j: int| 0 <= j < i ==> #[trigger] t@[j].0 != id,
            forall|j: int| 0 <= j < t@.len() ==> #[trigger] view_table(t@)[j] == (t@[j].0, t@[j].1.v()),
            0 <= table_find(view_table(t@), id) <= t@.len(),
            forall|j: int| 0 <= j < table_find(view_table(t@), id) ==> view_table(t@)[j].0 != id,
            table_find(view_table(t@), id) < t@.len() ==> view_table(t@)[table_find(view_table(t@), id)].0 == id,
        decreases t@.len() - i,
    {
        if t[i].0 == id {
            assert(view_table(t@)[i as int].0 == id);
            return i;
        }
        i = i + 1;
    }
    i
}

/// The object `t` holds under `id`, if any.
fn table_lookup(t: &Vec<(ObjectId, Object)>, id: ObjectId) -> (r: Option<&Object>)
    ensures
        r matches Some(o) ==> table_get(view_table(t@), id) == Some(o.v()),
        r is None ==> table_get(view_table(t@), id) is None,
{
    proof {
        lemma_view_table(t@);
        lemma_table_find(view_table(t@), id);
    }
    let i = find_id(t, id);
    if i < t.len() {
        Some(&t[i].1)
    } else {
        None
    }
}

/// A copy of the data of the stream `t` holds under `id`, when it is
/// stored without a `/Filter`.
fn unfiltered_stream_data(t: &Vec<(ObjectId, Object)>, id: ObjectId) -> (r: Option<Vec<u8>>)
    ensures
        r matches Some(d) ==> unfiltered_data(view_table(t@), id) == Some(d@),
        r is None ==> unfiltered_data(view_table(t@), id) is None,
{
    match table_lookup(t, id) {
        Some(Object::Stream(s)) => {
            if s.dictionary.contains_key("Filter") {
                None
            } else {
                Some(crate::object::slice_to_vec_u8(s.data.as_slice()))
            }
        },
        _ => None,
    }
}

/// The highest object number in `t`.
fn highest_number(t: &Vec<(ObjectId, Object)>) -> (m: u32)
    ensures
        m == max_number(view_table(t@)),
{
    proof {
        lemma_view_table(t@);
    }
    let mut m: u32 = 0;
    let mut i: usize = 0;
    while i < t.len()
        invariant
            i <= t@.len(),
            view_table(t@).len() == t@.len(),
            forall|j: int| 0 <= j < t@.len() ==> #[trigger] view_table(t@)[j] == (t@[j].0, t@[j].1.v()),
            m == max_number(view_table(t@).take(i as int)),
        decreases t@.len() - i,
    {
        proof {
            let a = view_table(t@).take(i + 1);
            assert(a.drop_last() =~= view_table(t@).take(i as int));
            assert(a.last() == view_table(t@)[i as int]);
        }
        if t[i].0.number > m {
            m = t[i].0.number;
        }
        i = i + 1;
    }
    assert(view_table(t@).take(t@.len() as int) =~= view_table(t@));
    m
}

/// What a PDF file supplies to edit it: its bytes, the version in its
/// header, its objects as its cross-reference table resolves them, its
/// trailer's `/Root`, `/Info` and `/ID`, and where its last
/// cross-reference section starts, when that was found.
pub struct LoadedFile {
    /// The file's bytes.
    pub data: Vec<u8>,
    /// The version in the file's header.
    pub version: PdfVersion,
    /// The file's objects.
    pub objects: Vec<(ObjectId, Object)>,
    /// The trailer's `/Root`.
    pub root: ObjectId,
    /// The trailer's `/Info`.
    pub info: Option<ObjectId>,
    /// The trailer's `/ID`.
    pub id: Option<(Vec<u8>, Vec<u8>)>,
    /// The offset of the file's last cross-reference section.
    pub startxref: Option<u64>,
}

/// A document open for editing: the file it was read from, the objects
/// added or replaced since, the next unused object number, the catalog
/// and `/Info` ids, and the redaction audit trail.
pub struct EditableDocument {
    data: Vec<u8>,
    version: PdfVersion,
    base: Vec<(ObjectId, Object)>,
    overlay: Vec<(ObjectId, Object)>,
    next_object_number: u32,
    root: ObjectId,
    info: Option<ObjectId>,
    file_id: Option<(Vec<u8>, Vec<u8>)>,
    startxref: Option<u64>,
    audit_log: Vec<RedactionAuditEntry>,
    audit_log_object_id: Option<ObjectId>,
    redaction_applied: bool,
}

impl EditableDocument {
    /// The values of the objects read from the file.
    pub closed spec fn base_v(&self) -> Seq<(ObjectId, ObjV)> {
        view_table(self.base@)
    }

    /// The values of the objects added or replaced, in the order first
    /// set.
    pub closed spec fn overlay_v(&self) -> Seq<(ObjectId, ObjV)> {
        view_table(self.overlay@)
    }

    /// The next object number that `allocate_id` hands out.
    pub closed spec fn next_number(&self) -> u32 {
        self.next_object_number
    }

    /// The catalog's id.
    pub closed spec fn root_id(&self) -> ObjectId {
        self.root
    }

    /// The `/Info` dictionary's id, if the file has one.
    pub closed spec fn info_id(&self) -> Option<ObjectId> {
        self.info
    }

    /// The bytes of the file the document was read from.
    pub closed spec fn file_data(&self) -> Seq<u8> {
        self.data@
    }

    /// The version in the file's header.
    pub closed spec fn file_version(&self) -> PdfVersion {
        self.version
    }

    /// The file's `/ID`.
    pub closed spec fn file_id(&self) -> Option<(Seq<u8>, Seq<u8>)> {
        match self.file_id {
            Some((a, b)) => Some((a@, b@)),
            None => None,
        }
    }

    /// Where the file's last cross-reference section starts.
    pub closed spec fn file_startxref(&self) -> Option<u64> {
        self.startxref
    }

    /// The audit trail.
    pub closed spec fn audit(&self) -> Seq<EntryV> {
        view_log(self.audit_log@)
    }

    /// The id the audit trail is stored under, once it has one.
    pub closed spec fn audit_id(&self) -> Option<ObjectId> {
        self.audit_log_object_id
    }

    /// Whether a redaction has been applied.
    pub closed spec fn redacted(&self) -> bool {
        self.redaction_applied
    }

    /// The object stored under `id`: the overlay's, else the file's.
    pub open spec fn object(&self, id: ObjectId) -> Option<ObjV> {
        match table_get(self.overlay_v(), id) {
            Some(v) => Some(v),
            None => table_get(self.base_v(), id),
        }
    }

    /// The dictionary stored under `id`, if it is a dictionary or stream.
    pub open spec fn dict(&self, id: ObjectId) -> Option<Seq<(Seq<char>, ObjV)>> {
        dict_of(self.object(id))
    }

    /// The catalog is stored, every object number in use is below the
    /// next one handed out, and a number identifies the object stored
    /// under it.
    pub closed spec fn wf(&self) -> bool {
        &&& table_get(view_table(self.base@), self.root) is Some
        &&& forall|x: ObjectId, y: ObjectId|
            #[trigger] self.object(x) is Some && #[trigger] self.object(y) is Some && x.number == y.number ==> x == y
        &&& forall|i: int, j: int|
            0 <= i < j < self.overlay@.len() ==> #[trigger] self.overlay@[i].0 != #[trigger] self.overlay@[j].0
        &&& forall|i: int| 0 <= i < self.base@.len() ==> #[trigger] self.base@[i].0.number < self.next_object_number
        &&& forall|i: int|
            0 <= i < self.overlay@.len() ==> #[trigger] self.overlay@[i].0.number < self.next_object_number
    }

    /// An object stored under some id has a number below the next one,
    /// and no other stored object has that number.
    pub proof fn lemma_stored_below_next(&self, id: ObjectId)
        requires
            self.wf(),
            self.object(id) is Some,
        ensures
            id.number < self.next_number(),
            forall|x: ObjectId| self.object(x) is Some && x.number == id.number ==> x == id,
    {
        lemma_view_table(self.base@);
        lemma_view_table(self.overlay@);
        lemma_table_find(self.overlay_v(), id);
        lemma_table_find(self.base_v(), id);
        if table_get(self.overlay_v(), id) is Some {
            let i = table_find(self.overlay_v(), id);
            assert(self.overlay@[i].0 == id);
        } else {
            let i = table_find(self.base_v(), id);
            assert(self.base@[i].0 == id);
        }
    }

    /// Opens a loaded file for editing. The catalog must be a dictionary
    /// with a `/Pages` reference. Numbers for new objects start above the
    /// highest number in the file; the audit trail is read from the
    /// stream the catalog records it in, when that stream is stored
    /// without a `/Filter`.
    pub fn from_loaded(file: LoadedFile) -> (r: Result<
        EditableDocument,
        EditorError,
    >)
        requires
            forall|i: int| 0 <= i < file.objects@.len() ==> #[trigger] file.objects@[i].0.number < u32::MAX,
            forall|i: int, j: int|
                0 <= i < file.objects@.len() && 0 <= j < file.objects@.len() && #[trigger] file.objects@[i].0.number
                    == #[trigger] file.objects@[j].0.number ==> file.objects@[i].0 == file.objects@[j].0,
        ensures
            match r {
                Ok(doc) => {
                    &&& doc.wf()
                    &&& catalog_ok(view_table(file.objects@), file.root)
                    &&& doc.base_v() == view_table(file.objects@)
                    &&& doc.overlay_v().len() == 0
                    &&& doc.next_number() == max_number(view_table(file.objects@)) + 1
                    &&& doc.root_id() == file.root
                    &&& doc.info_id() == file.info
                    &&& doc.audit() == (match table_get(view_table(file.objects@), file.root) {
                        Some(ObjV::Dict(e)) => match entries_get(e, AUDIT_LOG_CATALOG_KEY@) {
                            Some(ObjV::Reference(n, g)) => match unfiltered_data(
                                view_table(file.objects@),
                                ObjectId { number: n, generation: g },
                            ) {
                                Some(d) => crate::audit::spec_parse_log(d),
                                None => Seq::empty(),
                            },
                            _ => Seq::empty(),
                        },
                        _ => Seq::empty(),
                    })
                    &&& doc.audit_id() == (match table_get(view_table(file.objects@), file.root) {
                        Some(ObjV::Dict(e)) => match entries_get(e, AUDIT_LOG_CATALOG_KEY@) {
                            Some(ObjV::Reference(n, g)) => Some(ObjectId { number: n, generation: g }),
                            _ => None,
                        },
                        _ => None,
                    })
                    &&& !doc.redacted()
                    &&& doc.file_data() == file.data@
                    &&& doc.file_version() == file.version
                    &&& doc.file_startxref() == file.startxref
                    &&& doc.file_id() == (match file.id {
                        Some((a, b)) => Some((a@, b@)),
                        None => None,
                    })
                },
                Err(e) => !catalog_ok(view_table(file.objects@), file.root) && e == EditorError::MissingCatalog,
            },
    {
        let LoadedFile { data, version, objects, root, info, id, startxref } = file;
        let catalog = match table_lookup(&objects, root) {
            Some(Object::Dictionary(d)) => d,
            _ => {
                return Err(EditorError::MissingCatalog);
            },
        };
        match catalog.get("Pages") {
            Some(Object::Reference(_)) => {},
            _ => {
                return Err(EditorError::MissingCatalog);
            },
        }
        proof {
            lemma_view_table(objects@);
            lemma_max_number(view_table(objects@));
        }
        let highest = highest_number(&objects);
        let next_object_number = highest + 1;
        let audit_log_object_id = match catalog.get(AUDIT_LOG_CATALOG_KEY) {
            Some(Object::Reference(id)) => Some(*id),
            _ => None,
        };
        let objs = &objects;
        let resolve = |id: ObjectId| -> (d: Option<Vec<u8>>)
            ensures
                d matches Some(x) ==> unfiltered_data(view_table(objs@), id) == Some(x@),
                d is None ==> unfiltered_data(view_table(objs@), id) is None,
            { unfiltered_stream_data(objs, id) };
        let audit_log = load_from_catalog(catalog, resolve);
        proof {
            match catalog.spec_get(AUDIT_LOG_CATALOG_KEY@) {
                Some(ObjV::Reference(n, g)) => {
                    let res = choose|res: Option<Vec<u8>>|
                        call_ensures(resolve, (ObjectId { number: n, generation: g },), res)
                            && #[trigger] resolved_log(res) == view_log(audit_log@);
                    assert(resolved_log(res) == view_log(audit_log@));
                },
                _ => {},
            }
        }
        let doc = EditableDocument {
            data,
            version,
            base: objects,
            overlay: Vec::new(),
            next_object_number,
            root,
            info,
            file_id: id,
            startxref,
            audit_log,
            audit_log_object_id,
            redaction_applied: false,
        };
        assert(view_table(doc.overlay@) =~= Seq::<(ObjectId, ObjV)>::empty());
        assert forall|x: ObjectId, y: ObjectId|
            #[trigger] doc.object(x) is Some && #[trigger] doc.object(y) is Some && x.number == y.number implies x == y by {
            lemma_table_find(view_table(objects@), x);
            lemma_table_find(view_table(objects@), y);
            let i = table_find(view_table(objects@), x);
            let j = table_find(view_table(objects@), y);
            assert(objects@[i].0 == x);
            assert(objects@[j].0 == y);
        }
        assert(forall|i: int| 0 <= i < doc.base@.len() ==> #[trigger] doc.base@[i].0.number <= max_number(view_table(objects@))) by {
            assert forall|i: int| 0 <= i < doc.base@.len() implies #[trigger] doc.base@[i].0.number <= max_number(view_table(objects@)) by {
                assert(view_table(objects@)[i].0 == objects@[i].0);
            }
        }
        Ok(doc)
    }

    /// The catalog's id.
    pub fn catalog_id(&self) -> (id: ObjectId)
        ensures
            id == self.root_id(),
    {
        self.root
    }

    /// The objects added or replaced, in the order first set.
    pub fn overlay_entries(&self) -> (r: &[(ObjectId, Object)])
        ensures
            view_table(r@) == self.overlay_v(),
    {
        self.overlay.as_slice()
    }

    /// The bytes of the file the document was read from.
    pub fn file_bytes(&self) -> (r: &[u8])
        ensures
            r@ == self.file_data(),
    {
        self.data.as_slice()
    }

    /// Where the file's last cross-reference section starts, if found.
    pub fn base_startxref(&self) -> (r: Option<u64>)
        ensures
            r == self.file_startxref(),
    {
        self.startxref
    }

    /// The version in the file's header.
    pub fn base_version(&self) -> (r: PdfVersion)
        ensures
            r == self.file_version(),
    {
        self.version
    }

    /// Whether a redaction has been applied.
    pub fn redaction_applied(&self) -> (r: bool)
        ensures
            r == self.redacted(),
    {
        self.redaction_applied
    }

    /// The next object number to be handed out.
    pub fn next_object_number(&self) -> (r: u32)
        ensures
            r == self.next_number(),
    {
        self.next_object_number
    }

    /// Two distinct objects added or replaced have distinct numbers.
    pub proof fn lemma_overlay_numbers_distinct(&self)
        requires
            self.wf(),
        ensures
            forall|i: int, j: int|
                0 <= i < j < self.overlay_v().len() ==> #[trigger] self.overlay_v()[i].0.number != #[trigger] self.overlay_v()[j].0.number,
    {
        lemma_view_table(self.overlay@);
        assert forall|i: int, j: int|
            0 <= i < j < self.overlay_v().len() implies #[trigger] self.overlay_v()[i].0.number != #[trigger] self.overlay_v()[j].0.number by {
            let x = self.overlay_v()[i].0;
            let y = self.overlay_v()[j].0;
            assert(x == self.overlay@[i].0);
            assert(y == self.overlay@[j].0);
            lemma_table_find(self.overlay_v(), x);
            lemma_table_find(self.overlay_v(), y);
            assert(table_find(self.overlay_v(), x) <= i);
            assert(table_find(self.overlay_v(), y) <= j);
            assert(self.object(x) is Some);
            assert(self.object(y) is Some);
        }
    }

    /// The `/Info` id of the file's trailer.
    pub fn trailer_info(&self) -> (r: Option<ObjectId>)
        ensures
            r == self.info_id(),
    {
        self.info
    }

    /// A copy of the `/ID` of the file's trailer.
    pub fn trailer_file_id(&self) -> (r: Option<(Vec<u8>, Vec<u8>)>)
        ensures
            match r {
                Some((a, b)) => self.file_id() == Some((a@, b@)),
                None => self.file_id() is None,
            },
    {
        match &self.file_id {
            Some((a, b)) => Some((crate::object::slice_to_vec_u8(a.as_slice()), crate::object::slice_to_vec_u8(b.as_slice()))),
            None => None,
        }
    }

    /// Stores the dictionary `d` under `id`, an id something is stored
    /// under.
    pub(crate) fn store_dict(&mut self, id: ObjectId, d: PdfDictionary)
        requires
            old(self).wf(),
            old(self).object(id) is Some,
        ensures
            final(self).wf(),
            final(self).same_but_overlay(old(self)),
            final(self).overlay_v() == table_set(old(self).overlay_v(), id, ObjV::Dict(d.view_entries())),
    {
        proof {
            self.lemma_stored_below_next(id);
        }
        self.set_object(id, Object::Dictionary(d));
    }

    /// Stores the dictionary `d` under a freshly allocated id.
    pub(crate) fn store_new_dict(&mut self, d: PdfDictionary) -> (id: ObjectId)
        requires
            old(self).wf(),
            old(self).next_number() < u32::MAX,
        ensures
            final(self).wf(),
            final(self).same_but_overlay_next(old(self)),
            id == (ObjectId { number: old(self).next_number(), generation: 0 }),
            final(self).next_number() == old(self).next_number() + 1,
            final(self).overlay_v() == table_set(old(self).overlay_v(), id, ObjV::Dict(d.view_entries())),
    {
        let ghost before = *self;
        let id = self.allocate_id();
        let ghost alloc = *self;
        proof {
            assert forall|x: ObjectId| alloc.object(x) is Some && x.number == id.number implies x == id by {
                assert(alloc.object(x) == before.object(x));
            }
        }
        self.set_object(id, Object::Dictionary(d));
        id
    }

    /// Stores the dictionary `d` under `id`, a number below the next one
    /// that no other stored object has.
    pub(crate) fn store_at(&mut self, id: ObjectId, d: PdfDictionary)
        requires
            old(self).wf(),
            id.number < old(self).next_number(),
            forall|x: ObjectId| old(self).object(x) is Some && x.number == id.number ==> x == id,
        ensures
            final(self).wf(),
            final(self).same_but_overlay(old(self)),
            final(self).overlay_v() == table_set(old(self).overlay_v(), id, ObjV::Dict(d.view_entries())),
    {
        self.set_object(id, Object::Dictionary(d));
    }

    /// One more than the number of entries of both object tables, capped
    /// at `usize::MAX`: a bound on the length of any chain of links that
    /// visits no object twice.
    pub(crate) fn object_slots(&self) -> (n: usize)
        ensures
            n == chain_bound(self.overlay_v(), self.base_v()),
    {
        proof {
            lemma_view_table(self.overlay@);
            lemma_view_table(self.base@);
        }
        let a = self.overlay.len();
        let b = self.base.len();
        if a < usize::MAX - b {
            a + b + 1
        } else {
            usize::MAX
        }
    }

    /// The catalog is stored.
    pub proof fn lemma_root_stored(&self)
        requires
            self.wf(),
        ensures
            self.object(self.root_id()) is Some,
    {
    }

    /// The redaction audit trail.
    pub fn audit_log(&self) -> (log: &[RedactionAuditEntry])
        ensures
            view_log(log@) == self.audit(),
    {
        self.audit_log.as_slice()
    }

    /// A copy of the object stored under `id`: the overlay's, else the
    /// file's; `None` for an id nothing is stored under (ISO 32000-1
    /// 7.3.10 treats such a reference as `null`).
    pub fn get_object(&self, id: ObjectId) -> (r: Option<Object>)
        ensures
            r matches Some(o) ==> self.object(id) == Some(o.v()),
            r is None ==> self.object(id) is None,
    {
        match table_lookup(&self.overlay, id) {
            Some(o) => Some(copy_object(o)),
            None => match table_lookup(&self.base, id) {
                Some(o) => Some(copy_object(o)),
                None => None,
            },
        }
    }

    /// A copy of the dictionary stored under `id` (a stream's
    /// dictionary for a stream).
    pub fn get_dictionary(&self, id: ObjectId) -> (r: Result<PdfDictionary, EditorError>)
        ensures
            match r {
                Ok(d) => self.dict(id) == Some(d.view_entries()),
                Err(e) => self.dict(id) is None && e == EditorError::UnresolvedObject(id.number, id.generation),
            },
    {
        let found = match table_lookup(&self.overlay, id) {
            Some(o) => Some(o),
            None => table_lookup(&self.base, id),
        };
        match found {
            Some(Object::Dictionary(d)) => Ok(copy_dictionary(d)),
            Some(Object::Stream(s)) => Ok(copy_dictionary(&s.dictionary)),
            _ => Err(EditorError::UnresolvedObject(id.number, id.generation)),
        }
    }

    /// Stores `object` under `id` in the overlay: in place if `id` is
    /// already there, else after the others.
    pub fn set_object(&mut self, id: ObjectId, object: Object)
        requires
            old(self).wf(),
            id.number < old(self).next_number(),
            forall|x: ObjectId| old(self).object(x) is Some && x.number == id.number ==> x == id,
        ensures
            final(self).wf(),
            final(self).overlay_v() == table_set(old(self).overlay_v(), id, object.v()),
            final(self).base_v() == old(self).base_v(),
            final(self).next_number() == old(self).next_number(),
            final(self).root_id() == old(self).root_id(),
            final(self).info_id() == old(self).info_id(),
            final(self).audit() == old(self).audit(),
            final(self).audit_id() == old(self).audit_id(),
            final(self).redacted() == old(self).redacted(),
    {
        proof {
            lemma_view_table(self.overlay@);
            lemma_table_find(view_table(self.overlay@), id);
        }
        let i = find_id(&self.overlay, id);
        let ghost old_t = view_table(self.overlay@);
        let ghost vv = object.v();
        let ghost next = self.next_object_number;
        proof {
            lemma_table_set_at(old_t, id, vv, i as int);
        }
        let ghost before = *self;
        let ghost raw0 = self.overlay@;
        if i < self.overlay.len() {
            self.overlay.set(i, (id, object));
            proof {
                lemma_view_table(self.overlay@);
                assert(view_table(self.overlay@) =~= old_t.update(i as int, (id, vv)));
                assert(forall|j: int| 0 <= j < self.overlay@.len() ==> #[trigger] self.overlay@[j].0.number < next);
                assert(raw0[i as int].0 == id) by {
                    lemma_view_table(raw0);
                }
                assert forall|a: int, b: int| 0 <= a < b < self.overlay@.len() implies #[trigger] self.overlay@[a].0
                    != #[trigger] self.overlay@[b].0 by {
                    assert(self.overlay@[a].0 == raw0[a].0);
                    assert(self.overlay@[b].0 == raw0[b].0);
                }
            }
        } else {
            self.overlay.push((id, object));
            proof {
                lemma_view_table(self.overlay@);
                assert(view_table(self.overlay@) =~= old_t.push((id, vv)));
                assert(forall|j: int| 0 <= j < self.overlay@.len() ==> #[trigger] self.overlay@[j].0.number < next);
                lemma_view_table(raw0);
                assert forall|a: int, b: int| 0 <= a < b < self.overlay@.len() implies #[trigger] self.overlay@[a].0
                    != #[trigger] self.overlay@[b].0 by {
                    if b == raw0.len() {
                        assert(old_t[a].0 != id);
                    } else {
                        assert(self.overlay@[a].0 == raw0[a].0);
                        assert(self.overlay@[b].0 == raw0[b].0);
                    }
                }
            }
        }
        proof {
            self.lemma_object_after_set(&before, id, vv);
            assert forall|x: ObjectId, y: ObjectId|
                #[trigger] self.object(x) is Some && #[trigger] self.object(y) is Some && x.number == y.number implies x == y by {
                if x != id && y != id {
                    assert(before.object(x) is Some && before.object(y) is Some);
                } else if x == id && y != id {
                    assert(before.object(y) is Some);
                } else if y == id && x != id {
                    assert(before.object(x) is Some);
                }
            }
        }
    }

    /// A fresh object id (generation 0): no object is stored under it,
    /// and later calls hand out higher numbers.
    pub fn allocate_id(&mut self) -> (id: ObjectId)
        requires
            old(self).wf(),
            old(self).next_number() < u32::MAX,
        ensures
            final(self).wf(),
            id.number == old(self).next_number(),
            id.generation == 0,
            final(self).next_number() == old(self).next_number() + 1,
            final(self).overlay_v() == old(self).overlay_v(),
            final(self).base_v() == old(self).base_v(),
            final(self).root_id() == old(self).root_id(),
            final(self).info_id() == old(self).info_id(),
            final(self).audit() == old(self).audit(),
            final(self).audit_id() == old(self).audit_id(),
            final(self).redacted() == old(self).redacted(),
            old(self).object(id) is None,
            forall|x: ObjectId| old(self).object(x) is Some ==> x.number < id.number,
    {
        let id = ObjectId::new(self.next_object_number);
        proof {
            if self.object(id) is Some {
                self.lemma_stored_below_next(id);
            }
            assert forall|x: ObjectId| self.object(x) is Some implies x.number < id.number by {
                self.lemma_stored_below_next(x);
            }
        }
        let ghost before = *self;
        self.next_object_number = self.next_object_number + 1;
        proof {
            assert forall|x: ObjectId, y: ObjectId|
                #[trigger] self.object(x) is Some && #[trigger] self.object(y) is Some && x.number == y.number implies x == y by {
                assert(before.object(x) == self.object(x));
                assert(before.object(y) == self.object(y));
            }
        }
        id
    }

    /// A copy of the catalog dictionary.
    pub fn catalog(&self) -> (r: Result<PdfDictionary, EditorError>)
        ensures
            match r {
                Ok(d) => self.dict(self.root_id()) == Some(d.view_entries()),
                Err(e) => self.dict(self.root_id()) is None && e == EditorError::UnresolvedObject(
                    self.root_id().number,
                    self.root_id().generation,
                ),
            },
    {
        self.get_dictionary(self.root)
    }

    /// The id of the page tree's root, the catalog's `/Pages`.
    pub fn pages_root_id(&self) -> (r: Result<ObjectId, EditorError>)
        ensures
            match r {
                Ok(id) => self.dict(self.root_id()) matches Some(e) && entries_get(e, "Pages"@) == Some(
                    ObjV::Reference(id.number, id.generation),
                ),
                Err(err) => match self.dict(self.root_id()) {
                    None => err == EditorError::UnresolvedObject(
                        self.root_id().number,
                        self.root_id().generation,
                    ),
                    Some(e) => !(entries_get(e, "Pages"@) matches Some(ObjV::Reference(_, _)))
                        && err == EditorError::MissingCatalog,
                },
            },
    {
        let catalog = self.catalog()?;
        match catalog.get("Pages") {
            Some(Object::Reference(id)) => Ok(*id),
            _ => Err(EditorError::MissingCatalog),
        }
    }
}

/// The id a reference value names.
pub open spec fn ref_id(n: u32, g: u16) -> ObjectId {
    ObjectId { number: n, generation: g }
}

/// The key a walk records a visited node under.
pub open spec fn id_key(id: ObjectId) -> u64 {
    (id.number as int * 65536 + id.generation as int) as u64
}

/// The key a walk records a visited node under.
pub(crate) fn node_key(id: ObjectId) -> (k: u64)
    ensures
        k == id_key(id),
{
    id.number as u64 * 65536 + id.generation as u64
}

impl EditableDocument {
    /// The walk of the page tree below `node` at nesting `depth`, with
    /// the keys of the nodes already visited and the leaves found so far:
    /// the keys visited and the leaves found after it, in document order.
    /// A node already visited (a cycle) is passed over; a node with a
    /// `/Kids` array is an intermediate node whose referenced kids are
    /// walked in order; any other dictionary is a leaf page.
    pub open spec fn walk(&self, node: ObjectId, depth: int, visited: Set<u64>, out: Seq<ObjectId>) -> Result<
        (Set<u64>, Seq<ObjectId>),
        EditorError,
    >
        decreases 65 - depth, 1int, 0int,
    {
        if depth > 64 {
            Err(EditorError::PageTreeTooLarge(PageTreeLimit::Depth))
        } else if out.len() + visited.len() > 500000 {
            Err(EditorError::PageTreeTooLarge(PageTreeLimit::NodeCount))
        } else if visited.contains(id_key(node)) {
            Ok((visited, out))
        } else {
            let v2 = visited.insert(id_key(node));
            match self.dict(node) {
                None => Err(EditorError::MalformedPageTree(node)),
                Some(d) => match entries_get(d, "Kids"@) {
                    Some(ObjV::Array(kids)) => self.walk_kids(kids, 0, depth, v2, out),
                    _ => Ok((v2, out.push(node))),
                },
            }
        }
    }

    /// The walk of the kids of a node at nesting `depth`, from the
    /// `i`-th on.
    pub open spec fn walk_kids(&self, kids: Seq<ObjV>, i: int, depth: int, visited: Set<u64>, out: Seq<ObjectId>) -> Result<
        (Set<u64>, Seq<ObjectId>),
        EditorError,
    >
        decreases 65 - depth, 0int, kids.len() - i,
    {
        if depth > 64 || i < 0 || i >= kids.len() {
            Ok((visited, out))
        } else {
            let r = match kids[i] {
                ObjV::Reference(n, g) => self.walk(ref_id(n, g), depth + 1, visited, out),
                _ => Ok((visited, out)),
            };
            match r {
                Ok((v, o)) => self.walk_kids(kids, i + 1, depth, v, o),
                Err(e) => Err(e),
            }
        }
    }

    /// The page tree's root: the catalog's `/Pages` reference.
    pub open spec fn spec_pages_root(&self) -> Result<ObjectId, EditorError> {
        match self.dict(self.root_id()) {
            None => Err(EditorError::UnresolvedObject(self.root_id().number, self.root_id().generation)),
            Some(e) => match entries_get(e, "Pages"@) {
                Some(ObjV::Reference(n, g)) => Ok(ref_id(n, g)),
                _ => Err(EditorError::MissingCatalog),
            },
        }
    }

    /// The ids of the leaf pages, in document order.
    pub open spec fn spec_page_ids(&self) -> Result<Seq<ObjectId>, EditorError> {
        match self.spec_pages_root() {
            Err(e) => Err(e),
            Ok(root) => match self.walk(root, 0, Set::empty(), Seq::empty()) {
                Ok((_, o)) => Ok(o),
                Err(e) => Err(e),
            },
        }
    }

    /// Walks the page tree below `node_id` (ISO 32000-1 7.7.3), adding
    /// the leaf pages to `out` in document order. A node is an
    /// intermediate node if it has a `/Kids` array, whatever its
    /// `/Type`, and a leaf page otherwise; cycles are passed over, and the
    /// walk refuses trees deeper than `MAX_PAGE_TREE_DEPTH` or larger than
    /// `MAX_PAGE_TREE_NODES`.
    fn walk_page_tree(&self, node_id: ObjectId, depth: u32, visited: &mut HashSet<u64>, out: &mut Vec<ObjectId>) -> (r:
        Result<(), EditorError>)
        ensures
            match self.walk(node_id, depth as int, old(visited)@, old(out)@) {
                Ok((v, o)) => r is Ok && final(visited)@ == v && final(out)@ == o,
                Err(e) => r == Err::<(), EditorError>(e),
            },
        decreases 65 - depth, 1int, 0int,
    {
        if depth > MAX_PAGE_TREE_DEPTH {
            return Err(EditorError::PageTreeTooLarge(PageTreeLimit::Depth));
        }
        if out.len() > MAX_PAGE_TREE_NODES || visited.len() > MAX_PAGE_TREE_NODES - out.len() {
            return Err(EditorError::PageTreeTooLarge(PageTreeLimit::NodeCount));
        }
        let key = node_key(node_id);
        if !visited.insert(key) {
            return Ok(());
        }
        let dict = match self.get_dictionary(node_id) {
            Ok(d) => d,
            Err(_) => {
                return Err(EditorError::MalformedPageTree(node_id));
            },
        };
        match dict.get("Kids") {
            Some(Object::Array(kids)) => {
                let ghost items = kids.view_items();
                let ghost target = self.walk_kids(items, 0, depth as int, visited@, out@);
                let mut i: usize = 0;
                proof {
                    lemma_view_objs(kids.items@);
                    assert(self.walk(node_id, depth as int, old(visited)@, old(out)@) == target);
                }
                while i < kids.items.len()
                    invariant
                        i <= kids.items@.len(),
                        items == kids.view_items(),
                        items.len() == kids.items@.len(),
                        forall|j: int| 0 <= j < kids.items@.len() ==> #[trigger] items[j] == kids.items@[j].v(),
                        depth <= 64,
                        self.walk_kids(items, i as int, depth as int, visited@, out@) == target,
                        self.walk(node_id, depth as int, old(visited)@, old(out)@) == target,
                    decreases kids.items@.len() - i,
                {
                    match &kids.items[i] {
                        Object::Reference(kid_id) => {
                            assert(items[i as int] == ObjV::Reference(kid_id.number, kid_id.generation));
                            assert(ref_id(kid_id.number, kid_id.generation) == *kid_id);
                            let res = self.walk_page_tree(*kid_id, depth + 1, visited, out);
                            if res.is_err() {
                                return res;
                            }
                        },
                        other => {
                            assert(!(items[i as int] is Reference));
                        },
                    }
                    i = i + 1;
                }
                Ok(())
            },
            _ => {
                out.push(node_id);
                Ok(())
            },
        }
    }

    /// The ids of every leaf page, in document order (see
    /// `walk_page_tree`).
    pub fn page_ids(&self) -> (r: Result<Vec<ObjectId>, EditorError>)
        ensures
            match r {
                Ok(v) => self.spec_page_ids() == Ok::<Seq<ObjectId>, EditorError>(v@),
                Err(e) => self.spec_page_ids() == Err::<Seq<ObjectId>, EditorError>(e),
            },
    {
        let root = self.pages_root_id()?;
        let mut out: Vec<ObjectId> = Vec::new();
        let mut visited: HashSet<u64> = HashSet::new();
        proof {
            assert(ref_id(root.number, root.generation) == root);
        }
        self.walk_page_tree(root, 0, &mut visited, &mut out)?;
        Ok(out)
    }

    /// The number of leaf pages.
    pub fn page_count(&self) -> (r: Result<usize, EditorError>)
        ensures
            match r {
                Ok(n) => self.spec_page_ids() matches Ok(ids) && ids.len() == n,
                Err(e) => self.spec_page_ids() == Err::<Seq<ObjectId>, EditorError>(e),
            },
    {
        Ok(self.page_ids()?.len())
    }

    /// The id of the page at `index` (0-based, document order).
    pub fn page_id_at(&self, index: usize) -> (r: Result<ObjectId, EditorError>)
        ensures
            match self.spec_page_ids() {
                Ok(ids) => if index < ids.len() {
                    r == Ok::<ObjectId, EditorError>(ids[index as int])
                } else {
                    r == Err::<ObjectId, EditorError>(EditorError::InvalidPageIndex { index, count: ids.len() as usize })
                },
                Err(e) => r == Err::<ObjectId, EditorError>(e),
            },
    {
        let ids = self.page_ids()?;
        if index < ids.len() {
            Ok(ids[index])
        } else {
            Err(EditorError::InvalidPageIndex { index, count: ids.len() })
        }
    }
}

/// The `/Annots` array of a page dictionary, empty when it has none.
pub open spec fn annots_of(d: Seq<(Seq<char>, ObjV)>) -> Seq<ObjV> {
    match entries_get(d, "Annots"@) {
        Some(ObjV::Array(a)) => a,
        _ => Seq::empty(),
    }
}

impl EditableDocument {
    /// Whether `self` and `other` differ in their overlay alone.
    pub open spec fn same_but_overlay(&self, other: &EditableDocument) -> bool {
        &&& self.base_v() == other.base_v()
        &&& self.next_number() == other.next_number()
        &&& self.root_id() == other.root_id()
        &&& self.info_id() == other.info_id()
        &&& self.audit() == other.audit()
        &&& self.audit_id() == other.audit_id()
        &&& self.redacted() == other.redacted()
    }

    /// Whether `self` and `other` differ in their overlay and next object
    /// number alone.
    pub open spec fn same_but_overlay_next(&self, other: &EditableDocument) -> bool {
        &&& self.base_v() == other.base_v()
        &&& self.root_id() == other.root_id()
        &&& self.info_id() == other.info_id()
        &&& self.audit() == other.audit()
        &&& self.audit_id() == other.audit_id()
        &&& self.redacted() == other.redacted()
    }

    /// Appends a reference to `annot_id` to the `/Annots` array of the
    /// page `page_id` (ISO 32000-1 Table 30), creating the array when the
    /// page has none.
    pub fn add_annot_to_page(&mut self, page_id: ObjectId, annot_id: ObjectId) -> (r: Result<(), EditorError>)
        requires
            old(self).wf(),
        ensures
            final(self).wf(),
            final(self).same_but_overlay(old(self)),
            match old(self).dict(page_id) {
                None => r == Err::<(), EditorError>(EditorError::UnresolvedObject(page_id.number, page_id.generation))
                    && final(self).overlay_v() == old(self).overlay_v(),
                Some(d) => r is Ok && final(self).overlay_v() == table_set(
                    old(self).overlay_v(),
                    page_id,
                    ObjV::Dict(
                        crate::object::entries_set(
                            d,
                            "Annots"@,
                            ObjV::Array(annots_of(d).push(ObjV::Reference(annot_id.number, annot_id.generation))),
                        ),
                    ),
                ),
            },
    {
        let mut page = self.get_dictionary(page_id)?;
        let mut annots = match page.get("Annots") {
            Some(Object::Array(a)) => crate::object::copy_array(a),
            _ => PdfArray::new(),
        };
        proof {
            assert(annots.view_items() == annots_of(page.view_entries())) by {
                if !(entries_get(page.view_entries(), "Annots"@) matches Some(ObjV::Array(_))) {
                    assert(annots.view_items() =~= Seq::<ObjV>::empty());
                }
            }
            self.lemma_stored_below_next(page_id);
        }
        let ghost d0 = page.view_entries();
        let ghost a0 = annots.view_items();
        let ghost i0 = annots.items@;
        annots.push(Object::Reference(annot_id));
        assert(annots.items@.drop_last() =~= i0);
        assert(annots.items@.last() == Object::Reference(annot_id));
        assert(view_objs(i0) == a0);
        assert(view_objs(annots.items@) == view_objs(annots.items@.drop_last()).push(annots.items@.last().v()));
        assert(annots.view_items() == a0.push(ObjV::Reference(annot_id.number, annot_id.generation)));
        let ghost av = Object::Array(annots).v();
        assert(av == ObjV::Array(annots.view_items()));
        page.set("Annots", Object::Array(annots));
        assert(page.view_entries() == crate::object::entries_set(d0, "Annots"@, av));
        self.set_object(page_id, Object::Dictionary(page));
        Ok(())
    }

    /// The `/Title` of the `/Info` dictionary, decoded as a text string
    /// (ISO 32000-1 7.9.2.2), when the document has one.
    pub fn classic_info_title(&self) -> (r: Option<String>)
        ensures
            match self.info_id() {
                Some(id) => match self.dict(id) {
                    Some(d) => match entries_get(d, "Title"@) {
                        Some(ObjV::Str(h, b)) => r matches Some(t) && t@ == crate::util::text_of_bytes(b),
                        _ => r is None,
                    },
                    None => r is None,
                },
                None => r is None,
            },
    {
        let id = match self.info {
            Some(id) => id,
            None => {
                return None;
            },
        };
        let info_dict = match self.get_dictionary(id) {
            Ok(d) => d,
            Err(_) => {
                return None;
            },
        };
        match info_dict.get("Title") {
            Some(Object::String(s)) => Some(crate::util::from_pdf_text_string(s)),
            _ => None,
        }
    }

    /// The page's own `/Resources` dictionary, following one reference;
    /// an empty dictionary when the page has none. Resources inherited
    /// from an ancestor node are not looked up.
    pub fn page_resources(&self, page_id: ObjectId) -> (r: Result<PdfDictionary, EditorError>)
        ensures
            match self.dict(page_id) {
                None => r == Err::<PdfDictionary, EditorError>(EditorError::UnresolvedObject(page_id.number, page_id.generation)),
                Some(d) => match entries_get(d, "Resources"@) {
                    Some(ObjV::Dict(e)) => r matches Ok(x) && x.view_entries() == e,
                    Some(ObjV::Reference(n, g)) => match self.dict(ref_id(n, g)) {
                        Some(e) => r matches Ok(x) && x.view_entries() == e,
                        None => r == Err::<PdfDictionary, EditorError>(EditorError::UnresolvedObject(n, g)),
                    },
                    _ => r matches Ok(x) && x.view_entries().len() == 0,
                },
            },
    {
        let page = self.get_dictionary(page_id)?;
        match page.get("Resources") {
            Some(Object::Dictionary(d)) => Ok(copy_dictionary(d)),
            Some(Object::Reference(id)) => {
                assert(ref_id(id.number, id.generation) == *id);
                self.get_dictionary(*id)
            },
            _ => {
                let d = PdfDictionary::new();
                assert(d.view_entries() =~= Seq::<(Seq<char>, ObjV)>::empty());
                Ok(d)
            },
        }
    }
}

impl EditableDocument {
    /// A walk that succeeds keeps the leaves it started with, adds only
    /// dictionaries, and, when `node` was not yet visited, found `node`
    /// to be a dictionary.
    pub proof fn lemma_walk_leaves(&self, node: ObjectId, depth: int, visited: Set<u64>, out: Seq<ObjectId>)
        ensures
            self.walk(node, depth, visited, out) matches Ok((v, o)) ==> {
                &&& out.len() <= o.len()
                &&& o.subrange(0, out.len() as int) == out
                &&& forall|k: int| out.len() <= k < o.len() ==> #[trigger] self.dict(o[k]) is Some
                &&& (!visited.contains(id_key(node)) ==> self.dict(node) is Some)
            },
        decreases 65 - depth, 1int, 0int,
    {
        if depth <= 64 && out.len() + visited.len() <= 500000 && !visited.contains(id_key(node)) {
            let v2 = visited.insert(id_key(node));
            match self.dict(node) {
                None => {},
                Some(d) => match entries_get(d, "Kids"@) {
                    Some(ObjV::Array(kids)) => {
                        self.lemma_walk_kids_leaves(kids, 0, depth, v2, out);
                    },
                    _ => {
                        assert(out.push(node).subrange(0, out.len() as int) =~= out);
                    },
                },
            }
        } else if depth <= 64 && out.len() + visited.len() <= 500000 {
            assert(out.subrange(0, out.len() as int) =~= out);
        }
    }

    /// The kids' walk keeps the leaves it started with and adds only
    /// dictionaries.
    pub proof fn lemma_walk_kids_leaves(&self, kids: Seq<ObjV>, i: int, depth: int, visited: Set<u64>, out: Seq<ObjectId>)
        ensures
            self.walk_kids(kids, i, depth, visited, out) matches Ok((v, o)) ==> {
                &&& out.len() <= o.len()
                &&& o.subrange(0, out.len() as int) == out
                &&& forall|k: int| out.len() <= k < o.len() ==> #[trigger] self.dict(o[k]) is Some
            },
        decreases 65 - depth, 0int, kids.len() - i,
    {
        if depth > 64 || i < 0 || i >= kids.len() {
            assert(out.subrange(0, out.len() as int) =~= out);
        } else {
            let r = match kids[i] {
                ObjV::Reference(n, g) => self.walk(ref_id(n, g), depth + 1, visited, out),
                _ => Ok((visited, out)),
            };
            match kids[i] {
                ObjV::Reference(n, g) => {
                    self.lemma_walk_leaves(ref_id(n, g), depth + 1, visited, out);
                },
                _ => {
                    assert(out.subrange(0, out.len() as int) =~= out);
                },
            }
            match r {
                Ok((v, o)) => {
                    self.lemma_walk_kids_leaves(kids, i + 1, depth, v, o);
                    match self.walk_kids(kids, i + 1, depth, v, o) {
                        Ok((v2, o2)) => {
                            assert(o2.subrange(0, out.len() as int) =~= o2.subrange(0, o.len() as int).subrange(0, out.len() as int));
                            assert forall|k: int| out.len() <= k < o2.len() implies #[trigger] self.dict(o2[k]) is Some by {
                                if k < o.len() {
                                    assert(o2[k] == o2.subrange(0, o.len() as int)[k]);
                                }
                            }
                        },
                        Err(_) => {},
                    }
                },
                Err(_) => {},
            }
        }
    }

    /// A successful page-tree walk found the tree's root and every leaf
    /// to be dictionaries.
    pub proof fn lemma_page_ids_dicts(&self)
        ensures
            self.spec_page_ids() matches Ok(ids) ==> {
                &&& self.spec_pages_root() matches Ok(root) && self.dict(root) is Some
                &&& forall|k: int| 0 <= k < ids.len() ==> #[trigger] self.dict(ids[k]) is Some
            },
    {
        match self.spec_pages_root() {
            Ok(root) => {
                self.lemma_walk_leaves(root, 0, Set::empty(), Seq::empty());
            },
            Err(_) => {},
        }
    }
}

impl EditableDocument {
    /// After an object is set, that id holds it and every other id holds
    /// what it held.
    pub proof fn lemma_object_after_set(&self, before: &EditableDocument, id: ObjectId, v: ObjV)
        requires
            self.overlay_v() == table_set(before.overlay_v(), id, v),
            self.base_v() == before.base_v(),
        ensures
            forall|x: ObjectId| #[trigger] self.object(x) == (if x == id { Some(v) } else { before.object(x) }),
    {
        assert forall|x: ObjectId| #[trigger] self.object(x) == (if x == id { Some(v) } else { before.object(x) }) by {
            lemma_table_get_set(before.overlay_v(), id, v, x);
        }
    }
}

/// The state of a breadth-first walk of the object graph: the ids still
/// to visit, the keys of every id ever queued, and the ids of the objects
/// visited, in order.
pub struct GraphWalk {
    /// The ids still to visit, in order.
    pub queue: Seq<ObjectId>,
    /// The keys of every id ever queued.
    pub queued: Set<u64>,
    /// The ids of the objects visited, in order.
    pub order: Seq<ObjectId>,
}

/// Queues, in order, each referenced id not queued before.
pub open spec fn enqueue(refs: Seq<(u32, u16)>, queue: Seq<ObjectId>, queued: Set<u64>) -> (Seq<ObjectId>, Set<u64>)
    decreases refs.len(),
{
    if refs.len() == 0 {
        (queue, queued)
    } else {
        let (q, s) = enqueue(refs.drop_last(), queue, queued);
        let id = ref_id(refs.last().0, refs.last().1);
        if s.contains(id_key(id)) {
            (q, s)
        } else {
            (q.push(id), s.insert(id_key(id)))
        }
    }
}

/// The walk from `roots` before its first step.
pub open spec fn walk_start(roots: Seq<ObjectId>) -> GraphWalk {
    let (q, s) = enqueue(id_pairs(roots), Seq::empty(), Set::empty());
    GraphWalk { queue: q, queued: s, order: Seq::empty() }
}

/// Whether a walk of `doc` from `roots` finishes, having visited `order`
/// (see `walk_step`).
pub open spec fn walk_result(doc: &EditableDocument, roots: Seq<ObjectId>, skip: bool, limit: nat, order: Seq<ObjectId>) -> bool {
    exists|n: nat|
        #[trigger] doc.walk_run(walk_start(roots), n, skip, limit) matches Ok(st) && st.queue.len() == 0 && st.order
            == order
}

/// Whether a walk of `doc` from `roots` runs into its limit.
pub open spec fn walk_fails(doc: &EditableDocument, roots: Seq<ObjectId>, skip: bool, limit: nat) -> bool {
    exists|n: nat| #[trigger] doc.walk_run(walk_start(roots), n, skip, limit) is Err
}

impl EditableDocument {
    /// One step of the walk: the first id is taken off the queue; an id
    /// with no object is passed over; otherwise the ids its object
    /// references are queued (with `skip`, not those under `/Parent` and
    /// `/P`) and it is visited. The walk refuses to visit more than `limit`
    /// objects.
    pub open spec fn walk_step(&self, st: GraphWalk, skip: bool, limit: nat) -> Result<GraphWalk, EditorError> {
        if st.queue.len() == 0 {
            Ok(st)
        } else if st.order.len() >= limit {
            Err(EditorError::ResourceLimitExceeded)
        } else {
            let id = st.queue[0];
            let rest = st.queue.drop_first();
            match self.object(id) {
                None => Ok(GraphWalk { queue: rest, queued: st.queued, order: st.order }),
                Some(v) => {
                    let (q, s) = enqueue(refs_of(v, skip), rest, st.queued);
                    Ok(GraphWalk { queue: q, queued: s, order: st.order.push(id) })
                },
            }
        }
    }

    /// The walk after `n` steps.
    pub open spec fn walk_run(&self, st: GraphWalk, n: nat, skip: bool, limit: nat) -> Result<GraphWalk, EditorError>
        decreases n,
    {
        if n == 0 {
            Ok(st)
        } else {
            match self.walk_run(st, (n - 1) as nat, skip, limit) {
                Ok(s) => self.walk_step(s, skip, limit),
                Err(e) => Err(e),
            }
        }
    }

    /// Visits, breadth first, every object reachable from `roots` through
    /// references (in arrays, dictionaries and stream dictionaries, at
    /// any depth), and returns their ids in visiting order with copies of
    /// the objects. An id with no object is passed over. Refuses graphs of
    /// more than `MAX_REACHABLE_OBJECTS` objects.
    #[verifier::spinoff_prover]
    pub fn reachable_objects(&self, roots: &[ObjectId]) -> (r: Result<(Vec<ObjectId>, Vec<(ObjectId, Object)>), EditorError>)
        ensures
            match r {
                Ok((order, objs)) => {
                    &&& walk_result(self, roots@, false, 5000000, order@)
                    &&& order@.len() <= MAX_REACHABLE_OBJECTS
                    &&& objs@.len() == order@.len()
                    &&& forall|i: int| 0 <= i < order@.len() ==> #[trigger] objs@[i].0 == order@[i] && self.object(order@[i])
                        == Some(objs@[i].1.v())
                },
                Err(e) => e == EditorError::ResourceLimitExceeded && walk_fails(self, roots@, false, 5000000),
            },
    {
        let r = self.graph_walk(roots, false, MAX_REACHABLE_OBJECTS);
        proof {
            assert(MAX_REACHABLE_OBJECTS as nat == 5000000nat);
            if r is Ok {
                let order = r->Ok_0.0;
                let objs = r->Ok_0.1;
                assert(walk_result(self, roots@, false, MAX_REACHABLE_OBJECTS as nat, order@));
                assert(walk_result(self, roots@, false, 5000000, order@));
                assert(order@.len() <= MAX_REACHABLE_OBJECTS);
                assert(objs@.len() == order@.len());
            } else {
                assert(walk_fails(self, roots@, false, MAX_REACHABLE_OBJECTS as nat));
            }
        }
        r
    }

    /// The breadth-first walk from `roots` (see `walk_step`), with its
    /// objects.
    #[verifier::spinoff_prover]
    #[verifier::rlimit(40)]
    pub fn graph_walk(&self, roots: &[ObjectId], skip: bool, limit: usize) -> (r: Result<(Vec<ObjectId>, Vec<(ObjectId, Object)>), EditorError>)
        ensures
            match r {
                Ok((order, objs)) => {
                    &&& walk_result(self, roots@, skip, limit as nat, order@)
                    &&& order@.len() <= limit
                    &&& objs@.len() == order@.len()
                    &&& forall|i: int| 0 <= i < order@.len() ==> #[trigger] objs@[i].0 == order@[i] && self.object(order@[i])
                        == Some(objs@[i].1.v())
                },
                Err(e) => e == EditorError::ResourceLimitExceeded && walk_fails(self, roots@, skip, limit as nat),
            },
    {
        let mut order: Vec<ObjectId> = Vec::new();
        let mut objects: Vec<(ObjectId, Object)> = Vec::new();
        let mut queued: HashSet<u64> = HashSet::new();
        let mut queue: Vec<ObjectId> = Vec::new();
        let ghost universe = Set::new(|k: u64| k < 0x1_0000_0000_0000u64);
        proof {
            vstd::set_lib::range_set_properties::<u64>(0, 0x1_0000_0000_0000);
            assert(universe =~= <u64 as vstd::set_lib::FiniteRange>::range_set(0, 0x1_0000_0000_0000));
        }
        let mut j: usize = 0;
        while j < roots.len()
            invariant
                j <= roots@.len(),
                (queue@, queued@) == enqueue(id_pairs(roots@).take(j as int), Seq::empty(), Set::empty()),
                queued@.subset_of(universe),
                queued@.finite(),
                universe.finite(),
                universe.len() == 0x1_0000_0000_0000,
                universe == Set::new(|k: u64| k < 0x1_0000_0000_0000u64),
            decreases roots@.len() - j,
        {
            let r = roots[j];
            proof {
                let t = id_pairs(roots@).take(j + 1);
                assert(t.drop_last() =~= id_pairs(roots@).take(j as int));
                assert(t.last() == (r.number, r.generation));
                assert(ref_id(r.number, r.generation) == r);
            }
            let key = node_key(r);
            proof {
                assert(key < 0x1_0000_0000_0000u64);
                assert(universe.contains(key));
            }
            if queued.insert(key) {
                queue.push(r);
            }
            j = j + 1;
        }
        proof {
            assert(id_pairs(roots@).take(roots@.len() as int) =~= id_pairs(roots@));
        }
        let ghost start = walk_start(roots@);
        let ghost mut steps: nat = 0;
        let mut head: usize = 0;
        assert(queue@.skip(0) =~= queue@);
        while head < queue.len()
            invariant
                head <= queue@.len(),
                self.walk_run(start, steps, skip, limit as nat) == Ok::<GraphWalk, EditorError>(
                    GraphWalk { queue: queue@.skip(head as int), queued: queued@, order: order@ },
                ),
                objects@.len() == order@.len(),
                order@.len() <= limit,
                forall|i: int| 0 <= i < order@.len() ==> #[trigger] objects@[i].0 == order@[i] && self.object(order@[i])
                    == Some(objects@[i].1.v()),
                queued@.subset_of(universe),
                queued@.finite(),
                universe.finite(),
                universe.len() == 0x1_0000_0000_0000,
                universe == Set::new(|k: u64| k < 0x1_0000_0000_0000u64),
                start == walk_start(roots@),
            decreases universe.len() - queued@.len(), queue@.len() - head,
        {
            proof {
                vstd::set_lib::lemma_len_subset(queued@, universe);
            }
            let id = queue[head];
            let ghost cur = GraphWalk { queue: queue@.skip(head as int), queued: queued@, order: order@ };
            let ghost qlen = queued@.len();
            head = head + 1;
            if order.len() >= limit {
                proof {
                    assert(cur.queue.len() > 0);
                    assert(self.walk_step(cur, skip, limit as nat) is Err);
                    assert(self.walk_run(start, (steps + 1) as nat, skip, limit as nat) is Err);
                    assert(self.walk_run(walk_start(roots@), (steps + 1) as nat, skip, limit as nat) is Err);
                }
                return Err(EditorError::ResourceLimitExceeded);
            }
            proof {
                assert(cur.queue[0] == id);
                assert(cur.queue.drop_first() =~= queue@.skip(head as int));
            }
            match self.get_object(id) {
                None => {
                    proof {
                        assert(self.walk_step(cur, skip, limit as nat) == Ok::<GraphWalk, EditorError>(
                            GraphWalk { queue: queue@.skip(head as int), queued: queued@, order: order@ },
                        ));
                        steps = steps + 1;
                    }
                },
                Some(obj) => {
                    let mut refs: Vec<ObjectId> = Vec::new();
                    if skip {
                        collect_refs(&obj, &mut refs);
                    } else {
                        collect_all_refs(&obj, &mut refs);
                    }
                    proof {
                        assert(id_pairs(Seq::<ObjectId>::empty()) =~= Seq::<(u32, u16)>::empty());
                        assert(id_pairs(refs@) =~= refs_of(obj.v(), skip));
                    }
                    let ghost rest0 = queue@.skip(head as int);
                    let ghost set0 = queued@;
                    let ghost qlen0 = queue@.len();
                    let mut k: usize = 0;
                    assert(enqueue(id_pairs(refs@).take(0), rest0, set0) == (rest0, set0));
                    while k < refs.len()
                        invariant
                            k <= refs@.len(),
                            head <= queue@.len(),
                            (queue@.skip(head as int), queued@) == enqueue(id_pairs(refs@).take(k as int), rest0, set0),
                            queued@.subset_of(universe),
                            set0.subset_of(queued@),
                            queued@.finite(),
                            set0.finite(),
                            queue@.len() - qlen0 == queued@.len() - set0.len(),
                            universe.finite(),
                            universe == Set::new(|k: u64| k < 0x1_0000_0000_0000u64),
                        decreases refs@.len() - k,
                    {
                        let r = refs[k];
                        proof {
                            let t = id_pairs(refs@).take(k + 1);
                            assert(t.drop_last() =~= id_pairs(refs@).take(k as int));
                            assert(t.last() == (r.number, r.generation));
                            assert(ref_id(r.number, r.generation) == r);
                        }
                        let key = node_key(r);
                        proof {
                            assert(key < 0x1_0000_0000_0000u64);
                            assert(universe.contains(key));
                        }
                        let ghost before_q = queue@;
                        if queued.insert(key) {
                            queue.push(r);
                            proof {
                                assert(queue@.skip(head as int) =~= before_q.skip(head as int).push(r));
                            }
                        }
                        k = k + 1;
                    }
                    proof {
                        assert(id_pairs(refs@).take(refs@.len() as int) =~= id_pairs(refs@));
                        assert(self.walk_step(cur, skip, limit as nat) == Ok::<GraphWalk, EditorError>(
                            GraphWalk { queue: queue@.skip(head as int), queued: queued@, order: order@.push(id) },
                        ));
                        steps = steps + 1;
                        vstd::set_lib::lemma_len_subset(queued@, universe);
                        vstd::set_lib::lemma_len_subset(set0, queued@);
                    }
                    let ghost ov = obj.v();
                    order.push(id);
                    objects.push((id, obj));
                    proof {
                        assert(objects@[objects@.len() - 1].1.v() == ov);
                    }
                },
            }
        }
        proof {
            assert(queue@.skip(head as int).len() == 0);
            assert(self.walk_run(walk_start(roots@), steps, skip, limit as nat) matches Ok(st) && st.queue.len() == 0 && st.order == order@);
            assert(walk_result(self, roots@, skip, limit as nat, order@));
        }
        Ok((order, objects))
    }
}

/// Distinct ids have distinct keys.
pub proof fn lemma_key_injective(a: ObjectId, b: ObjectId)
    requires
        id_key(a) == id_key(b),
    ensures
        a == b,
{
    let ka = a.number as int * 65536 + a.generation as int;
    let kb = b.number as int * 65536 + b.generation as int;
    assert(0 <= ka < 0x1_0000_0000_0000);
    assert(0 <= kb < 0x1_0000_0000_0000);
    assert(ka == kb);
    if a.number < b.number {
        assert(ka < kb);
    } else if a.number > b.number {
        assert(ka > kb);
    }
}

/// Queuing references extends the queue and the keys queued, queues
/// each of the references, and queues nothing whose key was not queued
/// before unless it is now in the queue.
pub proof fn lemma_enqueue(refs: Seq<(u32, u16)>, q: Seq<ObjectId>, s: Set<u64>)
    ensures
        ({
            let (q2, s2) = enqueue(refs, q, s);
            &&& q.len() <= q2.len()
            &&& q2.subrange(0, q.len() as int) == q
            &&& s.subset_of(s2)
            &&& forall|id: ObjectId| s2.contains(#[trigger] id_key(id)) ==> s.contains(id_key(id)) || q2.contains(id)
            &&& forall|j: int| 0 <= j < refs.len() ==> s2.contains(#[trigger] id_key(ref_id(refs[j].0, refs[j].1)))
        }),
    decreases refs.len(),
{
    if refs.len() > 0 {
        let d = refs.drop_last();
        lemma_enqueue(d, q, s);
        let (q1, s1) = enqueue(d, q, s);
        let id = ref_id(refs.last().0, refs.last().1);
        let (q2, s2) = enqueue(refs, q, s);
        if !s1.contains(id_key(id)) {
            assert(q2 == q1.push(id));
            assert(q2.subrange(0, q.len() as int) =~= q1.subrange(0, q.len() as int));
            assert forall|x: ObjectId| s2.contains(#[trigger] id_key(x)) implies s.contains(id_key(x)) || q2.contains(x) by {
                if x == id {
                    assert(q2[q2.len() - 1] == x);
                } else if s1.contains(id_key(x)) {
                    if !s.contains(id_key(x)) {
                        let w = choose|w: int| 0 <= w < q1.len() && q1[w] == x;
                        assert(q2[w] == x);
                    }
                } else {
                    assert(id_key(x) == id_key(id));
                    lemma_key_injective(x, id);
                }
            }
        }
        assert forall|j: int| 0 <= j < refs.len() implies s2.contains(#[trigger] id_key(ref_id(refs[j].0, refs[j].1))) by {
            if j < d.len() {
                assert(refs[j] == d[j]);
            }
        }
    } else {
        assert(q.subrange(0, q.len() as int) =~= q);
    }
}

/// Every stored object whose id was ever queued is still in the queue or
/// already visited.
pub open spec fn walk_covers(doc: &EditableDocument, st: GraphWalk) -> bool {
    forall|id: ObjectId|
        st.queued.contains(#[trigger] id_key(id)) && doc.object(id) is Some ==> st.queue.contains(id) || st.order.contains(id)
}

impl EditableDocument {
    /// A step keeps `walk_covers`, the keys queued, and the ids visited.
    pub proof fn lemma_walk_step(&self, st: GraphWalk, skip: bool, limit: nat)
        requires
            walk_covers(self, st),
        ensures
            self.walk_step(st, skip, limit) matches Ok(st2) ==> {
                &&& walk_covers(self, st2)
                &&& st.queued.subset_of(st2.queued)
                &&& st.order.len() <= st2.order.len()
                &&& st2.order.subrange(0, st.order.len() as int) == st.order
            },
    {
        if st.queue.len() == 0 {
            assert(st.order.subrange(0, st.order.len() as int) =~= st.order);
        } else if st.order.len() < limit {
            let id0 = st.queue[0];
            let rest = st.queue.drop_first();
            match self.object(id0) {
                None => {
                    assert(st.order.subrange(0, st.order.len() as int) =~= st.order);
                    assert forall|id: ObjectId|
                        st.queued.contains(#[trigger] id_key(id)) && self.object(id) is Some implies rest.contains(id)
                            || st.order.contains(id) by {
                        if st.queue.contains(id) {
                            let w = choose|w: int| 0 <= w < st.queue.len() && st.queue[w] == id;
                            assert(w != 0);
                            assert(rest[w - 1] == id);
                        }
                    }
                },
                Some(v) => {
                    let refs = refs_of(v, skip);
                    lemma_enqueue(refs, rest, st.queued);
                    let (q2, s2) = enqueue(refs, rest, st.queued);
                    let order2 = st.order.push(id0);
                    assert(order2.subrange(0, st.order.len() as int) =~= st.order);
                    assert forall|id: ObjectId|
                        s2.contains(#[trigger] id_key(id)) && self.object(id) is Some implies q2.contains(id)
                            || order2.contains(id) by {
                        if st.queued.contains(id_key(id)) {
                            if st.queue.contains(id) {
                                let w = choose|w: int| 0 <= w < st.queue.len() && st.queue[w] == id;
                                if w == 0 {
                                    assert(order2[st.order.len() as int] == id);
                                } else {
                                    assert(rest[w - 1] == id);
                                    assert(q2.subrange(0, rest.len() as int)[w - 1] == id);
                                }
                            } else {
                                let w = choose|w: int| 0 <= w < st.order.len() && st.order[w] == id;
                                assert(order2[w] == id);
                            }
                        }
                    }
                },
            }
        }
    }

    /// Every run keeps `walk_covers`, the keys queued, and the ids
    /// visited.
    pub proof fn lemma_walk_run(&self, start: GraphWalk, n: nat, skip: bool, limit: nat)
        requires
            walk_covers(self, start),
        ensures
            self.walk_run(start, n, skip, limit) matches Ok(st) ==> {
                &&& walk_covers(self, st)
                &&& start.queued.subset_of(st.queued)
                &&& start.order.len() <= st.order.len()
                &&& st.order.subrange(0, start.order.len() as int) == start.order
            },
        decreases n,
    {
        if n == 0 {
            assert(start.order.subrange(0, start.order.len() as int) =~= start.order);
        } else {
            self.lemma_walk_run(start, (n - 1) as nat, skip, limit);
            match self.walk_run(start, (n - 1) as nat, skip, limit) {
                Ok(s) => {
                    self.lemma_walk_step(s, skip, limit);
                    match self.walk_step(s, skip, limit) {
                        Ok(s2) => {
                            assert(s2.order.subrange(0, start.order.len() as int) =~= s2.order.subrange(
                                0,
                                s.order.len() as int,
                            ).subrange(0, start.order.len() as int));
                        },
                        Err(_) => {},
                    }
                },
                Err(_) => {},
            }
        }
    }

    /// A finished walk from `roots` visits every root that has an object.
    pub proof fn lemma_walk_visits_roots(&self, roots: Seq<ObjectId>, n: nat, id: ObjectId, skip: bool, limit: nat)
        requires
            roots.contains(id),
            self.object(id) is Some,
            self.walk_run(walk_start(roots), n, skip, limit) matches Ok(st) && st.queue.len() == 0,
        ensures
            self.walk_run(walk_start(roots), n, skip, limit) matches Ok(st) && st.order.contains(id),
    {
        let start = walk_start(roots);
        lemma_enqueue(id_pairs(roots), Seq::empty(), Set::empty());
        assert(walk_covers(self, start));
        self.lemma_walk_run(start, n, skip, limit);
        let w = choose|w: int| 0 <= w < roots.len() && roots[w] == id;
        assert(id_pairs(roots)[w] == (id.number, id.generation));
        assert(ref_id(id.number, id.generation) == id);
        let refs = id_pairs(roots);
        assert(start.queued.contains(id_key(ref_id(refs[w].0, refs[w].1))));
        assert(start.queued.contains(id_key(id)));
    }
}

/// The stream the audit trail `log` is stored as.
pub open spec fn log_stream_v(log: Seq<EntryV>) -> ObjV {
    ObjV::Stream(seq![("Type"@, ObjV::Name("RustPdfRedactionLog"@))], crate::audit::log_text(log))
}

/// Storing the audit trail `log` of a document whose objects are `ov`
/// over `base`, with next number `next`, catalog `root` and trail id
/// `aid`: the trail's stored object is rewritten in place; when there is
/// none, the trail takes the next number and the catalog gets a
/// reference to it under the library's private key. The edited objects,
/// the next number, the trail id and the result.
pub open spec fn persist_v(
    ov: Seq<(ObjectId, ObjV)>,
    base: Seq<(ObjectId, ObjV)>,
    next: u32,
    root: ObjectId,
    aid: Option<ObjectId>,
    log: Seq<EntryV>,
) -> (Seq<(ObjectId, ObjV)>, u32, Option<ObjectId>, Result<(), EditorError>) {
    match aid {
        Some(id) if crate::outline::obj_in(ov, base, id) is Some => (table_set(ov, id, log_stream_v(log)), next, aid, Ok(())),
        _ => {
            let id = ObjectId { number: next, generation: 0 };
            match dict_of(crate::outline::obj_in(ov, base, root)) {
                None => (ov, (next + 1) as u32, Some(id), Err(EditorError::UnresolvedObject(root.number, root.generation))),
                Some(c) => {
                    let ov1 = table_set(ov, root, ObjV::Dict(entries_set(c, AUDIT_LOG_CATALOG_KEY@, ObjV::Reference(id.number, id.generation))));
                    (table_set(ov1, id, log_stream_v(log)), (next + 1) as u32, Some(id), Ok(()))
                },
            }
        },
    }
}

impl EditableDocument {
    /// Appends `entry` to the audit trail, stores the whole trail (see
    /// `persist_v`) and, when that succeeds, marks the document as
    /// redacted, which blocks incremental saves.
    pub fn persist_audit_entry(&mut self, entry: RedactionAuditEntry) -> (r: Result<(), EditorError>)
        requires
            old(self).wf(),
            old(self).next_number() < u32::MAX,
        ensures
            final(self).wf(),
            final(self).base_v() == old(self).base_v(),
            final(self).root_id() == old(self).root_id(),
            final(self).info_id() == old(self).info_id(),
            final(self).audit() == old(self).audit().push(entry.v()),
            final(self).redacted() == (old(self).redacted() || r is Ok),
            (final(self).overlay_v(), final(self).next_number(), final(self).audit_id(), r) == persist_v(
                old(self).overlay_v(),
                old(self).base_v(),
                old(self).next_number(),
                old(self).root_id(),
                old(self).audit_id(),
                old(self).audit().push(entry.v()),
            ),
    {
        let ghost start = *self;
        let ghost ev = entry.v();
        self.audit_log.push(entry);
        proof {
            assert(self.audit() =~= start.audit().push(ev));
            assert(self.base@ == start.base@ && self.overlay@ == start.overlay@);
            assert(self.overlay_v() == start.overlay_v() && self.base_v() == start.base_v());
            assert forall|x: ObjectId| #[trigger] self.object(x) == start.object(x) by {}
            assert(self.wf());
        }
        let stream = crate::audit::build_log_stream(self.audit_log.as_slice());
        assert(Object::Stream(stream).v() == log_stream_v(self.audit()));
        let stored = match self.audit_log_object_id {
            Some(id) => self.get_object(id).is_some(),
            None => false,
        };
        let id = if stored {
            let id = self.audit_log_object_id.unwrap();
            proof {
                self.lemma_stored_below_next(id);
            }
            id
        } else {
            let ghost pre = *self;
            let id = self.allocate_id();
            let ghost alloc = *self;
            self.audit_log_object_id = Some(id);
            proof {
                assert(self.base@ == alloc.base@ && self.overlay@ == alloc.overlay@);
                assert(self.overlay_v() == alloc.overlay_v() && self.base_v() == alloc.base_v());
                assert forall|x: ObjectId| #[trigger] self.object(x) == alloc.object(x) by {}
                assert(self.wf());
                assert(self.object(id) == pre.object(id));
            }
            let mut catalog = match self.catalog() {
                Ok(c) => c,
                Err(e) => {
                    return Err(e);
                },
            };
            catalog.set(AUDIT_LOG_CATALOG_KEY, Object::Reference(id));
            let cat_id = self.root;
            proof {
                self.lemma_stored_below_next(cat_id);
            }
            let ghost pre2 = *self;
            self.set_object(cat_id, Object::Dictionary(catalog));
            proof {
                assert forall|x: ObjectId| self.object(x) is Some && x.number == id.number implies x == id by {
                    crate::graph::lemma_table_get_set(pre2.overlay_v(), cat_id, Object::Dictionary(catalog).v(), x);
                    assert(x != cat_id);
                    assert(pre2.object(x) == pre.object(x));
                }
            }
            id
        };
        self.set_object(id, Object::Stream(stream));
        let ghost set = *self;
        self.redaction_applied = true;
        proof {
            assert(self.base@ == set.base@ && self.overlay@ == set.overlay@);
            assert(self.overlay_v() == set.overlay_v() && self.base_v() == set.base_v());
            assert forall|x: ObjectId| #[trigger] self.object(x) == set.object(x) by {}
            assert(self.wf());
        }
        Ok(())
    }
}

} // verus!
