//! The PDF/A-1 transparency remediation (ISO 19005-1 6.4) of a document
//! opened for editing: soft masks and blend modes reset on the graphics
//! state parameter dictionaries in use, and transparency groups removed.

use vstd::prelude::*;
use crate::content_stream::cap;
use crate::graph::{dict_of, ref_id, table_set, walk_fails, walk_result, EditableDocument, EditorError};
use crate::object::{copy_dictionary, entries_get, entries_remove, entries_set, lemma_view_entries, slice_to_vec_u8, str_eq, ObjV, Object, ObjectId, PdfDictionary, PdfName, PdfStream};
use crate::outline::obj_in;
use crate::pdfa::PdfAFlavor;

verus! {

/// The most objects a remediation pass walks.
pub const MAX_WALKED_OBJECTS: usize = 5000000;

/// The `/Resources` dictionary of an object whose entries are `d`, read
/// in the objects `(ov, base)`: inline, or a reference to a dictionary.
pub open spec fn resources_in(ov: Seq<(ObjectId, ObjV)>, base: Seq<(ObjectId, ObjV)>, d: Seq<(Seq<char>, ObjV)>) -> Option<
    Seq<(Seq<char>, ObjV)>,
> {
    match entries_get(d, "Resources"@) {
        Some(ObjV::Dict(r)) => Some(r),
        Some(ObjV::Reference(n, g)) => dict_of(obj_in(ov, base, ref_id(n, g))),
        _ => None,
    }
}

/// A graphics state parameter dictionary with a `/SMask` name other
/// than `None` set to `None` and a `/BM` name other than `Normal` and
/// `Compatible` set to `Normal`, and whether anything changed.
pub open spec fn gs_fixed(gs: Seq<(Seq<char>, ObjV)>) -> (Seq<(Seq<char>, ObjV)>, bool) {
    let s = match entries_get(gs, "SMask"@) {
        Some(ObjV::Name(n)) => n != "None"@,
        _ => false,
    };
    let g1 = if s {
        entries_set(gs, "SMask"@, ObjV::Name("None"@))
    } else {
        gs
    };
    let b = match entries_get(g1, "BM"@) {
        Some(ObjV::Name(n)) => n != "Normal"@ && n != "Compatible"@,
        _ => false,
    };
    let g2 = if b {
        entries_set(g1, "BM"@, ObjV::Name("Normal"@))
    } else {
        g1
    };
    (g2, s || b)
}

/// One `/ExtGState` entry `v`: a reference to a dictionary that
/// `gs_fixed` changes is stored changed, as a dictionary; the edited
/// objects and the number of dictionaries changed (0 or 1).
pub open spec fn gs_step(ov: Seq<(ObjectId, ObjV)>, base: Seq<(ObjectId, ObjV)>, v: ObjV) -> (Seq<(ObjectId, ObjV)>, nat) {
    match v {
        ObjV::Reference(n, g) => match dict_of(obj_in(ov, base, ref_id(n, g))) {
            Some(gs) => if gs_fixed(gs).1 {
                (table_set(ov, ref_id(n, g), ObjV::Dict(gs_fixed(gs).0)), 1)
            } else {
                (ov, 0)
            },
            None => (ov, 0),
        },
        _ => (ov, 0),
    }
}

/// The entries `es` of an `/ExtGState` dictionary taken in order (see
/// `gs_step`).
pub open spec fn gs_run(ov: Seq<(ObjectId, ObjV)>, base: Seq<(ObjectId, ObjV)>, es: Seq<(Seq<char>, ObjV)>) -> (
    Seq<(ObjectId, ObjV)>,
    nat,
)
    decreases es.len(),
{
    if es.len() == 0 {
        (ov, 0)
    } else {
        let (o1, c1) = gs_run(ov, base, es.drop_last());
        let (o2, c2) = gs_step(o1, base, es.last().1);
        (o2, c1 + c2)
    }
}

/// One object visited, as it was before the pass: the entries of the
/// `/ExtGState` dictionary of its `/Resources` (see `gs_run`).
pub open spec fn ext_step(ov: Seq<(ObjectId, ObjV)>, base: Seq<(ObjectId, ObjV)>, snap: Option<ObjV>) -> (
    Seq<(ObjectId, ObjV)>,
    nat,
) {
    match dict_of(snap) {
        None => (ov, 0),
        Some(d) => match resources_in(ov, base, d) {
            Some(res) => match entries_get(res, "ExtGState"@) {
                Some(ObjV::Dict(es)) => gs_run(ov, base, es),
                _ => (ov, 0),
            },
            None => (ov, 0),
        },
    }
}

/// The soft-mask and blend-mode pass over the objects `order`, starting
/// from the objects `(ov, base)` (whose values the visited objects are
/// read from): the edited objects and the number of dictionaries changed.
pub open spec fn ext_run(ov: Seq<(ObjectId, ObjV)>, base: Seq<(ObjectId, ObjV)>, order: Seq<ObjectId>) -> (
    Seq<(ObjectId, ObjV)>,
    nat,
)
    decreases order.len(),
{
    if order.len() == 0 {
        (ov, 0)
    } else {
        let (o1, c1) = ext_run(ov, base, order.drop_last());
        ext_step_sum(o1, base, obj_in(ov, base, order.last()), c1)
    }
}

/// `ext_step`, its count added to `c`.
pub open spec fn ext_step_sum(ov: Seq<(ObjectId, ObjV)>, base: Seq<(ObjectId, ObjV)>, snap: Option<ObjV>, c: nat) -> (
    Seq<(ObjectId, ObjV)>,
    nat,
) {
    (ext_step(ov, base, snap).0, c + ext_step(ov, base, snap).1)
}

/// Whether entries `d` hold a transparency group (`/Group` a dictionary
/// with `/S /Transparency`).
pub open spec fn transparency_group(d: Seq<(Seq<char>, ObjV)>) -> bool {
    &&& entries_get(d, "Group"@) matches Some(ObjV::Dict(g))
    &&& entries_get(g, "S"@) == Some(ObjV::Name("Transparency"@))
}

/// A dictionary or stream without its `/Group` entry.
pub open spec fn ungrouped(o: ObjV) -> ObjV {
    match o {
        ObjV::Dict(d) => ObjV::Dict(entries_remove(d, "Group"@)),
        ObjV::Stream(d, data) => ObjV::Stream(entries_remove(d, "Group"@), data),
        other => other,
    }
}

/// The transparency-group pass over the objects `order`, starting from
/// the objects `(ov, base)`: every visited dictionary or stream holding
/// a transparency group is stored without `/Group`; the edited objects
/// and the number of objects changed.
pub open spec fn group_run(ov: Seq<(ObjectId, ObjV)>, base: Seq<(ObjectId, ObjV)>, order: Seq<ObjectId>) -> (
    Seq<(ObjectId, ObjV)>,
    nat,
)
    decreases order.len(),
{
    if order.len() == 0 {
        (ov, 0)
    } else {
        let (o1, c1) = group_run(ov, base, order.drop_last());
        let x = order.last();
        match obj_in(ov, base, x) {
            Some(o) => if dict_of(Some(o)) matches Some(d) && transparency_group(d) {
                (table_set(o1, x, ungrouped(o)), c1 + 1)
            } else {
                (o1, c1)
            },
            None => (o1, c1),
        }
    }
}

/// What the soft-mask and blend-mode pass gives: it fails, changing
/// nothing, exactly when the walk from the catalog exceeds its limit;
/// otherwise the objects are those of `ext_run` over the walk's order.
pub open spec fn ext_stripped(before: &EditableDocument, after: &EditableDocument, r: Result<usize, EditorError>) -> bool {
    let roots = seq![before.root_id()];
    match r {
        Err(e) => e == EditorError::ResourceLimitExceeded && walk_fails(before, roots, false, 5000000) && after.overlay_v()
            == before.overlay_v(),
        Ok(n) => exists|order: Seq<ObjectId>|
            #![trigger ext_run(before.overlay_v(), before.base_v(), order)]
            walk_result(before, roots, false, 5000000, order) && after.overlay_v() == ext_run(
                before.overlay_v(),
                before.base_v(),
                order,
            ).0 && n as nat == cap(ext_run(before.overlay_v(), before.base_v(), order).1),
    }
}

/// Whether `after`'s objects are those the soft-mask and blend-mode pass
/// over the walk from `before`'s catalog gives.
pub open spec fn ext_applied(before: &EditableDocument, after: &EditableDocument) -> bool {
    exists|order: Seq<ObjectId>|
        #![trigger ext_run(before.overlay_v(), before.base_v(), order)]
        walk_result(before, seq![before.root_id()], false, 5000000, order) && after.overlay_v() == ext_run(
            before.overlay_v(),
            before.base_v(),
            order,
        ).0
}

/// What the transparency-group pass gives (see `ext_stripped`).
pub open spec fn groups_stripped(before: &EditableDocument, after: &EditableDocument, r: Result<usize, EditorError>) -> bool {
    let roots = seq![before.root_id()];
    match r {
        Err(e) => e == EditorError::ResourceLimitExceeded && walk_fails(before, roots, false, 5000000) && after.overlay_v()
            == before.overlay_v(),
        Ok(n) => exists|order: Seq<ObjectId>|
            walk_result(before, roots, false, 5000000, order) && #[trigger] group_run(before.overlay_v(), before.base_v(), order)
                == (after.overlay_v(), n as nat),
    }
}

/// What the PDF/A-1 transparency step gives: the soft-mask and
/// blend-mode pass, then the transparency-group pass on its result.
pub open spec fn transparency_stripped(before: &EditableDocument, after: &EditableDocument, r: Result<(usize, usize), EditorError>) -> bool {
    match r {
        Ok((a, b)) => exists|mid: EditableDocument|
            #![trigger mid.overlay_v()]
            mid.same_but_overlay(before) && ext_stripped(before, &mid, Ok(a)) && groups_stripped(&mid, after, Ok(b)),
        Err(e) => ext_stripped(before, after, Err(e)) || exists|mid: EditableDocument|
            #![trigger mid.overlay_v()]
            mid.same_but_overlay(before) && ext_applied(before, &mid) && groups_stripped(&mid, after, Err(e)),
    }
}

/// The soft-mask and blend-mode fix of one dictionary (see `gs_fixed`).
fn fix_gs(gs: &mut PdfDictionary) -> (m: bool)
    ensures
        (final(gs).view_entries(), m) == gs_fixed(old(gs).view_entries()),
{
    let s = match gs.get("SMask") {
        Some(Object::Name(n)) => !str_eq(n.as_str(), "None"),
        _ => false,
    };
    if s {
        gs.set("SMask", Object::Name(PdfName::new_unchecked("None")));
    }
    let b = match gs.get("BM") {
        Some(Object::Name(n)) => !str_eq(n.as_str(), "Normal") && !str_eq(n.as_str(), "Compatible"),
        _ => false,
    };
    if b {
        gs.set("BM", Object::Name(PdfName::new_unchecked("Normal")));
    }
    s || b
}

/// Whether a dictionary holds a transparency group.
fn is_transparency_group(d: &PdfDictionary) -> (r: bool)
    ensures
        r == transparency_group(d.view_entries()),
{
    match d.get("Group") {
        Some(Object::Dictionary(g)) => match g.get("S") {
            Some(Object::Name(n)) => str_eq(n.as_str(), "Transparency"),
            _ => false,
        },
        _ => false,
    }
}

/// The catalog entries `flavor` forbids removed (ISO 19005): optional
/// content (`/OCProperties`, part 1), embedded files (`/Names
/// /EmbeddedFiles`, parts 1 and 2), document JavaScript (`/Names
/// /JavaScript`) and a JavaScript `/OpenAction` (all parts). The new
/// entries and the keys removed, in that order.
pub open spec fn catalog_fix_v(c: Seq<(Seq<char>, ObjV)>, flavor: PdfAFlavor) -> (Seq<(Seq<char>, ObjV)>, Seq<Seq<char>>) {
    let part1 = flavor == PdfAFlavor::Part1B;
    let oc = part1 && entries_get(c, "OCProperties"@) is Some;
    let c1 = if part1 {
        entries_remove(c, "OCProperties"@)
    } else {
        c
    };
    let l1: Seq<Seq<char>> = if oc {
        seq!["OCProperties"@]
    } else {
        Seq::empty()
    };
    let (c2, l2) = match entries_get(c1, "Names"@) {
        Some(ObjV::Dict(n)) => {
            let no_files = flavor != PdfAFlavor::Part3B;
            let ef = no_files && entries_get(n, "EmbeddedFiles"@) is Some;
            let n1 = if no_files {
                entries_remove(n, "EmbeddedFiles"@)
            } else {
                n
            };
            let js = entries_get(n1, "JavaScript"@) is Some;
            let n2 = entries_remove(n1, "JavaScript"@);
            let la = if ef {
                l1.push("EmbeddedFiles"@)
            } else {
                l1
            };
            let lb = if js {
                la.push("JavaScript"@)
            } else {
                la
            };
            (
                if ef || js {
                    entries_set(c1, "Names"@, ObjV::Dict(n2))
                } else {
                    c1
                },
                lb,
            )
        },
        _ => (c1, l1),
    };
    match entries_get(c2, "OpenAction"@) {
        Some(ObjV::Dict(oa)) => if entries_get(oa, "S"@) == Some(ObjV::Name("JavaScript"@)) {
            (entries_remove(c2, "OpenAction"@), l2.push("OpenAction"@))
        } else {
            (c2, l2)
        },
        _ => (c2, l2),
    }
}

/// The texts of a list of keys.
pub open spec fn keys_view(v: Seq<&str>) -> Seq<Seq<char>> {
    Seq::new(v.len(), |i: int| v[i]@)
}

impl EditableDocument {
    /// The `/Resources` dictionary of an object with entries `d`: inline,
    /// or the dictionary it references.
    fn resources_dict(&self, d: &PdfDictionary) -> (r: Option<PdfDictionary>)
        ensures
            match r {
                Some(x) => resources_in(self.overlay_v(), self.base_v(), d.view_entries()) == Some(x.view_entries()),
                None => resources_in(self.overlay_v(), self.base_v(), d.view_entries()) is None,
            },
    {
        match d.get("Resources") {
            Some(Object::Dictionary(r)) => Some(copy_dictionary(r)),
            Some(Object::Reference(rid)) => match self.get_dictionary(*rid) {
                Ok(x) => Some(x),
                Err(_) => None,
            },
            _ => None,
        }
    }

    /// Resets `/SMask` and `/BM` on each graphics state parameter
    /// dictionary referenced from the entries of `eg` (see `gs_run`);
    /// returns how many were changed.
    fn fix_extgstates(&mut self, eg: &PdfDictionary) -> (k: usize)
        requires
            old(self).wf(),
        ensures
            final(self).wf(),
            final(self).same_but_overlay(old(self)),
            forall|x: ObjectId| old(self).object(x) is Some ==> #[trigger] final(self).object(x) is Some,
            final(self).overlay_v() == gs_run(old(self).overlay_v(), old(self).base_v(), eg.view_entries()).0,
            k as nat == cap(gs_run(old(self).overlay_v(), old(self).base_v(), eg.view_entries()).1),
    {
        let ghost start = *self;
        let ghost es = eg.view_entries();
        proof {
            lemma_view_entries(eg.entries@);
        }
        let mut k: usize = 0;
        let mut j: usize = 0;
        while j < eg.entries.len()
            invariant
                j <= eg.entries@.len(),
                es == eg.view_entries(),
                es.len() == eg.entries@.len(),
                forall|t: int| 0 <= t < eg.entries@.len() ==> #[trigger] es[t] == (eg.entries@[t].0@, eg.entries@[t].1.v()),
                self.wf(),
                self.same_but_overlay(&start),
                forall|x: ObjectId| start.object(x) is Some ==> #[trigger] self.object(x) is Some,
                self.overlay_v() == gs_run(start.overlay_v(), start.base_v(), es.take(j as int)).0,
                k as nat == cap(gs_run(start.overlay_v(), start.base_v(), es.take(j as int)).1),
            decreases eg.entries@.len() - j,
        {
            let ghost cur = *self;
            proof {
                assert(es.take(j + 1).drop_last() =~= es.take(j as int));
                assert(es.take(j + 1).last() == es[j as int]);
            }
            match &eg.entries[j].1 {
                Object::Reference(gid) => {
                    match self.get_dictionary(*gid) {
                        Ok(gs) => {
                            let mut gs = gs;
                            let m = fix_gs(&mut gs);
                            if m {
                                proof {
                                    self.lemma_stored_below_next(*gid);
                                }
                                self.set_object(*gid, Object::Dictionary(gs));
                                proof {
                                    self.lemma_object_after_set(&cur, *gid, ObjV::Dict(gs_fixed(cur.dict(*gid)->0).0));
                                }
                                k = k.saturating_add(1);
                            }
                        },
                        Err(_) => {},
                    }
                },
                _ => {},
            }
            j = j + 1;
        }
        proof {
            assert(es.take(j as int) =~= es);
        }
        k
    }

    /// Resets, for every object reachable from the catalog whose
    /// `/Resources` (inline, or referenced) has an `/ExtGState`
    /// dictionary, each graphics state parameter dictionary referenced
    /// there: a `/SMask` name other than `None` becomes `None`, a `/BM`
    /// name other than `Normal` and `Compatible` becomes `Normal`
    /// (ISO 19005-1 6.4). Returns how many dictionaries were changed. An
    /// `/ExtGState` entry that is not a reference is left as it is.
    pub fn strip_extgstate_transparency(&mut self) -> (r: Result<usize, EditorError>)
        requires
            old(self).wf(),
        ensures
            final(self).wf(),
            final(self).same_but_overlay(old(self)),
            ext_stripped(old(self), final(self), r),
            r is Ok <==> !walk_fails(old(self), seq![old(self).root_id()], false, 5000000),
    {
        let ghost start = *self;
        let root = self.catalog_id();
        let roots = vec![root];
        proof {
            assert(roots@ =~= seq![start.root_id()]);
        }
        let (order, objects) = match self.reachable_objects(roots.as_slice()) {
            Ok(p) => p,
            Err(e) => {
                return Err(e);
            },
        };
        proof {
            crate::pages::lemma_walk_exclusive(&start, roots@, false, 5000000, order@);
            assert forall|t: int| 0 <= t < order@.len() implies #[trigger] objects@[t].0 == order@[t] && start.object(order@[t])
                == Some(objects@[t].1.v()) by {
                assert(objects@[t].0 == order@[t]);
            }
        }
        let mut changed: usize = 0;
        let mut i: usize = 0;
        while i < order.len()
            invariant
                i <= order@.len(),
                objects@.len() == order@.len(),
                forall|t: int| 0 <= t < order@.len() ==> #[trigger] objects@[t].0 == order@[t] && start.object(order@[t]) == Some(
                    objects@[t].1.v(),
                ),
                self.wf(),
                self.same_but_overlay(&start),
                forall|x: ObjectId| start.object(x) is Some ==> #[trigger] self.object(x) is Some,
                self.overlay_v() == ext_run(start.overlay_v(), start.base_v(), order@.take(i as int)).0,
                changed as nat == cap(ext_run(start.overlay_v(), start.base_v(), order@.take(i as int)).1),
            decreases order@.len() - i,
        {
            let ghost cur = *self;
            proof {
                assert(order@.take(i + 1).drop_last() =~= order@.take(i as int));
                assert(order@.take(i + 1).last() == order@[i as int]);
                assert(objects@[i as int].0 == order@[i as int]);
                assert(obj_in(start.overlay_v(), start.base_v(), order@[i as int]) == Some(objects@[i as int].1.v()));
            }
            let res = match &objects[i].1 {
                Object::Dictionary(d) => self.resources_dict(d),
                Object::Stream(s) => self.resources_dict(&s.dictionary),
                _ => None,
            };
            match res {
                Some(rd) => {
                    match rd.get("ExtGState") {
                        Some(Object::Dictionary(eg)) => {
                            let k = self.fix_extgstates(eg);
                            changed = changed.saturating_add(k);
                        },
                        _ => {},
                    }
                },
                None => {},
            }
            i = i + 1;
        }
        proof {
            assert(order@.take(i as int) =~= order@);
        }
        Ok(changed)
    }

    /// Removes `/Group` from every object reachable from the catalog whose
    /// `/Group` is a transparency group (`/S /Transparency`, ISO 19005-1
    /// 6.4). Returns how many objects were changed.
    pub fn strip_transparency_groups(&mut self) -> (r: Result<usize, EditorError>)
        requires
            old(self).wf(),
        ensures
            final(self).wf(),
            final(self).same_but_overlay(old(self)),
            groups_stripped(old(self), final(self), r),
            r is Ok <==> !walk_fails(old(self), seq![old(self).root_id()], false, 5000000),
    {
        let ghost start = *self;
        let root = self.catalog_id();
        let roots = vec![root];
        proof {
            assert(roots@ =~= seq![start.root_id()]);
        }
        let (order, objects) = match self.reachable_objects(roots.as_slice()) {
            Ok(p) => p,
            Err(e) => {
                return Err(e);
            },
        };
        proof {
            crate::pages::lemma_walk_exclusive(&start, roots@, false, 5000000, order@);
            assert forall|t: int| 0 <= t < order@.len() implies #[trigger] objects@[t].0 == order@[t] && start.object(order@[t])
                == Some(objects@[t].1.v()) by {
                assert(objects@[t].0 == order@[t]);
            }
        }
        let mut changed: usize = 0;
        let mut i: usize = 0;
        while i < order.len()
            invariant
                i <= order@.len(),
                order@.len() <= MAX_WALKED_OBJECTS,
                objects@.len() == order@.len(),
                forall|t: int| 0 <= t < order@.len() ==> #[trigger] objects@[t].0 == order@[t] && start.object(order@[t]) == Some(
                    objects@[t].1.v(),
                ),
                self.wf(),
                self.same_but_overlay(&start),
                forall|x: ObjectId| start.object(x) is Some ==> #[trigger] self.object(x) is Some,
                changed <= i,
                (self.overlay_v(), changed as nat) == group_run(start.overlay_v(), start.base_v(), order@.take(i as int)),
            decreases order@.len() - i,
        {
            let ghost cur = *self;
            let id = order[i];
            proof {
                assert(order@.take(i + 1).drop_last() =~= order@.take(i as int));
                assert(order@.take(i + 1).last() == order@[i as int]);
                assert(objects@[i as int].0 == order@[i as int]);
                assert(obj_in(start.overlay_v(), start.base_v(), id) == Some(objects@[i as int].1.v()));
                assert(self.object(id) is Some);
                self.lemma_stored_below_next(id);
            }
            match &objects[i].1 {
                Object::Dictionary(d) => {
                    if is_transparency_group(d) {
                        let mut d2 = copy_dictionary(d);
                        d2.remove("Group");
                        self.set_object(id, Object::Dictionary(d2));
                        proof {
                            self.lemma_object_after_set(&cur, id, ObjV::Dict(d2.view_entries()));
                        }
                        changed = changed + 1;
                    }
                },
                Object::Stream(s) => {
                    if is_transparency_group(&s.dictionary) {
                        let mut d2 = copy_dictionary(&s.dictionary);
                        d2.remove("Group");
                        let data = slice_to_vec_u8(s.data.as_slice());
                        let ns = PdfStream { dictionary: d2, data };
                        proof {
                            assert(Object::Stream(ns).v() == ungrouped(objects@[i as int].1.v()));
                        }
                        self.set_object(id, Object::Stream(ns));
                        proof {
                            self.lemma_object_after_set(&cur, id, ungrouped(objects@[i as int].1.v()));
                        }
                        changed = changed + 1;
                    }
                },
                _ => {},
            }
            i = i + 1;
        }
        proof {
            assert(order@.take(i as int) =~= order@);
        }
        Ok(changed)
    }

    /// The transparency step of a PDF/A conversion (ISO 19005-1 6.4):
    /// for PDF/A-1b, resets soft masks and blend modes
    /// (`strip_extgstate_transparency`) and then removes transparency
    /// groups (`strip_transparency_groups`), returning both counts; the
    /// later parts allow transparency, and nothing is changed for them.
    pub fn strip_pdfa_transparency(&mut self, flavor: PdfAFlavor) -> (r: Result<(usize, usize), EditorError>)
        requires
            old(self).wf(),
        ensures
            final(self).wf(),
            final(self).same_but_overlay(old(self)),
            flavor != PdfAFlavor::Part1B ==> r == Ok::<(usize, usize), EditorError>((0, 0)) && final(self).overlay_v()
                == old(self).overlay_v(),
            flavor == PdfAFlavor::Part1B ==> transparency_stripped(old(self), final(self), r),
    {
        if flavor.allows_transparency() {
            return Ok((0, 0));
        }
        let ghost start = *self;
        let a = match self.strip_extgstate_transparency() {
            Ok(a) => a,
            Err(e) => {
                return Err(e);
            },
        };
        let ghost mid = *self;
        let b = match self.strip_transparency_groups() {
            Ok(b) => b,
            Err(e) => {
                proof {
                    let order = choose|order: Seq<ObjectId>|
                        #![trigger ext_run(start.overlay_v(), start.base_v(), order)]
                        walk_result(&start, seq![start.root_id()], false, 5000000, order) && mid.overlay_v() == ext_run(
                            start.overlay_v(),
                            start.base_v(),
                            order,
                        ).0 && a as nat == cap(ext_run(start.overlay_v(), start.base_v(), order).1);
                    assert(ext_applied(&start, &mid));
                    assert(mid.same_but_overlay(&start) && groups_stripped(&mid, self, Err(e)));
                }
                return Err(e);
            },
        };
        proof {
            assert(mid.same_but_overlay(&start) && ext_stripped(&start, &mid, Ok(a)) && groups_stripped(&mid, self, Ok(b)));
            assert(transparency_stripped(&start, self, Ok((a, b))));
        }
        Ok((a, b))
    }
    /// Removes the catalog entries `flavor` forbids (see `catalog_fix_v`)
    /// and returns which keys were present and removed, in the order
    /// removed. The catalog is stored again only when something was
    /// removed.
    pub fn strip_forbidden_catalog_entries(&mut self, flavor: PdfAFlavor) -> (r: Result<Vec<&'static str>, EditorError>)
        requires
            old(self).wf(),
        ensures
            final(self).wf(),
            final(self).same_but_overlay(old(self)),
            match old(self).dict(old(self).root_id()) {
                None => r == Err::<Vec<&'static str>, EditorError>(
                    EditorError::UnresolvedObject(old(self).root_id().number, old(self).root_id().generation),
                ) && final(self).overlay_v() == old(self).overlay_v(),
                Some(c) => r matches Ok(v) && keys_view(v@) == catalog_fix_v(c, flavor).1 && final(self).overlay_v() == (
                    if catalog_fix_v(c, flavor).1.len() > 0 {
                        table_set(old(self).overlay_v(), old(self).root_id(), ObjV::Dict(catalog_fix_v(c, flavor).0))
                    } else {
                        old(self).overlay_v()
                    }),
            },
    {
        let mut removed: Vec<&'static str> = Vec::new();
        let mut catalog = match self.catalog() {
            Ok(c) => c,
            Err(e) => {
                return Err(e);
            },
        };
        let ghost c = catalog.view_entries();
        let part1 = !flavor.allows_optional_content();
        if part1 {
            if catalog.remove("OCProperties").is_some() {
                removed.push("OCProperties");
            }
        }
        proof {
            assert(keys_view(removed@) =~= (if part1 && entries_get(c, "OCProperties"@) is Some {
                seq!["OCProperties"@]
            } else {
                Seq::<Seq<char>>::empty()
            }));
        }
        let names = match catalog.get("Names") {
            Some(Object::Dictionary(n)) => Some(copy_dictionary(n)),
            _ => None,
        };
        match names {
            Some(mut n) => {
                let mut changed = false;
                if !flavor.allows_embedded_files() {
                    if n.remove("EmbeddedFiles").is_some() {
                        let ghost r0 = removed@;
                        removed.push("EmbeddedFiles");
                        proof {
                            assert(keys_view(removed@) =~= keys_view(r0).push("EmbeddedFiles"@));
                        }
                        changed = true;
                    }
                }
                if n.remove("JavaScript").is_some() {
                    let ghost r0 = removed@;
                    removed.push("JavaScript");
                    proof {
                        assert(keys_view(removed@) =~= keys_view(r0).push("JavaScript"@));
                    }
                    changed = true;
                }
                if changed {
                    catalog.set("Names", Object::Dictionary(n));
                }
            },
            None => {},
        }
        let js_action = match catalog.get("OpenAction") {
            Some(Object::Dictionary(oa)) => match oa.get("S") {
                Some(Object::Name(nm)) => str_eq(nm.as_str(), "JavaScript"),
                _ => false,
            },
            _ => false,
        };
        if js_action {
            catalog.remove("OpenAction");
            let ghost r0 = removed@;
            removed.push("OpenAction");
            proof {
                assert(keys_view(removed@) =~= keys_view(r0).push("OpenAction"@));
            }
        }
        proof {
            assert(keys_view(removed@) == catalog_fix_v(c, flavor).1);
            assert(catalog.view_entries() == catalog_fix_v(c, flavor).0);
        }
        if removed.len() > 0 {
            let root = self.catalog_id();
            proof {
                self.lemma_root_stored();
                self.lemma_stored_below_next(root);
            }
            self.set_object(root, Object::Dictionary(catalog));
        }
        Ok(removed)
    }
}

} // verus!
