//! Creating interactive form fields (ISO 32000-1 12.7): a radio button
//! group with one widget annotation per option, registered in the
//! document's `/AcroForm` and on its page. The appearance streams'
//! content is handed in; this module wraps it in Form XObjects.

use vstd::prelude::*;
use vstd::string::StringSliceAdditionalSpecFns;
use crate::graph::{annots_of, dict_of, ref_id, table_set, EditableDocument, EditorError};
use crate::object::{entries_get, entries_set, ObjV, Object, ObjectId, PdfArray, PdfDictionary, PdfName, PdfReal, PdfStream, PdfString};
use crate::outline::obj_in;
use crate::pages::{kid_refs, prior_fields, ref_v};
use crate::types::Rectangle;
use crate::util::{text_string_bytes, to_pdf_text_string};
use vstd::utf8::is_ascii_chars;
use crate::forms::find_field_v;

verus! {

/// The field flags of a radio button group: `Radio` (bit 16) and
/// `NoToggleToOff` (bit 15), ISO 32000-1 Table 226.
pub const RADIO_GROUP_FLAGS: i64 = 49152;

/// `b - a`, held in an `i64` (clamped at its bounds).
pub open spec fn span(a: i64, b: i64) -> i64 {
    if b - a > i64::MAX {
        i64::MAX
    } else if b - a < i64::MIN {
        i64::MIN
    } else {
        (b - a) as i64
    }
}

/// The standard Helvetica font dictionary appearance streams use.
pub open spec fn helv_entries() -> Seq<(Seq<char>, ObjV)> {
    entries_set(
        entries_set(entries_set(Seq::empty(), "Type"@, ObjV::Name("Font"@)), "Subtype"@, ObjV::Name("Type1"@)),
        "BaseFont"@,
        ObjV::Name("Helvetica"@),
    )
}

/// `/Font << /Helv ... >>`, the resources of an appearance stream and
/// the default resources of a new form.
pub open spec fn helv_resources() -> Seq<(Seq<char>, ObjV)> {
    entries_set(Seq::empty(), "Font"@, ObjV::Dict(entries_set(Seq::empty(), "Helv"@, ObjV::Dict(helv_entries()))))
}

/// A Form XObject (ISO 32000-1 8.10) drawing `content` over a box of the
/// size of `rect` from the origin, with Helvetica as `/Helv`.
pub open spec fn appearance_v(content: Seq<u8>, rect: Rectangle) -> ObjV {
    let bbox = ObjV::Array(
        seq![ObjV::Real(0), ObjV::Real(0), ObjV::Real(span(rect.llx.micros, rect.urx.micros)), ObjV::Real(span(rect.lly.micros, rect.ury.micros))],
    );
    ObjV::Stream(
        entries_set(
            entries_set(
                entries_set(entries_set(Seq::empty(), "Type"@, ObjV::Name("XObject"@)), "Subtype"@, ObjV::Name("Form"@)),
                "BBox"@,
                bbox,
            ),
            "Resources"@,
            ObjV::Dict(helv_resources()),
        ),
        content,
    )
}

/// The rectangle as the array `[llx lly urx ury]`.
pub open spec fn rect_v(r: Rectangle) -> ObjV {
    ObjV::Array(seq![ObjV::Real(r.llx.micros), ObjV::Real(r.lly.micros), ObjV::Real(r.urx.micros), ObjV::Real(r.ury.micros)])
}

/// A radio button widget of the group `group` on the page `page`: its
/// rectangle, printable (`/F 4`), in the state `state`, with the normal
/// appearances `on` (under its export value) and `off` (under `Off`).
pub open spec fn widget_v(group: ObjectId, page: ObjectId, rect: Rectangle, state: Seq<char>, export: Seq<char>, on: ObjectId, off: ObjectId) -> ObjV {
    let n = entries_set(entries_set(Seq::empty(), export, ref_v(on)), "Off"@, ref_v(off));
    let ap = entries_set(Seq::empty(), "N"@, ObjV::Dict(n));
    let w1 = entries_set(entries_set(Seq::empty(), "Type"@, ObjV::Name("Annot"@)), "Subtype"@, ObjV::Name("Widget"@));
    let w2 = entries_set(entries_set(w1, "Parent"@, ref_v(group)), "P"@, ref_v(page));
    let w3 = entries_set(entries_set(w2, "Rect"@, rect_v(rect)), "F"@, ObjV::Integer(4));
    ObjV::Dict(entries_set(entries_set(w3, "AS"@, ObjV::Name(state)), "AP"@, ObjV::Dict(ap)))
}

/// A text string's value (ISO 32000-1 7.9.2.2).
pub open spec fn text_v(s: Seq<char>) -> ObjV {
    ObjV::Str(!is_ascii_chars(s), text_string_bytes(s))
}

/// The radio group field named `name` with the widgets `kids`, selected
/// value `v`.
pub open spec fn group_v(name: Seq<char>, kids: Seq<ObjectId>, v: Seq<char>) -> ObjV {
    let g1 = entries_set(entries_set(Seq::empty(), "FT"@, ObjV::Name("Btn"@)), "T"@, text_v(name));
    let g2 = entries_set(entries_set(g1, "Ff"@, ObjV::Integer(RADIO_GROUP_FLAGS)), "Kids"@, ObjV::Array(kid_refs(kids)));
    ObjV::Dict(entries_set(g2, "V"@, ObjV::Name(v)))
}

/// A new, empty interactive form dictionary: no fields, the default
/// appearance `/Helv 12 Tf 0 g`, Helvetica as default resource.
pub open spec fn new_form_v() -> ObjV {
    ObjV::Dict(
        entries_set(
            entries_set(entries_set(Seq::empty(), "Fields"@, ObjV::Array(Seq::empty())), "DA"@, ObjV::Str(false, "/Helv 12 Tf 0 g".spec_bytes())),
            "DR"@,
            ObjV::Dict(helv_resources()),
        ),
    )
}

/// The id handed out under the number `n`.
pub open spec fn id_at(n: int) -> ObjectId {
    ObjectId { number: n as u32, generation: 0 }
}

/// The widget ids of a group whose ids are handed out from `first`: three
/// numbers per option (widget, on and off appearances).
pub open spec fn widget_ids(first: int, n: nat) -> Seq<ObjectId> {
    Seq::new(n, |i: int| id_at(first + 3 * i))
}

/// The state of option `i`: its export value when selected, else `Off`.
pub open spec fn option_state(options: Seq<(Seq<char>, Rectangle)>, selected: Option<usize>, i: int) -> Seq<char> {
    if selected == Some(i as usize) {
        options[i].0
    } else {
        "Off"@
    }
}

/// The group's value: the selected option's export value, `Off` when
/// none is selected or the index is out of range.
pub open spec fn selected_value(options: Seq<(Seq<char>, Rectangle)>, selected: Option<usize>) -> Seq<char> {
    match selected {
        Some(i) => if i < options.len() {
            options[i as int].0
        } else {
            "Off"@
        },
        None => "Off"@,
    }
}

/// The objects after storing the first `n` options' appearances and
/// widgets, their ids handed out from `first`.
pub open spec fn radio_widgets_v(
    ov: Seq<(ObjectId, ObjV)>,
    first: int,
    group: ObjectId,
    page: ObjectId,
    options: Seq<(Seq<char>, Rectangle)>,
    selected: Option<usize>,
    on: Seq<Seq<u8>>,
    off: Seq<Seq<u8>>,
    n: nat,
) -> Seq<(ObjectId, ObjV)>
    decreases n,
{
    if n == 0 {
        ov
    } else {
        let i = n - 1;
        let prev = radio_widgets_v(ov, first, group, page, options, selected, on, off, (n - 1) as nat);
        let w = id_at(first + 3 * i);
        let a = id_at(first + 3 * i + 1);
        let b = id_at(first + 3 * i + 2);
        let rect = options[i].1;
        let o1 = table_set(prev, a, appearance_v(on[i], rect));
        let o2 = table_set(o1, b, appearance_v(off[i], rect));
        table_set(o2, w, widget_v(group, page, rect, option_state(options, selected, i), options[i].0, a, b))
    }
}

/// Appending a reference to `annot` to the `/Annots` of the page `page`.
pub open spec fn annot_add_v(ov: Seq<(ObjectId, ObjV)>, base: Seq<(ObjectId, ObjV)>, page: ObjectId, annot: ObjectId) -> (
    Seq<(ObjectId, ObjV)>,
    Result<(), EditorError>,
) {
    match dict_of(obj_in(ov, base, page)) {
        None => (ov, Err(EditorError::UnresolvedObject(page.number, page.generation))),
        Some(d) => (table_set(ov, page, ObjV::Dict(entries_set(d, "Annots"@, ObjV::Array(annots_of(d).push(ref_v(annot)))))), Ok(())),
    }
}

/// Appending the references to `ids` to the page's `/Annots`, in order,
/// up to the first failure.
pub open spec fn annots_add_v(ov: Seq<(ObjectId, ObjV)>, base: Seq<(ObjectId, ObjV)>, page: ObjectId, ids: Seq<ObjectId>) -> (
    Seq<(ObjectId, ObjV)>,
    Result<(), EditorError>,
)
    decreases ids.len(),
{
    if ids.len() == 0 {
        (ov, Ok(()))
    } else {
        let (o1, r1) = annots_add_v(ov, base, page, ids.drop_last());
        match r1 {
            Err(e) => (o1, Err(e)),
            Ok(_) => annot_add_v(o1, base, page, ids.last()),
        }
    }
}

/// Registering the field `field` on the page `page`: appended to the
/// `/Fields` of the form that the catalog `root` references (a new form
/// is created under the next number when there is none), then to the
/// page's `/Annots`. The edited objects, the next number and the result.
pub open spec fn register_v(
    ov: Seq<(ObjectId, ObjV)>,
    base: Seq<(ObjectId, ObjV)>,
    next: u32,
    root: ObjectId,
    field: ObjectId,
    page: ObjectId,
) -> (Seq<(ObjectId, ObjV)>, u32, Result<(), EditorError>) {
    match dict_of(obj_in(ov, base, root)) {
        None => (ov, next, Err(EditorError::UnresolvedObject(root.number, root.generation))),
        Some(c) => {
            let (ov1, next1, af) = register_v_form(ov, next, root, c);
            match dict_of(obj_in(ov1, base, af)) {
                None => (ov1, next1, Err(EditorError::UnresolvedObject(af.number, af.generation))),
                Some(a) => {
                    let ov2 = table_set(ov1, af, ObjV::Dict(entries_set(a, "Fields"@, ObjV::Array(prior_fields(a).push(ref_v(field))))));
                    let (ov3, r) = annot_add_v(ov2, base, page, field);
                    (ov3, next1, r)
                },
            }
        },
    }
}

/// The form a catalog with entries `c` references: the objects, the
/// next number and the form's id, a new form stored under the next
/// number (and referenced from the catalog `root`) when there is none.
pub open spec fn register_v_form(ov: Seq<(ObjectId, ObjV)>, next: u32, root: ObjectId, c: Seq<(Seq<char>, ObjV)>) -> (
    Seq<(ObjectId, ObjV)>,
    u32,
    ObjectId,
) {
    match entries_get(c, "AcroForm"@) {
        Some(ObjV::Reference(n, g)) => (ov, next, ref_id(n, g)),
        _ => {
            let id = id_at(next as int);
            let oa = table_set(ov, id, new_form_v());
            (table_set(oa, root, ObjV::Dict(entries_set(c, "AcroForm"@, ref_v(id)))), (next + 1) as u32, id)
        },
    }
}

/// The page at `index` of the page ids `ids`, or the error reading them
/// or the index gives.
pub open spec fn page_at(ids: Result<Seq<ObjectId>, EditorError>, index: usize) -> Result<ObjectId, EditorError> {
    match ids {
        Err(e) => Err(e),
        Ok(ids) => if index < ids.len() {
            Ok(ids[index as int])
        } else {
            Err(EditorError::InvalidPageIndex { index, count: ids.len() as usize })
        },
    }
}

/// Adding the radio button group `name` with `options` (export value,
/// rectangle) to the page at `page_index` of `doc`: the edited objects,
/// the next number and the result. A field of that name already present
/// is refused. The group takes the next number, then each option three
/// numbers (its widget, its on and its off appearance); the group is
/// registered (see `register_v`), then each widget is added to the
/// page's `/Annots`.
pub open spec fn add_radio_group_v(
    doc: &EditableDocument,
    page_index: usize,
    name: Seq<char>,
    options: Seq<(Seq<char>, Rectangle)>,
    selected: Option<usize>,
    on: Seq<Seq<u8>>,
    off: Seq<Seq<u8>>,
) -> (Seq<(ObjectId, ObjV)>, u32, Result<ObjectId, EditorError>) {
    let ov = doc.overlay_v();
    let next = doc.next_number();
    if find_field_v(doc.spec_fields(), name, 0) is Some {
        (ov, next, Err(EditorError::DuplicateFieldName))
    } else {
        match page_at(doc.spec_page_ids(), page_index) {
            Err(e) => (ov, next, Err(e)),
            Ok(page) => {
                let group = id_at(next as int);
                let kids = widget_ids(next + 1, options.len());
                let ov1 = radio_widgets_v(ov, next + 1, group, page, options, selected, on, off, options.len());
                let ov2 = table_set(ov1, group, group_v(name, kids, selected_value(options, selected)));
                let next2 = (next + 1 + 3 * options.len()) as u32;
                let (ov3, next3, r) = register_v(ov2, doc.base_v(), next2, doc.root_id(), group, page);
                match r {
                    Err(e) => (ov3, next3, Err(e)),
                    Ok(_) => {
                        let (ov4, r4) = annots_add_v(ov3, doc.base_v(), page, kids);
                        (
                            ov4,
                            next3,
                            match r4 {
                                Ok(_) => Ok(group),
                                Err(e) => Err(e),
                            },
                        )
                    },
                }
            },
        }
    }
}

/// `b - a` clamped to the `i64` range.
fn span_of(a: i64, b: i64) -> (r: i64)
    ensures
        r == span(a, b),
{
    let d: i128 = b as i128 - a as i128;
    if d > 0x7fff_ffff_ffff_ffffi128 {
        i64::MAX
    } else if d < -0x8000_0000_0000_0000i128 {
        i64::MIN
    } else {
        d as i64
    }
}

/// A name object.
pub(crate) fn name_obj(s: &str) -> (o: Object)
    ensures
        o.v() == ObjV::Name(s@),
{
    Object::Name(PdfName::new_unchecked(s))
}

/// The Helvetica resources of appearance streams and new forms.
pub(crate) fn helv_resources_dict() -> (d: PdfDictionary)
    ensures
        d.view_entries() == helv_resources(),
{
    let mut helv = PdfDictionary::new();
    assert(helv.view_entries() =~= Seq::<(Seq<char>, ObjV)>::empty());
    helv.set("Type", name_obj("Font"));
    helv.set("Subtype", name_obj("Type1"));
    helv.set("BaseFont", name_obj("Helvetica"));
    let mut fonts = PdfDictionary::new();
    assert(fonts.view_entries() =~= Seq::<(Seq<char>, ObjV)>::empty());
    fonts.set("Helv", Object::Dictionary(helv));
    let mut res = PdfDictionary::new();
    assert(res.view_entries() =~= Seq::<(Seq<char>, ObjV)>::empty());
    res.set("Font", Object::Dictionary(fonts));
    res
}

/// Wraps `content` in a Form XObject the size of `rect` (see
/// `appearance_v`).
pub fn appearance_xobject(content: &[u8], rect: Rectangle) -> (s: PdfStream)
    ensures
        Object::Stream(s).v() == appearance_v(content@, rect),
{
    let mut d = PdfDictionary::new();
    assert(d.view_entries() =~= Seq::<(Seq<char>, ObjV)>::empty());
    d.set("Type", name_obj("XObject"));
    d.set("Subtype", name_obj("Form"));
    let mut bbox = PdfArray::new();
    bbox.push(Object::Real(PdfReal::from_micros(0)));
    bbox.push(Object::Real(PdfReal::from_micros(0)));
    bbox.push(Object::Real(PdfReal::from_micros(span_of(rect.llx.micros, rect.urx.micros))));
    bbox.push(Object::Real(PdfReal::from_micros(span_of(rect.lly.micros, rect.ury.micros))));
    proof {
        crate::object::lemma_view_objs(bbox.items@);
        assert(bbox.view_items() =~= seq![
            ObjV::Real(0),
            ObjV::Real(0),
            ObjV::Real(span(rect.llx.micros, rect.urx.micros)),
            ObjV::Real(span(rect.lly.micros, rect.ury.micros)),
        ]);
    }
    d.set("BBox", Object::Array(bbox));
    d.set("Resources", Object::Dictionary(helv_resources_dict()));
    PdfStream::with_dictionary(d, crate::object::slice_to_vec_u8(content))
}

/// The widget dictionary of one option (see `widget_v`).
fn radio_widget(group: ObjectId, page: ObjectId, rect: Rectangle, state: &str, export: &str, on: ObjectId, off: ObjectId) -> (d: PdfDictionary)
    ensures
        ObjV::Dict(d.view_entries()) == widget_v(group, page, rect, state@, export@, on, off),
{
    let mut n = PdfDictionary::new();
    assert(n.view_entries() =~= Seq::<(Seq<char>, ObjV)>::empty());
    n.set(export, Object::Reference(on));
    n.set("Off", Object::Reference(off));
    let mut ap = PdfDictionary::new();
    assert(ap.view_entries() =~= Seq::<(Seq<char>, ObjV)>::empty());
    ap.set("N", Object::Dictionary(n));
    let mut w = PdfDictionary::new();
    assert(w.view_entries() =~= Seq::<(Seq<char>, ObjV)>::empty());
    w.set("Type", name_obj("Annot"));
    w.set("Subtype", name_obj("Widget"));
    w.set("Parent", Object::Reference(group));
    w.set("P", Object::Reference(page));
    w.set("Rect", Object::Array(crate::util::rect_to_array(rect)));
    w.set("F", Object::Integer(4));
    w.set("AS", name_obj(state));
    w.set("AP", Object::Dictionary(ap));
    w
}

impl EditableDocument {
    /// Appends `field` to the `/Fields` of the document's interactive
    /// form, creating the form when the catalog has none, and adds it to
    /// the `/Annots` of the page `page` (see `register_v`).
    pub fn register_field(&mut self, field: ObjectId, page: ObjectId) -> (r: Result<(), EditorError>)
        requires
            old(self).wf(),
            old(self).next_number() < u32::MAX,
        ensures
            final(self).wf(),
            final(self).same_but_overlay_next(old(self)),
            (final(self).overlay_v(), final(self).next_number(), r) == register_v(
                old(self).overlay_v(),
                old(self).base_v(),
                old(self).next_number(),
                old(self).root_id(),
                field,
                page,
            ),
    {
        let ghost start = *self;
        let mut catalog = match self.catalog() {
            Ok(c) => c,
            Err(e) => {
                return Err(e);
            },
        };
        let root = self.catalog_id();
        let ghost c = catalog.view_entries();
        proof {
            self.lemma_root_stored();
            self.lemma_stored_below_next(root);
        }
        let af_id = match catalog.get("AcroForm") {
            Some(Object::Reference(id)) => *id,
            _ => {
                let ghost pre = *self;
                let id = self.allocate_id();
                proof {
                    assert forall|x: ObjectId| self.object(x) is Some implies x.number < id.number by {
                        assert(self.object(x) == pre.object(x));
                    }
                }
                let mut af = PdfDictionary::new();
                assert(af.view_entries() =~= Seq::<(Seq<char>, ObjV)>::empty());
                let fields = PdfArray::new();
                assert(fields.view_items() =~= Seq::<ObjV>::empty());
                af.set("Fields", Object::Array(fields));
                af.set("DA", Object::String(PdfString::literal("/Helv 12 Tf 0 g")));
                af.set("DR", Object::Dictionary(helv_resources_dict()));
                let ghost av = Object::Dictionary(af).v();
                let ghost b0 = *self;
                self.set_object(id, Object::Dictionary(af));
                catalog.set("AcroForm", Object::Reference(id));
                proof {
                    self.lemma_object_after_set(&b0, id, av);
                    assert(self.object(root) == start.object(root));
                    self.lemma_stored_below_next(root);
                }
                self.set_object(root, Object::Dictionary(catalog));
                proof {
                    assert(av == new_form_v());
                    assert(self.overlay_v() == register_v_form(start.overlay_v(), start.next_number(), root, c).0);
                }
                id
            },
        };
        let ghost mid = *self;
        proof {
            assert((mid.overlay_v(), mid.next_number(), af_id) == register_v_form(start.overlay_v(), start.next_number(), root, c));
        }
        let mut acroform = match self.get_dictionary(af_id) {
            Ok(d) => d,
            Err(e) => {
                return Err(e);
            },
        };
        proof {
            self.lemma_stored_below_next(af_id);
        }
        let mut fields = match acroform.get("Fields") {
            Some(Object::Array(a)) => crate::object::copy_array(a),
            _ => PdfArray::new(),
        };
        let ghost a = acroform.view_entries();
        let ghost f0 = fields.items@;
        proof {
            assert(crate::object::view_objs(f0) == prior_fields(a));
        }
        fields.push(Object::Reference(field));
        proof {
            let fi = fields.items@;
            assert(fi.drop_last() =~= f0);
            assert(crate::object::view_objs(fi) == crate::object::view_objs(fi.drop_last()).push(fi.last().v()));
            assert(fields.view_items() == prior_fields(a).push(ref_v(field)));
        }
        acroform.set("Fields", Object::Array(fields));
        self.set_object(af_id, Object::Dictionary(acroform));
        proof {
            assert(self.overlay_v() == table_set(mid.overlay_v(), af_id, ObjV::Dict(entries_set(a, "Fields"@, ObjV::Array(prior_fields(a).push(ref_v(field)))))));
        }
        let ghost pre_annot = *self;
        let r = match self.add_annot_to_page(page, field) {
            Ok(_) => Ok(()),
            Err(e) => Err(e),
        };
        proof {
            assert(mid.next_number() == register_v_form(start.overlay_v(), start.next_number(), root, c).1);
            assert(self.next_number() == mid.next_number());
            assert(dict_of(obj_in(mid.overlay_v(), start.base_v(), af_id)) == Some(a));
            assert(pre_annot.base_v() == start.base_v());
            assert(pre_annot.object(page) == obj_in(pre_annot.overlay_v(), start.base_v(), page));
            assert(pre_annot.dict(page) == dict_of(obj_in(pre_annot.overlay_v(), start.base_v(), page)));
            assert((self.overlay_v(), r) == annot_add_v(pre_annot.overlay_v(), start.base_v(), page, field));
            assert(dict_of(obj_in(start.overlay_v(), start.base_v(), root)) == Some(c));
        }
        r
    }

    /// Adds a radio button group named `name` to the page at
    /// `page_index`, one widget per `(export value, rectangle)` option;
    /// `selected` is the index of the option selected at first, if any.
    /// `on_appearances[i]` and `off_appearances[i]` are the content of
    /// option `i`'s selected and unselected appearance streams. The group
    /// is registered in the document's form, and it and its widgets are
    /// added to the page's `/Annots`. Returns the group's id; a field of
    /// that name already present is refused (see `add_radio_group_v`).
    pub fn add_radio_group_field(
        &mut self,
        page_index: usize,
        name: &str,
        options: &[(String, Rectangle)],
        selected: Option<usize>,
        on_appearances: &[Vec<u8>],
        off_appearances: &[Vec<u8>],
    ) -> (r: Result<ObjectId, EditorError>)
        requires
            old(self).wf(),
            on_appearances@.len() == options@.len(),
            off_appearances@.len() == options@.len(),
            old(self).next_number() + 3 * options@.len() + 2 < u32::MAX,
        ensures
            final(self).wf(),
            final(self).same_but_overlay_next(old(self)),
            (final(self).overlay_v(), final(self).next_number(), r) == add_radio_group_v(
                old(self),
                page_index,
                name@,
                options_view(options@),
                selected,
                apps_view(on_appearances@),
                apps_view(off_appearances@),
            ),
    {
        let ghost start = *self;
        let ghost opts = options_view(options@);
        let ghost ons = apps_view(on_appearances@);
        let ghost offs = apps_view(off_appearances@);
        if self.find_field(name).is_some() {
            return Err(EditorError::DuplicateFieldName);
        }
        let page_id = match self.page_id_at(page_index) {
            Ok(p) => p,
            Err(e) => {
                return Err(e);
            },
        };
        let ghost pre_group = *self;
        let group_id = self.allocate_id();
        let ghost first = start.next_number() + 1;
        proof {
            assert forall|x: ObjectId| self.object(x) is Some implies x.number != group_id.number by {
                assert(self.object(x) == pre_group.object(x));
            }
        }
        let mut kids: Vec<ObjectId> = Vec::new();
        let mut i: usize = 0;
        while i < options.len()
            invariant
                i <= options@.len(),
                on_appearances@.len() == options@.len(),
                off_appearances@.len() == options@.len(),
                opts == options_view(options@),
                ons == apps_view(on_appearances@),
                offs == apps_view(off_appearances@),
                start.next_number() + 3 * options@.len() + 2 < u32::MAX,
                first == start.next_number() + 1,
                group_id == id_at(start.next_number() as int),
                start == *old(self),
                forall|x: ObjectId| self.object(x) is Some ==> x.number != group_id.number,
                self.wf(),
                self.same_but_overlay_next(&start),
                self.next_number() == first + 3 * i,
                kids@ == widget_ids(first, i as nat),
                self.overlay_v() == radio_widgets_v(start.overlay_v(), first, group_id, page_id, opts, selected, ons, offs, i as nat),
            decreases options@.len() - i,
        {
            let ghost pre = *self;
            let (export, rect) = (&options[i].0, options[i].1);
            let widget_id = self.allocate_id();
            let on_id = self.allocate_id();
            let off_id = self.allocate_id();
            proof {
                assert forall|x: ObjectId| self.object(x) is Some implies x.number < widget_id.number by {
                    assert(self.object(x) == pre.object(x));
                }
            }
            let is_selected = match selected {
                Some(k) => k == i,
                None => false,
            };
            let state: &str = if is_selected {
                export.as_str()
            } else {
                "Off"
            };
            proof {
                assert(opts[i as int] == (export@, rect));
                assert(state@ == option_state(opts, selected, i as int));
            }
            let s_on = appearance_xobject(on_appearances[i].as_slice(), rect);
            let ghost v_on = Object::Stream(s_on).v();
            let ghost b0 = *self;
            self.set_object(on_id, Object::Stream(s_on));
            proof {
                self.lemma_object_after_set(&b0, on_id, v_on);
            }
            let s_off = appearance_xobject(off_appearances[i].as_slice(), rect);
            let ghost v_off = Object::Stream(s_off).v();
            let ghost b1 = *self;
            self.set_object(off_id, Object::Stream(s_off));
            proof {
                self.lemma_object_after_set(&b1, off_id, v_off);
            }
            let w = radio_widget(group_id, page_id, rect, state, export.as_str(), on_id, off_id);
            let ghost v_w = Object::Dictionary(w).v();
            let ghost b2 = *self;
            self.set_object(widget_id, Object::Dictionary(w));
            proof {
                self.lemma_object_after_set(&b2, widget_id, v_w);
                assert forall|x: ObjectId| self.object(x) is Some implies x.number != group_id.number by {
                    if x != widget_id && x != on_id && x != off_id {
                        assert(self.object(x) == b2.object(x));
                        assert(b2.object(x) == b1.object(x));
                        assert(b1.object(x) == b0.object(x));
                        assert(b0.object(x) == pre.object(x));
                    }
                }
            }
            kids.push(widget_id);
            proof {
                assert(kids@ =~= widget_ids(first, (i + 1) as nat));
            }
            i = i + 1;
        }
        let mut kid_refs_arr = PdfArray::new();
        let mut j: usize = 0;
        while j < kids.len()
            invariant
                j <= kids@.len(),
                kid_refs_arr.view_items() == kid_refs(kids@.take(j as int)),
            decreases kids@.len() - j,
        {
            let ghost f0 = kid_refs_arr.items@;
            kid_refs_arr.push(Object::Reference(kids[j]));
            proof {
                let fi = kid_refs_arr.items@;
                assert(fi.drop_last() =~= f0);
                assert(crate::object::view_objs(fi) == crate::object::view_objs(fi.drop_last()).push(fi.last().v()));
                assert(kid_refs(kids@.take(j + 1)) =~= kid_refs(kids@.take(j as int)).push(ref_v(kids@[j as int])));
            }
            j = j + 1;
        }
        proof {
            assert(kids@.take(j as int) =~= kids@);
        }
        let v: &str = match selected {
            Some(k) => if k < options.len() {
                options[k].0.as_str()
            } else {
                "Off"
            },
            None => "Off",
        };
        let mut group = PdfDictionary::new();
        assert(group.view_entries() =~= Seq::<(Seq<char>, ObjV)>::empty());
        group.set("FT", name_obj("Btn"));
        group.set("T", Object::String(to_pdf_text_string(name)));
        group.set("Ff", Object::Integer(RADIO_GROUP_FLAGS));
        group.set("Kids", Object::Array(kid_refs_arr));
        group.set("V", name_obj(v));
        proof {
            assert(v@ == selected_value(opts, selected));
        }
        let ghost ov1 = self.overlay_v();
        let ghost gv = Object::Dictionary(group).v();
        proof {
            assert(gv == group_v(name@, kids@, selected_value(opts, selected)));
            assert(kids@ == widget_ids(first, opts.len()));
        }
        self.set_object(group_id, Object::Dictionary(group));
        let ghost ov2 = self.overlay_v();
        match self.register_field(group_id, page_id) {
            Ok(()) => {},
            Err(e) => {
                return Err(e);
            },
        }
        let ghost registered = *self;
        proof {
            assert(ov2 == table_set(ov1, group_id, gv));
            assert(register_v(ov2, start.base_v(), (start.next_number() + 1 + 3 * opts.len()) as u32, start.root_id(), group_id, page_id)
                == (registered.overlay_v(), registered.next_number(), Ok::<(), EditorError>(())));
            assert(add_radio_group_v(&start, page_index, name@, opts, selected, ons, offs) == (
                annots_add_v(registered.overlay_v(), start.base_v(), page_id, kids@).0,
                registered.next_number(),
                match annots_add_v(registered.overlay_v(), start.base_v(), page_id, kids@).1 {
                    Ok(_) => Ok(group_id),
                    Err(e) => Err(e),
                },
            ));
        }
        let mut k: usize = 0;
        while k < kids.len()
            invariant
                k <= kids@.len(),
                self.wf(),
                self.same_but_overlay_next(&start),
                self.next_number() == registered.next_number(),
                self.base_v() == start.base_v(),
                start == *old(self),
                opts == options_view(options@),
                ons == apps_view(on_appearances@),
                offs == apps_view(off_appearances@),
                add_radio_group_v(&start, page_index, name@, opts, selected, ons, offs) == (
                    annots_add_v(registered.overlay_v(), start.base_v(), page_id, kids@).0,
                    registered.next_number(),
                    match annots_add_v(registered.overlay_v(), start.base_v(), page_id, kids@).1 {
                        Ok(_) => Ok(group_id),
                        Err(e) => Err(e),
                    },
                ),
                (self.overlay_v(), Ok::<(), EditorError>(())) == annots_add_v(registered.overlay_v(), start.base_v(), page_id, kids@.take(k as int)),
            decreases kids@.len() - k,
        {
            proof {
                assert(kids@.take(k + 1).drop_last() =~= kids@.take(k as int));
            }
            match self.add_annot_to_page(page_id, kids[k]) {
                Ok(()) => {},
                Err(e) => {
                    proof {
                        assert(annots_add_v(registered.overlay_v(), start.base_v(), page_id, kids@.take(k + 1)) == (self.overlay_v(), Err::<(), EditorError>(e)));
                        lemma_annots_add_err(registered.overlay_v(), start.base_v(), page_id, kids@, k + 1);
                        assert(kids@.take(kids@.len() as int) =~= kids@);
                    }
                    return Err(e);
                },
            }
            k = k + 1;
        }
        proof {
            assert(kids@.take(k as int) =~= kids@);
        }
        Ok(group_id)
    }
}

/// A popup annotation (ISO 32000-1 12.5.6.14) over `rect` for the
/// annotation `parent`, open or closed.
pub open spec fn popup_v(rect: Rectangle, parent: ObjectId, open: bool) -> ObjV {
    let p1 = entries_set(entries_set(Seq::empty(), "Type"@, ObjV::Name("Annot"@)), "Subtype"@, ObjV::Name("Popup"@));
    let p2 = entries_set(entries_set(p1, "Rect"@, rect_v(rect)), "Parent"@, ref_v(parent));
    ObjV::Dict(entries_set(p2, "Open"@, ObjV::Boolean(open)))
}

/// Attaching a popup over `rect` to the annotation `parent` on the page
/// at `page_index`: the popup takes the next number, the parent gets a
/// `/Popup` reference to it (stored as a dictionary), and the popup is
/// added to the page's `/Annots`. The edited objects, the next number
/// and the result.
pub open spec fn add_popup_v(doc: &EditableDocument, page_index: usize, parent: ObjectId, rect: Rectangle, open: bool) -> (
    Seq<(ObjectId, ObjV)>,
    u32,
    Result<ObjectId, EditorError>,
) {
    let ov = doc.overlay_v();
    let next = doc.next_number();
    match page_at(doc.spec_page_ids(), page_index) {
        Err(e) => (ov, next, Err(e)),
        Ok(page) => match doc.dict(parent) {
            None => (ov, next, Err(EditorError::UnresolvedObject(parent.number, parent.generation))),
            Some(pd) => {
                let p = id_at(next as int);
                let ov1 = table_set(ov, p, popup_v(rect, parent, open));
                let ov2 = table_set(ov1, parent, ObjV::Dict(entries_set(pd, "Popup"@, ref_v(p))));
                let (ov3, r) = annot_add_v(ov2, doc.base_v(), page, p);
                (
                    ov3,
                    (next + 1) as u32,
                    match r {
                        Ok(_) => Ok(p),
                        Err(e) => Err(e),
                    },
                )
            },
        },
    }
}

/// The default appearance string of new text and choice fields.
pub open spec fn default_da() -> ObjV {
    ObjV::Str(false, "/Helv 12 Tf 0 g".spec_bytes())
}

/// The entries every new terminal field widget starts with: a widget
/// annotation of field type `ft` named `name` on the page `page` over
/// `rect`, printable.
pub open spec fn field_base(ft: Seq<char>, name: Seq<char>, page: ObjectId, rect: Rectangle) -> Seq<(Seq<char>, ObjV)> {
    let w1 = entries_set(entries_set(Seq::empty(), "Type"@, ObjV::Name("Annot"@)), "Subtype"@, ObjV::Name("Widget"@));
    let w2 = entries_set(entries_set(w1, "FT"@, ObjV::Name(ft)), "T"@, text_v(name));
    entries_set(entries_set(entries_set(w2, "P"@, ref_v(page)), "Rect"@, rect_v(rect)), "F"@, ObjV::Integer(4))
}

/// Storing `content` as the normal appearance of the widget `widget`
/// (see `appearance_v`): under the id its `/AP /N` references when that
/// object is stored, else under the next number; the widget's `/AP` is
/// then `<< /N ref >>`. The edited objects, the next number and the
/// result.
pub open spec fn normal_appearance_v(
    ov: Seq<(ObjectId, ObjV)>,
    base: Seq<(ObjectId, ObjV)>,
    next: u32,
    widget: ObjectId,
    content: Seq<u8>,
    rect: Rectangle,
) -> (Seq<(ObjectId, ObjV)>, u32, Result<(), EditorError>) {
    match dict_of(obj_in(ov, base, widget)) {
        None => (ov, next, Err(EditorError::UnresolvedObject(widget.number, widget.generation))),
        Some(d) => {
            let existing = match entries_get(d, "AP"@) {
                Some(ObjV::Dict(ap)) => match entries_get(ap, "N"@) {
                    Some(ObjV::Reference(n, g)) => if obj_in(ov, base, ref_id(n, g)) is Some {
                        Some(ref_id(n, g))
                    } else {
                        None
                    },
                    _ => None,
                },
                _ => None,
            };
            let (ap_id, next1) = match existing {
                Some(id) => (id, next),
                None => (id_at(next as int), (next + 1) as u32),
            };
            let ov1 = table_set(ov, ap_id, appearance_v(content, rect));
            let ap = entries_set(Seq::empty(), "N"@, ref_v(ap_id));
            (table_set(ov1, widget, ObjV::Dict(entries_set(d, "AP"@, ObjV::Dict(ap)))), next1, Ok(()))
        },
    }
}

/// The common frame of the field creators: a field of that name already
/// present is refused, the page index is checked, the field dictionary
/// `field(page)` is stored under the next number and registered (see
/// `register_v`), and `rest` (given the objects, the next number and the
/// field's id) finishes.
pub open spec fn new_field_v(
    doc: &EditableDocument,
    page_index: usize,
    name: Seq<char>,
    field: spec_fn(ObjectId) -> ObjV,
    rest: spec_fn(Seq<(ObjectId, ObjV)>, u32, ObjectId) -> (Seq<(ObjectId, ObjV)>, u32, Result<(), EditorError>),
) -> (Seq<(ObjectId, ObjV)>, u32, Result<ObjectId, EditorError>) {
    let ov = doc.overlay_v();
    let next = doc.next_number();
    if find_field_v(doc.spec_fields(), name, 0) is Some {
        (ov, next, Err(EditorError::DuplicateFieldName))
    } else {
        match page_at(doc.spec_page_ids(), page_index) {
            Err(e) => (ov, next, Err(e)),
            Ok(page) => {
                let id = id_at(next as int);
                let ov1 = table_set(ov, id, field(page));
                let (ov2, next2, r) = register_v(ov1, doc.base_v(), (next + 1) as u32, doc.root_id(), id, page);
                match r {
                    Err(e) => (ov2, next2, Err(e)),
                    Ok(_) => {
                        let (ov3, next3, r3) = rest(ov2, next2, id);
                        (
                            ov3,
                            next3,
                            match r3 {
                                Ok(_) => Ok(id),
                                Err(e) => Err(e),
                            },
                        )
                    },
                }
            },
        }
    }
}

/// A new single-line text field, with its value when there is one.
pub open spec fn text_field_v(name: Seq<char>, page: ObjectId, rect: Rectangle, value: Option<Seq<char>>) -> ObjV {
    let d = entries_set(field_base("Tx"@, name, page, rect), "DA"@, default_da());
    ObjV::Dict(
        match value {
            Some(v) => entries_set(d, "V"@, text_v(v)),
            None => d,
        },
    )
}

/// A new signature field (ISO 32000-1 12.7.4.5), unsigned.
pub open spec fn signature_field_v(name: Seq<char>, page: ObjectId, rect: Rectangle) -> ObjV {
    ObjV::Dict(field_base("Sig"@, name, page, rect))
}

/// The flag of a combo box among choice fields (bit 18), ISO 32000-1
/// Table 230.
pub const COMBO_FLAG: i64 = 131072;

/// A new combo box field offering `options`, with the selected option
/// as value (and its index under `/I`) when `selected` is in range.
pub open spec fn combobox_field_v(name: Seq<char>, page: ObjectId, rect: Rectangle, options: Seq<Seq<char>>, selected: Option<usize>) -> ObjV {
    let d1 = entries_set(field_base("Ch"@, name, page, rect), "Ff"@, ObjV::Integer(COMBO_FLAG));
    let d2 = entries_set(entries_set(d1, "Opt"@, ObjV::Array(Seq::new(options.len(), |i: int| text_v(options[i])))), "DA"@, default_da());
    ObjV::Dict(
        match selected {
            Some(i) => if i < options.len() {
                entries_set(entries_set(d2, "V"@, text_v(options[i as int])), "I"@, ObjV::Array(seq![ObjV::Integer(i as i64)]))
            } else {
                d2
            },
            None => d2,
        },
    )
}

/// A new check box field, in the state `state` (`Yes` or `Off`).
pub open spec fn checkbox_field_v(name: Seq<char>, page: ObjectId, rect: Rectangle, state: Seq<char>) -> ObjV {
    ObjV::Dict(entries_set(entries_set(field_base("Btn"@, name, page, rect), "V"@, ObjV::Name(state)), "AS"@, ObjV::Name(state)))
}

/// The check box's two appearances stored under the next two numbers and
/// referenced from its `/AP /N` as `Yes` and `Off`.
pub open spec fn checkbox_appearances_v(
    ov: Seq<(ObjectId, ObjV)>,
    base: Seq<(ObjectId, ObjV)>,
    next: u32,
    field: ObjectId,
    rect: Rectangle,
    on: Seq<u8>,
    off: Seq<u8>,
) -> (Seq<(ObjectId, ObjV)>, u32, Result<(), EditorError>) {
    let a = id_at(next as int);
    let b = id_at(next + 1);
    let ov1 = table_set(table_set(ov, a, appearance_v(on, rect)), b, appearance_v(off, rect));
    let n = entries_set(entries_set(Seq::empty(), "Yes"@, ref_v(a)), "Off"@, ref_v(b));
    let ap = entries_set(Seq::empty(), "N"@, ObjV::Dict(n));
    match dict_of(obj_in(ov1, base, field)) {
        None => (ov1, (next + 2) as u32, Err(EditorError::UnresolvedObject(field.number, field.generation))),
        Some(d) => (table_set(ov1, field, ObjV::Dict(entries_set(d, "AP"@, ObjV::Dict(ap)))), (next + 2) as u32, Ok(())),
    }
}

impl EditableDocument {
    /// Attaches a `/Popup` window over `rect` (ISO 32000-1 12.5.6.14) to
    /// the existing annotation `parent_annot_id` on the page at
    /// `page_index`, so a reader can show its comment; returns the
    /// popup's id (see `add_popup_v`).
    pub fn add_popup(&mut self, page_index: usize, parent_annot_id: ObjectId, rect: Rectangle, open: bool) -> (r: Result<
        ObjectId,
        EditorError,
    >)
        requires
            old(self).wf(),
            old(self).next_number() < u32::MAX,
        ensures
            final(self).wf(),
            final(self).same_but_overlay_next(old(self)),
            (final(self).overlay_v(), final(self).next_number(), r) == add_popup_v(
                old(self),
                page_index,
                parent_annot_id,
                rect,
                open,
            ),
    {
        let ghost start = *self;
        let page_id = match self.page_id_at(page_index) {
            Ok(p) => p,
            Err(e) => {
                return Err(e);
            },
        };
        let mut parent = match self.get_dictionary(parent_annot_id) {
            Ok(d) => d,
            Err(e) => {
                return Err(e);
            },
        };
        let ghost pd = parent.view_entries();
        proof {
            self.lemma_stored_below_next(parent_annot_id);
        }
        let ghost pre = *self;
        let popup_id = self.allocate_id();
        proof {
            assert forall|x: ObjectId| self.object(x) is Some implies x.number < popup_id.number by {
                assert(self.object(x) == pre.object(x));
            }
        }
        let mut popup = PdfDictionary::new();
        assert(popup.view_entries() =~= Seq::<(Seq<char>, ObjV)>::empty());
        popup.set("Type", name_obj("Annot"));
        popup.set("Subtype", name_obj("Popup"));
        popup.set("Rect", Object::Array(crate::util::rect_to_array(rect)));
        popup.set("Parent", Object::Reference(parent_annot_id));
        popup.set("Open", Object::Boolean(open));
        let ghost pv = Object::Dictionary(popup).v();
        let ghost b0 = *self;
        self.set_object(popup_id, Object::Dictionary(popup));
        proof {
            self.lemma_object_after_set(&b0, popup_id, pv);
            assert(self.object(parent_annot_id) == start.object(parent_annot_id));
            self.lemma_stored_below_next(parent_annot_id);
        }
        parent.set("Popup", Object::Reference(popup_id));
        self.set_object(parent_annot_id, Object::Dictionary(parent));
        let ghost pre_annot = *self;
        let r = match self.add_annot_to_page(page_id, popup_id) {
            Ok(_) => Ok(popup_id),
            Err(e) => Err(e),
        };
        proof {
            assert(pre_annot.object(page_id) == obj_in(pre_annot.overlay_v(), start.base_v(), page_id));
        }
        r
    }
}

/// A text string object.
pub(crate) fn text_obj(s: &str) -> (o: Object)
    ensures
        o.v() == text_v(s@),
{
    Object::String(to_pdf_text_string(s))
}

/// The first entries of a new terminal field widget (see `field_base`).
fn field_base_dict(ft: &str, name: &str, page: ObjectId, rect: Rectangle) -> (d: PdfDictionary)
    ensures
        d.view_entries() == field_base(ft@, name@, page, rect),
{
    let mut d = PdfDictionary::new();
    assert(d.view_entries() =~= Seq::<(Seq<char>, ObjV)>::empty());
    d.set("Type", name_obj("Annot"));
    d.set("Subtype", name_obj("Widget"));
    d.set("FT", name_obj(ft));
    d.set("T", text_obj(name));
    d.set("P", Object::Reference(page));
    d.set("Rect", Object::Array(crate::util::rect_to_array(rect)));
    d.set("F", Object::Integer(4));
    d
}

/// The default appearance string object.
fn default_da_obj() -> (o: Object)
    ensures
        o.v() == default_da(),
{
    Object::String(PdfString::literal("/Helv 12 Tf 0 g"))
}

impl EditableDocument {
    /// The page a new field named `name` goes on: refused when a field of
    /// that name exists, else the page at `page_index`.
    fn new_field_page(&self, page_index: usize, name: &str) -> (r: Result<ObjectId, EditorError>)
        ensures
            r == (if find_field_v(self.spec_fields(), name@, 0) is Some {
                Err(EditorError::DuplicateFieldName)
            } else {
                page_at(self.spec_page_ids(), page_index)
            }),
    {
        if self.find_field(name).is_some() {
            return Err(EditorError::DuplicateFieldName);
        }
        self.page_id_at(page_index)
    }

    /// Stores the field dictionary `dict` under the next number and
    /// registers it on the page `page` (see `register_v`); returns its id.
    fn store_field(&mut self, dict: PdfDictionary, page: ObjectId) -> (r: Result<ObjectId, EditorError>)
        requires
            old(self).wf(),
            old(self).next_number() + 2 < u32::MAX,
        ensures
            final(self).wf(),
            final(self).same_but_overlay_next(old(self)),
            ({
                let id = id_at(old(self).next_number() as int);
                let (ov2, next2, r2) = register_v(
                    table_set(old(self).overlay_v(), id, ObjV::Dict(dict.view_entries())),
                    old(self).base_v(),
                    (old(self).next_number() + 1) as u32,
                    old(self).root_id(),
                    id,
                    page,
                );
                &&& final(self).overlay_v() == ov2
                &&& final(self).next_number() == next2
                &&& r == (match r2 {
                    Ok(_) => Ok(id),
                    Err(e) => Err(e),
                })
            }),
    {
        let ghost pre = *self;
        let id = self.allocate_id();
        proof {
            assert forall|x: ObjectId| self.object(x) is Some implies x.number < id.number by {
                assert(self.object(x) == pre.object(x));
            }
        }
        self.set_object(id, Object::Dictionary(dict));
        match self.register_field(id, page) {
            Ok(_) => Ok(id),
            Err(e) => Err(e),
        }
    }

    /// Stores `content` as the normal appearance of `widget` (see
    /// `normal_appearance_v`).
    pub fn set_widget_normal_appearance(&mut self, widget: ObjectId, content: &[u8], rect: Rectangle) -> (r: Result<(), EditorError>)
        requires
            old(self).wf(),
            old(self).next_number() < u32::MAX,
        ensures
            final(self).wf(),
            final(self).same_but_overlay_next(old(self)),
            (final(self).overlay_v(), final(self).next_number(), r) == normal_appearance_v(
                old(self).overlay_v(),
                old(self).base_v(),
                old(self).next_number(),
                widget,
                content@,
                rect,
            ),
    {
        let ghost start = *self;
        let mut dict = match self.get_dictionary(widget) {
            Ok(d) => d,
            Err(e) => {
                return Err(e);
            },
        };
        proof {
            self.lemma_stored_below_next(widget);
        }
        let ghost d = dict.view_entries();
        let existing: Option<ObjectId> = match dict.get("AP") {
            Some(Object::Dictionary(ap)) => match ap.get("N") {
                Some(Object::Reference(id)) => if self.get_object(*id).is_some() {
                    Some(*id)
                } else {
                    None
                },
                _ => None,
            },
            _ => None,
        };
        let ap_id = match existing {
            Some(id) => {
                proof {
                    self.lemma_stored_below_next(id);
                }
                id
            },
            None => {
                let ghost pre = *self;
                let id = self.allocate_id();
                proof {
                    assert forall|x: ObjectId| self.object(x) is Some implies x.number < id.number by {
                        assert(self.object(x) == pre.object(x));
                    }
                }
                id
            },
        };
        let s = appearance_xobject(content, rect);
        let ghost sv = Object::Stream(s).v();
        let ghost b0 = *self;
        self.set_object(ap_id, Object::Stream(s));
        proof {
            self.lemma_object_after_set(&b0, ap_id, sv);
            self.lemma_stored_below_next(widget);
        }
        let mut ap = PdfDictionary::new();
        assert(ap.view_entries() =~= Seq::<(Seq<char>, ObjV)>::empty());
        ap.set("N", Object::Reference(ap_id));
        dict.set("AP", Object::Dictionary(ap));
        self.set_object(widget, Object::Dictionary(dict));
        Ok(())
    }

    /// Adds a single-line text field named `name` over `rect` on the page
    /// at `page_index`, with `initial_value` when given, and registers it
    /// in the document's form; `appearance` is the content of its normal
    /// appearance stream. Returns the field's id; a field of that name
    /// already present is refused.
    pub fn add_text_field(&mut self, page_index: usize, name: &str, rect: Rectangle, initial_value: Option<&str>, appearance: &[u8]) -> (r: Result<
        ObjectId,
        EditorError,
    >)
        requires
            old(self).wf(),
            old(self).next_number() + 3 < u32::MAX,
        ensures
            final(self).wf(),
            final(self).same_but_overlay_next(old(self)),
            (final(self).overlay_v(), final(self).next_number(), r) == new_field_v(
                old(self),
                page_index,
                name@,
                |p: ObjectId| text_field_v(name@, p, rect, opt_view(initial_value)),
                |o: Seq<(ObjectId, ObjV)>, n: u32, id: ObjectId| normal_appearance_v(o, old(self).base_v(), n, id, appearance@, rect),
            ),
    {
        let ghost start = *self;
        let page_id = match self.new_field_page(page_index, name) {
            Ok(p) => p,
            Err(e) => {
                return Err(e);
            },
        };
        let mut d = field_base_dict("Tx", name, page_id, rect);
        d.set("DA", default_da_obj());
        match initial_value {
            Some(v) => d.set("V", text_obj(v)),
            None => {},
        }
        proof {
            assert(ObjV::Dict(d.view_entries()) == text_field_v(name@, page_id, rect, opt_view(initial_value)));
        }
        let id = match self.store_field(d, page_id) {
            Ok(id) => id,
            Err(e) => {
                return Err(e);
            },
        };
        match self.set_widget_normal_appearance(id, appearance, rect) {
            Ok(_) => Ok(id),
            Err(e) => Err(e),
        }
    }

    /// Adds an unsigned digital-signature field (ISO 32000-1 12.7.4.5)
    /// named `name` over `rect` on the page at `page_index`, registered
    /// in the document's form; `appearance` is the content of its
    /// placeholder appearance. Returns the field's id.
    pub fn add_signature_field(&mut self, page_index: usize, name: &str, rect: Rectangle, appearance: &[u8]) -> (r: Result<ObjectId, EditorError>)
        requires
            old(self).wf(),
            old(self).next_number() + 3 < u32::MAX,
        ensures
            final(self).wf(),
            final(self).same_but_overlay_next(old(self)),
            (final(self).overlay_v(), final(self).next_number(), r) == new_field_v(
                old(self),
                page_index,
                name@,
                |p: ObjectId| signature_field_v(name@, p, rect),
                |o: Seq<(ObjectId, ObjV)>, n: u32, id: ObjectId| normal_appearance_v(o, old(self).base_v(), n, id, appearance@, rect),
            ),
    {
        let page_id = match self.new_field_page(page_index, name) {
            Ok(p) => p,
            Err(e) => {
                return Err(e);
            },
        };
        let d = field_base_dict("Sig", name, page_id, rect);
        let id = match self.store_field(d, page_id) {
            Ok(id) => id,
            Err(e) => {
                return Err(e);
            },
        };
        match self.set_widget_normal_appearance(id, appearance, rect) {
            Ok(_) => Ok(id),
            Err(e) => Err(e),
        }
    }

    /// Adds a combo box (drop-down choice) field named `name` over `rect`
    /// on the page at `page_index`, offering `options`, with the option at
    /// `selected_index` chosen when that index is in range; `appearance`
    /// is the content of its normal appearance stream. Returns the
    /// field's id.
    pub fn add_combobox_field(
        &mut self,
        page_index: usize,
        name: &str,
        rect: Rectangle,
        options: &[String],
        selected_index: Option<usize>,
        appearance: &[u8],
    ) -> (r: Result<ObjectId, EditorError>)
        requires
            old(self).wf(),
            old(self).next_number() + 3 < u32::MAX,
        ensures
            final(self).wf(),
            final(self).same_but_overlay_next(old(self)),
            (final(self).overlay_v(), final(self).next_number(), r) == new_field_v(
                old(self),
                page_index,
                name@,
                |p: ObjectId| combobox_field_v(name@, p, rect, strings_view(options@), selected_index),
                |o: Seq<(ObjectId, ObjV)>, n: u32, id: ObjectId| normal_appearance_v(o, old(self).base_v(), n, id, appearance@, rect),
            ),
    {
        let page_id = match self.new_field_page(page_index, name) {
            Ok(p) => p,
            Err(e) => {
                return Err(e);
            },
        };
        let ghost opts = strings_view(options@);
        let mut opt = PdfArray::new();
        let mut i: usize = 0;
        while i < options.len()
            invariant
                i <= options@.len(),
                opts == strings_view(options@),
                opt.view_items() == Seq::new(i as nat, |k: int| text_v(opts[k])),
            decreases options@.len() - i,
        {
            let ghost f0 = opt.items@;
            opt.push(text_obj(options[i].as_str()));
            proof {
                let fi = opt.items@;
                assert(fi.drop_last() =~= f0);
                assert(crate::object::view_objs(fi) == crate::object::view_objs(fi.drop_last()).push(fi.last().v()));
                assert(opt.view_items() =~= Seq::new((i + 1) as nat, |k: int| text_v(opts[k])));
            }
            i = i + 1;
        }
        let mut d = field_base_dict("Ch", name, page_id, rect);
        d.set("Ff", Object::Integer(COMBO_FLAG));
        d.set("Opt", Object::Array(opt));
        d.set("DA", default_da_obj());
        match selected_index {
            Some(k) => if k < options.len() {
                d.set("V", text_obj(options[k].as_str()));
                let mut ia = PdfArray::new();
                ia.push(Object::Integer(k as i64));
                proof {
                    crate::object::lemma_view_objs(ia.items@);
                    assert(ia.view_items() =~= seq![ObjV::Integer(k as i64)]);
                }
                d.set("I", Object::Array(ia));
            },
            None => {},
        }
        proof {
            assert(ObjV::Dict(d.view_entries()) == combobox_field_v(name@, page_id, rect, opts, selected_index));
        }
        let id = match self.store_field(d, page_id) {
            Ok(id) => id,
            Err(e) => {
                return Err(e);
            },
        };
        match self.set_widget_normal_appearance(id, appearance, rect) {
            Ok(_) => Ok(id),
            Err(e) => Err(e),
        }
    }

    /// Adds a check box field named `name` over `rect` on the page at
    /// `page_index`, checked or not, registered in the document's form;
    /// `on_appearance` and `off_appearance` are the content of its `Yes`
    /// and `Off` appearance streams. Returns the field's id.
    pub fn add_checkbox_field(
        &mut self,
        page_index: usize,
        name: &str,
        rect: Rectangle,
        checked: bool,
        on_appearance: &[u8],
        off_appearance: &[u8],
    ) -> (r: Result<ObjectId, EditorError>)
        requires
            old(self).wf(),
            old(self).next_number() + 4 < u32::MAX,
        ensures
            final(self).wf(),
            final(self).same_but_overlay_next(old(self)),
            (final(self).overlay_v(), final(self).next_number(), r) == new_field_v(
                old(self),
                page_index,
                name@,
                |p: ObjectId| checkbox_field_v(name@, p, rect, if checked { "Yes"@ } else { "Off"@ }),
                |o: Seq<(ObjectId, ObjV)>, n: u32, id: ObjectId|
                    checkbox_appearances_v(o, old(self).base_v(), n, id, rect, on_appearance@, off_appearance@),
            ),
    {
        let page_id = match self.new_field_page(page_index, name) {
            Ok(p) => p,
            Err(e) => {
                return Err(e);
            },
        };
        let state: &str = if checked {
            "Yes"
        } else {
            "Off"
        };
        let mut d = field_base_dict("Btn", name, page_id, rect);
        d.set("V", name_obj(state));
        d.set("AS", name_obj(state));
        let id = match self.store_field(d, page_id) {
            Ok(id) => id,
            Err(e) => {
                return Err(e);
            },
        };
        let ghost pre = *self;
        let on_id = self.allocate_id();
        let off_id = self.allocate_id();
        proof {
            assert forall|x: ObjectId| self.object(x) is Some implies x.number < on_id.number by {
                assert(self.object(x) == pre.object(x));
            }
        }
        let s_on = appearance_xobject(on_appearance, rect);
        let ghost v_on = Object::Stream(s_on).v();
        let ghost b0 = *self;
        self.set_object(on_id, Object::Stream(s_on));
        proof {
            self.lemma_object_after_set(&b0, on_id, v_on);
        }
        self.set_object(off_id, Object::Stream(appearance_xobject(off_appearance, rect)));
        let mut n = PdfDictionary::new();
        assert(n.view_entries() =~= Seq::<(Seq<char>, ObjV)>::empty());
        n.set("Yes", Object::Reference(on_id));
        n.set("Off", Object::Reference(off_id));
        let mut ap = PdfDictionary::new();
        assert(ap.view_entries() =~= Seq::<(Seq<char>, ObjV)>::empty());
        ap.set("N", Object::Dictionary(n));
        let mut dict = match self.get_dictionary(id) {
            Ok(x) => x,
            Err(e) => {
                return Err(e);
            },
        };
        proof {
            self.lemma_stored_below_next(id);
        }
        dict.set("AP", Object::Dictionary(ap));
        self.set_object(id, Object::Dictionary(dict));
        Ok(id)
    }
}

/// An optional text's view.
pub open spec fn opt_view(o: Option<&str>) -> Option<Seq<char>> {
    match o {
        Some(s) => Some(s@),
        None => None,
    }
}

/// The views of strings.
pub open spec fn strings_view(s: Seq<String>) -> Seq<Seq<char>> {
    Seq::new(s.len(), |i: int| s[i]@)
}

/// Storing `content` as a new normal appearance of the annotation
/// `annot`, under the next number, and pointing its `/AP /N` at it.
pub open spec fn write_appearance_v(
    ov: Seq<(ObjectId, ObjV)>,
    base: Seq<(ObjectId, ObjV)>,
    next: u32,
    annot: ObjectId,
    content: Seq<u8>,
    rect: Rectangle,
) -> (Seq<(ObjectId, ObjV)>, u32, Result<(), EditorError>) {
    let ap = id_at(next as int);
    let ov1 = table_set(ov, ap, appearance_v(content, rect));
    match dict_of(obj_in(ov1, base, annot)) {
        None => (ov1, (next + 1) as u32, Err(EditorError::UnresolvedObject(annot.number, annot.generation))),
        Some(d) => (
            table_set(ov1, annot, ObjV::Dict(entries_set(d, "AP"@, ObjV::Dict(entries_set(Seq::empty(), "N"@, ref_v(ap)))))),
            (next + 1) as u32,
            Ok(()),
        ),
    }
}

/// A stamp annotation (ISO 32000-1 12.5.6.12) over `rect` labelled
/// `label`, printable.
pub open spec fn stamp_v(rect: Rectangle, label: Seq<char>) -> ObjV {
    let s1 = entries_set(entries_set(Seq::empty(), "Type"@, ObjV::Name("Annot"@)), "Subtype"@, ObjV::Name("Stamp"@));
    let s2 = entries_set(entries_set(s1, "Rect"@, rect_v(rect)), "Name"@, ObjV::Name("Draft"@));
    ObjV::Dict(entries_set(entries_set(s2, "Contents"@, text_v(label)), "F"@, ObjV::Integer(4)))
}

/// Adding a stamp over `rect` labelled `label` to the page at
/// `page_index`, with `content` as its appearance: the stamp takes the
/// next number, its appearance the one after, and it is added to the
/// page's `/Annots`.
pub open spec fn add_stamp_v(doc: &EditableDocument, page_index: usize, rect: Rectangle, label: Seq<char>, content: Seq<u8>) -> (
    Seq<(ObjectId, ObjV)>,
    u32,
    Result<ObjectId, EditorError>,
) {
    let ov = doc.overlay_v();
    let next = doc.next_number();
    match page_at(doc.spec_page_ids(), page_index) {
        Err(e) => (ov, next, Err(e)),
        Ok(page) => {
            let a = id_at(next as int);
            let ov1 = table_set(ov, a, stamp_v(rect, label));
            let (ov2, next2, r2) = write_appearance_v(ov1, doc.base_v(), (next + 1) as u32, a, content, rect);
            match r2 {
                Err(e) => (ov2, next2, Err(e)),
                Ok(_) => {
                    let (ov3, r3) = annot_add_v(ov2, doc.base_v(), page, a);
                    (
                        ov3,
                        next2,
                        match r3 {
                            Ok(_) => Ok(a),
                            Err(e) => Err(e),
                        },
                    )
                },
            }
        },
    }
}

/// The rectangle with the corners `r`.
pub open spec fn rect_at(r: (int, int, int, int)) -> Rectangle {
    Rectangle {
        llx: PdfReal { micros: r.0 as i64 },
        lly: PdfReal { micros: r.1 as i64 },
        urx: PdfReal { micros: r.2 as i64 },
        ury: PdfReal { micros: r.3 as i64 },
    }
}

/// Setting the `/Contents` of the annotation `annot` to `text`; a
/// `FreeText` annotation, whose contents are what it shows, with a
/// readable `/Rect` also gets `content` as its new appearance (see
/// `write_appearance_v`).
pub open spec fn edit_contents_v(
    ov: Seq<(ObjectId, ObjV)>,
    base: Seq<(ObjectId, ObjV)>,
    next: u32,
    annot: ObjectId,
    text: Seq<char>,
    content: Seq<u8>,
) -> (Seq<(ObjectId, ObjV)>, u32, Result<(), EditorError>) {
    match dict_of(obj_in(ov, base, annot)) {
        None => (ov, next, Err(EditorError::UnresolvedObject(annot.number, annot.generation))),
        Some(d) => {
            let d1 = entries_set(d, "Contents"@, text_v(text));
            let ov1 = table_set(ov, annot, ObjV::Dict(d1));
            let freetext = entries_get(d1, "Subtype"@) == Some(ObjV::Name("FreeText"@));
            let rect = match entries_get(d1, "Rect"@) {
                Some(o) => crate::util::rect_of(o),
                None => None,
            };
            if freetext && rect is Some {
                write_appearance_v(ov1, base, next, annot, content, rect_at(rect->0))
            } else {
                (ov1, next, Ok(()))
            }
        },
    }
}

impl EditableDocument {
    /// Stores `content` as a new appearance of `annot` (see
    /// `write_appearance_v`).
    pub(crate) fn write_annotation_appearance(&mut self, annot: ObjectId, content: &[u8], rect: Rectangle) -> (r: Result<(), EditorError>)
        requires
            old(self).wf(),
            old(self).next_number() < u32::MAX,
        ensures
            final(self).wf(),
            final(self).same_but_overlay_next(old(self)),
            (final(self).overlay_v(), final(self).next_number(), r) == write_appearance_v(
                old(self).overlay_v(),
                old(self).base_v(),
                old(self).next_number(),
                annot,
                content@,
                rect,
            ),
    {
        let ghost pre = *self;
        let ap_id = self.allocate_id();
        proof {
            assert forall|x: ObjectId| self.object(x) is Some implies x.number < ap_id.number by {
                assert(self.object(x) == pre.object(x));
            }
        }
        self.set_object(ap_id, Object::Stream(appearance_xobject(content, rect)));
        let mut dict = match self.get_dictionary(annot) {
            Ok(d) => d,
            Err(e) => {
                return Err(e);
            },
        };
        proof {
            self.lemma_stored_below_next(annot);
        }
        let mut ap = PdfDictionary::new();
        assert(ap.view_entries() =~= Seq::<(Seq<char>, ObjV)>::empty());
        ap.set("N", Object::Reference(ap_id));
        dict.set("AP", Object::Dictionary(ap));
        self.set_object(annot, Object::Dictionary(dict));
        Ok(())
    }

    /// Adds a stamp annotation (ISO 32000-1 12.5.6.12) labelled `label`
    /// over `rect` on the page at `page_index`; `appearance` is the
    /// content of its appearance stream. Returns its id (see
    /// `add_stamp_v`).
    pub fn add_stamp_annotation(&mut self, page_index: usize, rect: Rectangle, label: &str, appearance: &[u8]) -> (r: Result<
        ObjectId,
        EditorError,
    >)
        requires
            old(self).wf(),
            old(self).next_number() + 2 < u32::MAX,
        ensures
            final(self).wf(),
            final(self).same_but_overlay_next(old(self)),
            (final(self).overlay_v(), final(self).next_number(), r) == add_stamp_v(old(self), page_index, rect, label@, appearance@),
    {
        let ghost start = *self;
        let page_id = match self.page_id_at(page_index) {
            Ok(p) => p,
            Err(e) => {
                return Err(e);
            },
        };
        let ghost pre = *self;
        let id = self.allocate_id();
        proof {
            assert forall|x: ObjectId| self.object(x) is Some implies x.number < id.number by {
                assert(self.object(x) == pre.object(x));
            }
        }
        let mut d = PdfDictionary::new();
        assert(d.view_entries() =~= Seq::<(Seq<char>, ObjV)>::empty());
        d.set("Type", name_obj("Annot"));
        d.set("Subtype", name_obj("Stamp"));
        d.set("Rect", Object::Array(crate::util::rect_to_array(rect)));
        d.set("Name", name_obj("Draft"));
        d.set("Contents", text_obj(label));
        d.set("F", Object::Integer(4));
        self.set_object(id, Object::Dictionary(d));
        match self.write_annotation_appearance(id, appearance, rect) {
            Ok(_) => {},
            Err(e) => {
                return Err(e);
            },
        }
        let ghost pre_annot = *self;
        let r = match self.add_annot_to_page(page_id, id) {
            Ok(_) => Ok(id),
            Err(e) => Err(e),
        };
        proof {
            assert(pre_annot.object(page_id) == obj_in(pre_annot.overlay_v(), start.base_v(), page_id));
        }
        r
    }

    /// Sets the `/Contents` (comment text) of the annotation `annot_id`.
    /// A `FreeText` annotation shows its contents, so when its `/Rect`
    /// reads it also gets `freetext_appearance` as its new appearance;
    /// for any other kind that argument is not used (see
    /// `edit_contents_v`).
    pub fn edit_annotation_contents(&mut self, annot_id: ObjectId, new_contents: &str, freetext_appearance: &[u8]) -> (r: Result<
        (),
        EditorError,
    >)
        requires
            old(self).wf(),
            old(self).next_number() < u32::MAX,
        ensures
            final(self).wf(),
            final(self).same_but_overlay_next(old(self)),
            (final(self).overlay_v(), final(self).next_number(), r) == edit_contents_v(
                old(self).overlay_v(),
                old(self).base_v(),
                old(self).next_number(),
                annot_id,
                new_contents@,
                freetext_appearance@,
            ),
    {
        let mut dict = match self.get_dictionary(annot_id) {
            Ok(d) => d,
            Err(e) => {
                return Err(e);
            },
        };
        proof {
            self.lemma_stored_below_next(annot_id);
        }
        dict.set("Contents", text_obj(new_contents));
        let freetext = match dict.get("Subtype") {
            Some(Object::Name(n)) => crate::object::str_eq(n.as_str(), "FreeText"),
            _ => false,
        };
        let rect = match dict.get("Rect") {
            Some(o) => crate::util::rect_from_object(o),
            None => None,
        };
        self.set_object(annot_id, Object::Dictionary(dict));
        if freetext {
            match rect {
                Some(rc) => {
                    proof {
                        assert(rc == rect_at(crate::util::rect_of(entries_get(dict.view_entries(), "Rect"@)->0)->0));
                    }
                    return self.write_annotation_appearance(annot_id, freetext_appearance, rc);
                },
                None => {},
            }
        }
        Ok(())
    }
}

/// Once appending references fails, later ones are not tried.
proof fn lemma_annots_add_err(ov: Seq<(ObjectId, ObjV)>, base: Seq<(ObjectId, ObjV)>, page: ObjectId, ids: Seq<ObjectId>, n: int)
    requires
        0 < n <= ids.len(),
        annots_add_v(ov, base, page, ids.take(n)).1 is Err,
    ensures
        annots_add_v(ov, base, page, ids) == annots_add_v(ov, base, page, ids.take(n)),
    decreases ids.len() - n,
{
    if n < ids.len() {
        assert(ids.take(n + 1).drop_last() =~= ids.take(n));
        lemma_annots_add_err(ov, base, page, ids, n + 1);
    } else {
        assert(ids.take(n) =~= ids);
    }
}

/// The options' views: export value and rectangle.
pub open spec fn options_view(options: Seq<(String, Rectangle)>) -> Seq<(Seq<char>, Rectangle)> {
    Seq::new(options.len(), |i: int| (options[i].0@, options[i].1))
}

/// The appearance contents' views.
pub open spec fn apps_view(apps: Seq<Vec<u8>>) -> Seq<Seq<u8>> {
    Seq::new(apps.len(), |i: int| apps[i]@)
}



/// `v` moved by `d` millionths.
pub open spec fn shifted(v: PdfReal, d: int) -> PdfReal {
    PdfReal { micros: (v.micros + d) as i64 }
}

/// The 20-point icon square of a text note placed at `at`.
pub open spec fn icon_rect(at: (PdfReal, PdfReal)) -> Rectangle {
    Rectangle { llx: at.0, lly: at.1, urx: shifted(at.0, 20000000), ury: shifted(at.1, 20000000) }
}

/// The 200 by 100 point popup beside a text note placed at `at`.
pub open spec fn comment_popup_rect(at: (PdfReal, PdfReal)) -> Rectangle {
    Rectangle { llx: shifted(at.0, 24000000), lly: at.1, urx: shifted(at.0, 224000000), ury: shifted(at.1, 100000000) }
}

/// The bytes of the text note icon's appearance.
pub open spec fn note_icon_bytes() -> Seq<u8> {
    "q\n1 0.92 0.4 rg\n0 0 0 RG\n0.75 w\n2 2 16 14 re B\n0 0 0 RG\n0.5 w\n4 12 m 14 12 l S\n4 9 m 14 9 l S\n4 6 m 11 6 l S\nQ\n".spec_bytes()
}

/// A text note (ISO 32000-1 12.5.6.4) at `at` holding `contents`, with
/// the comment icon, a link to its popup and, when given, an author.
pub open spec fn note_v(at: (PdfReal, PdfReal), contents: Seq<char>, popup: ObjectId, author: Option<Seq<char>>) -> ObjV {
    let n1 = entries_set(entries_set(Seq::empty(), "Type"@, ObjV::Name("Annot"@)), "Subtype"@, ObjV::Name("Text"@));
    let n2 = entries_set(entries_set(n1, "Rect"@, rect_v(icon_rect(at))), "Contents"@, text_v(contents));
    let n3 = entries_set(entries_set(n2, "Name"@, ObjV::Name("Comment"@)), "Popup"@, ref_v(popup));
    let n4 = entries_set(n3, "F"@, ObjV::Integer(4));
    ObjV::Dict(
        match author {
            Some(a) => entries_set(n4, "T"@, text_v(a)),
            None => n4,
        },
    )
}

/// Adding a comment at `at` to the page at `page_index`: a text note
/// under the next number, its closed popup under the one after, the
/// icon's appearance after that, and both annotations added to the
/// page's `/Annots`, note first. The edited objects, the next number and
/// the result.
pub open spec fn add_comment_v(
    doc: &EditableDocument,
    page_index: usize,
    at: (PdfReal, PdfReal),
    contents: Seq<char>,
    author: Option<Seq<char>>,
) -> (Seq<(ObjectId, ObjV)>, u32, Result<(ObjectId, ObjectId), EditorError>) {
    let ov = doc.overlay_v();
    let next = doc.next_number();
    match page_at(doc.spec_page_ids(), page_index) {
        Err(e) => (ov, next, Err(e)),
        Ok(page) => {
            let n = id_at(next as int);
            let p = id_at(next + 1);
            let ov1 = table_set(ov, p, popup_v(comment_popup_rect(at), n, false));
            let ov2 = table_set(ov1, n, note_v(at, contents, p, author));
            let (ov3, next3, r3) = write_appearance_v(ov2, doc.base_v(), (next + 2) as u32, n, note_icon_bytes(), icon_rect(at));
            match r3 {
                Err(e) => (ov3, next3, Err(e)),
                Ok(_) => {
                    let (ov4, r4) = annot_add_v(ov3, doc.base_v(), page, n);
                    match r4 {
                        Err(e) => (ov4, next3, Err(e)),
                        Ok(_) => {
                            let (ov5, r5) = annot_add_v(ov4, doc.base_v(), page, p);
                            (
                                ov5,
                                next3,
                                match r5 {
                                    Ok(_) => Ok((n, p)),
                                    Err(e) => Err(e),
                                },
                            )
                        },
                    }
                },
            }
        },
    }
}

/// The optional author's view.
pub open spec fn author_view(a: Option<&str>) -> Option<Seq<char>> {
    match a {
        Some(s) => Some(s@),
        None => None,
    }
}

impl EditableDocument {
    /// Adds a comment: a text note ("sticky note", ISO 32000-1 12.5.6.4)
    /// with a 20-point icon at `at` on the page at `page_index`, holding
    /// `contents` and, when given, `author`, linked to a closed popup
    /// beside it. Returns the note's and the popup's ids (see
    /// `add_comment_v`).
    pub fn add_comment(&mut self, page_index: usize, at: (PdfReal, PdfReal), contents: &str, author: Option<&str>) -> (r: Result<
        (ObjectId, ObjectId),
        EditorError,
    >)
        requires
            old(self).wf(),
            old(self).next_number() + 3 < u32::MAX,
            at.0.micros + 224000000 <= i64::MAX,
            at.1.micros + 100000000 <= i64::MAX,
        ensures
            final(self).wf(),
            final(self).same_but_overlay_next(old(self)),
            (final(self).overlay_v(), final(self).next_number(), r) == add_comment_v(
                old(self),
                page_index,
                at,
                contents@,
                author_view(author),
            ),
    {
        let ghost start = *self;
        let page_id = match self.page_id_at(page_index) {
            Ok(p) => p,
            Err(e) => {
                return Err(e);
            },
        };
        let x = at.0;
        let y = at.1;
        let icon = Rectangle {
            llx: x,
            lly: y,
            urx: PdfReal { micros: x.micros + 20000000 },
            ury: PdfReal { micros: y.micros + 20000000 },
        };
        let popup_rect = Rectangle {
            llx: PdfReal { micros: x.micros + 24000000 },
            lly: y,
            urx: PdfReal { micros: x.micros + 224000000 },
            ury: PdfReal { micros: y.micros + 100000000 },
        };
        let ghost pre = *self;
        let note_id = self.allocate_id();
        let popup_id = self.allocate_id();
        proof {
            assert forall|q: ObjectId| self.object(q) is Some implies q.number < note_id.number by {
                assert(self.object(q) == pre.object(q));
            }
        }
        let mut popup = PdfDictionary::new();
        assert(popup.view_entries() =~= Seq::<(Seq<char>, ObjV)>::empty());
        popup.set("Type", name_obj("Annot"));
        popup.set("Subtype", name_obj("Popup"));
        popup.set("Rect", Object::Array(crate::util::rect_to_array(popup_rect)));
        popup.set("Parent", Object::Reference(note_id));
        popup.set("Open", Object::Boolean(false));
        let ghost pv = Object::Dictionary(popup).v();
        let ghost b0 = *self;
        self.set_object(popup_id, Object::Dictionary(popup));
        proof {
            self.lemma_object_after_set(&b0, popup_id, pv);
        }
        let mut note = PdfDictionary::new();
        assert(note.view_entries() =~= Seq::<(Seq<char>, ObjV)>::empty());
        note.set("Type", name_obj("Annot"));
        note.set("Subtype", name_obj("Text"));
        note.set("Rect", Object::Array(crate::util::rect_to_array(icon)));
        note.set("Contents", text_obj(contents));
        note.set("Name", name_obj("Comment"));
        note.set("Popup", Object::Reference(popup_id));
        note.set("F", Object::Integer(4));
        match author {
            Some(a) => {
                note.set("T", text_obj(a));
            },
            None => {},
        }
        self.set_object(note_id, Object::Dictionary(note));
        let appearance = crate::annotations::note_icon_appearance();
        let bytes = appearance.as_str().as_bytes();
        match self.write_annotation_appearance(note_id, bytes, icon) {
            Ok(_) => {},
            Err(e) => {
                return Err(e);
            },
        }
        let ghost pre_annot = *self;
        match self.add_annot_to_page(page_id, note_id) {
            Ok(_) => {},
            Err(e) => {
                proof {
                    assert(pre_annot.object(page_id) == obj_in(pre_annot.overlay_v(), start.base_v(), page_id));
                }
                return Err(e);
            },
        }
        let ghost mid = *self;
        let r = match self.add_annot_to_page(page_id, popup_id) {
            Ok(_) => Ok((note_id, popup_id)),
            Err(e) => Err(e),
        };
        proof {
            assert(pre_annot.object(page_id) == obj_in(pre_annot.overlay_v(), start.base_v(), page_id));
            assert(mid.object(page_id) == obj_in(mid.overlay_v(), start.base_v(), page_id));
        }
        r
    }
}

} // verus!
