//! Output intents (ISO 32000-1 14.11.5): embedding an ICC profile as the
//! colour characterisation a conforming reader renders against.
use vstd::prelude::*;
use crate::form_create::{id_at, name_obj, text_obj, text_v};
use crate::graph::{dict_of, ref_id, table_set, EditableDocument, EditorError};
use crate::icc::{OutputIntentInfo, spec_component_count, spec_validate_icc_header, validate_icc_header, IccColorSpace, OutputIntentSubtype};
use crate::object::{view_objs, copy_array, entries_get, entries_set, slice_to_vec_u8, ObjV, Object, ObjectId, PdfArray, PdfDictionary, PdfStream};
use crate::outline::obj_in;
use crate::pages::ref_v;
use crate::util::text_of_bytes;

verus! {

/// The `/Alternate` device space named for `cs`.
pub open spec fn alternate_v(cs: IccColorSpace) -> Seq<char> {
    match cs {
        IccColorSpace::Gray => "DeviceGray"@,
        IccColorSpace::Rgb => "DeviceRGB"@,
        IccColorSpace::Cmyk => "DeviceCMYK"@,
    }
}

/// The `/S` name of an output-intent subtype.
pub open spec fn subtype_v(s: OutputIntentSubtype) -> Seq<char> {
    match s {
        OutputIntentSubtype::PdfA => "GTS_PDFA1"@,
        OutputIntentSubtype::PdfX => "GTS_PDFX"@,
    }
}

/// The embedded profile: a stream of the profile's bytes with its
/// component count `/N` and `/Alternate` space.
pub open spec fn profile_v(cs: IccColorSpace, data: Seq<u8>) -> ObjV {
    ObjV::Stream(
        entries_set(entries_set(Seq::empty(), "N"@, ObjV::Integer(spec_component_count(cs))), "Alternate"@, ObjV::Name(alternate_v(cs))),
        data,
    )
}

/// The output-intent dictionary pointing at the profile `profile`.
pub open spec fn intent_v(subtype: OutputIntentSubtype, identifier: Seq<char>, condition: Seq<char>, profile: ObjectId) -> ObjV {
    let e1 = entries_set(entries_set(Seq::empty(), "Type"@, ObjV::Name("OutputIntent"@)), "S"@, ObjV::Name(subtype_v(subtype)));
    let e2 = entries_set(entries_set(e1, "OutputConditionIdentifier"@, text_v(identifier)), "OutputCondition"@, text_v(condition));
    ObjV::Dict(entries_set(e2, "DestOutputProfile"@, ref_v(profile)))
}

/// Adding an output intent for the profile `icc`: refused when the
/// profile's header does not validate; else the profile takes the next
/// number, the intent the one after, and a reference to the intent is
/// appended to the catalog's `/OutputIntents` (a new array when that is
/// not an array). The edited objects, the next number and the result.
pub open spec fn add_output_intent_v(
    doc: &EditableDocument,
    icc: Seq<u8>,
    subtype: OutputIntentSubtype,
    identifier: Seq<char>,
    condition: Seq<char>,
) -> (Seq<(ObjectId, ObjV)>, u32, Result<ObjectId, EditorError>) {
    let ov = doc.overlay_v();
    let next = doc.next_number();
    match spec_validate_icc_header(icc) {
        Err(e) => (ov, next, Err(EditorError::InvalidIccProfile(e))),
        Ok(cs) => {
            let p = id_at(next as int);
            let o = id_at(next + 1);
            let ov1 = table_set(table_set(ov, p, profile_v(cs, icc)), o, intent_v(subtype, identifier, condition, p));
            let root = doc.root_id();
            match dict_of(obj_in(ov1, doc.base_v(), root)) {
                None => (ov1, (next + 2) as u32, Err(EditorError::UnresolvedObject(root.number, root.generation))),
                Some(c) => {
                    let intents = match entries_get(c, "OutputIntents"@) {
                        Some(ObjV::Array(a)) => a,
                        _ => Seq::empty(),
                    };
                    (
                        table_set(ov1, root, ObjV::Dict(entries_set(c, "OutputIntents"@, ObjV::Array(intents.push(ref_v(o)))))),
                        (next + 2) as u32,
                        Ok(o),
                    )
                },
            }
        },
    }
}

impl EditableDocument {
    /// Embeds `icc_profile` as a new output intent (ISO 32000-1 14.11.5)
    /// of kind `subtype` and appends it to the catalog's
    /// `/OutputIntents`, creating that array for the first one.
    /// `identifier` is the `/OutputConditionIdentifier`, `condition` the
    /// free-text `/OutputCondition`. Returns the intent's id (see
    /// `add_output_intent_v`).
    pub fn add_output_intent(&mut self, icc_profile: &[u8], subtype: OutputIntentSubtype, identifier: &str, condition: &str) -> (r:
        Result<ObjectId, EditorError>)
        requires
            old(self).wf(),
            old(self).next_number() + 2 < u32::MAX,
        ensures
            final(self).wf(),
            final(self).same_but_overlay_next(old(self)),
            (final(self).overlay_v(), final(self).next_number(), r) == add_output_intent_v(
                old(self),
                icc_profile@,
                subtype,
                identifier@,
                condition@,
            ),
    {
        let ghost start = *self;
        let color_space = match validate_icc_header(icc_profile) {
            Ok(cs) => cs,
            Err(e) => {
                return Err(EditorError::InvalidIccProfile(e));
            },
        };
        let mut profile_dict = PdfDictionary::new();
        assert(profile_dict.view_entries() =~= Seq::<(Seq<char>, ObjV)>::empty());
        profile_dict.set("N", Object::Integer(color_space.component_count()));
        profile_dict.set("Alternate", name_obj(color_space.alternate_device_space()));
        let profile = PdfStream::with_dictionary(profile_dict, slice_to_vec_u8(icc_profile));
        assert(Object::Stream(profile).v() == profile_v(color_space, icc_profile@));
        let ghost pre = *self;
        let profile_id = self.allocate_id();
        proof {
            assert forall|x: ObjectId| self.object(x) is Some && x.number == profile_id.number implies x == profile_id by {
                assert(self.object(x) == pre.object(x));
            }
        }
        self.set_object(profile_id, Object::Stream(profile));
        let mut oi = PdfDictionary::new();
        assert(oi.view_entries() =~= Seq::<(Seq<char>, ObjV)>::empty());
        oi.set("Type", name_obj("OutputIntent"));
        oi.set("S", name_obj(subtype.as_name()));
        oi.set("OutputConditionIdentifier", text_obj(identifier));
        oi.set("OutputCondition", text_obj(condition));
        oi.set("DestOutputProfile", Object::Reference(profile_id));
        assert(Object::Dictionary(oi).v() == intent_v(subtype, identifier@, condition@, profile_id));
        let ghost pre2 = *self;
        let oi_id = self.allocate_id();
        proof {
            assert forall|x: ObjectId| self.object(x) is Some && x.number == oi_id.number implies x == oi_id by {
                assert(self.object(x) == pre2.object(x));
                if x == profile_id {
                    assert(false);
                }
            }
        }
        self.set_object(oi_id, Object::Dictionary(oi));
        let mut catalog = match self.catalog() {
            Ok(c) => c,
            Err(e) => {
                return Err(e);
            },
        };
        assert(self.overlay_v() == table_set(table_set(start.overlay_v(), profile_id, profile_v(color_space, icc_profile@)), oi_id, intent_v(subtype, identifier@, condition@, profile_id)));
        let mut intents = match catalog.get("OutputIntents") {
            Some(Object::Array(a)) => copy_array(a),
            _ => PdfArray::new(),
        };
        let ghost ov1 = self.overlay_v();
        let ghost c = catalog.view_entries();
        assert(dict_of(obj_in(ov1, start.base_v(), start.root_id())) == Some(c));
        let ghost spec_intents = match entries_get(c, "OutputIntents"@) {
            Some(ObjV::Array(a)) => a,
            _ => Seq::empty(),
        };
        assert(intents.view_items() == spec_intents);
        let ghost before_push = intents.items@;
        intents.push(Object::Reference(oi_id));
        assert(intents.items@.drop_last() =~= before_push);
        assert(intents.items@.last() == Object::Reference(oi_id));
        assert(view_objs(intents.items@) == view_objs(before_push).push(Object::Reference(oi_id).v()));
        assert(Object::Array(intents).v() == ObjV::Array(view_objs(intents.items@)));
        assert(Object::Array(intents).v() == ObjV::Array(spec_intents.push(ref_v(oi_id))));
        catalog.set("OutputIntents", Object::Array(intents));
        let cat_id = self.catalog_id();
        proof {
            self.lemma_root_stored();
            self.lemma_stored_below_next(cat_id);
        }
        self.set_object(cat_id, Object::Dictionary(catalog));
        Ok(oi_id)
    }
}

/// A listed output intent's values: `/S`, `/OutputConditionIdentifier`,
/// whether the profile validates, and its colour space.
pub type IntentV = (Seq<char>, Option<Seq<char>>, bool, Option<IccColorSpace>);

/// What the profile `/DestOutputProfile` of the intent `d` names gives:
/// whether it is a stream whose bytes, stored without a `/Filter`, pass
/// the header check, and the colour space they declare.
pub open spec fn profile_check_v(doc: &EditableDocument, d: Seq<(Seq<char>, ObjV)>) -> (bool, Option<IccColorSpace>) {
    match entries_get(d, "DestOutputProfile"@) {
        Some(ObjV::Reference(n, g)) => match doc.object(ref_id(n, g)) {
            Some(ObjV::Stream(sd, data)) => if entries_get(sd, "Filter"@) is Some {
                (false, None)
            } else {
                match spec_validate_icc_header(data) {
                    Ok(cs) => (true, Some(cs)),
                    Err(_) => (false, None),
                }
            },
            _ => (false, None),
        },
        _ => (false, None),
    }
}

/// The listed values of one element of `/OutputIntents`: none unless it
/// refers to a dictionary.
pub open spec fn intent_entry_v(doc: &EditableDocument, e: ObjV) -> Option<IntentV> {
    match e {
        ObjV::Reference(n, g) => match doc.dict(ref_id(n, g)) {
            Some(d) => Some(
                (
                    match entries_get(d, "S"@) {
                        Some(ObjV::Name(s)) => s,
                        _ => Seq::empty(),
                    },
                    match entries_get(d, "OutputConditionIdentifier"@) {
                        Some(ObjV::Str(_, b)) => Some(text_of_bytes(b)),
                        _ => None,
                    },
                    profile_check_v(doc, d).0,
                    profile_check_v(doc, d).1,
                ),
            ),
            None => None,
        },
        _ => None,
    }
}

/// The listed values of the elements `es`, in order, passing over those
/// that do not refer to a dictionary.
pub open spec fn intents_v(doc: &EditableDocument, es: Seq<ObjV>) -> Seq<IntentV>
    decreases es.len(),
{
    if es.len() == 0 {
        Seq::empty()
    } else {
        let rest = intents_v(doc, es.drop_last());
        match intent_entry_v(doc, es.last()) {
            Some(i) => rest.push(i),
            None => rest,
        }
    }
}

/// The values of a listed output intent.
pub open spec fn info_v(i: OutputIntentInfo) -> IntentV {
    (
        i.subtype@,
        match i.identifier {
            Some(s) => Some(s@),
            None => None,
        },
        i.has_valid_icc_profile,
        i.color_space,
    )
}

/// The catalog's `/OutputIntents` elements, none when it is not an array.
pub open spec fn catalog_intents(c: Seq<(Seq<char>, ObjV)>) -> Seq<ObjV> {
    match entries_get(c, "OutputIntents"@) {
        Some(ObjV::Array(a)) => a,
        _ => Seq::empty(),
    }
}

impl EditableDocument {
    /// Whether the profile the intent dictionary `dict` names validates,
    /// and its colour space (see `profile_check_v`).
    fn check_profile(&self, dict: &PdfDictionary) -> (r: (bool, Option<IccColorSpace>))
        ensures
            r == profile_check_v(self, dict.view_entries()),
    {
        match dict.get("DestOutputProfile") {
            Some(Object::Reference(profile_id)) => match self.get_object(*profile_id) {
                Some(Object::Stream(s)) => {
                    if s.dictionary.get("Filter").is_some() {
                        return (false, None);
                    }
                    match validate_icc_header(s.data.as_slice()) {
                        Ok(cs) => (true, Some(cs)),
                        Err(_) => (false, None),
                    }
                },
                _ => (false, None),
            },
            _ => (false, None),
        }
    }

    /// Reads back every output intent of the catalog's `/OutputIntents`
    /// that refers to a dictionary, in order. A profile stored with a
    /// `/Filter` is reported as not validating: this library does not
    /// decode filters.
    pub fn output_intents(&self) -> (r: Result<Vec<OutputIntentInfo>, EditorError>)
        ensures
            match self.dict(self.root_id()) {
                None => r == Err::<Vec<OutputIntentInfo>, EditorError>(
                    EditorError::UnresolvedObject(self.root_id().number, self.root_id().generation),
                ),
                Some(c) => r matches Ok(v) && Seq::new(v@.len(), |i: int| info_v(v@[i])) == intents_v(self, catalog_intents(c)),
            },
    {
        let catalog = match self.catalog() {
            Ok(c) => c,
            Err(e) => {
                return Err(e);
            },
        };
        let mut out: Vec<OutputIntentInfo> = Vec::new();
        let intents = match catalog.get("OutputIntents") {
            Some(Object::Array(a)) => a,
            _ => {
                assert(Seq::new(out@.len(), |i: int| info_v(out@[i])) =~= intents_v(self, Seq::empty()));
                return Ok(out);
            },
        };
        let ghost es = intents.view_items();
        proof {
            crate::object::lemma_view_objs(intents.items@);
        }
        let mut i: usize = 0;
        while i < intents.len()
            invariant
                i <= intents.items@.len(),
                es == intents.view_items(),
                es.len() == intents.items@.len(),
                forall|k: int| 0 <= k < es.len() ==> #[trigger] es[k] == intents.items@[k].v(),
                Seq::new(out@.len(), |k: int| info_v(out@[k])) == intents_v(self, es.take(i as int)),
            decreases intents.items@.len() - i,
        {
            let ghost before = Seq::new(out@.len(), |k: int| info_v(out@[k]));
            assert(es.take(i as int + 1).drop_last() =~= es.take(i as int));
            let entry = intents.get(i).unwrap();
            match entry {
                Object::Reference(id) => match self.get_dictionary(*id) {
                    Ok(dict) => {
                        let subtype = match dict.get("S") {
                            Some(Object::Name(n)) => String::from_str(n.as_str()),
                            _ => String::new(),
                        };
                        let identifier = match dict.get("OutputConditionIdentifier") {
                            Some(Object::String(s)) => Some(crate::util::from_pdf_text_string(s)),
                            _ => None,
                        };
                        let (valid, space) = self.check_profile(&dict);
                        out.push(OutputIntentInfo { subtype, identifier, has_valid_icc_profile: valid, color_space: space });
                        assert(Seq::new(out@.len(), |k: int| info_v(out@[k])) =~= before.push(
                            intent_entry_v(self, es[i as int])->0,
                        ));
                    },
                    Err(_) => {},
                },
                _ => {},
            }
            i = i + 1;
        }
        assert(es.take(i as int) =~= es);
        Ok(out)
    }
}

/// Adding an output intent and reading the intents back lists it last:
/// its subtype, its identifier, a profile that validates and the
/// profile's colour space.
pub proof fn lemma_output_intent_reads_back(
    before: &EditableDocument,
    after: &EditableDocument,
    icc: Seq<u8>,
    subtype: OutputIntentSubtype,
    identifier: Seq<char>,
    condition: Seq<char>,
)
    requires
        before.wf(),
        before.next_number() + 2 < u32::MAX,
        after.same_but_overlay_next(before),
        add_output_intent_v(before, icc, subtype, identifier, condition).2 is Ok,
        after.overlay_v() == add_output_intent_v(before, icc, subtype, identifier, condition).0,
    ensures
        after.dict(after.root_id()) matches Some(c) && intents_v(after, catalog_intents(c)).len() > 0 && intents_v(
            after,
            catalog_intents(c),
        ).last() == (
            subtype_v(subtype),
            Some(identifier),
            true,
            Some(spec_validate_icc_header(icc)->Ok_0),
        ),
{
    reveal_strlit("S");
    reveal_strlit("Type");
    reveal_strlit("OutputConditionIdentifier");
    reveal_strlit("OutputCondition");
    reveal_strlit("DestOutputProfile");
    reveal_strlit("Filter");
    reveal_strlit("N");
    reveal_strlit("Alternate");
    reveal_strlit("OutputIntents");
    let base = before.base_v();
    let ov = before.overlay_v();
    let next = before.next_number();
    let cs = spec_validate_icc_header(icc)->Ok_0;
    let p = id_at(next as int);
    let o = id_at(next + 1);
    let root = before.root_id();
    before.lemma_root_stored();
    before.lemma_stored_below_next(root);
    assert(p != root && o != root && p != o);
    let prof = profile_v(cs, icc);
    let intent = intent_v(subtype, identifier, condition, p);
    let ov0 = table_set(ov, p, prof);
    let ov1 = table_set(ov0, o, intent);
    crate::outline::lemma_obj_in_set(ov, base, p, prof, root);
    crate::outline::lemma_obj_in_set(ov0, base, o, intent, root);
    let c = dict_of(obj_in(ov1, base, root))->0;
    let es = catalog_intents(c);
    let c2 = entries_set(c, "OutputIntents"@, ObjV::Array(es.push(ref_v(o))));
    let ov2 = table_set(ov1, root, ObjV::Dict(c2));
    assert(after.overlay_v() == ov2);
    crate::outline::lemma_obj_in_set(ov1, base, root, ObjV::Dict(c2), root);
    assert(after.dict(root) == Some(c2));
    crate::object::lemma_entries_get_set(c, "OutputIntents"@, ObjV::Array(es.push(ref_v(o))), "OutputIntents"@);
    assert(catalog_intents(c2) == es.push(ref_v(o)));
    assert(es.push(ref_v(o)).drop_last() =~= es);
    // The intent dictionary and the profile as stored after the edit.
    crate::outline::lemma_obj_in_set(ov1, base, root, ObjV::Dict(c2), o);
    crate::outline::lemma_obj_in_set(ov0, base, o, intent, o);
    assert(after.object(o) == obj_in(ov2, base, o));
    assert(after.object(o) == Some(intent));
    crate::outline::lemma_obj_in_set(ov1, base, root, ObjV::Dict(c2), p);
    crate::outline::lemma_obj_in_set(ov0, base, o, intent, p);
    crate::outline::lemma_obj_in_set(ov, base, p, prof, p);
    assert(after.object(p) == obj_in(ov2, base, p));
    assert(after.object(p) == Some(prof));
    let e1 = entries_set(entries_set(Seq::empty(), "Type"@, ObjV::Name("OutputIntent"@)), "S"@, ObjV::Name(subtype_v(subtype)));
    let e1b = entries_set(e1, "OutputConditionIdentifier"@, text_v(identifier));
    let e2 = entries_set(e1b, "OutputCondition"@, text_v(condition));
    let e3 = entries_set(e2, "DestOutputProfile"@, ref_v(p));
    assert("S"@.len() == 1 && "OutputConditionIdentifier"@.len() == 25 && "OutputCondition"@.len() == 15);
    assert("DestOutputProfile"@.len() == 17 && "Filter"@.len() == 6 && "N"@.len() == 1 && "Alternate"@.len() == 9);
    crate::object::lemma_entries_get_set(entries_set(Seq::empty(), "Type"@, ObjV::Name("OutputIntent"@)), "S"@, ObjV::Name(subtype_v(subtype)), "S"@);
    crate::object::lemma_entries_get_set(e1, "OutputConditionIdentifier"@, text_v(identifier), "S"@);
    crate::object::lemma_entries_get_set(e1, "OutputConditionIdentifier"@, text_v(identifier), "OutputConditionIdentifier"@);
    crate::object::lemma_entries_get_set(e1b, "OutputCondition"@, text_v(condition), "S"@);
    crate::object::lemma_entries_get_set(e1b, "OutputCondition"@, text_v(condition), "OutputConditionIdentifier"@);
    crate::object::lemma_entries_get_set(e2, "DestOutputProfile"@, ref_v(p), "S"@);
    crate::object::lemma_entries_get_set(e2, "DestOutputProfile"@, ref_v(p), "OutputConditionIdentifier"@);
    crate::object::lemma_entries_get_set(e2, "DestOutputProfile"@, ref_v(p), "DestOutputProfile"@);
    assert(entries_get(e3, "S"@) == Some(ObjV::Name(subtype_v(subtype))));
    assert(entries_get(e3, "OutputConditionIdentifier"@) == Some(text_v(identifier)));
    assert(entries_get(e3, "DestOutputProfile"@) == Some(ref_v(p)));
    crate::util::lemma_text_string_round_trip(identifier);
    let pd1 = entries_set(Seq::<(Seq<char>, ObjV)>::empty(), "N"@, ObjV::Integer(spec_component_count(cs)));
    crate::object::lemma_entries_get_set(Seq::empty(), "N"@, ObjV::Integer(spec_component_count(cs)), "Filter"@);
    crate::object::lemma_entries_get_set(pd1, "Alternate"@, ObjV::Name(alternate_v(cs)), "Filter"@);
    assert(entries_get(entries_set(pd1, "Alternate"@, ObjV::Name(alternate_v(cs))), "Filter"@) is None);
    assert(profile_check_v(after, e3) == (true, Some(cs)));
    assert(intent_entry_v(after, ref_v(o)) == Some((subtype_v(subtype), Some(identifier), true, Some(cs))));
}

/// The colorants of a device colour space (ISO 32000-1 8.6.4): gray;
/// red, green and blue; cyan, magenta, yellow and black.
pub open spec fn device_colorants(space: Seq<char>) -> Seq<Seq<char>> {
    if space == "DeviceGray"@ {
        seq!["Gray"@]
    } else if space == "DeviceRGB"@ {
        seq!["Red"@, "Green"@, "Blue"@]
    } else if space == "DeviceCMYK"@ {
        seq!["Cyan"@, "Magenta"@, "Yellow"@, "Black"@]
    } else {
        Seq::empty()
    }
}

/// An embedded ICC profile stream declares, as `/N`, as many components
/// as its `/Alternate` device space has colorants (ISO 32000-1
/// 8.6.5.5): one for a gray profile, three for RGB, four for CMYK; and
/// the component count of every colour space is that number.
pub proof fn lemma_profile_components_match_alternate(cs: IccColorSpace, data: Seq<u8>)
    ensures
        spec_component_count(cs) == device_colorants(alternate_v(cs)).len(),
        profile_v(cs, data) matches ObjV::Stream(d, body) && body == data && entries_get(d, "Alternate"@) == Some(
            ObjV::Name(alternate_v(cs)),
        ) && entries_get(d, "N"@) == Some(ObjV::Integer(device_colorants(alternate_v(cs)).len() as i64)),
{
    reveal_strlit("DeviceGray");
    reveal_strlit("DeviceRGB");
    reveal_strlit("DeviceCMYK");
    reveal_strlit("N");
    reveal_strlit("Alternate");
    assert("DeviceGray"@ != "DeviceRGB"@ && "DeviceGray"@ != "DeviceCMYK"@ && "DeviceRGB"@ != "DeviceCMYK"@) by {
        assert("DeviceGray"@.len() != "DeviceRGB"@.len());
        assert("DeviceGray"@[6] != "DeviceCMYK"@[6]);
        assert("DeviceRGB"@.len() != "DeviceCMYK"@.len());
    }
    assert("N"@ != "Alternate"@) by {
        assert("N"@.len() != "Alternate"@.len());
    }
    let d1 = entries_set(Seq::empty(), "N"@, ObjV::Integer(spec_component_count(cs)));
    crate::object::lemma_entries_get_set(Seq::empty(), "N"@, ObjV::Integer(spec_component_count(cs)), "N"@);
    crate::object::lemma_entries_get_set(d1, "Alternate"@, ObjV::Name(alternate_v(cs)), "N"@);
    crate::object::lemma_entries_get_set(d1, "Alternate"@, ObjV::Name(alternate_v(cs)), "Alternate"@);
}

} // verus!
