//! PDF/X colour-space constraint checking (ISO 15930): a print output
//! intent (`/S /GTS_PDFX` with a valid ICC profile) must be present, and
//! no page may use RGB colour through the `rg`/`RG` operators (ISO
//! 32000-1 8.6.8) or through an image XObject's `/ColorSpace`
//! (`DeviceRGB`, `CalRGB`, or a 3-component `ICCBased` space). Colour set
//! through named colour-space resources (`cs`/`scn`), shadings and
//! separations are not inspected.

use vstd::prelude::*;
use crate::content_stream::{parse_content_stream, spec_parse_content_stream, view_items, ContentItem, ItemV};
use crate::graph::{ref_id, EditableDocument, EditorError};
use crate::icc::{OutputIntentInfo, OutputIntentSubtype};
use crate::numfmt::dec;
use crate::object::{entries_get, str_eq, ObjV, Object, ObjectId, PdfDictionary};
use crate::output_intent::{catalog_intents, info_v, intents_v, IntentV};
use crate::stdtext::{debug_quoted, str_debug};
use crate::util::{ascii_text, push_dec};

verus! {

/// One PDF/X colour-space rule violation.
#[derive(Debug, Clone, PartialEq, Eq)]
pub struct PdfXViolation {
    /// Short, stable rule label.
    pub rule: &'static str,
    /// Human-readable detail (which page/object, which colour space).
    pub message: String,
}

impl PdfXViolation {
    /// A violation of `rule` with the given detail.
    pub fn new(rule: &'static str, message: &str) -> (v: PdfXViolation)
        ensures
            v.rule == rule,
            v.message@ == message@,
    {
        PdfXViolation { rule, message: String::from_str(message) }
    }
}

/// The result of a PDF/X colour validation.
#[derive(Debug, Clone)]
pub struct PdfXColorReport {
    /// Every violation found.
    pub violations: Vec<PdfXViolation>,
}

impl PdfXColorReport {
    /// `true` if no violations were found.
    pub fn is_conformant(&self) -> (b: bool)
        ensures
            b == (self.violations@.len() == 0),
    {
        self.violations.len() == 0
    }
}

/// A violation as its rule and message.
pub type ViolationV = (Seq<char>, Seq<char>);

/// The rules and messages of `v`.
pub open spec fn violations_v(v: Seq<PdfXViolation>) -> Seq<ViolationV> {
    Seq::new(v.len(), |i: int| (v[i].rule@, v[i].message@))
}

/// The rule a missing print output intent breaks.
pub open spec fn intent_rule() -> Seq<char> {
    "ISO 15930 (PDF/X output intent required)"@
}

/// The message for a missing print output intent.
pub open spec fn intent_message() -> Seq<char> {
    "no /OutputIntents entry with /S /GTS_PDFX and a valid ICC /DestOutputProfile was found"@
}

/// The rule RGB colour breaks.
pub open spec fn cmyk_rule() -> Seq<char> {
    "PDF/X-1a-style CMYK-only colour constraint"@
}

/// The decimal digits of `n`.
pub open spec fn dec_chars(n: nat) -> Seq<char> {
    ascii_text(dec(n))
}

/// Whether one of the listed output intents is a PDF/X one with a valid
/// profile.
pub open spec fn has_pdfx_intent(intents: Seq<IntentV>) -> bool {
    exists|i: int| 0 <= i < intents.len() && #[trigger] intents[i].0 == "GTS_PDFX"@ && intents[i].2
}

/// The number of `rg` and `RG` operators among `items`.
pub open spec fn rg_count(items: Seq<ItemV>) -> nat
    decreases items.len(),
{
    if items.len() == 0 {
        0
    } else {
        rg_count(items.drop_last()) + match items.last() {
            ItemV::Op(op, _) => if op == "rg"@ || op == "RG"@ {
                1nat
            } else {
                0nat
            },
            _ => 0nat,
        }
    }
}

/// The message for a page whose content uses `count` RGB operators.
pub open spec fn content_message(page: ObjectId, count: nat) -> Seq<char> {
    "page object "@ + dec_chars(page.number as nat) + " "@ + dec_chars(page.generation as nat)
        + " R uses DeviceRGB fill/stroke ("@ + dec_chars(count) + " `rg`/`RG` operator(s))"@
}

/// The message for the image XObject `id`, listed under the name whose
/// quoted form is `quoted`, whose colour space is `reason`.
pub open spec fn image_message(quoted: Seq<char>, id: ObjectId, reason: Seq<char>) -> Seq<char> {
    "image XObject "@ + quoted + " ("@ + dec_chars(id.number as nat) + " "@ + dec_chars(id.generation as nat) + " R) uses "@
        + reason
}

/// Why an image dictionary `d`'s colour space is RGB: `DeviceRGB` or
/// `CalRGB` by name, `[/CalRGB ...]`, or `[/ICCBased p]` whose profile
/// stream `p` has `/N 3`; `None` for any other.
pub open spec fn image_rgb_reason(doc: &EditableDocument, d: Seq<(Seq<char>, ObjV)>) -> Option<Seq<char>> {
    match entries_get(d, "ColorSpace"@) {
        Some(ObjV::Name(n)) => if n == "DeviceRGB"@ {
            Some("DeviceRGB"@)
        } else if n == "CalRGB"@ {
            Some("CalRGB"@)
        } else {
            None
        },
        Some(ObjV::Array(a)) => if a.len() > 0 && a[0] == ObjV::Name("CalRGB"@) {
            Some("CalRGB"@)
        } else if a.len() > 0 && a[0] == ObjV::Name("ICCBased"@) && a.len() > 1 {
            match a[1] {
                ObjV::Reference(n, g) => match doc.object(ref_id(n, g)) {
                    Some(ObjV::Stream(pd, _)) => if entries_get(pd, "N"@) == Some(ObjV::Integer(3)) {
                        Some("a 3-component (RGB) ICCBased colour space"@)
                    } else {
                        None
                    },
                    _ => None,
                },
                _ => None,
            }
        } else {
            None
        },
        _ => None,
    }
}

/// The violations `acc` followed by those of the XObject entries `xs`,
/// in order: each image stream (by reference, once per id, `seen` being
/// the ids already met) with an RGB colour space.
pub open spec fn xobject_violations_v(
    doc: &EditableDocument,
    xs: Seq<(Seq<char>, ObjV)>,
    seen: Seq<ObjectId>,
    acc: Seq<ViolationV>,
) -> Seq<ViolationV>
    decreases xs.len(),
{
    if xs.len() == 0 {
        acc
    } else {
        match xs[0].1 {
            ObjV::Reference(n, g) => {
                let id = ref_id(n, g);
                if seen.contains(id) {
                    xobject_violations_v(doc, xs.drop_first(), seen, acc)
                } else {
                    let acc1 = match doc.object(id) {
                        Some(ObjV::Stream(d, _)) => if entries_get(d, "Subtype"@) == Some(ObjV::Name("Image"@)) {
                            match image_rgb_reason(doc, d) {
                                Some(r) => acc.push((cmyk_rule(), image_message(str_debug(xs[0].0), id, r))),
                                None => acc,
                            }
                        } else {
                            acc
                        },
                        _ => acc,
                    };
                    xobject_violations_v(doc, xs.drop_first(), seen.push(id), acc1)
                }
            },
            _ => xobject_violations_v(doc, xs.drop_first(), seen, acc),
        }
    }
}

/// The page's own resources (see `page_resources`).
pub open spec fn page_resources_v(doc: &EditableDocument, page: ObjectId) -> Result<Seq<(Seq<char>, ObjV)>, EditorError> {
    match doc.dict(page) {
        None => Err(EditorError::UnresolvedObject(page.number, page.generation)),
        Some(d) => match entries_get(d, "Resources"@) {
            Some(ObjV::Dict(e)) => Ok(e),
            Some(ObjV::Reference(n, g)) => match doc.dict(ref_id(n, g)) {
                Some(e) => Ok(e),
                None => Err(EditorError::UnresolvedObject(n, g)),
            },
            _ => Ok(Seq::empty()),
        },
    }
}

/// The violations `acc` followed by those of `page`: its content's RGB
/// operators (one violation with their count), then its RGB images.
#[verifier::opaque]
pub open spec fn page_violations_v(doc: &EditableDocument, page: ObjectId, acc: Seq<ViolationV>) -> Result<
    Seq<ViolationV>,
    EditorError,
> {
    match doc.spec_page_content(page) {
        Err(e) => Err(e),
        Ok(b) => {
            let n = rg_count(spec_parse_content_stream(b));
            let acc1 = if n > 0 {
                acc.push((cmyk_rule(), content_message(page, n)))
            } else {
                acc
            };
            match page_resources_v(doc, page) {
                Err(e) => Err(e),
                Ok(res) => match entries_get(res, "XObject"@) {
                    Some(ObjV::Dict(xs)) => Ok(xobject_violations_v(doc, xs, Seq::empty(), acc1)),
                    _ => Ok(acc1),
                },
            }
        },
    }
}

/// The violations `acc` followed by those of each of `pages` in turn;
/// the first error met.
pub open spec fn pages_violations_v(doc: &EditableDocument, pages: Seq<ObjectId>, acc: Seq<ViolationV>) -> Result<
    Seq<ViolationV>,
    EditorError,
>
    decreases pages.len(),
{
    if pages.len() == 0 {
        Ok(acc)
    } else {
        match page_violations_v(doc, pages[0], acc) {
            Err(e) => Err(e),
            Ok(a) => pages_violations_v(doc, pages.drop_first(), a),
        }
    }
}

/// The PDF/X colour report of `doc`: a missing print output intent
/// first, then each page's violations in document order.
pub open spec fn pdfx_report_v(doc: &EditableDocument) -> Result<Seq<ViolationV>, EditorError> {
    match doc.dict(doc.root_id()) {
        None => Err(EditorError::UnresolvedObject(doc.root_id().number, doc.root_id().generation)),
        Some(c) => {
            let v0 = if has_pdfx_intent(intents_v(doc, catalog_intents(c))) {
                Seq::empty()
            } else {
                seq![(intent_rule(), intent_message())]
            };
            match doc.spec_page_ids() {
                Err(e) => Err(e),
                Ok(pages) => pages_violations_v(doc, pages, v0),
            }
        },
    }
}

/// The number of `rg`/`RG` operators among `items`.
fn count_rgb_ops(items: &Vec<ContentItem>) -> (n: usize)
    ensures
        n == rg_count(view_items(items@)),
{
    let ghost v = view_items(items@);
    let mut n: usize = 0;
    let mut i: usize = 0;
    proof {
        crate::content_stream::lemma_view_items(items@);
        assert(v.take(0) =~= Seq::<ItemV>::empty());
    }
    while i < items.len()
        invariant
            i <= items@.len(),
            v == view_items(items@),
            v.len() == items@.len(),
            forall|j: int| 0 <= j < items@.len() ==> #[trigger] v[j] == items@[j].v(),
            n == rg_count(v.take(i as int)),
            n <= i,
        decreases items@.len() - i,
    {
        proof {
            assert(v.take(i + 1).drop_last() =~= v.take(i as int));
            assert(v.take(i + 1).last() == v[i as int]);
        }
        if let ContentItem::Op { operator, .. } = &items[i] {
            if str_eq(operator.as_str(), "rg") || str_eq(operator.as_str(), "RG") {
                n = n + 1;
            }
        }
        i = i + 1;
    }
    proof {
        assert(v.take(v.len() as int) =~= v);
    }
    n
}

/// The violation for the image XObject `id` listed under the name whose
/// quoted form is `quoted`, with the colour space `reason`.
pub fn image_violation(quoted: &str, id: ObjectId, reason: &str) -> (v: PdfXViolation)
    ensures
        v.rule@ == cmyk_rule(),
        v.message@ == image_message(quoted@, id, reason@),
{
    let mut m = String::from_str("image XObject ");
    m.append(quoted);
    m.append(" (");
    push_dec(&mut m, id.number as u64);
    m.append(" ");
    push_dec(&mut m, id.generation as u64);
    m.append(" R) uses ");
    m.append(reason);
    PdfXViolation { rule: "PDF/X-1a-style CMYK-only colour constraint", message: m }
}

/// The violation for the page `page` whose content has `count` RGB
/// operators.
pub fn content_violation(page: ObjectId, count: usize) -> (v: PdfXViolation)
    ensures
        v.rule@ == cmyk_rule(),
        v.message@ == content_message(page, count as nat),
{
    let mut m = String::from_str("page object ");
    push_dec(&mut m, page.number as u64);
    m.append(" ");
    push_dec(&mut m, page.generation as u64);
    m.append(" R uses DeviceRGB fill/stroke (");
    push_dec(&mut m, count as u64);
    m.append(" `rg`/`RG` operator(s))");
    PdfXViolation { rule: "PDF/X-1a-style CMYK-only colour constraint", message: m }
}

impl EditableDocument {
    /// Appends to `out` the violations of the image XObjects listed in
    /// `xs` (see `xobject_violations_v`).
    fn check_image_xobjects(&self, xs: &PdfDictionary, out: &mut Vec<PdfXViolation>)
        ensures
            violations_v(final(out)@) == xobject_violations_v(self, xs.view_entries(), Seq::empty(), violations_v(old(out)@)),
    {
        let ghost all = xs.view_entries();
        proof {
            crate::object::lemma_view_entries(xs.entries@);
        }
        let mut seen: Vec<ObjectId> = Vec::new();
        let mut i: usize = 0;
        proof {
            assert(all.skip(0) =~= all);
        }
        while i < xs.entries.len()
            invariant
                i <= xs.entries@.len(),
                all == xs.view_entries(),
                all.len() == xs.entries@.len(),
                forall|j: int| 0 <= j < xs.entries@.len() ==> #[trigger] all[j] == (xs.entries@[j].0@, xs.entries@[j].1.v()),
                xobject_violations_v(self, all, Seq::empty(), violations_v(old(out)@)) == xobject_violations_v(
                    self,
                    all.skip(i as int),
                    seen@,
                    violations_v(out@),
                ),
            decreases xs.entries@.len() - i,
        {
            proof {
                assert(all.skip(i as int)[0] == all[i as int]);
                assert(all.skip(i as int).drop_first() =~= all.skip(i + 1));
            }
            if let Object::Reference(id) = &xs.entries[i].1 {
                let id = *id;
                assert(ref_id(id.number, id.generation) == id);
                if !crate::flatten::holds_id(seen.as_slice(), id) {
                    seen.push(id);
                    if let Some(Object::Stream(stream)) = self.get_object(id) {
                        let is_image = match stream.dictionary.get("Subtype") {
                            Some(Object::Name(n)) => str_eq(n.as_str(), "Image"),
                            _ => false,
                        };
                        if is_image {
                            if let Some(reason) = self.image_rgb(&stream.dictionary) {
                                let quoted = debug_quoted(xs.entries[i].0.as_str());
                                let v = image_violation(quoted.as_str(), id, reason);
                                let ghost o0 = out@;
                                out.push(v);
                                proof {
                                    assert(violations_v(out@) =~= violations_v(o0).push((v.rule@, v.message@)));
                                }
                            }
                        }
                    }
                }
            }
            i = i + 1;
        }
    }

    /// Why the image dictionary `d`'s colour space is RGB (see
    /// `image_rgb_reason`).
    fn image_rgb(&self, d: &PdfDictionary) -> (r: Option<&'static str>)
        ensures
            match image_rgb_reason(self, d.view_entries()) {
                Some(s) => r matches Some(x) && x@ == s,
                None => r is None,
            },
    {
        match d.get("ColorSpace") {
            Some(Object::Name(n)) => {
                if str_eq(n.as_str(), "DeviceRGB") {
                    Some("DeviceRGB")
                } else if str_eq(n.as_str(), "CalRGB") {
                    Some("CalRGB")
                } else {
                    None
                }
            },
            Some(Object::Array(a)) => {
                proof {
                    crate::object::lemma_view_objs(a.items@);
                }
                if a.items.len() == 0 {
                    return None;
                }
                let first = match &a.items[0] {
                    Object::Name(n) => n.as_str(),
                    _ => {
                        return None;
                    },
                };
                if str_eq(first, "CalRGB") {
                    return Some("CalRGB");
                }
                if !str_eq(first, "ICCBased") || a.items.len() < 2 {
                    return None;
                }
                let pid = match &a.items[1] {
                    Object::Reference(p) => *p,
                    _ => {
                        return None;
                    },
                };
                assert(ref_id(pid.number, pid.generation) == pid);
                match self.get_object(pid) {
                    Some(Object::Stream(ps)) => match ps.dictionary.get("N") {
                        Some(Object::Integer(k)) => {
                            if *k == 3 {
                                Some("a 3-component (RGB) ICCBased colour space")
                            } else {
                                None
                            }
                        },
                        _ => None,
                    },
                    _ => None,
                }
            },
            _ => None,
        }
    }

    /// Appends to `out` the violations of the page `pid` (see
    /// `page_violations_v`).
    fn check_page(&self, pid: ObjectId, out: &mut Vec<PdfXViolation>) -> (r: Result<(), EditorError>)
        ensures
            match page_violations_v(self, pid, violations_v(old(out)@)) {
                Ok(a) => r is Ok && violations_v(final(out)@) == a,
                Err(e) => r == Err::<(), EditorError>(e),
            },
    {
            proof {
                reveal(page_violations_v);
            }
            let bytes = match self.page_content_bytes(pid) {
                Ok(b) => b,
                Err(e) => {
                    return Err(e);
                },
            };
            let items = parse_content_stream(bytes.as_slice());
            let n = count_rgb_ops(&items);
            if n > 0 {
                let v = content_violation(pid, n);
                let ghost o0 = out@;
                out.push(v);
                proof {
                    assert(violations_v(out@) =~= violations_v(o0).push((v.rule@, v.message@)));
                }
            }
            let resources = match self.page_resources(pid) {
                Ok(r) => r,
                Err(e) => {
                    return Err(e);
                },
            };
            if let Some(Object::Dictionary(xs)) = resources.get("XObject") {
                self.check_image_xobjects(xs, out);
            }
        Ok(())
    }

    /// Checks the PDF/X colour constraint (see `pdfx_report_v`): a
    /// `/S /GTS_PDFX` output intent with a valid ICC profile must be
    /// present, and no page may use `rg`/`RG` or an image XObject with
    /// an RGB colour space.
    pub fn validate_pdfx_color(&self) -> (r: Result<PdfXColorReport, EditorError>)
        ensures
            match pdfx_report_v(self) {
                Ok(vs) => r matches Ok(rep) && violations_v(rep.violations@) == vs,
                Err(e) => r matches Err(x) && x == e,
            },
    {
        let intents = match self.output_intents() {
            Ok(v) => v,
            Err(e) => {
                return Err(e);
            },
        };
        let ghost iv = Seq::new(intents@.len(), |k: int| info_v(intents@[k]));
        let mut found = false;
        let mut k: usize = 0;
        while k < intents.len()
            invariant
                k <= intents@.len(),
                iv == Seq::new(intents@.len(), |j: int| info_v(intents@[j])),
                found <==> exists|j: int| 0 <= j < k && #[trigger] iv[j].0 == "GTS_PDFX"@ && iv[j].2,
            decreases intents@.len() - k,
        {
            if str_eq(intents[k].subtype.as_str(), "GTS_PDFX") && intents[k].has_valid_icc_profile {
                assert(iv[k as int].0 == "GTS_PDFX"@ && iv[k as int].2);
                found = true;
            }
            k = k + 1;
        }
        let mut violations: Vec<PdfXViolation> = Vec::new();
        if !found {
            violations.push(
                PdfXViolation::new(
                    "ISO 15930 (PDF/X output intent required)",
                    "no /OutputIntents entry with /S /GTS_PDFX and a valid ICC /DestOutputProfile was found",
                ),
            );
        }
        proof {
            if found {
                assert(violations_v(violations@) =~= Seq::<ViolationV>::empty());
            } else {
                assert(violations_v(violations@) =~= seq![(intent_rule(), intent_message())]);
            }
        }
        let pages = match self.page_ids() {
            Ok(p) => p,
            Err(e) => {
                return Err(e);
            },
        };
        let ghost ps = pages@;
        let ghost v0 = violations_v(violations@);
        let mut i: usize = 0;
        proof {
            assert(ps.skip(0) =~= ps);
            assert(pdfx_report_v(self) == pages_violations_v(self, ps, v0));
        }
        while i < pages.len()
            invariant
                i <= pages@.len(),
                ps == pages@,
                self.spec_page_ids() == Ok::<Seq<ObjectId>, EditorError>(ps),
                pdfx_report_v(self) == pages_violations_v(self, ps, v0),
                pages_violations_v(self, ps, v0) == pages_violations_v(self, ps.skip(i as int), violations_v(violations@)),
            decreases pages@.len() - i,
        {
            let pid = pages[i];
            proof {
                assert(ps.skip(i as int)[0] == pid);
                assert(ps.skip(i as int).drop_first() =~= ps.skip(i + 1));
            }
            match self.check_page(pid, &mut violations) {
                Ok(()) => {},
                Err(e) => {
                    return Err(e);
                },
            }
            i = i + 1;
        }
        proof {
            assert(ps.skip(i as int).len() == 0);
        }
        Ok(PdfXColorReport { violations })
    }

    /// Adds a PDF/X (`/S /GTS_PDFX`) output intent: `add_output_intent`
    /// with the PDF/X subtype (see `add_output_intent_v`).
    pub fn add_pdfx_output_intent(&mut self, icc_profile: &[u8], identifier: &str, condition: &str) -> (r: Result<
        ObjectId,
        EditorError,
    >)
        requires
            old(self).wf(),
            old(self).next_number() + 2 < u32::MAX,
        ensures
            final(self).wf(),
            final(self).same_but_overlay_next(old(self)),
            (final(self).overlay_v(), final(self).next_number(), r) == crate::output_intent::add_output_intent_v(
                old(self),
                icc_profile@,
                OutputIntentSubtype::PdfX,
                identifier@,
                condition@,
            ),
    {
        self.add_output_intent(icc_profile, OutputIntentSubtype::PdfX, identifier, condition)
    }
}

/// Once a PDF/X output intent has been added (its profile validates),
/// the PDF/X colour check finds it: what the check reports comes from
/// the pages alone.
pub proof fn lemma_pdfx_intent_satisfies_check(
    before: &EditableDocument,
    after: &EditableDocument,
    icc: Seq<u8>,
    identifier: Seq<char>,
    condition: Seq<char>,
)
    requires
        before.wf(),
        before.next_number() + 2 < u32::MAX,
        after.same_but_overlay_next(before),
        crate::output_intent::add_output_intent_v(before, icc, OutputIntentSubtype::PdfX, identifier, condition).2 is Ok,
        after.overlay_v() == crate::output_intent::add_output_intent_v(
            before,
            icc,
            OutputIntentSubtype::PdfX,
            identifier,
            condition,
        ).0,
    ensures
        pdfx_report_v(after) == match after.spec_page_ids() {
            Err(e) => Err(e),
            Ok(pages) => pages_violations_v(after, pages, Seq::empty()),
        },
{
    crate::output_intent::lemma_output_intent_reads_back(before, after, icc, OutputIntentSubtype::PdfX, identifier, condition);
    let c = after.dict(after.root_id())->Some_0;
    let iv = intents_v(after, catalog_intents(c));
    assert(iv[iv.len() - 1] == iv.last());
    assert(iv[iv.len() - 1].0 == "GTS_PDFX"@ && iv[iv.len() - 1].2);
    assert(has_pdfx_intent(iv));
}

/// Whether `vs` extends `acc` with colour violations only.
pub open spec fn extends_with_colour(acc: Seq<ViolationV>, vs: Seq<ViolationV>) -> bool {
    &&& acc.len() <= vs.len()
    &&& vs.take(acc.len() as int) == acc
    &&& forall|k: int| acc.len() <= k < vs.len() ==> (#[trigger] vs[k]).0 == cmyk_rule()
}

/// Extending with colour violations is transitive.
proof fn lemma_extends_trans(a: Seq<ViolationV>, b: Seq<ViolationV>, c: Seq<ViolationV>)
    requires
        extends_with_colour(a, b),
        extends_with_colour(b, c),
    ensures
        extends_with_colour(a, c),
{
    assert(c.take(b.len() as int).take(a.len() as int) =~= c.take(a.len() as int));
    assert forall|k: int| a.len() <= k < c.len() implies (#[trigger] c[k]).0 == cmyk_rule() by {
        if k < b.len() {
            assert(c.take(b.len() as int)[k] == c[k]);
            assert(b[k] == c[k]);
        }
    }
}

/// Adding one colour violation extends with colour violations.
proof fn lemma_extends_push(a: Seq<ViolationV>, m: Seq<char>)
    ensures
        extends_with_colour(a, a.push((cmyk_rule(), m))),
        extends_with_colour(a, a),
{
    assert(a.push((cmyk_rule(), m)).take(a.len() as int) =~= a);
    assert(a.take(a.len() as int) =~= a);
}

/// The image XObject check only adds colour violations.
proof fn lemma_xobjects_add_colour(doc: &EditableDocument, xs: Seq<(Seq<char>, ObjV)>, seen: Seq<ObjectId>, acc: Seq<ViolationV>)
    ensures
        extends_with_colour(acc, xobject_violations_v(doc, xs, seen, acc)),
    decreases xs.len(),
{
    lemma_extends_push(acc, Seq::empty());
    if xs.len() > 0 {
        match xs[0].1 {
            ObjV::Reference(n, g) => {
                let id = ref_id(n, g);
                if seen.contains(id) {
                    lemma_xobjects_add_colour(doc, xs.drop_first(), seen, acc);
                } else {
                    let acc1 = match doc.object(id) {
                        Some(ObjV::Stream(d, _)) => if entries_get(d, "Subtype"@) == Some(ObjV::Name("Image"@)) {
                            match image_rgb_reason(doc, d) {
                                Some(r) => acc.push((cmyk_rule(), image_message(str_debug(xs[0].0), id, r))),
                                None => acc,
                            }
                        } else {
                            acc
                        },
                        _ => acc,
                    };
                    assert(extends_with_colour(acc, acc1)) by {
                        if acc1 != acc {
                            lemma_extends_push(acc, acc1.last().1);
                            assert(acc1 == acc.push((cmyk_rule(), acc1.last().1)));
                        }
                    }
                    lemma_xobjects_add_colour(doc, xs.drop_first(), seen.push(id), acc1);
                    lemma_extends_trans(acc, acc1, xobject_violations_v(doc, xs.drop_first(), seen.push(id), acc1));
                }
            },
            _ => lemma_xobjects_add_colour(doc, xs.drop_first(), seen, acc),
        }
    }
}

/// The pages' checks only add colour violations.
proof fn lemma_pages_add_colour(doc: &EditableDocument, pages: Seq<ObjectId>, acc: Seq<ViolationV>)
    ensures
        pages_violations_v(doc, pages, acc) matches Ok(vs) ==> extends_with_colour(acc, vs),
    decreases pages.len(),
{
    lemma_extends_push(acc, Seq::empty());
    if pages.len() > 0 {
        reveal(page_violations_v);
        let page = pages[0];
        if let Ok(b) = doc.spec_page_content(page) {
            let n = rg_count(spec_parse_content_stream(b));
            let acc1 = if n > 0 {
                acc.push((cmyk_rule(), content_message(page, n)))
            } else {
                acc
            };
            lemma_extends_push(acc, content_message(page, n));
            if let Ok(res) = page_resources_v(doc, page) {
                let acc2 = match entries_get(res, "XObject"@) {
                    Some(ObjV::Dict(xs)) => xobject_violations_v(doc, xs, Seq::empty(), acc1),
                    _ => acc1,
                };
                if let Some(ObjV::Dict(xs)) = entries_get(res, "XObject"@) {
                    lemma_xobjects_add_colour(doc, xs, Seq::empty(), acc1);
                } else {
                    lemma_extends_push(acc1, Seq::empty());
                }
                lemma_extends_trans(acc, acc1, acc2);
                assert(page_violations_v(doc, page, acc) == Ok::<Seq<ViolationV>, EditorError>(acc2));
                lemma_pages_add_colour(doc, pages.drop_first(), acc2);
                if let Ok(vs) = pages_violations_v(doc, pages, acc) {
                    lemma_extends_trans(acc, acc2, vs);
                }
            }
        }
    }
}

/// The PDF/X report names the missing print output intent, as its
/// first violation, exactly when no output intent the catalog lists has
/// the subtype `GTS_PDFX` and a valid ICC profile; every other violation
/// it reports is a colour one.
pub proof fn lemma_pdfx_intent_rule(doc: &EditableDocument)
    ensures
        doc.dict(doc.root_id()) matches Some(c) ==> (pdfx_report_v(doc) matches Ok(vs) ==> {
            let iv = intents_v(doc, catalog_intents(c));
            &&& (vs.len() > 0 && vs[0] == (intent_rule(), intent_message())) <==> !(exists|i: int|
                0 <= i < iv.len() && (#[trigger] iv[i]).0 == "GTS_PDFX"@ && iv[i].2)
            &&& forall|k: int| 0 <= k < vs.len() && !(k == 0 && vs[0] == (intent_rule(), intent_message())) ==> (
            #[trigger] vs[k]).0 == cmyk_rule()
        }),
{
    if let Some(c) = doc.dict(doc.root_id()) {
        let iv = intents_v(doc, catalog_intents(c));
        let v0 = if has_pdfx_intent(iv) {
            Seq::<ViolationV>::empty()
        } else {
            seq![(intent_rule(), intent_message())]
        };
        reveal_strlit("ISO 15930 (PDF/X output intent required)");
        reveal_strlit("PDF/X-1a-style CMYK-only colour constraint");
        assert(intent_rule() != cmyk_rule()) by {
            assert(intent_rule()[0] != cmyk_rule()[0]);
        }
        if let Ok(pages) = doc.spec_page_ids() {
            lemma_pages_add_colour(doc, pages, v0);
            if let Ok(vs) = pdfx_report_v(doc) {
                assert(pdfx_report_v(doc) == pages_violations_v(doc, pages, v0));
                if !has_pdfx_intent(iv) {
                    assert(vs.take(1)[0] == vs[0]);
                } else {
                    if vs.len() > 0 {
                        assert(vs[0].0 == cmyk_rule());
                    }
                }
            }
        }
    }
}

/// The RGB operators of two runs of items are those of each run added
/// up; an `rg` or `RG` operator is one, any other item none.
pub proof fn lemma_rg_count(a: Seq<ItemV>, b: Seq<ItemV>)
    ensures
        rg_count(a + b) == rg_count(a) + rg_count(b),
        forall|args: Seq<ObjV>| #[trigger] rg_count(seq![ItemV::Op("rg"@, args)]) == 1,
        forall|args: Seq<ObjV>| #[trigger] rg_count(seq![ItemV::Op("RG"@, args)]) == 1,
        forall|it: ItemV| !(it matches ItemV::Op(op, _) && (op == "rg"@ || op == "RG"@)) ==> #[trigger] rg_count(seq![it]) == 0,
    decreases b.len(),
{
    assert forall|it: ItemV| #[trigger] rg_count(seq![it]) == rg_count(Seq::<ItemV>::empty()) + match it {
        ItemV::Op(op, _) => if op == "rg"@ || op == "RG"@ {
            1nat
        } else {
            0nat
        },
        _ => 0nat,
    } by {
        assert(seq![it].drop_last() =~= Seq::<ItemV>::empty());
    }
    if b.len() == 0 {
        assert(a + b =~= a);
    } else {
        lemma_rg_count(a, b.drop_last());
        assert((a + b).drop_last() =~= a + b.drop_last());
        assert((a + b).last() == b.last());
    }
}

} // verus!
