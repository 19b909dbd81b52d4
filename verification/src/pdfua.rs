//! PDF/UA (ISO 14289) checks over the logical structure tree.

use vstd::prelude::*;
use crate::numfmt::dec;
use crate::util::{ascii_text, push_dec};
use crate::structure::StructNode;
use crate::graph::{table_set, EditableDocument, EditorError};
use crate::object::{entries_get, entries_set, Object, ObjV, PdfDictionary};
use crate::util::{text_value, to_pdf_text_string};

verus! {

/// One checklist item that failed.
#[derive(Debug, Clone, PartialEq, Eq)]
pub struct PdfUaViolation {
    /// Short, stable rule label.
    pub rule: &'static str,
    /// Human-readable detail.
    pub message: String,
}

impl PdfUaViolation {
    /// A violation of `rule` with the given detail.
    pub fn new(rule: &'static str, message: &str) -> (v: PdfUaViolation)
        ensures
            v.rule == rule,
            v.message@ == message@,
    {
        PdfUaViolation { rule, message: String::from_str(message) }
    }
}

/// The result of a PDF/UA validation.
#[derive(Debug, Clone)]
pub struct PdfUaReport {
    /// Every violation found.
    pub violations: Vec<PdfUaViolation>,
}

impl PdfUaReport {
    /// `true` if no violations were found.
    pub fn is_conformant(&self) -> (b: bool)
        ensures
            b == (self.violations@.len() == 0),
    {
        self.violations.len() == 0
    }
}

/// Whether `c` is white space in the sense of Unicode's `White_Space`
/// property (what `char::is_whitespace` tests).
pub open spec fn is_white_space(c: char) -> bool {
    let v = c as u32;
    (0x09 <= v <= 0x0D) || v == 0x20 || v == 0x85 || v == 0xA0 || v == 0x1680 || (0x2000 <= v
        <= 0x200A) || v == 0x2028 || v == 0x2029 || v == 0x202F || v == 0x205F || v == 0x3000
}

/// Whether a text is empty once white space is trimmed from both ends.
pub open spec fn blank(s: Seq<char>) -> bool {
    forall|i: int| 0 <= i < s.len() ==> #[trigger] is_white_space(s[i])
}

/// Whether a `/Figure` element lacks a usable alternate description.
pub open spec fn lacks_alt(node: StructNode) -> bool {
    &&& node.struct_type@ == "Figure"@
    &&& match node.alt_text {
        None => true,
        Some(s) => blank(s@),
    }
}

/// The message for a `/Figure` element `N G R` without alternate text.
pub open spec fn figure_message(node: StructNode) -> Seq<char> {
    "/Figure structure element "@ + ascii_text(dec(node.id.number as nat)) + " "@ + ascii_text(
        dec(node.id.generation as nat),
    ) + " R has no (or empty) /Alt"@
}

/// The messages of the violations found in the subtree at `node`, in
/// document order (a node before its children).
pub open spec fn figure_violations(node: StructNode) -> Seq<Seq<char>>
    decreases node,
{
    (if lacks_alt(node) {
        seq![figure_message(node)]
    } else {
        Seq::empty()
    }) + children_violations(node.children@)
}

/// The messages for a sequence of subtrees.
pub open spec fn children_violations(children: Seq<StructNode>) -> Seq<Seq<char>>
    decreases children,
{
    if children.len() == 0 {
        Seq::empty()
    } else {
        children_violations(children.drop_last()) + figure_violations(children.last())
    }
}

/// The rule label of a missing alternate text.
pub open spec fn figure_rule() -> Seq<char> {
    "figure alternate text required"@
}

/// Whether a text has only white space.
fn is_blank(s: &str) -> (b: bool)
    ensures
        b == blank(s@),
{
    let ghost chars = s@;
    let mut all = true;
    for c in it: s.chars()
        invariant
            it.seq() == chars,
            all == (forall|i: int| 0 <= i < it.index() ==> #[trigger] is_white_space(chars[i])),
    {
        let ghost k = it.index() as int;
        assert(c == chars[k]);
        let v = c as u32;
        let w = (0x09 <= v && v <= 0x0D) || v == 0x20 || v == 0x85 || v == 0xA0 || v == 0x1680 || (
        0x2000 <= v && v <= 0x200A) || v == 0x2028 || v == 0x2029 || v == 0x202F || v == 0x205F
            || v == 0x3000;
        assert(w == is_white_space(chars[k]));
        all = all && w;
        assert(all == (forall|i: int| 0 <= i < k + 1 ==> #[trigger] is_white_space(chars[i]))) by {
            if !w {
                assert(!is_white_space(chars[k]));
            }
        }
    }
    all
}

/// Appends a violation for every `/Figure` element in the subtree at
/// `node` whose `/Alt` is missing or blank, a node before its children.
pub fn check_figure_alt_text(node: &StructNode, violations: &mut Vec<PdfUaViolation>)
    ensures
        final(violations)@.len() == old(violations)@.len() + figure_violations(*node).len(),
        forall|i: int| 0 <= i < old(violations)@.len() ==> #[trigger] final(violations)@[i] == old(violations)@[i],
        forall|i: int|
            0 <= i < figure_violations(*node).len() ==> (#[trigger] final(violations)@[old(violations)@.len() + i]).message@
                == figure_violations(*node)[i] && final(violations)@[old(violations)@.len() + i].rule@
                == figure_rule(),
    decreases node,
{
    let ghost start = violations@;
    if crate::object::str_eq(node.struct_type.as_str(), "Figure") {
        let missing = match &node.alt_text {
            None => true,
            Some(s) => is_blank(s.as_str()),
        };
        if missing {
            let mut msg = String::from_str("/Figure structure element ");
            push_dec(&mut msg, node.id.number as u64);
            msg.append(" ");
            push_dec(&mut msg, node.id.generation as u64);
            msg.append(" R has no (or empty) /Alt");
            let rule = "figure alternate text required";
            assert(msg@ =~= figure_message(*node));
            assert(lacks_alt(*node));
            violations.push(PdfUaViolation { rule, message: msg });
        }
    }
    let ghost mid = violations@;
    assert(mid.len() == start.len() + (if lacks_alt(*node) { 1int } else { 0int }));
    let mut k: usize = 0;
    while k < node.children.len()
        invariant
            k <= node.children@.len(),
            violations@.len() == mid.len() + children_violations(node.children@.take(k as int)).len(),
            forall|i: int| 0 <= i < mid.len() ==> #[trigger] violations@[i] == mid[i],
            forall|i: int|
                0 <= i < children_violations(node.children@.take(k as int)).len() ==> (
                #[trigger] violations@[mid.len() + i]).message@ == children_violations(
                    node.children@.take(k as int),
                )[i] && violations@[mid.len() + i].rule@ == figure_rule(),
        decreases node.children@.len() - k,
    {
        let ghost before = violations@;
        check_figure_alt_text(&node.children[k], violations);
        proof {
            let t1 = node.children@.take(k + 1);
            assert(t1.drop_last() =~= node.children@.take(k as int));
            assert(t1.last() == node.children@[k as int]);
            let cv0 = children_violations(node.children@.take(k as int));
            let fv = figure_violations(node.children@[k as int]);
            assert(children_violations(t1) == cv0 + fv);
            assert forall|i: int| 0 <= i < cv0.len() + fv.len() implies (
            #[trigger] violations@[mid.len() + i]).message@ == (cv0 + fv)[i]
                && violations@[mid.len() + i].rule@ == figure_rule() by {
                if i < cv0.len() {
                    assert(violations@[mid.len() + i] == before[mid.len() + i]);
                } else {
                    assert(violations@[mid.len() + i] == violations@[before.len() + (i - cv0.len())]);
                }
            }
        }
        k = k + 1;
    }
    assert(node.children@.take(node.children@.len() as int) =~= node.children@);
    proof {
        reveal_strlit("figure alternate text required");
        let own = if lacks_alt(*node) { seq![figure_message(*node)] } else { Seq::<Seq<char>>::empty() };
        let cv = children_violations(node.children@);
        assert(figure_violations(*node) == own + cv);
        if lacks_alt(*node) {
            assert(mid[start.len() as int].message@ == figure_message(*node));
            assert(mid[start.len() as int].rule@ == figure_rule());
        }
        assert forall|i: int| 0 <= i < figure_violations(*node).len() implies (
        #[trigger] violations@[start.len() + i]).message@ == figure_violations(*node)[i]
            && violations@[start.len() + i].rule@ == figure_rule() by {
            if i < own.len() {
                assert(violations@[start.len() + i] == mid[start.len() + i]);
            } else {
                assert(violations@[start.len() + i] == violations@[mid.len() + (i - own.len())]);
            }
        }
    }
}


/// The `/ViewerPreferences` entries of a catalog, with `/DisplayDocTitle`
/// set to `enabled`; other preferences are kept when the catalog holds
/// them as a direct dictionary.
pub open spec fn with_display_doc_title(catalog: Seq<(Seq<char>, ObjV)>, enabled: bool) -> Seq<(Seq<char>, ObjV)> {
    let vp = match entries_get(catalog, "ViewerPreferences"@) {
        Some(ObjV::Dict(e)) => e,
        _ => Seq::empty(),
    };
    entries_set(catalog, "ViewerPreferences"@, ObjV::Dict(entries_set(vp, "DisplayDocTitle"@, ObjV::Boolean(enabled))))
}

impl EditableDocument {
    /// Sets the catalog's `/Lang` (ISO 32000-1 14.9.2), the document's
    /// default natural language, as a text string.
    pub fn set_document_language(&mut self, lang: &str) -> (r: Result<(), EditorError>)
        requires
            old(self).wf(),
        ensures
            final(self).wf(),
            final(self).same_but_overlay(old(self)),
            match old(self).dict(old(self).root_id()) {
                None => r == Err::<(), EditorError>(
                    EditorError::UnresolvedObject(old(self).root_id().number, old(self).root_id().generation),
                ) && final(self).overlay_v() == old(self).overlay_v(),
                Some(d) => r is Ok && final(self).overlay_v() == table_set(
                    old(self).overlay_v(),
                    old(self).root_id(),
                    ObjV::Dict(entries_set(d, "Lang"@, text_value(lang@))),
                ),
            },
    {
        let mut catalog = self.catalog()?;
        let s = to_pdf_text_string(lang);
        catalog.set("Lang", Object::String(s));
        let cat_id = self.catalog_id();
        proof {
            self.lemma_root_stored();
            self.lemma_stored_below_next(cat_id);
        }
        self.set_object(cat_id, Object::Dictionary(catalog));
        Ok(())
    }

    /// Sets `/ViewerPreferences /DisplayDocTitle` (ISO 32000-1 Table 150)
    /// in the catalog.
    pub fn set_display_doc_title(&mut self, enabled: bool) -> (r: Result<(), EditorError>)
        requires
            old(self).wf(),
        ensures
            final(self).wf(),
            final(self).same_but_overlay(old(self)),
            match old(self).dict(old(self).root_id()) {
                None => r == Err::<(), EditorError>(
                    EditorError::UnresolvedObject(old(self).root_id().number, old(self).root_id().generation),
                ) && final(self).overlay_v() == old(self).overlay_v(),
                Some(d) => r is Ok && final(self).overlay_v() == table_set(
                    old(self).overlay_v(),
                    old(self).root_id(),
                    ObjV::Dict(with_display_doc_title(d, enabled)),
                ),
            },
    {
        let mut catalog = self.catalog()?;
        let mut vp = match catalog.get("ViewerPreferences") {
            Some(Object::Dictionary(d)) => crate::object::copy_dictionary(d),
            _ => PdfDictionary::new(),
        };
        proof {
            if !(entries_get(catalog.view_entries(), "ViewerPreferences"@) matches Some(ObjV::Dict(_))) {
                assert(vp.view_entries() =~= Seq::<(Seq<char>, ObjV)>::empty());
            }
        }
        vp.set("DisplayDocTitle", Object::Boolean(enabled));
        catalog.set("ViewerPreferences", Object::Dictionary(vp));
        let cat_id = self.catalog_id();
        proof {
            self.lemma_root_stored();
            self.lemma_stored_below_next(cat_id);
        }
        self.set_object(cat_id, Object::Dictionary(catalog));
        Ok(())
    }
}

} // verus!
