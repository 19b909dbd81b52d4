//! Markup annotations (ISO 32000-1 12.5): their kinds, the summary read
//! back from a page, and the text helpers of their appearance streams.

use vstd::prelude::*;
use crate::graph::{dict_of, ref_id, table_set, EditableDocument, EditorError};
use crate::object::{entries_get, entries_remove, entries_set, str_eq, ObjV, Object, ObjectId, PdfArray};
use crate::forms::text_opt;
use crate::stdtext::push_char;
use crate::types::Rectangle;
use crate::util::rect_of;

verus! {

/// The kind of a markup/comment annotation, as read back from `/Subtype`.
#[derive(Debug, Clone, Copy, PartialEq, Eq, Structural)]
pub enum AnnotationKind {
    /// ISO 32000-1 12.5.6.10.
    Highlight,
    /// ISO 32000-1 12.5.6.10.
    Underline,
    /// ISO 32000-1 12.5.6.10.
    StrikeOut,
    /// ISO 32000-1 12.5.6.6.
    FreeText,
    /// ISO 32000-1 12.5.6.12.
    Stamp,
    /// ISO 32000-1 12.5.6.13.
    Ink,
    /// ISO 32000-1 12.5.6.4 ("sticky note").
    Text,
    /// ISO 32000-1 12.5.6.2.
    Popup,
    /// Any other `/Subtype`.
    Other,
}

impl AnnotationKind {
    /// The `/Subtype` name of each kind (empty for `Other`).
    pub open spec fn spec_subtype_name(self) -> Seq<char> {
        match self {
            AnnotationKind::Highlight => "Highlight"@,
            AnnotationKind::Underline => "Underline"@,
            AnnotationKind::StrikeOut => "StrikeOut"@,
            AnnotationKind::FreeText => "FreeText"@,
            AnnotationKind::Stamp => "Stamp"@,
            AnnotationKind::Ink => "Ink"@,
            AnnotationKind::Text => "Text"@,
            AnnotationKind::Popup => "Popup"@,
            AnnotationKind::Other => ""@,
        }
    }

    /// The `/Subtype` name of this kind (empty for `Other`).
    pub fn subtype_name(self) -> (s: &'static str)
        ensures
            s@ == self.spec_subtype_name(),
    {
        match self {
            AnnotationKind::Highlight => "Highlight",
            AnnotationKind::Underline => "Underline",
            AnnotationKind::StrikeOut => "StrikeOut",
            AnnotationKind::FreeText => "FreeText",
            AnnotationKind::Stamp => "Stamp",
            AnnotationKind::Ink => "Ink",
            AnnotationKind::Text => "Text",
            AnnotationKind::Popup => "Popup",
            AnnotationKind::Other => "",
        }
    }

    /// The kind whose `/Subtype` is `name`; `Other` for any other name.
    pub open spec fn kind_of(name: Seq<char>) -> AnnotationKind {
        if name == "Highlight"@ {
            AnnotationKind::Highlight
        } else if name == "Underline"@ {
            AnnotationKind::Underline
        } else if name == "StrikeOut"@ {
            AnnotationKind::StrikeOut
        } else if name == "FreeText"@ {
            AnnotationKind::FreeText
        } else if name == "Stamp"@ {
            AnnotationKind::Stamp
        } else if name == "Ink"@ {
            AnnotationKind::Ink
        } else if name == "Text"@ {
            AnnotationKind::Text
        } else if name == "Popup"@ {
            AnnotationKind::Popup
        } else {
            AnnotationKind::Other
        }
    }

    /// The kind whose `/Subtype` is `name`; `Other` for any other name.
    pub fn from_subtype(name: &str) -> (k: AnnotationKind)
        ensures
            k == AnnotationKind::kind_of(name@),
            k != AnnotationKind::Other ==> k.spec_subtype_name() == name@,
            k == AnnotationKind::Other ==> forall|j: AnnotationKind|
                j != AnnotationKind::Other ==> #[trigger] j.spec_subtype_name() != name@,
    {
        if str_eq(name, "Highlight") {
            AnnotationKind::Highlight
        } else if str_eq(name, "Underline") {
            AnnotationKind::Underline
        } else if str_eq(name, "StrikeOut") {
            AnnotationKind::StrikeOut
        } else if str_eq(name, "FreeText") {
            AnnotationKind::FreeText
        } else if str_eq(name, "Stamp") {
            AnnotationKind::Stamp
        } else if str_eq(name, "Ink") {
            AnnotationKind::Ink
        } else if str_eq(name, "Text") {
            AnnotationKind::Text
        } else if str_eq(name, "Popup") {
            AnnotationKind::Popup
        } else {
            AnnotationKind::Other
        }
    }
}

/// Reading back the name of a modelled kind gives the kind: `from_subtype`
/// undoes `subtype_name`.
pub proof fn lemma_subtype_round_trip(k: AnnotationKind)
    requires
        k != AnnotationKind::Other,
    ensures
        forall|j: AnnotationKind|
            j != AnnotationKind::Other && #[trigger] j.spec_subtype_name() == k.spec_subtype_name() ==> j == k,
{
    reveal_strlit("Highlight");
    reveal_strlit("Underline");
    reveal_strlit("StrikeOut");
    reveal_strlit("FreeText");
    reveal_strlit("Stamp");
    reveal_strlit("Ink");
    reveal_strlit("Text");
    reveal_strlit("Popup");
    assert forall|j: AnnotationKind|
        j != AnnotationKind::Other && #[trigger] j.spec_subtype_name() == k.spec_subtype_name() implies j == k by {
        let a = j.spec_subtype_name();
        let b = k.spec_subtype_name();
        assert(a.len() == b.len());
        if j != k {
            assert(a[0] != b[0] || a[1] != b[1] || a.len() != b.len());
        }
    }
}

/// A read-back summary of one annotation.
#[derive(Debug, Clone)]
pub struct AnnotationInfo {
    /// The annotation's own object id.
    pub id: ObjectId,
    /// Its `/Subtype`.
    pub kind: AnnotationKind,
    /// Its `/Rect`.
    pub rect: Rectangle,
    /// Its `/Contents` (comment text / free text body), if any.
    pub contents: Option<String>,
    /// Its `/T` (author/title), if any.
    pub author: Option<String>,
}

/// The escaped form of one character in a literal string of an
/// appearance stream: `\`, `(` and `)` get a backslash.
pub open spec fn literal_escape_char(c: char) -> Seq<char> {
    if c == '\\' || c == '(' || c == ')' {
        seq!['\\', c]
    } else {
        seq![c]
    }
}

/// The escaped form of a text, character by character.
pub open spec fn literal_escape(s: Seq<char>) -> Seq<char>
    decreases s.len(),
{
    if s.len() == 0 {
        Seq::empty()
    } else {
        literal_escape(s.drop_last()) + literal_escape_char(s.last())
    }
}

/// Escapes `\`, `(` and `)` with a backslash.
pub fn escape_pdf_literal(s: &str) -> (r: String)
    ensures
        r@ == literal_escape(s@),
{
    let mut result = String::new();
    let ghost chars = s@;
    for c in it: s.chars()
        invariant
            it.seq() == chars,
            result@ == literal_escape(chars.take(it.index() as int)),
    {
        let ghost k = it.index() as int;
        let ghost before = result@;
        if c == '\\' || c == '(' || c == ')' {
            push_char(&mut result, '\\');
        }
        push_char(&mut result, c);
        proof {
            assert(chars.take(k + 1).drop_last() =~= chars.take(k));
            assert(result@ =~= before + literal_escape_char(c));
        }
    }
    assert(chars.take(chars.len() as int) =~= chars);
    result
}

/// The content of a text note's icon: a filled square with three
/// horizontal lines, drawn in a 20 by 20 box.
pub fn note_icon_appearance() -> (s: String)
    ensures
        s@ == "q\n1 0.92 0.4 rg\n0 0 0 RG\n0.75 w\n2 2 16 14 re B\n0 0 0 RG\n0.5 w\n4 12 m 14 12 l S\n4 9 m 14 9 l S\n4 6 m 11 6 l S\nQ\n"@,
{
    String::from_str("q\n1 0.92 0.4 rg\n0 0 0 RG\n0.75 w\n2 2 16 14 re B\n0 0 0 RG\n0.5 w\n4 12 m 14 12 l S\n4 9 m 14 9 l S\n4 6 m 11 6 l S\nQ\n")
}


/// The most annotations listed from one page.
pub const MAX_ANNOTS_PER_PAGE: usize = 100000;

/// The value of a listed annotation: id, kind, rectangle in millionths
/// (`llx`, `lly`, `urx`, `ury`), contents and author.
pub struct AnnotationV {
    /// The annotation's id.
    pub id: ObjectId,
    /// Its kind.
    pub kind: AnnotationKind,
    /// Its rectangle.
    pub rect: (int, int, int, int),
    /// Its decoded `/Contents`.
    pub contents: Option<Seq<char>>,
    /// Its decoded `/T`.
    pub author: Option<Seq<char>>,
}

/// The value of a listed annotation summary.
pub open spec fn info_view(a: AnnotationInfo) -> AnnotationV {
    AnnotationV {
        id: a.id,
        kind: a.kind,
        rect: (a.rect.llx.micros as int, a.rect.lly.micros as int, a.rect.urx.micros as int, a.rect.ury.micros as int),
        contents: match a.contents {
            Some(t) => Some(t@),
            None => None,
        },
        author: match a.author {
            Some(t) => Some(t@),
            None => None,
        },
    }
}

/// The values of the first `k` entries of a page's `/Annots` that
/// reference a dictionary with a `/Rect`.
pub open spec fn annots_listed(doc: &EditableDocument, annots: Seq<ObjV>, k: int) -> Seq<AnnotationV>
    decreases k,
{
    if k <= 0 {
        Seq::empty()
    } else {
        annots_listed(doc, annots, k - 1) + match annots[k - 1] {
            ObjV::Reference(n, g) => match doc.dict(ref_id(n, g)) {
                Some(d) => match entries_get(d, "Rect"@) {
                    Some(r) => match rect_of(r) {
                        Some(rect) => seq![
                            AnnotationV {
                                id: ref_id(n, g),
                                kind: AnnotationKind::kind_of(
                                    match entries_get(d, "Subtype"@) {
                                        Some(ObjV::Name(t)) => t,
                                        _ => Seq::empty(),
                                    },
                                ),
                                rect,
                                contents: text_opt(entries_get(d, "Contents"@)),
                                author: text_opt(entries_get(d, "T"@)),
                            },
                        ],
                        None => Seq::empty(),
                    },
                    None => Seq::empty(),
                },
                None => Seq::empty(),
            },
            _ => Seq::empty(),
        }
    }
}

/// `annots` without the references to `id` and to `popup`.
pub open spec fn without_refs(annots: Seq<ObjV>, id: ObjectId, popup: Option<ObjectId>) -> Seq<ObjV>
    decreases annots.len(),
{
    if annots.len() == 0 {
        Seq::empty()
    } else {
        without_refs(annots.drop_last(), id, popup) + match annots.last() {
            ObjV::Reference(n, g) => if ref_id(n, g) == id || Some(ref_id(n, g)) == popup {
                Seq::empty()
            } else {
                seq![annots.last()]
            },
            other => seq![other],
        }
    }
}

impl EditableDocument {
    /// Lists the annotations of the page at `page_index` (at most
    /// `MAX_ANNOTS_PER_PAGE`): those of its `/Annots` references that
    /// name a dictionary with a `/Rect`, in order.
    pub fn list_annotations(&self, page_index: usize) -> (r: Result<Vec<AnnotationInfo>, EditorError>)
        ensures
            match self.spec_page_ids() {
                Err(e) => r == Err::<Vec<AnnotationInfo>, EditorError>(e),
                Ok(ids) => if page_index >= ids.len() {
                    r == Err::<Vec<AnnotationInfo>, EditorError>(
                        EditorError::InvalidPageIndex { index: page_index, count: ids.len() as usize },
                    )
                } else {
                    match self.dict(ids[page_index as int]) {
                        None => r == Err::<Vec<AnnotationInfo>, EditorError>(
                            EditorError::UnresolvedObject(ids[page_index as int].number, ids[page_index as int].generation),
                        ),
                        Some(pd) => r matches Ok(v) && match entries_get(pd, "Annots"@) {
                            Some(ObjV::Array(a)) => {
                                let k = if a.len() < MAX_ANNOTS_PER_PAGE { a.len() as int } else { MAX_ANNOTS_PER_PAGE as int };
                                v@.len() == annots_listed(self, a, k).len() && forall|i: int|
                                    0 <= i < v@.len() ==> #[trigger] info_view(v@[i]) == annots_listed(self, a, k)[i]
                            },
                            _ => v@.len() == 0,
                        },
                    }
                },
            },
    {
        let page_id = self.page_id_at(page_index)?;
        let page = self.get_dictionary(page_id)?;
        let annots = match page.get("Annots") {
            Some(Object::Array(a)) => a,
            _ => {
                return Ok(Vec::new());
            },
        };
        let ghost a = annots.view_items();
        proof {
            crate::object::lemma_view_objs(annots.items@);
        }
        let n = if annots.items.len() < MAX_ANNOTS_PER_PAGE {
            annots.items.len()
        } else {
            MAX_ANNOTS_PER_PAGE
        };
        let mut out: Vec<AnnotationInfo> = Vec::new();
        let mut i: usize = 0;
        while i < n
            invariant
                i <= n,
                n <= annots.items@.len(),
                a == annots.view_items(),
                a.len() == annots.items@.len(),
                forall|j: int| 0 <= j < annots.items@.len() ==> #[trigger] a[j] == annots.items@[j].v(),
                out@.len() == annots_listed(self, a, i as int).len(),
                forall|j: int| 0 <= j < out@.len() ==> #[trigger] info_view(out@[j]) == annots_listed(self, a, i as int)[j],
            decreases n - i,
        {
            let ghost before = out@;
            let ghost prev = annots_listed(self, a, i as int);
            let ghost next = annots_listed(self, a, i + 1);
            assert(next.len() >= prev.len());
            if let Object::Reference(id) = &annots.items[i] {
                let id = *id;
                assert(ref_id(id.number, id.generation) == id);
                assert(a[i as int] == ObjV::Reference(id.number, id.generation));
                if let Ok(dict) = self.get_dictionary(id) {
                    let rect = match dict.get("Rect") {
                        Some(r) => crate::util::rect_from_object(r),
                        None => None,
                    };
                    if let Some(rect) = rect {
                        let kind = match dict.get("Subtype") {
                            Some(Object::Name(n)) => AnnotationKind::from_subtype(n.as_str()),
                            _ => AnnotationKind::from_subtype(""),
                        };
                        proof {
                            reveal_strlit("");
                            assert(""@ =~= Seq::<char>::empty());
                        }
                        let contents = match dict.get("Contents") {
                            Some(Object::String(s)) => Some(crate::util::from_pdf_text_string(s)),
                            _ => None,
                        };
                        let author = match dict.get("T") {
                            Some(Object::String(s)) => Some(crate::util::from_pdf_text_string(s)),
                            _ => None,
                        };
                        let info = AnnotationInfo { id, kind, rect, contents, author };
                        let ghost iv = info_view(info);
                        out.push(info);
                        proof {
                            assert(next == prev + seq![iv]);
                            assert(out@ =~= before.push(info));
                        }
                    } else {
                        assert(next =~= prev);
                    }
                } else {
                    assert(next =~= prev);
                }
            } else {
                assert(next =~= prev);
            }
            proof {
                assert forall|j: int| 0 <= j < out@.len() implies #[trigger] info_view(out@[j]) == next[j] by {
                    if j < before.len() {
                        assert(out@[j] == before[j]);
                        assert(next[j] == prev[j]);
                    }
                }
            }
            i = i + 1;
        }
        Ok(out)
    }

    /// Removes an annotation from the `/Annots` of the page at
    /// `page_index`, with the popup it links to (`/Popup`); the page's
    /// `/Annots` is removed when nothing is left. The annotation objects
    /// stay stored, unreachable.
    pub fn delete_annotation(&mut self, page_index: usize, annot_id: ObjectId) -> (r: Result<(), EditorError>)
        requires
            old(self).wf(),
        ensures
            final(self).wf(),
            final(self).same_but_overlay(old(self)),
            match old(self).spec_page_ids() {
                Err(e) => r == Err::<(), EditorError>(e) && final(self).overlay_v() == old(self).overlay_v(),
                Ok(ids) => if page_index >= ids.len() {
                    r == Err::<(), EditorError>(EditorError::InvalidPageIndex { index: page_index, count: ids.len() as usize })
                        && final(self).overlay_v() == old(self).overlay_v()
                } else {
                    let page = ids[page_index as int];
                    match old(self).dict(annot_id) {
                        None => r == Err::<(), EditorError>(EditorError::AnnotationNotFound(annot_id.number, annot_id.generation))
                            && final(self).overlay_v() == old(self).overlay_v(),
                        Some(ad) => {
                            let popup = crate::outline::ref_of(entries_get(ad, "Popup"@));
                            match old(self).dict(page) {
                                None => r == Err::<(), EditorError>(EditorError::UnresolvedObject(page.number, page.generation))
                                    && final(self).overlay_v() == old(self).overlay_v(),
                                Some(pd) => match entries_get(pd, "Annots"@) {
                                    Some(ObjV::Array(a)) => {
                                        let kept = without_refs(a, annot_id, popup);
                                        if kept.len() == a.len() {
                                            r == Err::<(), EditorError>(EditorError::AnnotationNotFound(annot_id.number, annot_id.generation))
                                                && final(self).overlay_v() == old(self).overlay_v()
                                        } else {
                                            r is Ok && final(self).overlay_v() == table_set(
                                                old(self).overlay_v(),
                                                page,
                                                ObjV::Dict(if kept.len() == 0 {
                                                    entries_remove(pd, "Annots"@)
                                                } else {
                                                    entries_set(pd, "Annots"@, ObjV::Array(kept))
                                                }),
                                            )
                                        }
                                    },
                                    _ => r == Err::<(), EditorError>(EditorError::AnnotationNotFound(annot_id.number, annot_id.generation))
                                        && final(self).overlay_v() == old(self).overlay_v(),
                                },
                            }
                        },
                    }
                },
            },
    {
        let page_id = self.page_id_at(page_index)?;
        let dict = match self.get_dictionary(annot_id) {
            Ok(d) => d,
            Err(_) => {
                return Err(EditorError::AnnotationNotFound(annot_id.number, annot_id.generation));
            },
        };
        let popup_id = match dict.get("Popup") {
            Some(Object::Reference(id)) => Some(*id),
            _ => None,
        };
        proof {
            if let Some(p) = popup_id {
                assert(ref_id(p.number, p.generation) == p);
            }
        }
        let mut page = self.get_dictionary(page_id)?;
        let annots = match page.get("Annots") {
            Some(Object::Array(a)) => crate::object::copy_array(a),
            _ => {
                return Err(EditorError::AnnotationNotFound(annot_id.number, annot_id.generation));
            },
        };
        let ghost a = annots.view_items();
        proof {
            crate::object::lemma_view_objs(annots.items@);
        }
        let mut kept = PdfArray::new();
        let mut i: usize = 0;
        proof {
            assert(annots.items@.take(0) =~= Seq::<Object>::empty());
        }
        while i < annots.items.len()
            invariant
                i <= annots.items@.len(),
                a == annots.view_items(),
                a.len() == annots.items@.len(),
                forall|j: int| 0 <= j < annots.items@.len() ==> #[trigger] a[j] == annots.items@[j].v(),
                kept.view_items() == without_refs(a.take(i as int), annot_id, popup_id),
            decreases annots.items@.len() - i,
        {
            let ghost t = a.take(i + 1);
            proof {
                assert(t.drop_last() =~= a.take(i as int));
                assert(t.last() == a[i as int]);
            }
            let drop = match &annots.items[i] {
                Object::Reference(id) => {
                    assert(ref_id(id.number, id.generation) == *id);
                    *id == annot_id || (match popup_id {
                        Some(p) => *id == p,
                        None => false,
                    })
                },
                _ => false,
            };
            if !drop {
                let ghost k0 = kept.items@;
                kept.push(crate::object::copy_object(&annots.items[i]));
                proof {
                    assert(kept.items@.drop_last() =~= k0);
                    assert(crate::object::view_objs(kept.items@) == crate::object::view_objs(kept.items@.drop_last()).push(
                        kept.items@.last().v(),
                    ));
                }
            }
            i = i + 1;
        }
        proof {
            assert(a.take(a.len() as int) =~= a);
            crate::object::lemma_view_objs(kept.items@);
        }
        if kept.items.len() == annots.items.len() {
            return Err(EditorError::AnnotationNotFound(annot_id.number, annot_id.generation));
        }
        if kept.items.len() == 0 {
            page.remove("Annots");
        } else {
            page.set("Annots", Object::Array(kept));
        }
        self.store_dict(page_id, page);
        Ok(())
    }
}

} // verus!
