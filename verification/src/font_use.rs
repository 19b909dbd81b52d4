//! Which fonts a page names and which character codes its text shows
//! through them (ISO 32000-1 9.4.3): the effective `/Resources` of a
//! page, the resource names of a font, and the codes the text-showing
//! operators of the pages pass to it.

use vstd::prelude::*;
use std::collections::HashSet;
use crate::content_stream::{lemma_view_items, parse_content_stream, spec_parse_content_stream, view_items, ContentItem, ItemV};
use crate::graph::{ref_id, EditableDocument, EditorError};
use crate::object::{copy_dictionary, entries_get, lemma_view_entries, lemma_view_objs, str_eq, view_objs, ObjV, Object, ObjectId, PdfDictionary};
use crate::redact::{chunk_codes, collect_codes};

verus! {

/// The most `/Parent` links followed looking for inherited resources.
pub const MAX_RESOURCE_DEPTH: usize = 64;

/// The dictionary a `/Resources` value stands for: itself, the
/// dictionary it refers to (none when that does not resolve), or an
/// empty one for any other value.
pub open spec fn resolve_v(doc: &EditableDocument, o: ObjV) -> Option<Seq<(Seq<char>, ObjV)>> {
    match o {
        ObjV::Dict(e) => Some(e),
        ObjV::Reference(n, g) => doc.dict(ref_id(n, g)),
        _ => Some(Seq::empty()),
    }
}

/// The effective resources of the page-tree node `id` (ISO 32000-1
/// Table 30, inheritable): its own `/Resources` when that resolves, else
/// its parent's, looking through at most `n` nodes; empty when the chain
/// ends first.
pub open spec fn resources_v(doc: &EditableDocument, id: ObjectId, n: nat) -> Result<Seq<(Seq<char>, ObjV)>, EditorError>
    decreases n,
{
    if n == 0 {
        Ok(Seq::empty())
    } else {
        match doc.dict(id) {
            None => Err(EditorError::UnresolvedObject(id.number, id.generation)),
            Some(d) => {
                let own = match entries_get(d, "Resources"@) {
                    Some(o) => resolve_v(doc, o),
                    None => None,
                };
                match own {
                    Some(r) => Ok(r),
                    None => match entries_get(d, "Parent"@) {
                        Some(ObjV::Reference(pn, pg)) => resources_v(doc, ref_id(pn, pg), (n - 1) as nat),
                        _ => Ok(Seq::empty()),
                    },
                }
            },
        }
    }
}

/// The `/Font` subdictionary of resources `res`: inline, or the
/// dictionary it refers to; empty otherwise.
pub open spec fn font_entries_v(doc: &EditableDocument, res: Seq<(Seq<char>, ObjV)>) -> Seq<(Seq<char>, ObjV)> {
    match entries_get(res, "Font"@) {
        Some(ObjV::Dict(d)) => d,
        Some(ObjV::Reference(n, g)) => match doc.dict(ref_id(n, g)) {
            Some(d) => d,
            None => Seq::empty(),
        },
        _ => Seq::empty(),
    }
}

/// The resource names, in order, under which the entries `fd` refer to
/// the font `font`.
pub open spec fn names_to(fd: Seq<(Seq<char>, ObjV)>, font: ObjectId) -> Seq<Seq<char>>
    decreases fd.len(),
{
    if fd.len() == 0 {
        Seq::empty()
    } else {
        let r = names_to(fd.drop_last(), font);
        if fd.last().1 == ObjV::Reference(font.number, font.generation) {
            r.push(fd.last().0)
        } else {
            r
        }
    }
}

/// The views of a list of strings.
pub open spec fn strings_v(s: Seq<String>) -> Seq<Seq<char>> {
    Seq::new(s.len(), |i: int| s[i]@)
}

impl EditableDocument {
    /// The dictionary a `/Resources` value stands for (see `resolve_v`).
    pub fn resolve_dict_or_ref(&self, obj: &Object) -> (r: Result<PdfDictionary, EditorError>)
        ensures
            match resolve_v(self, obj.v()) {
                Some(e) => r matches Ok(d) && d.view_entries() == e,
                None => r is Err,
            },
    {
        match obj {
            Object::Dictionary(d) => Ok(copy_dictionary(d)),
            Object::Reference(id) => {
                assert(ref_id(id.number, id.generation) == *id);
                self.get_dictionary(*id)
            },
            _ => {
                let d = PdfDictionary::new();
                assert(d.view_entries() =~= Seq::<(Seq<char>, ObjV)>::empty());
                Ok(d)
            },
        }
    }

    /// The effective `/Resources` of the page-tree node `id`, inherited
    /// through `/Parent` when the node sets none (see `resources_v`).
    pub fn effective_resources(&self, id: ObjectId) -> (r: Result<PdfDictionary, EditorError>)
        ensures
            match resources_v(self, id, MAX_RESOURCE_DEPTH as nat) {
                Ok(e) => r matches Ok(d) && d.view_entries() == e,
                Err(x) => r == Err::<PdfDictionary, EditorError>(x),
            },
    {
        let mut cur = id;
        let mut k: usize = 0;
        while k < MAX_RESOURCE_DEPTH
            invariant
                k <= MAX_RESOURCE_DEPTH,
                resources_v(self, id, MAX_RESOURCE_DEPTH as nat) == resources_v(self, cur, (MAX_RESOURCE_DEPTH - k) as nat),
            decreases MAX_RESOURCE_DEPTH - k,
        {
            let dict = match self.get_dictionary(cur) {
                Ok(d) => d,
                Err(e) => {
                    return Err(e);
                },
            };
            match dict.get("Resources") {
                Some(res) => match self.resolve_dict_or_ref(res) {
                    Ok(d) => {
                        return Ok(d);
                    },
                    Err(_) => {},
                },
                None => {},
            }
            match dict.get("Parent") {
                Some(Object::Reference(p)) => {
                    assert(ref_id(p.number, p.generation) == *p);
                    cur = *p;
                },
                _ => {
                    let d = PdfDictionary::new();
                    assert(d.view_entries() =~= Seq::<(Seq<char>, ObjV)>::empty());
                    return Ok(d);
                },
            }
            k = k + 1;
        }
        let d = PdfDictionary::new();
        assert(d.view_entries() =~= Seq::<(Seq<char>, ObjV)>::empty());
        Ok(d)
    }

    /// The `/Font` subdictionary of the resources `res` (see
    /// `font_entries_v`).
    pub fn font_entries(&self, res: &PdfDictionary) -> (r: PdfDictionary)
        ensures
            r.view_entries() == font_entries_v(self, res.view_entries()),
    {
        match res.get("Font") {
            Some(Object::Dictionary(d)) => copy_dictionary(d),
            Some(Object::Reference(id)) => {
                assert(ref_id(id.number, id.generation) == *id);
                match self.get_dictionary(*id) {
                    Ok(d) => d,
                    Err(_) => {
                        let d = PdfDictionary::new();
                        assert(d.view_entries() =~= Seq::<(Seq<char>, ObjV)>::empty());
                        d
                    },
                }
            },
            _ => {
                let d = PdfDictionary::new();
                assert(d.view_entries() =~= Seq::<(Seq<char>, ObjV)>::empty());
                d
            },
        }
    }
}

/// The names under which the font dictionary `fd` refers to `font`, in
/// order (see `names_to`).
pub fn font_names(fd: &PdfDictionary, font: ObjectId) -> (r: Vec<String>)
    ensures
        strings_v(r@) == names_to(fd.view_entries(), font),
{
    let ghost e = fd.view_entries();
    proof {
        lemma_view_entries(fd.entries@);
    }
    let mut out: Vec<String> = Vec::new();
    let mut i: usize = 0;
    while i < fd.entries.len()
        invariant
            i <= fd.entries@.len(),
            e == fd.view_entries(),
            e.len() == fd.entries@.len(),
            forall|j: int| 0 <= j < e.len() ==> #[trigger] e[j] == (fd.entries@[j].0@, fd.entries@[j].1.v()),
            strings_v(out@) == names_to(e.take(i as int), font),
        decreases fd.entries@.len() - i,
    {
        assert(e.take(i as int + 1).drop_last() =~= e.take(i as int));
        let matches_font = match &fd.entries[i].1 {
            Object::Reference(id) => id.number == font.number && id.generation == font.generation,
            _ => false,
        };
        if matches_font {
            out.push(fd.entries[i].0.clone());
            assert(strings_v(out@) =~= names_to(e.take(i as int), font).push(e[i as int].0));
        } else {
            assert(e[i as int].1 != ObjV::Reference(font.number, font.generation));
        }
        i = i + 1;
    }
    assert(e.take(i as int) =~= e);
    out
}

/// Whether `n` is among `names`.
fn names_contain(names: &Vec<String>, n: &str) -> (r: bool)
    ensures
        r == strings_v(names@).contains(n@),
{
    let mut i: usize = 0;
    while i < names.len()
        invariant
            i <= names@.len(),
            forall|j: int| 0 <= j < i ==> names@[j]@ != n@,
        decreases names@.len() - i,
    {
        if str_eq(names[i].as_str(), n) {
            assert(strings_v(names@)[i as int] == n@);
            return true;
        }
        i = i + 1;
    }
    assert forall|j: int| 0 <= j < strings_v(names@).len() implies strings_v(names@)[j] != n@ by {
        assert(names@[j]@ != n@);
    }
    false
}

/// The codes of the string elements of a `TJ` array, `w` bytes each.
pub open spec fn array_codes(a: Seq<ObjV>, w: nat) -> Set<u32>
    decreases a.len(),
{
    if a.len() == 0 {
        Set::empty()
    } else {
        (match a[0] {
            ObjV::Str(_, b) => chunk_codes(b, w),
            _ => Set::empty(),
        }).union(array_codes(a.drop_first(), w))
    }
}

/// The codes a run of content items shows through a font named one of
/// `names`, `w` bytes each: `Tf` selects the font by its first operand;
/// while one of `names` is selected, the last operand of `Tj`, `'` and
/// `"` and the strings of the first operand of `TJ` count.
pub open spec fn op_codes(items: Seq<ItemV>, names: Seq<Seq<char>>, w: nat, active: bool) -> Set<u32>
    decreases items.len(),
{
    if items.len() == 0 {
        Set::empty()
    } else {
        let rest = items.drop_first();
        match items[0] {
            ItemV::Op(op, args) => if op == "Tf"@ {
                let now = args.len() > 0 && (args[0] matches ObjV::Name(n) && names.contains(n));
                op_codes(rest, names, w, now)
            } else if active && (op == "Tj"@ || op == "'"@ || op == "\""@) {
                (if args.len() > 0 && args.last() is Str {
                    chunk_codes(args.last()->Str_1, w)
                } else {
                    Set::empty()
                }).union(op_codes(rest, names, w, active))
            } else if active && op == "TJ"@ {
                (if args.len() > 0 && args[0] is Array {
                    array_codes(args[0]->Array_0, w)
                } else {
                    Set::empty()
                }).union(op_codes(rest, names, w, active))
            } else {
                op_codes(rest, names, w, active)
            },
            _ => op_codes(rest, names, w, active),
        }
    }
}

/// Adds the codes of `items` shown through a font named one of `names`
/// to `used` (see `op_codes`).
fn codes_in_items(items: &Vec<ContentItem>, names: &Vec<String>, w: usize, used: &mut HashSet<u32>)
    requires
        1 <= w,
    ensures
        final(used)@ == old(used)@.union(op_codes(view_items(items@), strings_v(names@), w as nat, false)),
{
    let ghost vi = view_items(items@);
    let ghost nv = strings_v(names@);
    let ghost total = old(used)@.union(op_codes(vi, nv, w as nat, false));
    proof {
        lemma_view_items(items@);
        assert(vi.skip(0) =~= vi);
    }
    let mut active = false;
    let mut i: usize = 0;
    while i < items.len()
        invariant
            i <= items@.len(),
            vi == view_items(items@),
            vi.len() == items@.len(),
            forall|k: int| 0 <= k < vi.len() ==> #[trigger] vi[k] == items@[k].v(),
            nv == strings_v(names@),
            1 <= w,
            total == used@.union(op_codes(vi.skip(i as int), nv, w as nat, active)),
        decreases items@.len() - i,
    {
        let ghost before = used@;
        let ghost rest = vi.skip(i as int + 1);
        assert(vi.skip(i as int).drop_first() =~= rest);
        assert(vi.skip(i as int)[0] == vi[i as int]);
        match &items[i] {
            ContentItem::Op { operator, operands } => {
                let ghost args = view_objs(operands@);
                proof {
                    lemma_view_objs(operands@);
                }
                if str_eq(operator.as_str(), "Tf") {
                    let now = if operands.len() > 0 {
                        match &operands[0] {
                            Object::Name(n) => names_contain(names, n.as_str()),
                            _ => false,
                        }
                    } else {
                        false
                    };
                    active = now;
                } else if active && (str_eq(operator.as_str(), "Tj") || str_eq(operator.as_str(), "'") || str_eq(
                    operator.as_str(),
                    "\"",
                )) {
                    if operands.len() > 0 {
                        match &operands[operands.len() - 1] {
                            Object::String(s) => {
                                collect_codes(s.as_bytes(), w, used);
                            },
                            _ => {},
                        }
                    }
                    assert(used@.union(op_codes(rest, nv, w as nat, active)) =~= before.union(
                        op_codes(vi.skip(i as int), nv, w as nat, active),
                    ));
                } else if active && str_eq(operator.as_str(), "TJ") {
                    if operands.len() > 0 {
                        match &operands[0] {
                            Object::Array(a) => {
                                let ghost av = view_objs(a.items@);
                                proof {
                                    lemma_view_objs(a.items@);
                                    assert(av.skip(0) =~= av);
                                }
                                let ghost start = used@;
                                let mut j: usize = 0;
                                while j < a.items.len()
                                    invariant
                                        j <= a.items@.len(),
                                        av == view_objs(a.items@),
                                        av.len() == a.items@.len(),
                                        forall|k: int| 0 <= k < av.len() ==> #[trigger] av[k] == a.items@[k].v(),
                                        1 <= w,
                                        start.union(array_codes(av, w as nat)) == used@.union(array_codes(av.skip(j as int), w as nat)),
                                    decreases a.items@.len() - j,
                                {
                                    assert(av.skip(j as int).drop_first() =~= av.skip(j as int + 1));
                                    assert(av.skip(j as int)[0] == av[j as int]);
                                    let ghost b0 = used@;
                                    match &a.items[j] {
                                        Object::String(s) => {
                                            collect_codes(s.as_bytes(), w, used);
                                        },
                                        _ => {},
                                    }
                                    assert(used@.union(array_codes(av.skip(j as int + 1), w as nat)) =~= b0.union(
                                        array_codes(av.skip(j as int), w as nat),
                                    ));
                                    j = j + 1;
                                }
                                assert(av.skip(j as int) =~= Seq::<ObjV>::empty());
                                assert(array_codes(av.skip(j as int), w as nat) =~= Set::<u32>::empty());
                                assert(used@ =~= start.union(array_codes(av, w as nat)));
                            },
                            _ => {},
                        }
                    }
                    assert(used@.union(op_codes(rest, nv, w as nat, active)) =~= before.union(
                        op_codes(vi.skip(i as int), nv, w as nat, active),
                    ));
                } else {
                }
            },
            _ => {},
        }
        i = i + 1;
    }
    assert(vi.skip(i as int) =~= Seq::<ItemV>::empty());
    assert(used@ =~= total);
}

/// The code width a requested byte count stands for: 1 or 2.
pub open spec fn code_width(code_bytes: u8) -> nat {
    if code_bytes <= 1 {
        1
    } else {
        2
    }
}

/// The codes the page `page` shows through `font`, `w` bytes each: none
/// when its resources name the font nowhere (its content is then not
/// read); else those of its parsed content (see `op_codes`).
#[verifier::opaque]
pub open spec fn page_codes_v(doc: &EditableDocument, page: ObjectId, font: ObjectId, w: nat) -> Result<Set<u32>, EditorError> {
    match resources_v(doc, page, MAX_RESOURCE_DEPTH as nat) {
        Err(e) => Err(e),
        Ok(res) => {
            let names = names_to(font_entries_v(doc, res), font);
            if names.len() == 0 {
                Ok(Set::empty())
            } else {
                match doc.spec_page_content(page) {
                    Err(e) => Err(e),
                    Ok(b) => Ok(op_codes(spec_parse_content_stream(b), names, w, false)),
                }
            }
        },
    }
}

/// The codes the pages `pages` show through `font`, the first page that
/// fails deciding the error.
pub open spec fn pages_codes_v(doc: &EditableDocument, pages: Seq<ObjectId>, font: ObjectId, w: nat) -> Result<Set<u32>, EditorError>
    decreases pages.len(),
{
    if pages.len() == 0 {
        Ok(Set::empty())
    } else {
        match page_codes_v(doc, pages[0], font, w) {
            Err(e) => Err(e),
            Ok(c) => match pages_codes_v(doc, pages.drop_first(), font, w) {
                Err(e) => Err(e),
                Ok(t) => Ok(c.union(t)),
            },
        }
    }
}

/// The character codes, `w` bytes each, that the text of every page of
/// the document shows through the font `font`.
pub open spec fn used_codes_v(doc: &EditableDocument, font: ObjectId, w: nat) -> Result<Set<u32>, EditorError> {
    match doc.spec_page_ids() {
        Err(e) => Err(e),
        Ok(pages) => pages_codes_v(doc, pages, font, w),
    }
}

/// `r` with the codes `u` added to a success.
pub open spec fn with_codes(r: Result<Set<u32>, EditorError>, u: Set<u32>) -> Result<Set<u32>, EditorError> {
    match r {
        Err(e) => Err(e),
        Ok(t) => Ok(u.union(t)),
    }
}

/// One step of `pages_codes_v` from the page at `i` on.
proof fn lemma_pages_codes_step(doc: &EditableDocument, pv: Seq<ObjectId>, i: int, font: ObjectId, w: nat, u: Set<u32>)
    requires
        0 <= i < pv.len(),
    ensures
        with_codes(pages_codes_v(doc, pv.skip(i), font, w), u) == match page_codes_v(doc, pv[i], font, w) {
            Err(e) => Err(e),
            Ok(c) => with_codes(pages_codes_v(doc, pv.skip(i + 1), font, w), u.union(c)),
        },
{
    assert(pv.skip(i).drop_first() =~= pv.skip(i + 1));
    assert(pv.skip(i)[0] == pv[i]);
    match page_codes_v(doc, pv[i], font, w) {
        Err(e) => {},
        Ok(c) => match pages_codes_v(doc, pv.skip(i + 1), font, w) {
            Err(e) => {},
            Ok(t) => {
                assert(u.union(c.union(t)) =~= u.union(c).union(t));
            },
        },
    }
}

impl EditableDocument {
    /// The codes the page `page` shows through `font` (see
    /// `page_codes_v`), added to `used`.
    fn page_codes(&self, page: ObjectId, font: ObjectId, w: usize, used: &mut HashSet<u32>) -> (r: Result<(), EditorError>)
        requires
            w == 1 || w == 2,
        ensures
            match page_codes_v(self, page, font, w as nat) {
                Ok(c) => r is Ok && final(used)@ == old(used)@.union(c),
                Err(e) => r == Err::<(), EditorError>(e),
            },
    {
        reveal(page_codes_v);
        let resources = match self.effective_resources(page) {
            Ok(d) => d,
            Err(e) => {
                return Err(e);
            },
        };
        let fd = self.font_entries(&resources);
        let names = font_names(&fd, font);
        if names.len() == 0 {
            assert(used@.union(Set::<u32>::empty()) =~= used@);
            return Ok(());
        }
        let bytes = match self.page_content_bytes(page) {
            Ok(b) => b,
            Err(e) => {
                return Err(e);
            },
        };
        let items = parse_content_stream(bytes.as_slice());
        codes_in_items(&items, &names, w, used);
        Ok(())
    }

    /// The set of character codes, `code_bytes` wide (read as 1 or 2),
    /// that text anywhere in the document shows through the font
    /// `font`: what a `/ToUnicode` map of that font still needs (see
    /// `used_codes_v`).
    pub fn collect_used_codes_for_font(&self, font: ObjectId, code_bytes: u8) -> (r: Result<HashSet<u32>, EditorError>)
        ensures
            match used_codes_v(self, font, code_width(code_bytes)) {
                Ok(c) => r matches Ok(s) && s@ == c,
                Err(e) => r matches Err(x) && x == e,
            },
    {
        let w: usize = if code_bytes <= 1 { 1 } else { 2 };
        let pages = match self.page_ids() {
            Ok(p) => p,
            Err(e) => {
                return Err(e);
            },
        };
        let ghost pv = pages@;
        let mut used: HashSet<u32> = HashSet::new();
        assert(pv.skip(0) =~= pv);
        proof {
            match pages_codes_v(self, pv, font, w as nat) {
                Err(e) => {},
                Ok(t) => {
                    assert(used@.union(t) =~= t);
                },
            }
        }
        let mut i: usize = 0;
        while i < pages.len()
            invariant
                i <= pages@.len(),
                pv == pages@,
                self.spec_page_ids() == Ok::<Seq<ObjectId>, EditorError>(pv),
                w as nat == code_width(code_bytes),
                w == 1 || w == 2,
                pages_codes_v(self, pv, font, w as nat) == with_codes(pages_codes_v(self, pv.skip(i as int), font, w as nat), used@),
            decreases pages@.len() - i,
        {
            proof {
                lemma_pages_codes_step(self, pv, i as int, font, w as nat, used@);
            }
            let ghost u0 = used@;
            match self.page_codes(pages[i], font, w, &mut used) {
                Ok(_) => {},
                Err(e) => {
                    assert(page_codes_v(self, pv[i as int], font, w as nat) == Err::<Set<u32>, EditorError>(e));
                    assert(with_codes(pages_codes_v(self, pv.skip(i as int), font, w as nat), u0) == Err::<Set<u32>, EditorError>(e));
                    assert(pages_codes_v(self, pv, font, w as nat) == Err::<Set<u32>, EditorError>(e));
                    return Err(e);
                },
            }
            i = i + 1;
        }
        assert(pv.skip(i as int) =~= Seq::<ObjectId>::empty());
        assert(used@.union(Set::<u32>::empty()) =~= used@);
        Ok(used)
    }
}

} // verus!
