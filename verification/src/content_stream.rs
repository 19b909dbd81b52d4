//! A generic, round-trippable parser for PDF content-stream operators
//! (ISO 32000-1:2008 Section 7.8.2 "Content Streams", Table 51).
//!
//! A content stream is a sequence of *operands* (objects, per 7.3, except
//! that indirect references and streams are not allowed as operands)
//! followed by an *operator* keyword, plus the special `BI`/`ID`/`EI`
//! inline-image construct (8.9.7). Operators are kept as a generic
//! `(name, operands)` pair, so that every operator an existing PDF may
//! contain survives a parse and a re-serialization.
//!
//! Re-serialization normalizes white space and number formatting; it is
//! semantically equivalent but not byte-identical to the input.

use vstd::prelude::*;
use vstd::utf8::encode_utf8;
use crate::lexer::{
    NumV, skip_ws, skip_ws_and_comments, lemma_skip_ws, prefix_word, strip_prefix_word, spec_name,
    take_name, spec_literal, take_literal_string, spec_hex_string, take_hex_string, spec_number,
    take_number, is_num_char, spec_keyword, parse_keyword, copy_range, lemma_name_loop,
};
use crate::object::{
    Object, ObjV, PdfArray, PdfDictionary, PdfName, PdfReal, PdfString, entries_set, view_objs,
};
use crate::serialize::{obj_text, name_text, write_object, write_name_bytes, write_bytes};

verus! {

/// An inline image (`BI ... ID ... EI`, ISO 32000-1 8.9.7), kept opaque:
/// its parameter dictionary and its raw data.
#[derive(Debug, PartialEq)]
pub struct InlineImage {
    /// The parameters between `BI` and `ID`.
    pub dictionary: PdfDictionary,
    /// The bytes between `ID` and `EI`.
    pub data: Vec<u8>,
}

/// One item of a parsed content stream.
#[derive(Debug, PartialEq)]
pub enum ContentItem {
    /// `operand1 operand2 ... operandN operator`, e.g. `100 200 m` or
    /// `(Hello) Tj`.
    Op {
        /// The operator keyword.
        operator: String,
        /// The operands, in order.
        operands: Vec<Object>,
    },
    /// A `BI ... ID ... EI` inline image, kept opaque.
    InlineImage(InlineImage),
    /// A trailing byte range that failed to parse as either of the
    /// above. Preserved verbatim (rather than dropped) so a corrupt tail
    /// doesn't silently lose content.
    Raw(Vec<u8>),
}

/// The value of a content item.
pub enum ItemV {
    /// Operator text and operand values.
    Op(Seq<char>, Seq<ObjV>),
    /// Inline image parameters and data.
    Inline(Seq<(Seq<char>, ObjV)>, Seq<u8>),
    /// Unparsed bytes.
    Raw(Seq<u8>),
}

impl ContentItem {
    /// The item's value.
    pub open spec fn v(self) -> ItemV {
        match self {
            ContentItem::Op { operator, operands } => ItemV::Op(operator@, view_objs(operands@)),
            ContentItem::InlineImage(img) => ItemV::Inline(img.dictionary.view_entries(), img.data@),
            ContentItem::Raw(b) => ItemV::Raw(b@),
        }
    }
}

/// The values of a sequence of items.
pub open spec fn view_items(s: Seq<ContentItem>) -> Seq<ItemV>
    decreases s.len(),
{
    if s.len() == 0 {
        Seq::empty()
    } else {
        view_items(s.drop_last()).push(s.last().v())
    }
}

/// Item `i` of the values is the value of item `i`.
pub proof fn lemma_view_items(s: Seq<ContentItem>)
    ensures
        view_items(s).len() == s.len(),
        forall|i: int| 0 <= i < s.len() ==> #[trigger] view_items(s)[i] == s[i].v(),
    decreases s.len(),
{
    if s.len() > 0 {
        lemma_view_items(s.drop_last());
    }
}

// ---------------------------------------------------------------------
// The grammar

/// The bytes `true`.
pub open spec fn kw_true() -> Seq<u8> {
    seq![116u8, 114u8, 117u8, 101u8]
}

/// The bytes `false`.
pub open spec fn kw_false() -> Seq<u8> {
    seq![102u8, 97u8, 108u8, 115u8, 101u8]
}

/// The bytes `null`.
pub open spec fn kw_null() -> Seq<u8> {
    seq![110u8, 117u8, 108u8, 108u8]
}

/// The bytes `BI`.
pub open spec fn kw_bi() -> Seq<u8> {
    seq![66u8, 73u8]
}

/// The bytes `ID`.
pub open spec fn kw_id() -> Seq<u8> {
    seq![73u8, 68u8]
}

/// The bytes `EI`.
pub open spec fn kw_ei() -> Seq<u8> {
    seq![69u8, 73u8]
}

/// The value of a numeric token.
pub open spec fn num_obj(v: NumV) -> ObjV {
    match v {
        NumV::Int(i) => ObjV::Integer(i),
        NumV::Real(m) => ObjV::Real(m),
    }
}

/// One operand at position `i`: a number, string, name, array,
/// dictionary, boolean or null (ISO 32000-1 7.8.2).
pub open spec fn spec_operand(s: Seq<u8>, i: int) -> Option<(int, ObjV)>
    decreases s.len() - i, 0int,
{
    if i < 0 || i >= s.len() {
        None
    } else {
        let c = s[i];
        if c == 47u8 {
            match spec_name(s, i + 1) {
                Some((e, n)) => Some((e, ObjV::Name(n))),
                None => None,
            }
        } else if c == 40u8 {
            match spec_literal(s, i) {
                Some((e, b)) => Some((e, ObjV::Str(false, b))),
                None => None,
            }
        } else if c == 60u8 && i + 1 < s.len() && s[i + 1] == 60u8 {
            spec_dict_loop(s, i + 2, Seq::empty())
        } else if c == 60u8 {
            match spec_hex_string(s, i) {
                Some((e, b)) => Some((e, ObjV::Str(true, b))),
                None => None,
            }
        } else if c == 91u8 {
            spec_array_loop(s, i + 1, Seq::empty())
        } else if is_num_char(c) {
            match spec_number(s, i) {
                Some((e, v)) => Some((e, num_obj(v))),
                None => None,
            }
        } else if prefix_word(s, i, kw_true()) {
            Some((i + 4, ObjV::Boolean(true)))
        } else if prefix_word(s, i, kw_false()) {
            Some((i + 5, ObjV::Boolean(false)))
        } else if prefix_word(s, i, kw_null()) {
            Some((i + 4, ObjV::Null))
        } else {
            None
        }
    }
}

/// The rest of an array after its `[`, with `acc` read so far.
pub open spec fn spec_array_loop(s: Seq<u8>, i: int, acc: Seq<ObjV>) -> Option<(int, ObjV)>
    decreases s.len() - i, 1int,
{
    if i < 0 || i > s.len() {
        None
    } else {
        let j = skip_ws(s, i);
        proof {
            lemma_skip_ws(s, i);
        }
        if j < s.len() && s[j] == 93u8 {
            Some((j + 1, ObjV::Array(acc)))
        } else {
            match spec_operand(s, j) {
                Some((e, o)) => if j < e <= s.len() {
                    spec_array_loop(s, e, acc.push(o))
                } else {
                    None
                },
                None => None,
            }
        }
    }
}

/// The rest of a dictionary after its `<<`, with `acc` read so far.
/// Later occurrences of a key replace earlier ones.
pub open spec fn spec_dict_loop(s: Seq<u8>, i: int, acc: Seq<(Seq<char>, ObjV)>) -> Option<
    (int, ObjV),
>
    decreases s.len() - i, 1int,
{
    if i < 0 || i > s.len() {
        None
    } else {
        let j = skip_ws(s, i);
        proof {
            lemma_skip_ws(s, i);
        }
        if j + 1 < s.len() && s[j] == 62u8 && s[j + 1] == 62u8 {
            Some((j + 2, ObjV::Dict(acc)))
        } else if j >= s.len() || s[j] != 47u8 {
            None
        } else {
            match spec_name(s, j + 1) {
                None => None,
                Some((e1, key)) => {
                    proof {
                        lemma_name_loop(s, j + 1, Seq::empty());
                    }
                    let k = skip_ws(s, e1);
                    proof {
                        lemma_skip_ws(s, e1);
                    }
                    match spec_operand(s, k) {
                        Some((e2, v)) => if k < e2 <= s.len() {
                            spec_dict_loop(s, e2, entries_set(acc, key, v))
                        } else {
                            None
                        },
                        None => None,
                    }
                },
            }
        }
    }
}

/// One `operand* operator` statement from position `i`, with operands
/// `acc` read so far: the position after the operator, the operator and
/// the operands.
pub open spec fn spec_statement(s: Seq<u8>, i: int, acc: Seq<ObjV>) -> Option<
    (int, Seq<char>, Seq<ObjV>),
>
    decreases s.len() - i,
{
    if i < 0 || i > s.len() {
        None
    } else {
        let j = skip_ws(s, i);
        proof {
            lemma_skip_ws(s, i);
        }
        if j >= s.len() {
            None
        } else {
            match spec_operand(s, j) {
                Some((e, o)) => if j < e <= s.len() {
                    spec_statement(s, e, acc.push(o))
                } else {
                    None
                },
                None => match spec_keyword(s, j) {
                    Some((e, kw)) => Some((e, kw, acc)),
                    None => None,
                },
            }
        }
    }
}

/// The first `p >= i` at which a white-space byte, `EI` and then white
/// space, a delimiter or the end of input stand: the end of inline image
/// data. `None` when there is none.
pub open spec fn ei_search(s: Seq<u8>, i: int) -> Option<int>
    decreases s.len() - i,
{
    if i < 0 || i + 3 > s.len() {
        None
    } else if crate::syntax::spec_is_whitespace(s[i]) && prefix_word(s, i + 1, kw_ei()) {
        Some(i)
    } else {
        ei_search(s, i + 1)
    }
}

/// The parameters of an inline image from position `i` (after `BI`),
/// with `acc` read so far, then its data: the position after `EI`, the
/// parameters and the data. After `ID` a single white-space byte is
/// skipped; the data runs up to the white space before `EI`.
pub open spec fn spec_inline_loop(s: Seq<u8>, i: int, acc: Seq<(Seq<char>, ObjV)>) -> Option<
    (int, Seq<(Seq<char>, ObjV)>, Seq<u8>),
>
    decreases s.len() - i,
{
    if i < 0 || i > s.len() {
        None
    } else {
        let j = skip_ws(s, i);
        proof {
            lemma_skip_ws(s, i);
        }
        if prefix_word(s, j, kw_id()) {
            if j + 2 < s.len() && crate::syntax::spec_is_whitespace(s[j + 2]) {
                match ei_search(s, j + 3) {
                    Some(p) => Some((p + 3, acc, s.subrange(j + 3, p))),
                    None => None,
                }
            } else {
                None
            }
        } else if j >= s.len() || s[j] != 47u8 {
            None
        } else {
            match spec_name(s, j + 1) {
                None => None,
                Some((e1, key)) => {
                    proof {
                        lemma_name_loop(s, j + 1, Seq::empty());
                    }
                    let k = skip_ws(s, e1);
                    proof {
                        lemma_skip_ws(s, e1);
                    }
                    match spec_operand(s, k) {
                        Some((e2, v)) => if k < e2 <= s.len() {
                            spec_inline_loop(s, e2, entries_set(acc, key, v))
                        } else {
                            None
                        },
                        None => None,
                    }
                },
            }
        }
    }
}

/// The items of a content stream from position `i`. A syntax error ends
/// the parse: everything from the error's statement to the end of input
/// becomes one `Raw` item.
pub open spec fn spec_items(s: Seq<u8>, i: int) -> Seq<ItemV>
    decreases s.len() - i,
{
    if i < 0 || i > s.len() {
        Seq::empty()
    } else {
        let j = skip_ws(s, i);
        proof {
            lemma_skip_ws(s, i);
        }
        if j >= s.len() {
            Seq::empty()
        } else if prefix_word(s, j, kw_bi()) {
            match spec_inline_loop(s, j + 2, Seq::empty()) {
                Some((e, dict, data)) => if j < e <= s.len() {
                    seq![ItemV::Inline(dict, data)] + spec_items(s, e)
                } else {
                    seq![ItemV::Raw(s.subrange(j, s.len() as int))]
                },
                None => seq![ItemV::Raw(s.subrange(j, s.len() as int))],
            }
        } else {
            match spec_statement(s, j, Seq::empty()) {
                Some((e, op, args)) => if j < e <= s.len() {
                    seq![ItemV::Op(op, args)] + spec_items(s, e)
                } else {
                    seq![ItemV::Raw(s.subrange(j, s.len() as int))]
                },
                None => seq![ItemV::Raw(s.subrange(j, s.len() as int))],
            }
        }
    }
}

/// Whether `b` is a non-empty tail of `s` starting at or after `i`.
pub open spec fn tail_from(s: Seq<u8>, i: int, b: Seq<u8>) -> bool {
    exists|j: int| i <= j < s.len() && b == #[trigger] s.subrange(j, s.len() as int)
}

/// The parse from `i` never drops input silently: only its last item can
/// be raw, a raw item is a non-empty tail of the input (everything from
/// the first statement that could not be parsed), and no item at all
/// comes exactly when only white space and comments follow `i`.
pub proof fn lemma_items_shape(s: Seq<u8>, i: int)
    requires
        0 <= i <= s.len(),
    ensures
        forall|k: int| 0 <= k < spec_items(s, i).len() - 1 ==> !(#[trigger] spec_items(s, i)[k] is Raw),
        spec_items(s, i).len() > 0 && spec_items(s, i).last() is Raw ==> tail_from(s, i, spec_items(s, i).last()->Raw_0),
        spec_items(s, i).len() == 0 <==> skip_ws(s, i) >= s.len(),
    decreases s.len() - i,
{
    let j = skip_ws(s, i);
    lemma_skip_ws(s, i);
    let items = spec_items(s, i);
    if j < s.len() {
        let rest_at = if prefix_word(s, j, kw_bi()) {
            match spec_inline_loop(s, j + 2, Seq::empty()) {
                Some((e, _, _)) => if j < e <= s.len() { e } else { -1 },
                None => -1,
            }
        } else {
            match spec_statement(s, j, Seq::empty()) {
                Some((e, _, _)) => if j < e <= s.len() { e } else { -1 },
                None => -1,
            }
        };
        if rest_at < 0 {
            assert(items =~= seq![ItemV::Raw(s.subrange(j, s.len() as int))]);
            assert(s.subrange(j, s.len() as int) == s.subrange(j, s.len() as int));
        } else {
            let e = rest_at;
            lemma_items_shape(s, e);
            let rest = spec_items(s, e);
            assert(items.len() == rest.len() + 1);
            assert forall|k: int| 0 <= k < items.len() - 1 implies !(#[trigger] items[k] is Raw) by {
                if k > 0 {
                    assert(items[k] == rest[k - 1]);
                }
            }
            if rest.len() > 0 {
                assert(items.last() == rest.last());
                if rest.last() is Raw {
                    let w = choose|w: int| e <= w < s.len() && rest.last()->Raw_0 == #[trigger] s.subrange(w, s.len() as int);
                    assert(i <= w);
                }
            }
        }
    }
}

/// The items of the content stream `s`.
pub open spec fn spec_parse_content_stream(s: Seq<u8>) -> Seq<ItemV> {
    spec_items(s, 0)
}

// ---------------------------------------------------------------------
// The parser

/// Attempts to parse one operand object (number, string, name, array,
/// dictionary, boolean, or null). Content-stream operands never include
/// indirect references or streams (ISO 32000-1 7.8.2).
pub fn parse_operand(data: &[u8], pos: usize) -> (r: Option<(usize, Object)>)
    requires
        pos <= data@.len(),
    ensures
        r is Some <==> spec_operand(data@, pos as int) is Some,
        r matches Some((e, o)) ==> spec_operand(data@, pos as int) == Some((e as int, o.v())),
        r matches Some((e, o)) ==> pos < e <= data@.len(),
    decreases data@.len() - pos, 0int,
{
    if pos >= data.len() {
        return None;
    }
    let c = data[pos];
    if c == 47u8 {
        match take_name(data, pos + 1) {
            Some((e, n)) => Some((e, Object::Name(PdfName { name: n }))),
            None => None,
        }
    } else if c == 40u8 {
        match take_literal_string(data, pos) {
            Some((e, b)) => Some((e, Object::String(PdfString::Literal(b)))),
            None => None,
        }
    } else if c == 60u8 && data.len() - pos > 1 && data[pos + 1] == 60u8 {
        take_dict(data, pos + 2)
    } else if c == 60u8 {
        match take_hex_string(data, pos) {
            Some((e, b)) => Some((e, Object::String(PdfString::Hex(b)))),
            None => None,
        }
    } else if c == 91u8 {
        take_array(data, pos + 1)
    } else if (48 <= c && c <= 57) || c == 43u8 || c == 45u8 || c == 46u8 {
        match take_number(data, pos) {
            Some((e, NumV::Int(i))) => Some((e, Object::Integer(i))),
            Some((e, NumV::Real(m))) => Some((e, Object::Real(PdfReal { micros: m }))),
            None => None,
        }
    } else {
        let t = [116u8, 114u8, 117u8, 101u8];
        let f = [102u8, 97u8, 108u8, 115u8, 101u8];
        let n = [110u8, 117u8, 108u8, 108u8];
        assert(t@ =~= kw_true());
        assert(f@ =~= kw_false());
        assert(n@ =~= kw_null());
        if strip_prefix_word(data, pos, t.as_slice()) {
            Some((pos + 4, Object::Boolean(true)))
        } else if strip_prefix_word(data, pos, f.as_slice()) {
            Some((pos + 5, Object::Boolean(false)))
        } else if strip_prefix_word(data, pos, n.as_slice()) {
            Some((pos + 4, Object::Null))
        } else {
            None
        }
    }
}

/// Reads the rest of an array whose `[` stands just before `start`.
fn take_array(data: &[u8], start: usize) -> (r: Option<(usize, Object)>)
    requires
        start <= data@.len(),
    ensures
        r is Some <==> spec_array_loop(data@, start as int, Seq::empty()) is Some,
        r matches Some((e, o)) ==> spec_array_loop(data@, start as int, Seq::empty()) == Some(
            (e as int, o.v()),
        ),
        r matches Some((e, o)) ==> start < e <= data@.len(),
    decreases data@.len() - start, 1int,
{
    let mut items: Vec<Object> = Vec::new();
    let mut cur = start;
    assert(view_objs(items@) =~= Seq::<ObjV>::empty());
    loop
        invariant
            start <= cur <= data@.len(),
            spec_array_loop(data@, cur as int, view_objs(items@)) == spec_array_loop(
                data@,
                start as int,
                Seq::empty(),
            ),
        decreases data@.len() - cur,
    {
        let j = skip_ws_and_comments(data, cur);
        if j < data.len() && data[j] == 93u8 {
            let arr = Object::Array(PdfArray { items });
            return Some((j + 1, arr));
        }
        match parse_operand(data, j) {
            Some((e, o)) => {
                let ghost ov = o.v();
                let ghost old_items = items@;
                items.push(o);
                assert(items@.drop_last() =~= old_items);
                assert(view_objs(items@) == view_objs(old_items).push(ov));
                cur = e;
            },
            None => {
                return None;
            },
        }
    }
}

/// Reads the rest of a dictionary whose `<<` stands just before `start`.
fn take_dict(data: &[u8], start: usize) -> (r: Option<(usize, Object)>)
    requires
        start <= data@.len(),
    ensures
        r is Some <==> spec_dict_loop(data@, start as int, Seq::empty()) is Some,
        r matches Some((e, o)) ==> spec_dict_loop(data@, start as int, Seq::empty()) == Some(
            (e as int, o.v()),
        ),
        r matches Some((e, o)) ==> start < e <= data@.len(),
    decreases data@.len() - start, 1int,
{
    let mut dict = PdfDictionary::new();
    let mut cur = start;
    assert(dict.view_entries() =~= Seq::<(Seq<char>, ObjV)>::empty());
    loop
        invariant
            start <= cur <= data@.len(),
            spec_dict_loop(data@, cur as int, dict.view_entries()) == spec_dict_loop(
                data@,
                start as int,
                Seq::empty(),
            ),
        decreases data@.len() - cur,
    {
        let j = skip_ws_and_comments(data, cur);
        if data.len() - j > 1 && data[j] == 62u8 && data[j + 1] == 62u8 {
            return Some((j + 2, Object::Dictionary(dict)));
        }
        if j >= data.len() || data[j] != 47u8 {
            return None;
        }
        match take_name(data, j + 1) {
            None => {
                return None;
            },
            Some((e1, key)) => {
                let k = skip_ws_and_comments(data, e1);
                match parse_operand(data, k) {
                    Some((e2, v)) => {
                        dict.set(key.as_str(), v);
                        cur = e2;
                    },
                    None => {
                        return None;
                    },
                }
            },
        }
    }
}

/// Parses one `operand* operator` statement at `pos`, returning the
/// position after it, the operator keyword, and the operands collected
/// before it.
pub fn parse_statement(data: &[u8], pos: usize) -> (r: Option<(usize, String, Vec<Object>)>)
    requires
        pos <= data@.len(),
    ensures
        r is Some <==> spec_statement(data@, pos as int, Seq::empty()) is Some,
        r matches Some((e, op, args)) ==> spec_statement(data@, pos as int, Seq::empty()) == Some(
            (e as int, op@, view_objs(args@)),
        ),
        r matches Some((e, op, args)) ==> pos < e <= data@.len(),
{
    let mut operands: Vec<Object> = Vec::new();
    let mut cur = pos;
    assert(view_objs(operands@) =~= Seq::<ObjV>::empty());
    loop
        invariant
            pos <= cur <= data@.len(),
            spec_statement(data@, cur as int, view_objs(operands@)) == spec_statement(
                data@,
                pos as int,
                Seq::empty(),
            ),
        decreases data@.len() - cur,
    {
        let j = skip_ws_and_comments(data, cur);
        if j >= data.len() {
            return None;
        }
        match parse_operand(data, j) {
            Some((e, o)) => {
                let ghost ov = o.v();
                let ghost old_items = operands@;
                operands.push(o);
                assert(operands@.drop_last() =~= old_items);
                assert(view_objs(operands@) == view_objs(old_items).push(ov));
                cur = e;
            },
            None => {
                match parse_keyword(data, j) {
                    Some((e, kw)) => {
                        return Some((e, kw, operands));
                    },
                    None => {
                        return None;
                    },
                }
            },
        }
    }
}

/// Finds the end of inline image data from `from` (see `ei_search`).
fn find_ei(data: &[u8], from: usize) -> (r: Option<usize>)
    requires
        from <= data@.len(),
    ensures
        r matches Some(p) ==> ei_search(data@, from as int) == Some(p as int) && from <= p && p + 3
            <= data@.len(),
        r is None ==> ei_search(data@, from as int) is None,
{
    let ei = [69u8, 73u8];
    assert(ei@ =~= kw_ei());
    let mut p = from;
    while data.len() - p >= 3
        invariant
            from <= p <= data@.len(),
            ei@ == kw_ei(),
            ei_search(data@, p as int) == ei_search(data@, from as int),
        decreases data@.len() - p,
    {
        if crate::syntax::is_whitespace(data[p]) && strip_prefix_word(data, p + 1, ei.as_slice()) {
            assert(ei_search(data@, p as int) == Some(p as int));
            return Some(p);
        }
        assert(ei_search(data@, p as int) == ei_search(data@, p + 1));
        p = p + 1;
    }
    None
}

/// Parses an inline image whose `BI` keyword stands at `pos`.
pub fn parse_inline_image(data: &[u8], pos: usize) -> (r: Option<(usize, InlineImage)>)
    requires
        pos + 2 <= data@.len(),
    ensures
        r is Some <==> spec_inline_loop(data@, pos + 2, Seq::empty()) is Some,
        r matches Some((e, img)) ==> spec_inline_loop(data@, pos + 2, Seq::empty()) == Some(
            (e as int, img.dictionary.view_entries(), img.data@),
        ),
        r matches Some((e, img)) ==> pos < e <= data@.len(),
{
    let id = [73u8, 68u8];
    assert(id@ =~= kw_id());
    let mut dict = PdfDictionary::new();
    assert(data@.len() == data.len());
    let mut cur = pos + 2;
    assert(dict.view_entries() =~= Seq::<(Seq<char>, ObjV)>::empty());
    loop
        invariant
            pos + 2 <= cur <= data@.len(),
            id@ == kw_id(),
            spec_inline_loop(data@, cur as int, dict.view_entries()) == spec_inline_loop(
                data@,
                pos + 2,
                Seq::empty(),
            ),
        decreases data@.len() - cur,
    {
        let j = skip_ws_and_comments(data, cur);
        if strip_prefix_word(data, j, id.as_slice()) {
            if data.len() - j > 2 && crate::syntax::is_whitespace(data[j + 2]) {
                match find_ei(data, j + 3) {
                    Some(p) => {
                        let bytes = copy_range(data, j + 3, p);
                        return Some((p + 3, InlineImage { dictionary: dict, data: bytes }));
                    },
                    None => {
                        return None;
                    },
                }
            } else {
                return None;
            }
        }
        if j >= data.len() || data[j] != 47u8 {
            return None;
        }
        match take_name(data, j + 1) {
            None => {
                return None;
            },
            Some((e1, key)) => {
                let k = skip_ws_and_comments(data, e1);
                match parse_operand(data, k) {
                    Some((e2, v)) => {
                        dict.set(key.as_str(), v);
                        cur = e2;
                    },
                    None => {
                        return None;
                    },
                }
            },
        }
    }
}

/// Parses `data` into a sequence of [`ContentItem`]s.
///
/// This is a best-effort parser over untrusted input: if a syntax error
/// is hit partway through, parsing stops and everything from that point
/// to the end of `data` is preserved as a single [`ContentItem::Raw`]
/// rather than being discarded, so editing operations that don't touch
/// the malformed region are still lossless for the rest of the stream.
pub fn parse_content_stream(data: &[u8]) -> (items: Vec<ContentItem>)
    ensures
        view_items(items@) == spec_parse_content_stream(data@),
{
    let bi = [66u8, 73u8];
    assert(bi@ =~= kw_bi());
    let mut items: Vec<ContentItem> = Vec::new();
    let mut cur: usize = 0;
    assert(view_items(items@) + spec_items(data@, 0) =~= spec_items(data@, 0));
    loop
        invariant
            cur <= data@.len(),
            bi@ == kw_bi(),
            view_items(items@) + spec_items(data@, cur as int) == spec_items(data@, 0),
        decreases data@.len() - cur,
    {
        let ghost old_items = items@;
        let j = skip_ws_and_comments(data, cur);
        if j >= data.len() {
            assert(spec_items(data@, cur as int) =~= Seq::<ItemV>::empty());
            assert(view_items(items@) =~= spec_items(data@, 0));
            return items;
        }
        if strip_prefix_word(data, j, bi.as_slice()) {
            match parse_inline_image(data, j) {
                Some((e, img)) => {
                    items.push(ContentItem::InlineImage(img));
                    assert(items@.drop_last() =~= old_items);
                    assert(view_items(old_items) + spec_items(data@, cur as int) =~= view_items(items@) + spec_items(data@, e as int));
                    cur = e;
                    continue;
                },
                None => {
                    let raw = copy_range(data, j, data.len());
                    items.push(ContentItem::Raw(raw));
                    assert(items@.drop_last() =~= old_items);
                    assert(view_items(items@) =~= spec_items(data@, 0));
                    return items;
                },
            }
        }
        match parse_statement(data, j) {
            Some((e, operator, operands)) => {
                items.push(ContentItem::Op { operator, operands });
                assert(items@.drop_last() =~= old_items);
                assert(view_items(old_items) + spec_items(data@, cur as int) =~= view_items(items@) + spec_items(data@, e as int));
                cur = e;
            },
            None => {
                let raw = copy_range(data, j, data.len());
                items.push(ContentItem::Raw(raw));
                assert(items@.drop_last() =~= old_items);
                assert(view_items(items@) =~= spec_items(data@, 0));
                return items;
            },
        }
    }
}

// ---------------------------------------------------------------------
// Serialization

/// Each operand's text followed by a space.
pub open spec fn operands_text(args: Seq<ObjV>) -> Seq<u8>
    decreases args.len(),
{
    if args.len() == 0 {
        Seq::empty()
    } else {
        operands_text(args.drop_last()) + obj_text(args.last()) + seq![32u8]
    }
}

/// `/Key value` and a newline per inline image parameter.
pub open spec fn inline_entries_text(entries: Seq<(Seq<char>, ObjV)>) -> Seq<u8>
    decreases entries.len(),
{
    if entries.len() == 0 {
        Seq::empty()
    } else {
        inline_entries_text(entries.drop_last()) + seq![47u8] + name_text(
            encode_utf8(entries.last().0),
        ) + seq![32u8] + obj_text(entries.last().1) + seq![10u8]
    }
}

/// The text of one item: an operator statement on its own line, an
/// inline image as `BI`, its parameters, `ID`, its data and `EI`, or the
/// raw bytes unchanged.
pub open spec fn item_text(it: ItemV) -> Seq<u8> {
    match it {
        ItemV::Op(op, args) => operands_text(args) + encode_utf8(op) + seq![10u8],
        ItemV::Inline(entries, data) => seq![66u8, 73u8, 10u8] + inline_entries_text(entries)
            + seq![73u8, 68u8, 32u8] + data + seq![10u8, 69u8, 73u8, 10u8],
        ItemV::Raw(b) => b,
    }
}

/// The text of a sequence of items.
pub open spec fn content_text(items: Seq<ItemV>) -> Seq<u8>
    decreases items.len(),
{
    if items.len() == 0 {
        Seq::empty()
    } else {
        content_text(items.drop_last()) + item_text(items.last())
    }
}

/// Appends the text of one item.
fn write_item(out: &mut Vec<u8>, item: &ContentItem)
    ensures
        final(out)@ == old(out)@ + item_text(item.v()),
{
    let ghost start = out@;
    match item {
        ContentItem::Op { operator, operands } => {
            let mut i: usize = 0;
            while i < operands.len()
                invariant
                    i <= operands@.len(),
                    out@ == start + operands_text(view_objs(operands@.subrange(0, i as int))),
                decreases operands@.len() - i,
            {
                write_object(out, &operands[i]);
                out.push(32u8);
                proof {
                    let s1 = operands@.subrange(0, i + 1);
                    assert(s1.drop_last() =~= operands@.subrange(0, i as int));
                    assert(view_objs(s1).drop_last() =~= view_objs(operands@.subrange(0, i as int)));
                }
                i = i + 1;
                assert(out@ =~= start + operands_text(view_objs(operands@.subrange(0, i as int))));
            }
            assert(operands@.subrange(0, operands@.len() as int) =~= operands@);
            write_bytes(out, operator.as_str().as_bytes());
            out.push(10u8);
            assert(out@ =~= start + item_text(item.v()));
        },
        ContentItem::InlineImage(img) => {
            out.push(66u8);
            out.push(73u8);
            out.push(10u8);
            let ghost mid = out@;
            let entries = &img.dictionary.entries;
            let mut i: usize = 0;
            while i < entries.len()
                invariant
                    i <= entries@.len(),
                    entries == &img.dictionary.entries,
                    out@ == mid + inline_entries_text(crate::object::view_entries(entries@.subrange(0, i as int))),
                decreases entries@.len() - i,
            {
                out.push(47u8);
                write_name_bytes(out, entries[i].0.as_str().as_bytes());
                out.push(32u8);
                write_object(out, &entries[i].1);
                out.push(10u8);
                proof {
                    let s1 = entries@.subrange(0, i + 1);
                    assert(s1.drop_last() =~= entries@.subrange(0, i as int));
                    assert(crate::object::view_entries(s1).drop_last() =~= crate::object::view_entries(entries@.subrange(0, i as int)));
                }
                i = i + 1;
                assert(out@ =~= mid + inline_entries_text(crate::object::view_entries(entries@.subrange(0, i as int))));
            }
            assert(entries@.subrange(0, entries@.len() as int) =~= entries@);
            out.push(73u8);
            out.push(68u8);
            out.push(32u8);
            write_bytes(out, img.data.as_slice());
            out.push(10u8);
            out.push(69u8);
            out.push(73u8);
            out.push(10u8);
            assert(out@ =~= start + item_text(item.v()));
        },
        ContentItem::Raw(bytes) => {
            write_bytes(out, bytes.as_slice());
        },
    }
}

/// Re-serializes parsed content items back into content-stream bytes.
pub fn serialize_content_stream(items: &[ContentItem]) -> (out: Vec<u8>)
    ensures
        out@ == content_text(view_items(items@)),
{
    let mut out: Vec<u8> = Vec::new();
    let mut i: usize = 0;
    while i < items.len()
        invariant
            i <= items@.len(),
            out@ == content_text(view_items(items@.subrange(0, i as int))),
        decreases items@.len() - i,
    {
        write_item(&mut out, &items[i]);
        proof {
            let s1 = items@.subrange(0, i + 1);
            assert(s1.drop_last() =~= items@.subrange(0, i as int));
            assert(view_items(s1).drop_last() =~= view_items(items@.subrange(0, i as int)));
        }
        i = i + 1;
    }
    assert(items@.subrange(0, items@.len() as int) =~= items@);
    out
}

// ---------------------------------------------------------------------
// Text replacement

/// `b[i..]` with every occurrence of `find` (scanned left to right,
/// without overlap) replaced by `rep`, and the number of occurrences.
pub open spec fn replace_from(b: Seq<u8>, i: int, find: Seq<u8>, rep: Seq<u8>) -> (Seq<u8>, nat)
    decreases b.len() - i,
{
    if find.len() == 0 || i < 0 || i >= b.len() {
        (Seq::empty(), 0)
    } else if i + find.len() <= b.len() && b.subrange(i, i + find.len()) == find {
        let (t, c) = replace_from(b, i + find.len(), find, rep);
        (rep + t, c + 1)
    } else {
        let (t, c) = replace_from(b, i + 1, find, rep);
        (seq![b[i]] + t, c)
    }
}

/// `b` with every occurrence of `find` replaced by `rep`, and the number
/// of occurrences; `b` itself and zero when `find` is empty.
pub open spec fn replace_all(b: Seq<u8>, find: Seq<u8>, rep: Seq<u8>) -> (Seq<u8>, nat) {
    if find.len() == 0 {
        (b, 0)
    } else {
        replace_from(b, 0, find, rep)
    }
}

/// With no occurrence, the bytes are unchanged.
pub proof fn lemma_replace_none(b: Seq<u8>, i: int, find: Seq<u8>, rep: Seq<u8>)
    requires
        0 <= i <= b.len(),
        find.len() > 0,
        replace_from(b, i, find, rep).1 == 0,
    ensures
        replace_from(b, i, find, rep).0 == b.subrange(i, b.len() as int),
    decreases b.len() - i,
{
    if i < b.len() {
        if i + find.len() <= b.len() && b.subrange(i, i + find.len()) == find {
        } else {
            lemma_replace_none(b, i + 1, find, rep);
            assert(b.subrange(i, b.len() as int) =~= seq![b[i]] + b.subrange(i + 1, b.len() as int));
        }
    } else {
        assert(b.subrange(i, b.len() as int) =~= Seq::<u8>::empty());
    }
}

/// Replaces every occurrence of `find` in `s`'s bytes by `replace`,
/// keeping its literal/hex form; returns the number of occurrences.
pub fn replace_in_string(s: &mut PdfString, find: &[u8], replace: &[u8]) -> (count: usize)
    ensures
        final(s).bytes() == replace_all(old(s).bytes(), find@, replace@).0,
        count == replace_all(old(s).bytes(), find@, replace@).1,
        final(s).is_hex() == old(s).is_hex(),
{
    if find.len() == 0 {
        return 0;
    }
    let bytes = s.as_bytes();
    let ghost b = bytes@;
    let mut out: Vec<u8> = Vec::new();
    let mut i: usize = 0;
    let mut count: usize = 0;
    while i < bytes.len()
        invariant
            i <= bytes@.len(),
            bytes@ == b,
            find@.len() > 0,
            count <= i,
            out@ + replace_from(b, i as int, find@, replace@).0 == replace_from(b, 0, find@, replace@).0,
            count + replace_from(b, i as int, find@, replace@).1 == replace_from(b, 0, find@, replace@).1,
        decreases bytes@.len() - i,
    {
        let ghost old_out = out@;
        if bytes.len() - i >= find.len() && starts_with_at(bytes, i, find) {
            write_bytes(&mut out, replace);
            proof {
                let (t, c) = replace_from(b, i + find@.len(), find@, replace@);
                assert(out@ + t =~= old_out + (replace@ + t));
            }
            i = i + find.len();
            count = count + 1;
        } else {
            out.push(bytes[i]);
            proof {
                let (t, c) = replace_from(b, i + 1, find@, replace@);
                assert(out@ + t =~= old_out + (seq![b[i as int]] + t));
            }
            i = i + 1;
        }
    }
    assert(out@ =~= replace_from(b, 0, find@, replace@).0);
    if count == 0 {
        proof {
            lemma_replace_none(b, 0, find@, replace@);
            assert(b.subrange(0, b.len() as int) =~= b);
        }
        return 0;
    }
    match s {
        PdfString::Hex(_) => {
            *s = PdfString::Hex(out);
        },
        PdfString::Literal(_) => {
            *s = PdfString::Literal(out);
        },
    }
    count
}

/// Whether `find` occurs in `bytes` at position `i`.
fn starts_with_at(bytes: &[u8], i: usize, find: &[u8]) -> (r: bool)
    requires
        i + find@.len() <= bytes@.len(),
    ensures
        r == (bytes@.subrange(i as int, i + find@.len()) == find@),
{
    let mut k: usize = 0;
    while k < find.len()
        invariant
            k <= find@.len(),
            i + find@.len() <= bytes@.len(),
            bytes@.subrange(i as int, i + k) == find@.subrange(0, k as int),
        decreases find@.len() - k,
    {
        assert(i + k < bytes.len());
        if bytes[i + k] != find[k] {
            assert(bytes@.subrange(i as int, i + find@.len())[k as int] != find@[k as int]);
            return false;
        }
        assert(bytes@.subrange(i as int, i + k + 1) =~= bytes@.subrange(i as int, i + k).push(bytes@[i + k]));
        assert(find@.subrange(0, k + 1) =~= find@.subrange(0, k as int).push(find@[k as int]));
        k = k + 1;
    }
    assert(find@.subrange(0, find@.len() as int) =~= find@);
    true
}

/// The operator `Tj`.
pub open spec fn op_tj() -> Seq<char> {
    seq!['T', 'j']
}

/// The operator `TJ`.
pub open spec fn op_tj_array() -> Seq<char> {
    seq!['T', 'J']
}

/// Whether `op` shows its last operand as a string: `Tj`, `'` or `"`.
pub open spec fn shows_last_string(op: Seq<char>) -> bool {
    op == op_tj() || op == seq!['\''] || op == seq!['"']
}

/// One when a replacement was made in a string (`count` occurrences
/// replaced), zero when none was.
pub open spec fn touched(count: nat) -> nat {
    if count > 0 {
        1
    } else {
        0
    }
}

/// Replacement inside the string elements of a `TJ` array; other
/// elements are kept. The count is that of the strings changed.
pub open spec fn replace_elems(elems: Seq<ObjV>, find: Seq<u8>, rep: Seq<u8>) -> (Seq<ObjV>, nat)
    decreases elems.len(),
{
    if elems.len() == 0 {
        (Seq::empty(), 0)
    } else {
        let (p, c) = replace_elems(elems.drop_last(), find, rep);
        let (e, k) = replace_elem(elems.last(), find, rep);
        (p.push(e), c + k)
    }
}

/// Replacement inside one `TJ` element: a string's bytes are replaced,
/// any other element is kept; the count is one when the string changed.
pub open spec fn replace_elem(o: ObjV, find: Seq<u8>, rep: Seq<u8>) -> (ObjV, nat) {
    match o {
        ObjV::Str(h, b) => (ObjV::Str(h, replace_all(b, find, rep).0), touched(replace_all(b, find, rep).1)),
        other => (other, 0),
    }
}

/// Replacement inside one item: the last string operand of `Tj`, `'` and
/// `"`, the string elements of `TJ`'s array operand; other items are
/// kept. The count is that of the string operands changed.
pub open spec fn replace_in_item(it: ItemV, find: Seq<u8>, rep: Seq<u8>) -> (ItemV, nat) {
    match it {
        ItemV::Op(op, args) => if shows_last_string(op) && args.len() > 0 && args.last() is Str {
            let h = args.last()->Str_0;
            let b = args.last()->Str_1;
            (
                ItemV::Op(op, args.update(args.len() - 1, ObjV::Str(h, replace_all(b, find, rep).0))),
                touched(replace_all(b, find, rep).1),
            )
        } else if op == op_tj_array() && args.len() > 0 && args[0] is Array {
            let (ne, k) = replace_elems(args[0]->Array_0, find, rep);
            (ItemV::Op(op, args.update(0, ObjV::Array(ne))), k)
        } else {
            (it, 0)
        },
        _ => (it, 0),
    }
}

/// Replacement over a sequence of items: the new items and the number
/// of string operands changed.
pub open spec fn replace_in_items(items: Seq<ItemV>, find: Seq<u8>, rep: Seq<u8>) -> (Seq<ItemV>, nat)
    decreases items.len(),
{
    if items.len() == 0 {
        (Seq::empty(), 0)
    } else {
        let (p, c) = replace_in_items(items.drop_last(), find, rep);
        let (it, k) = replace_in_item(items.last(), find, rep);
        (p.push(it), c + k)
    }
}

/// A count as a `usize` can hold it: capped at `usize::MAX`.
pub open spec fn cap(n: nat) -> nat {
    if n > usize::MAX {
        usize::MAX as nat
    } else {
        n
    }
}

/// Replaces inside the string elements of a `TJ` array.
fn replace_in_array(elems: &mut Vec<Object>, find: &[u8], replace: &[u8]) -> (count: usize)
    ensures
        view_objs(final(elems)@) == replace_elems(view_objs(old(elems)@), find@, replace@).0,
        count == cap(replace_elems(view_objs(old(elems)@), find@, replace@).1),
{
    let ghost orig = old(elems)@;
    let mut count: usize = 0;
    let mut i: usize = 0;
    proof {
        crate::object::lemma_view_objs(orig);
    }
    while i < elems.len()
        invariant
            i <= elems@.len() == orig.len(),
            view_objs(orig).len() == orig.len(),
            forall|j: int| 0 <= j < orig.len() ==> #[trigger] view_objs(orig)[j] == orig[j].v(),
            forall|j: int| i <= j < orig.len() ==> #[trigger] elems@[j] == orig[j],
            view_objs(elems@.subrange(0, i as int)) == replace_elems(view_objs(orig.subrange(0, i as int)), find@, replace@).0,
            count == cap(replace_elems(view_objs(orig.subrange(0, i as int)), find@, replace@).1),
        decreases orig.len() - i,
    {
        let ghost before = elems@;
        proof {
            crate::object::lemma_view_objs(orig.subrange(0, i + 1));
            assert(view_objs(orig.subrange(0, i + 1)) =~= view_objs(orig).subrange(0, i + 1));
            let s1 = orig.subrange(0, i + 1);
            assert(s1.drop_last() =~= orig.subrange(0, i as int));
            let vs = view_objs(s1);
            assert(vs.drop_last() == view_objs(orig.subrange(0, i as int)));
            assert(vs.last() == orig[i as int].v());
        }
        let mut tmp = Object::Null;
        std::mem::swap(&mut elems[i], &mut tmp);
        assert(tmp == orig[i as int]);
        let (newo, k) = replace_in_elem(tmp, find, replace);
        let mut tmp2 = newo;
        std::mem::swap(&mut elems[i], &mut tmp2);
        proof {
            let s1 = elems@.subrange(0, i + 1);
            assert(s1.drop_last() =~= before.subrange(0, i as int));
            assert(s1.last() == elems@[i as int]);
            assert(view_objs(s1) == view_objs(before.subrange(0, i as int)).push(elems@[i as int].v()));
        }
        count = count.saturating_add(k);
        i = i + 1;
    }
    assert(elems@.subrange(0, elems@.len() as int) =~= elems@);
    assert(orig.subrange(0, orig.len() as int) =~= orig);
    count
}

/// Replaces inside one `TJ` element.
fn replace_in_elem(o: Object, find: &[u8], replace: &[u8]) -> (r: (Object, usize))
    ensures
        (r.0.v(), r.1 as nat) == replace_elem(o.v(), find@, replace@),
{
    match o {
        Object::String(mut st) => {
            let k = replace_in_string(&mut st, find, replace);
            (Object::String(st), if k > 0 { 1 } else { 0 })
        },
        other => (other, 0),
    }
}

/// Replaces inside one statement's operands.
fn replace_in_operands(operator: &String, operands: &mut Vec<Object>, find: &[u8], replace: &[u8]) -> (count: usize)
    ensures
        ItemV::Op(operator@, view_objs(final(operands)@)) == replace_in_item(ItemV::Op(operator@, view_objs(old(operands)@)), find@, replace@).0,
        count == cap(replace_in_item(ItemV::Op(operator@, view_objs(old(operands)@)), find@, replace@).1),
{
    proof {
        reveal_strlit("Tj");
        reveal_strlit("'");
        reveal_strlit("\"");
        reveal_strlit("TJ");
        crate::object::lemma_view_objs(old(operands)@);
    }
    let op = operator.as_str();
    assert("Tj"@ == op_tj());
    assert("TJ"@ == op_tj_array());
    assert("'"@ == seq!['\'']);
    assert("\""@ == seq!['"']);
    let ghost orig = operands@;
    let ghost vorig = view_objs(orig);
    if (str_eq_lit(op, "Tj") || str_eq_lit(op, "'") || str_eq_lit(op, "\"")) && operands.len() > 0 {
        assert(shows_last_string(operator@));
        let last = operands.pop().unwrap();
        match last {
            Object::String(mut st) => {
                let k = replace_in_string(&mut st, find, replace);
                operands.push(Object::String(st));
                proof {
                    crate::object::lemma_view_objs(operands@);
                    assert(operands@.drop_last() =~= orig.drop_last());
                    assert(view_objs(operands@) =~= vorig.update(vorig.len() - 1, operands@.last().v()));
                }
                if k > 0 {
                    1
                } else {
                    0
                }
            },
            other => {
                operands.push(other);
                proof {
                    assert(operands@ =~= orig);
                }
                0
            },
        }
    } else if str_eq_lit(op, "TJ") && operands.len() > 0 {
        assert(operator@ == op_tj_array());
        assert(!shows_last_string(operator@));
        let first = operands.remove(0);
        match first {
            Object::Array(mut arr) => {
                let k = replace_in_array(&mut arr.items, find, replace);
                operands.insert(0, Object::Array(arr));
                proof {
                    crate::object::lemma_view_objs(operands@);
                    assert(operands@.subrange(1, operands@.len() as int) =~= orig.subrange(1, orig.len() as int));
                    assert(view_objs(operands@) =~= vorig.update(0, operands@[0].v()));
                }
                k
            },
            other => {
                operands.insert(0, other);
                proof {
                    assert(operands@ =~= orig);
                }
                0
            },
        }
    } else {
        0
    }
}

/// Whether `a` holds the same characters as the literal `b`.
fn str_eq_lit(a: &str, b: &str) -> (r: bool)
    ensures
        r == (a@ == b@),
{
    crate::object::str_eq(a, b)
}

/// Replaces every occurrence of `find` with `replace` inside the raw
/// bytes of text-showing operators (`Tj`, `'`, `"`, and the string
/// elements of `TJ`'s array). Returns the number of string operands
/// changed: a string holding `find` twice counts once.
///
/// This is a byte-level substring replace, appropriate for simple
/// single-byte text encodings (WinAnsiEncoding/PDFDocEncoding/ASCII).
pub fn replace_text_in_items(items: &mut Vec<ContentItem>, find: &[u8], replace: &[u8]) -> (count: usize)
    ensures
        find@.len() == 0 ==> view_items(final(items)@) == view_items(old(items)@) && count == 0,
        find@.len() > 0 ==> view_items(final(items)@) == replace_in_items(view_items(old(items)@), find@, replace@).0,
        find@.len() > 0 ==> count == cap(replace_in_items(view_items(old(items)@), find@, replace@).1),
{
    if find.len() == 0 {
        return 0;
    }
    let ghost orig = old(items)@;
    let mut count: usize = 0;
    let mut i: usize = 0;
    proof {
        lemma_view_items(orig);
    }
    while i < items.len()
        invariant
            i <= items@.len() == orig.len(),
            view_items(orig).len() == orig.len(),
            forall|j: int| 0 <= j < orig.len() ==> #[trigger] view_items(orig)[j] == orig[j].v(),
            forall|j: int| i <= j < orig.len() ==> #[trigger] items@[j] == orig[j],
            view_items(items@.subrange(0, i as int)) == replace_in_items(view_items(orig.subrange(0, i as int)), find@, replace@).0,
            count == cap(replace_in_items(view_items(orig.subrange(0, i as int)), find@, replace@).1),
        decreases orig.len() - i,
    {
        let ghost before = items@;
        proof {
            lemma_view_items(orig.subrange(0, i + 1));
            assert(view_items(orig.subrange(0, i + 1)) =~= view_items(orig).subrange(0, i + 1));
            let s1 = orig.subrange(0, i + 1);
            assert(s1.drop_last() =~= orig.subrange(0, i as int));
            let vs = view_items(s1);
            assert(vs.drop_last() == view_items(orig.subrange(0, i as int)));
            assert(vs.last() == orig[i as int].v());
        }
        let mut tmp = ContentItem::Raw(Vec::new());
        std::mem::swap(&mut items[i], &mut tmp);
        assert(tmp == orig[i as int]);
        let (newi, k) = replace_in_one_item(tmp, find, replace);
        let mut tmp2 = newi;
        std::mem::swap(&mut items[i], &mut tmp2);
        proof {
            let s1 = items@.subrange(0, i + 1);
            assert(s1.drop_last() =~= before.subrange(0, i as int));
            assert(s1.last() == items@[i as int]);
            assert(view_items(s1) == view_items(before.subrange(0, i as int)).push(items@[i as int].v()));
        }
        count = count.saturating_add(k);
        i = i + 1;
    }
    assert(items@.subrange(0, items@.len() as int) =~= items@);
    assert(orig.subrange(0, orig.len() as int) =~= orig);
    count
}

/// Replaces inside one item.
fn replace_in_one_item(it: ContentItem, find: &[u8], replace: &[u8]) -> (r: (ContentItem, usize))
    ensures
        r.0.v() == replace_in_item(it.v(), find@, replace@).0,
        r.1 as nat == cap(replace_in_item(it.v(), find@, replace@).1),
{
    match it {
        ContentItem::Op { operator, mut operands } => {
            let k = replace_in_operands(&operator, &mut operands, find, replace);
            (ContentItem::Op { operator, operands }, k)
        },
        other => (other, 0),
    }
}

/// Whether `find` occurs in `b` at some position.
pub open spec fn occurs_in(b: Seq<u8>, find: Seq<u8>) -> bool {
    exists|j: int| 0 <= j && j + find.len() <= b.len() && #[trigger] b.subrange(j, j + find.len()) == find
}

/// An occurrence at or after `i` is counted by the scan from `i`.
proof fn lemma_replace_from_counts(b: Seq<u8>, i: int, j: int, find: Seq<u8>, rep: Seq<u8>)
    requires
        find.len() > 0,
        0 <= i <= j,
        j + find.len() <= b.len(),
        b.subrange(j, j + find.len()) == find,
    ensures
        replace_from(b, i, find, rep).1 > 0,
    decreases j - i,
{
    if i + find.len() <= b.len() && b.subrange(i, i + find.len()) == find {
    } else {
        assert(i != j);
        lemma_replace_from_counts(b, i + 1, j, find, rep);
    }
}

/// A count of zero only comes from a scan that met no occurrence.
proof fn lemma_replace_from_none(b: Seq<u8>, i: int, find: Seq<u8>, rep: Seq<u8>)
    requires
        find.len() > 0,
        0 <= i,
        replace_from(b, i, find, rep).1 > 0,
    ensures
        exists|j: int| i <= j && j + find.len() <= b.len() && #[trigger] b.subrange(j, j + find.len()) == find,
    decreases b.len() - i,
{
    if i + find.len() <= b.len() && b.subrange(i, i + find.len()) == find {
        assert(b.subrange(i, i + find.len()) == find);
    } else {
        lemma_replace_from_none(b, i + 1, find, rep);
    }
}

/// Replacing a non-empty `find` in `b` counts an occurrence exactly when
/// `find` occurs in `b`; when it does not, `b` is left as it is.
pub proof fn lemma_replace_all_counts(b: Seq<u8>, find: Seq<u8>, rep: Seq<u8>)
    requires
        find.len() > 0,
    ensures
        replace_all(b, find, rep).1 > 0 <==> occurs_in(b, find),
        !occurs_in(b, find) ==> replace_all(b, find, rep).0 == b,
{
    if occurs_in(b, find) {
        let j = choose|j: int| 0 <= j && j + find.len() <= b.len() && #[trigger] b.subrange(j, j + find.len()) == find;
        lemma_replace_from_counts(b, 0, j, find, rep);
    }
    if replace_all(b, find, rep).1 > 0 {
        lemma_replace_from_none(b, 0, find, rep);
    } else {
        if b.len() > 0 {
            lemma_replace_none(b, 0, find, rep);
            assert(b.subrange(0, b.len() as int) =~= b);
        } else {
            assert(replace_from(b, 0, find, rep).0 =~= b);
        }
    }
}

/// Replacement over items keeps their number and acts on each item on
/// its own; its count is at least that of any one item.
proof fn lemma_replace_in_items_each(items: Seq<ItemV>, find: Seq<u8>, rep: Seq<u8>)
    ensures
        replace_in_items(items, find, rep).0.len() == items.len(),
        forall|i: int| 0 <= i < items.len() ==> #[trigger] replace_in_items(items, find, rep).0[i] == replace_in_item(items[i], find, rep).0,
        forall|i: int| 0 <= i < items.len() ==> replace_in_items(items, find, rep).1 >= #[trigger] replace_in_item(items[i], find, rep).1,
    decreases items.len(),
{
    if items.len() > 0 {
        lemma_replace_in_items_each(items.drop_last(), find, rep);
        assert forall|i: int| 0 <= i < items.len() - 1 implies items.drop_last()[i] == #[trigger] items[i] by {}
    }
}

/// Replacing a non-empty `find` in the items of a content stream: the
/// items keep their number and order; the last string operand of every
/// `Tj`, `'` and `"` has each occurrence of `find` replaced by `rep`, the
/// rest of the operator kept; items other than `Tj`, `'`, `"` and `TJ`
/// are kept as they are; and when any such string operand holds `find`,
/// the count of changed operands is positive.
pub proof fn lemma_replace_text_ops(items: Seq<ItemV>, find: Seq<u8>, rep: Seq<u8>)
    requires
        find.len() > 0,
    ensures
        replace_in_items(items, find, rep).0.len() == items.len(),
        forall|i: int|
            #![trigger items[i]]
            0 <= i < items.len() ==> match items[i] {
                ItemV::Op(op, args) => (op == "Tj"@ || op == "'"@ || op == "\""@) && args.len() > 0 && args.last() is Str
                    ==> replace_in_items(items, find, rep).0[i] == ItemV::Op(
                    op,
                    args.update(args.len() - 1, ObjV::Str(args.last()->Str_0, replace_all(args.last()->Str_1, find, rep).0)),
                ),
                _ => true,
            },
        forall|i: int|
            #![trigger items[i]]
            0 <= i < items.len() ==> match items[i] {
                ItemV::Op(op, args) => (op == "Tj"@ || op == "'"@ || op == "\""@) && args.len() > 0 && args.last() is Str
                    && occurs_in(args.last()->Str_1, find) ==> replace_in_items(items, find, rep).1 > 0,
                _ => true,
            },
        forall|i: int|
            0 <= i < items.len() && !(items[i] matches ItemV::Op(op, _) && (op == "Tj"@ || op == "'"@ || op == "\""@ || op == "TJ"@))
                ==> #[trigger] replace_in_items(items, find, rep).0[i] == items[i],
        forall|i: int|
            #![trigger items[i]]
            0 <= i < items.len() ==> match items[i] {
                ItemV::Op(op, args) => op == "TJ"@ && args.len() > 0 && args[0] is Array ==> replace_in_items(items, find, rep).0[i]
                    == ItemV::Op(op, args.update(0, ObjV::Array(replace_elems(args[0]->Array_0, find, rep).0))),
                _ => true,
            },
{
    reveal_strlit("Tj");
    reveal_strlit("'");
    reveal_strlit("\"");
    reveal_strlit("TJ");
    lemma_replace_in_items_each(items, find, rep);
    assert(op_tj() =~= "Tj"@);
    assert(op_tj_array() =~= "TJ"@);
    assert(seq!['\''] =~= "'"@);
    assert(seq!['"'] =~= "\""@);
    assert forall|i: int|
        #![trigger items[i]]
        0 <= i < items.len() implies match items[i] {
            ItemV::Op(op, args) => (op == "Tj"@ || op == "'"@ || op == "\""@) && args.len() > 0 && args.last() is Str
                && occurs_in(args.last()->Str_1, find) ==> replace_in_items(items, find, rep).1 > 0,
            _ => true,
        } by {
        if let ItemV::Op(op, args) = items[i] {
            if (op == "Tj"@ || op == "'"@ || op == "\""@) && args.len() > 0 && args.last() is Str {
                lemma_replace_all_counts(args.last()->Str_1, find, rep);
                assert(replace_in_item(items[i], find, rep).1 == touched(replace_all(args.last()->Str_1, find, rep).1));
            }
        }
    }
}

/// Replacement in a `TJ` array keeps its elements in number and order,
/// replaces each occurrence of `find` in every string element, keeps
/// every other element, and counts the string elements that held
/// `find`.
pub proof fn lemma_replace_elems_each(elems: Seq<ObjV>, find: Seq<u8>, rep: Seq<u8>)
    requires
        find.len() > 0,
    ensures
        replace_elems(elems, find, rep).0.len() == elems.len(),
        forall|i: int|
            0 <= i < elems.len() ==> #[trigger] replace_elems(elems, find, rep).0[i] == match elems[i] {
                ObjV::Str(h, b) => ObjV::Str(h, replace_all(b, find, rep).0),
                other => other,
            },
        replace_elems(elems, find, rep).1 == elems.filter(|o: ObjV| o matches ObjV::Str(_, b) && occurs_in(b, find)).len(),
    decreases elems.len(),
{
    reveal(Seq::filter);
    if elems.len() > 0 {
        lemma_replace_elems_each(elems.drop_last(), find, rep);
        assert forall|i: int| 0 <= i < elems.len() - 1 implies elems.drop_last()[i] == #[trigger] elems[i] by {}
        if let ObjV::Str(h, b) = elems.last() {
            lemma_replace_all_counts(b, find, rep);
        }
    }
}

} // verus!
