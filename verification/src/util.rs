//! Small helpers shared by the editing modules: text strings (ISO 32000-1
//! 7.9.2.2), rectangles (7.9.5) and fresh resource names.

use vstd::prelude::*;
use vstd::string::StringSliceAdditionalSpecFns;
use vstd::utf8::is_ascii_chars;
use vstd::utf8::encode_utf8;
use crate::numfmt::{dec, dec_bytes, lemma_dec_injective, lemma_dec_props, write_dec};
use crate::object::{
    entries_find, entries_get, lemma_entries_find, Object, ObjV, PdfArray, PdfDictionary, PdfReal,
    PdfString, view_objs,
};
use crate::stdtext::{char_from_u32, push_char};
use crate::types::Rectangle;

verus! {

/// The UTF-16 code units of `c`: one unit below `0x10000`, else a high
/// and a low surrogate.
pub open spec fn utf16_units(c: char) -> Seq<u16> {
    let v = c as u32;
    if v < 0x10000 {
        seq![v as u16]
    } else {
        let w = (v - 0x10000) as nat;
        seq![(0xD800 + w / 0x400) as u16, (0xDC00 + w % 0x400) as u16]
    }
}

/// The UTF-16 code units of a text.
pub open spec fn utf16_all(s: Seq<char>) -> Seq<u16>
    decreases s.len(),
{
    if s.len() == 0 {
        Seq::empty()
    } else {
        utf16_units(s[0]) + utf16_all(s.drop_first())
    }
}

/// Code units as big-endian bytes.
pub open spec fn unit_bytes(u: Seq<u16>) -> Seq<u8> {
    Seq::new(
        2 * u.len(),
        |i: int|
            if i % 2 == 0 {
                (u[i / 2] / 256) as u8
            } else {
                (u[i / 2] % 256) as u8
            },
    )
}

/// Big-endian byte pairs as code units; a last odd byte is dropped.
pub open spec fn be_units(b: Seq<u8>) -> Seq<u16> {
    Seq::new(b.len() / 2, |i: int| (b[2 * i] * 256 + b[2 * i + 1]) as u16)
}

/// Whether `u` is a high surrogate.
pub open spec fn is_high(u: u16) -> bool {
    0xD800 <= u <= 0xDBFF
}

/// Whether `u` is a low surrogate.
pub open spec fn is_low(u: u16) -> bool {
    0xDC00 <= u <= 0xDFFF
}

/// The code point of a surrogate pair.
pub open spec fn pair_value(hi: u16, lo: u16) -> u32 {
    (0x10000 + (hi - 0xD800) * 0x400 + (lo - 0xDC00)) as u32
}

/// UTF-16 decoding in which a surrogate that is not part of a pair
/// becomes U+FFFD.
pub open spec fn utf16_decode(u: Seq<u16>) -> Seq<char>
    decreases u.len(),
{
    if u.len() == 0 {
        Seq::empty()
    } else if u.len() >= 2 && is_high(u[0]) && is_low(u[1]) {
        seq![pair_value(u[0], u[1]) as char] + utf16_decode(u.skip(2))
    } else if 0xD800 <= u[0] <= 0xDFFF {
        seq!['\u{FFFD}'] + utf16_decode(u.skip(1))
    } else {
        seq![(u[0] as u32) as char] + utf16_decode(u.skip(1))
    }
}

/// Each byte read as the character with that code (Latin-1).
pub open spec fn latin1(b: Seq<u8>) -> Seq<char> {
    Seq::new(b.len(), |i: int| (b[i] as u32) as char)
}

/// The text of a text string's bytes: UTF-16BE after the byte-order mark
/// `FE FF`, else Latin-1.
pub open spec fn text_of_bytes(b: Seq<u8>) -> Seq<char> {
    if b.len() >= 2 && b[0] == 0xFE && b[1] == 0xFF {
        utf16_decode(be_units(b.skip(2)))
    } else {
        latin1(b)
    }
}

/// The bytes of the text string for `s`: ASCII text as itself, other
/// text as UTF-16BE after the byte-order mark.
pub open spec fn text_string_bytes(s: Seq<char>) -> Seq<u8> {
    if is_ascii_chars(s) {
        encode_utf8(s)
    } else {
        seq![0xFEu8, 0xFFu8] + unit_bytes(utf16_all(s))
    }
}

/// The string value `to_pdf_text_string` makes of `s`.
pub open spec fn text_value(s: Seq<char>) -> ObjV {
    ObjV::Str(!is_ascii_chars(s), text_string_bytes(s))
}

/// `utf16_all` of a concatenation.
pub(crate) proof fn lemma_utf16_all_append(a: Seq<char>, b: Seq<char>)
    ensures
        utf16_all(a + b) == utf16_all(a) + utf16_all(b),
    decreases a.len(),
{
    if a.len() == 0 {
        assert(a + b =~= b);
    } else {
        lemma_utf16_all_append(a.drop_first(), b);
        assert((a + b).drop_first() =~= a.drop_first() + b);
    }
}

/// Decoding the units of one character and then `rest` gives the
/// character and then the decoding of `rest`.
proof fn lemma_decode_units(c: char, rest: Seq<u16>)
    ensures
        utf16_decode(utf16_units(c) + rest) == seq![c] + utf16_decode(rest),
{
    broadcast use vstd::utf8::char_u32_cast, vstd::utf8::char_is_scalar;
    let v = c as u32;
    let u = utf16_units(c) + rest;
    if v < 0x10000 {
        assert(u[0] == v as u16);
        assert(!(0xD800 <= v <= 0xDFFF));
        assert(u.skip(1) =~= rest);
        assert((u[0] as u32) == v);
    } else {
        let w = (v - 0x10000) as nat;
        assert(w < 0x100000);
        assert(w / 0x400 < 0x400) by (nonlinear_arith)
            requires
                w < 0x100000,
        ;
        assert(w % 0x400 < 0x400) by (nonlinear_arith);
        assert(u[0] == (0xD800 + w / 0x400) as u16);
        assert(u[1] == (0xDC00 + w % 0x400) as u16);
        assert(is_high(u[0]) && is_low(u[1]));
        assert(u.skip(2) =~= rest);
        assert((w / 0x400) * 0x400 + w % 0x400 == w) by (nonlinear_arith);
        assert(pair_value(u[0], u[1]) == v);
    }
}

/// Decoding the units of a text gives the text back.
proof fn lemma_decode_all(s: Seq<char>)
    ensures
        utf16_decode(utf16_all(s)) == s,
    decreases s.len(),
{
    if s.len() > 0 {
        lemma_decode_all(s.drop_first());
        lemma_decode_units(s[0], utf16_all(s.drop_first()));
        assert(seq![s[0]] + s.drop_first() =~= s);
    }
}

/// Reading big-endian byte pairs back gives the units.
proof fn lemma_be_units(u: Seq<u16>)
    ensures
        be_units(unit_bytes(u)) == u,
{
    let b = unit_bytes(u);
    assert forall|i: int| 0 <= i < u.len() implies #[trigger] be_units(b)[i] == u[i] by {
        assert((2 * i) % 2 == 0) by (nonlinear_arith);
        assert((2 * i + 1) % 2 == 1) by (nonlinear_arith);
        assert((2 * i) / 2 == i) by (nonlinear_arith);
        assert((2 * i + 1) / 2 == i) by (nonlinear_arith);
        let x = u[i];
        assert((x / 256) * 256 + x % 256 == x) by (nonlinear_arith);
    }
    assert(be_units(b) =~= u);
}

/// A text string read back gives the text that was written: the
/// conversion from text to a text string and back is the identity.
pub proof fn lemma_text_string_round_trip(s: Seq<char>)
    ensures
        text_of_bytes(text_string_bytes(s)) == s,
{
    broadcast use vstd::utf8::char_u32_cast;
    if is_ascii_chars(s) {
        vstd::utf8::is_ascii_chars_encode_utf8(s);
        let b = encode_utf8(s);
        assert(b =~= Seq::new(s.len(), |i: int| s[i] as u8));
        if s.len() > 0 {
            assert(b[0] == s[0] as u8);
            assert((s[0] as u32) < 128);
        }
        assert forall|i: int| 0 <= i < s.len() implies #[trigger] latin1(b)[i] == s[i] by {
            assert((s[i] as u32) < 128);
            assert((b[i] as u32) == (s[i] as u32));
        }
        assert(latin1(b) =~= s);
    } else {
        let b = seq![0xFEu8, 0xFFu8] + unit_bytes(utf16_all(s));
        assert(b.skip(2) =~= unit_bytes(utf16_all(s)));
        lemma_be_units(utf16_all(s));
        lemma_decode_all(s);
    }
}

/// Appends the big-endian bytes of the UTF-16 units of `c`.
pub(crate) fn push_utf16(bytes: &mut Vec<u8>, c: char)
    ensures
        final(bytes)@ == old(bytes)@ + unit_bytes(utf16_units(c)),
{
    broadcast use vstd::utf8::char_is_scalar;
    let v = c as u32;
    let ghost start = bytes@;
    if v < 0x10000 {
        bytes.push((v / 256) as u8);
        bytes.push((v % 256) as u8);
    } else {
        let w = v - 0x10000;
        assert(w < 0x100000);
        assert(w / 0x400 < 0x400) by (nonlinear_arith)
            requires
                w < 0x100000,
        ;
        let hi: u32 = 0xD800 + w / 0x400;
        let lo: u32 = 0xDC00 + w % 0x400;
        bytes.push((hi / 256) as u8);
        bytes.push((hi % 256) as u8);
        bytes.push((lo / 256) as u8);
        bytes.push((lo % 256) as u8);
    }
    assert(bytes@ =~= start + unit_bytes(utf16_units(c)));
}

/// Encodes a text as a PDF text string (ISO 32000-1 7.9.2.2): pure ASCII
/// as a literal string of its bytes; anything else as a hexadecimal string
/// of UTF-16BE units after the byte-order mark `FE FF`.
pub fn to_pdf_text_string(s: &str) -> (r: PdfString)
    ensures
        r.is_hex() == !is_ascii_chars(s@),
        r.bytes() == text_string_bytes(s@),
{
    if s.is_ascii() {
        return PdfString::literal(s);
    }
    let mut bytes: Vec<u8> = Vec::new();
    bytes.push(0xFEu8);
    bytes.push(0xFFu8);
    let ghost chars = s@;
    for c in it: s.chars()
        invariant
            it.seq() == chars,
            bytes@ == seq![0xFEu8, 0xFFu8] + unit_bytes(utf16_all(chars.take(it.index() as int))),
    {
        let ghost k = it.index() as int;
        proof {
            lemma_utf16_all_append(chars.take(k), seq![chars[k]]);
            assert(chars.take(k + 1) =~= chars.take(k) + seq![chars[k]]);
            assert(utf16_all(seq![chars[k]]) =~= utf16_units(chars[k])) by {
                assert(seq![chars[k]].drop_first() =~= Seq::<char>::empty());
                assert(utf16_all(Seq::<char>::empty()) == Seq::<u16>::empty());
                assert(seq![chars[k]][0] == chars[k]);
                assert(utf16_units(chars[k]) + Seq::<u16>::empty() =~= utf16_units(chars[k]));
            }
            assert(unit_bytes(utf16_all(chars.take(k)) + utf16_units(chars[k])) =~= unit_bytes(
                utf16_all(chars.take(k)),
            ) + unit_bytes(utf16_units(chars[k])));
        }
        push_utf16(&mut bytes, c);
    }
    assert(chars.take(chars.len() as int) =~= chars);
    PdfString::Hex(bytes)
}

/// Decodes UTF-16 units, a surrogate outside a pair becoming U+FFFD.
pub fn decode_utf16_lossy(units: &[u16]) -> (r: String)
    ensures
        r@ == utf16_decode(units@),
{
    let mut out = String::new();
    let mut i: usize = 0;
    assert(units@.skip(0) =~= units@);
    while i < units.len()
        invariant
            i <= units@.len(),
            out@ + utf16_decode(units@.skip(i as int)) == utf16_decode(units@),
        decreases units@.len() - i,
    {
        let ghost rest = units@.skip(i as int);
        let u = units[i];
        if 0xD800 <= u && u <= 0xDBFF && i + 1 < units.len() && 0xDC00 <= units[i + 1]
            && units[i + 1] <= 0xDFFF {
            let x: u32 = 0x10000 + ((u - 0xD800) as u32) * 0x400 + ((units[i + 1] - 0xDC00) as u32);
            let c = char_from_u32(x).unwrap();
            proof {
                broadcast use vstd::utf8::char_u32_cast;
                assert(rest.skip(2) =~= units@.skip(i + 2));
                vstd::utf8::char_u32_cast(c, c as u32);
                assert(x == pair_value(rest[0], rest[1]));
                assert(c == pair_value(rest[0], rest[1]) as char);
                assert(seq![c] + utf16_decode(units@.skip(i + 2)) == utf16_decode(rest));
                assert(out@.push(c) + utf16_decode(units@.skip(i + 2)) =~= out@ + utf16_decode(rest));
            }
            push_char(&mut out, c);
            i = i + 2;
        } else if 0xD800 <= u && u <= 0xDFFF {
            proof {
                assert(rest.skip(1) =~= units@.skip(i + 1));
                assert(out@.push('\u{FFFD}') + utf16_decode(units@.skip(i + 1)) =~= out@ + utf16_decode(rest));
            }
            push_char(&mut out, '\u{FFFD}');
            i = i + 1;
        } else {
            let c = char_from_u32(u as u32).unwrap();
            proof {
                broadcast use vstd::utf8::char_u32_cast;
                assert(rest.skip(1) =~= units@.skip(i + 1));
                vstd::utf8::char_u32_cast(c, c as u32);
                assert(c == (rest[0] as u32) as char);
                assert(out@.push(c) + utf16_decode(units@.skip(i + 1)) =~= out@ + utf16_decode(rest));
            }
            push_char(&mut out, c);
            i = i + 1;
        }
    }
    assert(units@.skip(units@.len() as int) =~= Seq::<u16>::empty());
    assert(out@ + Seq::<char>::empty() =~= out@);
    out
}

/// Decodes a PDF text string (ISO 32000-1 7.9.2.2): UTF-16BE after the
/// byte-order mark `FE FF` (a surrogate outside a pair becoming U+FFFD,
/// a last odd byte dropped); otherwise each byte as the Latin-1
/// character with its code, an approximation of PDFDocEncoding that
/// agrees with it on printable ASCII.
pub fn from_pdf_text_string(s: &PdfString) -> (r: String)
    ensures
        r@ == text_of_bytes(s.bytes()),
{
    let bytes = s.as_bytes();
    if bytes.len() >= 2 && bytes[0] == 0xFEu8 && bytes[1] == 0xFFu8 {
        let n = (bytes.len() - 2) / 2;
        let mut units: Vec<u16> = Vec::new();
        let mut k: usize = 0;
        while k < n
            invariant
                k <= n,
                n == (bytes@.len() - 2) / 2,
                bytes@.len() >= 2,
                bytes@.len() == bytes.len(),
                bytes@ == s.bytes(),
                units@.len() == k,
                forall|j: int| 0 <= j < k ==> #[trigger] units@[j] == be_units(bytes@.skip(2))[j],
            decreases n - k,
        {
            let hi = bytes[2 + 2 * k];
            let lo = bytes[3 + 2 * k];
            units.push((hi as u16) * 256 + (lo as u16));
            k = k + 1;
        }
        assert(units@ =~= be_units(bytes@.skip(2)));
        return decode_utf16_lossy(units.as_slice());
    }
    let mut out = String::new();
    let mut i: usize = 0;
    while i < bytes.len()
        invariant
            i <= bytes@.len(),
            bytes@ == s.bytes(),
            out@ == latin1(bytes@.subrange(0, i as int)),
        decreases bytes@.len() - i,
    {
        let c = char_from_u32(bytes[i] as u32).unwrap();
        proof {
            broadcast use vstd::utf8::char_u32_cast;
            vstd::utf8::char_u32_cast(c, c as u32);
            assert(bytes@.subrange(0, i + 1) =~= bytes@.subrange(0, i as int).push(bytes@[i as int]));
        }
        push_char(&mut out, c);
        i = i + 1;
        assert(out@ =~= latin1(bytes@.subrange(0, i as int)));
    }
    assert(bytes@.subrange(0, bytes@.len() as int) =~= bytes@);
    out
}

/// The value in millionths of a number object: an integer (when its
/// value in millionths fits in 64 bits) or a real.
pub open spec fn real_micros(o: ObjV) -> Option<int> {
    match o {
        ObjV::Integer(n) => if i64::MIN <= n * 1_000_000 <= i64::MAX {
            Some(n * 1_000_000)
        } else {
            None
        },
        ObjV::Real(m) => Some(m as int),
        _ => None,
    }
}

/// The smaller of two integers.
pub open spec fn min_int(a: int, b: int) -> int {
    if a <= b { a } else { b }
}

/// The larger of two integers.
pub open spec fn max_int(a: int, b: int) -> int {
    if a <= b { b } else { a }
}

/// The rectangle an array of four numbers denotes, its corners put in
/// order: `(llx, lly, urx, ury)` in millionths.
pub open spec fn rect_of(o: ObjV) -> Option<(int, int, int, int)> {
    match o {
        ObjV::Array(items) => if items.len() == 4 && real_micros(items[0]) is Some && real_micros(
            items[1],
        ) is Some && real_micros(items[2]) is Some && real_micros(items[3]) is Some {
            let v0 = real_micros(items[0])->0;
            let v1 = real_micros(items[1])->0;
            let v2 = real_micros(items[2])->0;
            let v3 = real_micros(items[3])->0;
            Some((min_int(v0, v2), min_int(v1, v3), max_int(v0, v2), max_int(v1, v3)))
        } else {
            None
        },
        _ => None,
    }
}

/// The value of a number object as a real.
pub(crate) fn as_real(o: &Object) -> (r: Option<PdfReal>)
    ensures
        r matches Some(x) ==> real_micros(o.v()) == Some(x.micros as int),
        r is None ==> real_micros(o.v()) is None,
{
    match o {
        Object::Integer(n) => PdfReal::from_integer(*n),
        Object::Real(x) => Some(*x),
        _ => None,
    }
}

/// Reads a rectangle from an array of four numbers (ISO 32000-1 7.9.5),
/// with its corners put in order so that `llx <= urx` and `lly <= ury`
/// whichever corners were written first; `None` for anything else.
pub fn rect_from_object(obj: &Object) -> (r: Option<Rectangle>)
    ensures
        r is Some <==> rect_of(obj.v()) is Some,
        r matches Some(rect) ==> rect_of(obj.v()) == Some(
            (
                rect.llx.micros as int,
                rect.lly.micros as int,
                rect.urx.micros as int,
                rect.ury.micros as int,
            ),
        ),
{
    match obj {
        Object::Array(arr) => rect_from_items(arr),
        _ => None,
    }
}

/// The rectangle the items of `arr` denote, as `rect_from_object` reads
/// it.
pub fn rect_from_items(arr: &PdfArray) -> (r: Option<Rectangle>)
    ensures
        r is Some <==> rect_of(ObjV::Array(view_objs(arr.items@))) is Some,
        r matches Some(rect) ==> rect_of(ObjV::Array(view_objs(arr.items@))) == Some(
            (
                rect.llx.micros as int,
                rect.lly.micros as int,
                rect.urx.micros as int,
                rect.ury.micros as int,
            ),
        ),
{
    proof {
        crate::object::lemma_view_objs(arr.items@);
    }
    if arr.len() != 4 {
        return None;
    }
    let a = as_real(&arr.items[0]);
    let b = as_real(&arr.items[1]);
    let c = as_real(&arr.items[2]);
    let d = as_real(&arr.items[3]);
    match (a, b, c, d) {
        (Some(v0), Some(v1), Some(v2), Some(v3)) => {
            let llx = if v0.micros <= v2.micros { v0 } else { v2 };
            let urx = if v0.micros <= v2.micros { v2 } else { v0 };
            let lly = if v1.micros <= v3.micros { v1 } else { v3 };
            let ury = if v1.micros <= v3.micros { v3 } else { v1 };
            Some(Rectangle::new(llx, lly, urx, ury))
        },
        _ => None,
    }
}

/// Writes a rectangle as the array `[llx lly urx ury]`.
pub fn rect_to_array(rect: Rectangle) -> (a: PdfArray)
    ensures
        view_objs(a.items@) == seq![
            ObjV::Real(rect.llx.micros),
            ObjV::Real(rect.lly.micros),
            ObjV::Real(rect.urx.micros),
            ObjV::Real(rect.ury.micros),
        ],
{
    let mut a = PdfArray::new();
    a.push(Object::Real(rect.llx));
    a.push(Object::Real(rect.lly));
    a.push(Object::Real(rect.urx));
    a.push(Object::Real(rect.ury));
    proof {
        crate::object::lemma_view_objs(a.items@);
        assert(view_objs(a.items@) =~= seq![
            ObjV::Real(rect.llx.micros),
            ObjV::Real(rect.lly.micros),
            ObjV::Real(rect.urx.micros),
            ObjV::Real(rect.ury.micros),
        ]);
    }
    a
}

/// The decimal digits of `n` as characters.
pub open spec fn dec_text(n: nat) -> Seq<char> {
    Seq::new(dec(n).len(), |k: int| (dec(n)[k] as u32) as char)
}

/// The name `preferred` followed by the digits of `i`.
pub open spec fn candidate_name(preferred: Seq<char>, i: nat) -> Seq<char> {
    preferred + dec_text(i)
}

/// Whether the dictionary entries hold `key`.
pub open spec fn has_key(entries: Seq<(Seq<char>, ObjV)>, key: Seq<char>) -> bool {
    entries_get(entries, key) is Some
}

/// Distinct numbers give distinct candidate names.
proof fn lemma_candidate_injective(preferred: Seq<char>, a: nat, b: nat)
    requires
        candidate_name(preferred, a) == candidate_name(preferred, b),
    ensures
        a == b,
{
    lemma_dec_props(a);
    lemma_dec_props(b);
    let ta = dec_text(a);
    let tb = dec_text(b);
    assert(ta =~= candidate_name(preferred, a).subrange(preferred.len() as int, candidate_name(preferred, a).len() as int));
    assert(tb =~= candidate_name(preferred, b).subrange(preferred.len() as int, candidate_name(preferred, b).len() as int));
    assert(ta == tb);
    assert forall|k: int| 0 <= k < dec(a).len() implies #[trigger] dec(a)[k] == dec(b)[k] by {
        assert(48 <= dec(a)[k] <= 57);
        assert(48 <= dec(b)[k] <= 57);
        assert(((dec(a)[k] as u32) as char) as u32 == dec(a)[k] as u32);
        assert(((dec(b)[k] as u32) as char) as u32 == dec(b)[k] as u32);
        assert(ta[k] == tb[k]);
    }
    assert(dec(a) =~= dec(b));
    lemma_dec_injective(a, b);
}

/// `preferred` followed by the digits of `i`, as a string.
fn candidate_string(preferred: &str, i: u64) -> (s: String)
    ensures
        s@ == candidate_name(preferred@, i as nat),
{
    let mut s = String::from_str(preferred);
    let digits = dec_bytes(i);
    proof {
        lemma_dec_props(i as nat);
    }
    let mut k: usize = 0;
    while k < digits.len()
        invariant
            k <= digits@.len(),
            digits@ == dec(i as nat),
            crate::numfmt::all_digits(digits@),
            s@ == preferred@ + dec_text(i as nat).subrange(0, k as int),
        decreases digits@.len() - k,
    {
        let c = char_from_u32(digits[k] as u32).unwrap();
        proof {
            vstd::utf8::char_u32_cast(c, c as u32);
            assert(48 <= digits@[k as int] <= 57);
        }
        push_char(&mut s, c);
        k = k + 1;
        assert(s@ =~= preferred@ + dec_text(i as nat).subrange(0, k as int));
    }
    assert(dec_text(i as nat).subrange(0, dec_text(i as nat).len() as int) =~= dec_text(i as nat));
    s
}

/// Picks a resource name not present in `existing`: `preferred` itself
/// when it is free, else `preferred` followed by the least number from 1
/// up that gives a free name.
pub fn unique_resource_name(existing: &PdfDictionary, preferred: &str) -> (r: String)
    requires
        existing.entries@.len() < usize::MAX,
    ensures
        !has_key(existing.view_entries(), preferred@) ==> r@ == preferred@,
        has_key(existing.view_entries(), preferred@) ==> exists|i: nat|
            #![trigger candidate_name(preferred@, i)]
            i >= 1 && r@ == candidate_name(preferred@, i) && !has_key(
                existing.view_entries(),
                candidate_name(preferred@, i),
            ) && forall|k: nat|
                1 <= k < i ==> #[trigger] has_key(existing.view_entries(), candidate_name(preferred@, k)),
{
    if !existing.contains_key(preferred) {
        return String::from_str(preferred);
    }
    let ghost entries = existing.view_entries();
    let ghost n = entries.len();
    proof {
        crate::object::lemma_view_entries(existing.entries@);
        vstd::set_lib::lemma_int_range(0, n as int);
    }
    let ghost mut used: Set<int> = Set::empty();
    let mut i: u64 = 1;
    loop
        invariant
            entries == existing.view_entries(),
            n == entries.len(),
            n == existing.entries@.len(),
            n < usize::MAX,
            1 <= i,
            i <= n + 1,
            used.finite(),
            used.len() == i - 1,
            used.subset_of(vstd::set_lib::set_int_range(0, n as int)),
            forall|s: int|
                #![trigger used.contains(s)]
                used.contains(s) ==> exists|k: nat|
                    #![trigger candidate_name(preferred@, k)]
                    1 <= k < i && entries[s].0 == candidate_name(preferred@, k),
            forall|k: nat| 1 <= k < i ==> #[trigger] has_key(entries, candidate_name(preferred@, k)),
            has_key(entries, preferred@),
        decreases n + 1 - i,
    {
        let cand = candidate_string(preferred, i);
        if !existing.contains_key(cand.as_str()) {
            assert(cand@ == candidate_name(preferred@, i as nat));
            return cand;
        }
        let ghost key = candidate_name(preferred@, i as nat);
        let ghost j = entries_find(entries, key);
        proof {
            lemma_entries_find(entries, key);
            assert(j < n);
            assert(entries[j].0 == key);
            if used.contains(j) {
                let k = choose|k: nat| 1 <= k < i && entries[j].0 == #[trigger] candidate_name(preferred@, k);
                lemma_candidate_injective(preferred@, k, i as nat);
            }
            assert(!used.contains(j));
            let used2 = used.insert(j);
            assert(used2.len() == i);
            assert(used2.subset_of(vstd::set_lib::set_int_range(0, n as int)));
            vstd::set_lib::lemma_int_range(0, n as int);
            vstd::set_lib::lemma_len_subset(used2, vstd::set_lib::set_int_range(0, n as int));
            assert forall|s: int| #![trigger used2.contains(s)] used2.contains(s) implies exists|k: nat|
                #![trigger candidate_name(preferred@, k)]
                1 <= k < i + 1 && entries[s].0 == candidate_name(preferred@, k) by {
                if s == j {
                    assert(entries[s].0 == candidate_name(preferred@, i as nat));
                } else {
                    assert(used.contains(s));
                }
            }
            used = used2;
        }
        i = i + 1;
    }
}

/// ASCII bytes as characters.
pub open spec fn ascii_text(b: Seq<u8>) -> Seq<char> {
    Seq::new(b.len(), |i: int| (b[i] as u32) as char)
}

/// Appends the decimal digits of `n` as characters.
pub fn push_dec(s: &mut String, n: u64)
    ensures
        final(s)@ == old(s)@ + ascii_text(dec(n as nat)),
{
    let mut digits: Vec<u8> = Vec::new();
    write_dec(&mut digits, n);
    proof {
        crate::numfmt::lemma_dec_props(n as nat);
    }
    let ghost start = s@;
    let mut k: usize = 0;
    while k < digits.len()
        invariant
            k <= digits@.len(),
            digits@ == dec(n as nat),
            crate::numfmt::all_digits(digits@),
            s@ == start + ascii_text(digits@.subrange(0, k as int)),
        decreases digits@.len() - k,
    {
        let c = char_from_u32(digits[k] as u32).unwrap();
        proof {
            vstd::utf8::char_u32_cast(c, c as u32);
            assert(48 <= digits@[k as int] <= 57);
        }
        push_char(s, c);
        k = k + 1;
        assert(s@ =~= start + ascii_text(digits@.subrange(0, k as int)));
    }
    assert(digits@.subrange(0, digits@.len() as int) =~= digits@);
}

/// Appends ASCII bytes as characters.
pub fn push_ascii(s: &mut String, bytes: &[u8])
    requires
        forall|i: int| 0 <= i < bytes@.len() ==> #[trigger] bytes@[i] < 128,
    ensures
        final(s)@ == old(s)@ + ascii_text(bytes@),
{
    let ghost start = s@;
    let mut k: usize = 0;
    while k < bytes.len()
        invariant
            k <= bytes@.len(),
            forall|i: int| 0 <= i < bytes@.len() ==> #[trigger] bytes@[i] < 128,
            s@ == start + ascii_text(bytes@.subrange(0, k as int)),
        decreases bytes@.len() - k,
    {
        let c = char_from_u32(bytes[k] as u32).unwrap();
        proof {
            vstd::utf8::char_u32_cast(c, c as u32);
        }
        push_char(s, c);
        k = k + 1;
        assert(s@ =~= start + ascii_text(bytes@.subrange(0, k as int)));
    }
    assert(bytes@.subrange(0, bytes@.len() as int) =~= bytes@);
}

} // verus!
