//! Tokens of the PDF syntax as they occur in content streams: white space
//! and comments, keywords, names, numbers and strings (ISO 32000-1 7.2,
//! 7.3).
//!
//! Each token reader takes the whole input and a position, and returns
//! the position just after the token together with its value. Its
//! contract is the token's grammar, written as a spec function over the
//! input bytes.

use vstd::prelude::*;
use vstd::utf8::{valid_utf8, decode_utf8};
use crate::numfmt::{digits_value, all_digits};
use crate::stdtext::{lossy_text, string_from_utf8, string_from_utf8_lossy};
use crate::syntax::{
    spec_is_whitespace, spec_is_delimiter, spec_is_regular, is_whitespace, is_delimiter, hex_value,
    hex_value_exec,
};

verus! {

// ---------------------------------------------------------------------
// White space and comments

/// The end of the comment line starting at `i`: the first `\n` or `\r` at
/// or after `i`, or the end of input.
pub open spec fn line_end(s: Seq<u8>, i: int) -> int
    decreases s.len() - i,
{
    if i >= s.len() || s[i] == 10u8 || s[i] == 13u8 {
        i
    } else {
        line_end(s, i + 1)
    }
}

/// The position after the white space and comments that start at `i`.
pub open spec fn skip_ws(s: Seq<u8>, i: int) -> int
    decreases s.len() - i,
{
    if 0 <= i < s.len() && spec_is_whitespace(s[i]) {
        skip_ws(s, i + 1)
    } else if 0 <= i < s.len() && s[i] == 37u8 {
        proof {
            lemma_line_end(s, i + 1);
        }
        skip_ws(s, line_end(s, i + 1))
    } else {
        i
    }
}

/// `line_end` stays within the input and does not move backwards.
pub proof fn lemma_line_end(s: Seq<u8>, i: int)
    requires
        0 <= i <= s.len(),
    ensures
        i <= line_end(s, i) <= s.len(),
    decreases s.len() - i,
{
    if !(i >= s.len() || s[i] == 10u8 || s[i] == 13u8) {
        lemma_line_end(s, i + 1);
    }
}

/// `skip_ws` stays within the input and does not move backwards.
pub proof fn lemma_skip_ws(s: Seq<u8>, i: int)
    requires
        0 <= i <= s.len(),
    ensures
        i <= skip_ws(s, i) <= s.len(),
        skip_ws(s, i) < s.len() ==> !spec_is_whitespace(s[skip_ws(s, i)]) && s[skip_ws(s, i)] != 37u8,
    decreases s.len() - i,
{
    if 0 <= i < s.len() && spec_is_whitespace(s[i]) {
        lemma_skip_ws(s, i + 1);
    } else if 0 <= i < s.len() && s[i] == 37u8 {
        lemma_line_end(s, i + 1);
        lemma_skip_ws(s, line_end(s, i + 1));
    }
}

/// Skips white space and comments (ISO 32000-1 7.2.3, 7.2.4).
pub fn skip_ws_and_comments(data: &[u8], pos: usize) -> (r: usize)
    requires
        pos <= data@.len(),
    ensures
        r == skip_ws(data@, pos as int),
        pos <= r <= data@.len(),
{
    proof {
        lemma_skip_ws(data@, pos as int);
    }
    let mut i = pos;
    loop
        invariant
            pos <= i <= data@.len(),
            skip_ws(data@, i as int) == skip_ws(data@, pos as int),
        decreases data@.len() - i,
    {
        if i < data.len() && is_whitespace(data[i]) {
            i = i + 1;
        } else if i < data.len() && data[i] == 37u8 {
            let mut j = i + 1;
            while j < data.len() && data[j] != 10u8 && data[j] != 13u8
                invariant
                    i + 1 <= j <= data@.len(),
                    line_end(data@, j as int) == line_end(data@, i + 1),
                decreases data@.len() - j,
            {
                j = j + 1;
            }
            i = j;
        } else {
            return i;
        }
    }
}

// ---------------------------------------------------------------------
// Keywords

/// The end of the run of regular characters starting at `i`.
pub open spec fn regular_end(s: Seq<u8>, i: int) -> int
    decreases s.len() - i,
{
    if 0 <= i < s.len() && spec_is_regular(s[i]) {
        regular_end(s, i + 1)
    } else {
        i
    }
}

/// `regular_end` stays within the input, and every byte it passes over
/// is regular.
pub proof fn lemma_regular_end(s: Seq<u8>, i: int)
    requires
        0 <= i <= s.len(),
    ensures
        i <= regular_end(s, i) <= s.len(),
        forall|k: int| i <= k < regular_end(s, i) ==> spec_is_regular(#[trigger] s[k]),
        regular_end(s, i) < s.len() ==> !spec_is_regular(s[regular_end(s, i)]),
    decreases s.len() - i,
{
    if 0 <= i < s.len() && spec_is_regular(s[i]) {
        lemma_regular_end(s, i + 1);
    }
}

/// A keyword: a non-empty run of regular characters that is valid UTF-8
/// (ISO 32000-1 7.8.2), such as `Tj`, `re`, `f*` or `BDC`.
pub open spec fn spec_keyword(s: Seq<u8>, i: int) -> Option<(int, Seq<char>)> {
    let end = regular_end(s, i);
    if end == i || !valid_utf8(s.subrange(i, end)) {
        None
    } else {
        Some((end, decode_utf8(s.subrange(i, end))))
    }
}

/// The end of the run of regular characters starting at `pos`.
fn regular_run_end(data: &[u8], pos: usize) -> (r: usize)
    requires
        pos <= data@.len(),
    ensures
        r == regular_end(data@, pos as int),
        pos <= r <= data@.len(),
{
    proof {
        lemma_regular_end(data@, pos as int);
    }
    let mut i = pos;
    while i < data.len() && !is_whitespace(data[i]) && !is_delimiter(data[i])
        invariant
            pos <= i <= data@.len(),
            regular_end(data@, i as int) == regular_end(data@, pos as int),
        decreases data@.len() - i,
    {
        i = i + 1;
    }
    i
}

/// Copies `data[from..to]` into a vector.
pub fn copy_range(data: &[u8], from: usize, to: usize) -> (v: Vec<u8>)
    requires
        from <= to <= data@.len(),
    ensures
        v@ == data@.subrange(from as int, to as int),
{
    let mut v: Vec<u8> = Vec::new();
    let mut i = from;
    while i < to
        invariant
            from <= i <= to <= data@.len(),
            v@ == data@.subrange(from as int, i as int),
        decreases to - i,
    {
        v.push(data[i]);
        i = i + 1;
        assert(v@ =~= data@.subrange(from as int, i as int));
    }
    v
}

/// Reads an operator keyword.
pub fn parse_keyword(data: &[u8], pos: usize) -> (r: Option<(usize, String)>)
    requires
        pos <= data@.len(),
    ensures
        r is Some <==> spec_keyword(data@, pos as int) is Some,
        r matches Some((e, k)) ==> spec_keyword(data@, pos as int) == Some((e as int, k@)),
        r matches Some((e, k)) ==> pos < e <= data@.len(),
{
    let end = regular_run_end(data, pos);
    if end == pos {
        return None;
    }
    let bytes = copy_range(data, pos, end);
    match string_from_utf8(bytes) {
        Some(s) => Some((end, s)),
        None => None,
    }
}

/// Whether the keyword `word` stands at `i`, followed by white space, a
/// delimiter or the end of input.
pub open spec fn prefix_word(s: Seq<u8>, i: int, word: Seq<u8>) -> bool {
    &&& 0 <= i
    &&& i + word.len() <= s.len()
    &&& s.subrange(i, i + word.len()) == word
    &&& (i + word.len() == s.len() || spec_is_whitespace(s[i + word.len()]) || spec_is_delimiter(
        s[i + word.len()],
    ))
}

/// Whether `word` stands at `pos` as a whole keyword.
pub fn strip_prefix_word(data: &[u8], pos: usize, word: &[u8]) -> (b: bool)
    requires
        pos <= data@.len(),
    ensures
        b == prefix_word(data@, pos as int, word@),
{
    if word.len() > data.len() - pos {
        return false;
    }
    let mut k: usize = 0;
    while k < word.len()
        invariant
            k <= word@.len(),
            pos + word@.len() <= data@.len(),
            data@.subrange(pos as int, pos + k) == word@.subrange(0, k as int),
        decreases word@.len() - k,
    {
        assert(pos + k < data@.len());
        assert(data@.len() == data.len());
        let idx: usize = pos + k;
        if data[idx] != word[k] {
            assert(data@.subrange(pos as int, pos + word@.len())[k as int] != word@[k as int]);
            return false;
        }
        assert(data@.subrange(pos as int, pos + k + 1) =~= data@.subrange(pos as int, pos + k).push(data@[pos + k]));
        assert(word@.subrange(0, k + 1) =~= word@.subrange(0, k as int).push(word@[k as int]));
        k = k + 1;
    }
    assert(word@.subrange(0, word@.len() as int) =~= word@);
    let end = pos + word.len();
    end == data.len() || is_whitespace(data[end]) || is_delimiter(data[end])
}

// ---------------------------------------------------------------------
// Names

/// Whether the two bytes after a `#` form valid UTF-8 on their own.
pub open spec fn pair_is_utf8(a: u8, b: u8) -> bool {
    (a < 128 && b < 128) || (0xc2 <= a <= 0xdf && 0x80 <= b <= 0xbf)
}

/// The byte a two-character `#xx` escape denotes: two hexadecimal digits,
/// or a `+` sign followed by one (as a radix-16 integer parse reads it).
pub open spec fn hex_pair(a: u8, b: u8) -> Option<u8> {
    if a == 43u8 {
        hex_value(b)
    } else if hex_value(a) is Some && hex_value(b) is Some {
        Some((hex_value(a).unwrap() * 16 + hex_value(b).unwrap()) as u8)
    } else {
        None
    }
}

/// The bytes of a name starting at `i` (just after its `/`): the run of
/// regular characters, with each `#` that is followed by a valid escape
/// replaced by the byte it denotes. `None` when the two bytes after a `#`
/// are not valid UTF-8 text.
pub open spec fn name_loop(s: Seq<u8>, i: int, out: Seq<u8>) -> Option<(int, Seq<u8>)>
    decreases s.len() - i,
{
    if i < 0 || i >= s.len() || !spec_is_regular(s[i]) {
        Some((i, out))
    } else if s[i] == 35u8 && i + 2 < s.len() {
        if !pair_is_utf8(s[i + 1], s[i + 2]) {
            None
        } else if hex_pair(s[i + 1], s[i + 2]) is Some {
            name_loop(s, i + 3, out.push(hex_pair(s[i + 1], s[i + 2]).unwrap()))
        } else {
            name_loop(s, i + 1, out.push(s[i]))
        }
    } else {
        name_loop(s, i + 1, out.push(s[i]))
    }
}

/// A name's end position and text (its bytes decoded as UTF-8, each
/// invalid sequence replaced by U+FFFD).
pub open spec fn spec_name(s: Seq<u8>, i: int) -> Option<(int, Seq<char>)> {
    match name_loop(s, i, Seq::empty()) {
        Some((e, b)) => Some((e, lossy_text(b))),
        None => None,
    }
}

/// The name reader only moves forward.
pub proof fn lemma_name_loop(s: Seq<u8>, i: int, out: Seq<u8>)
    requires
        0 <= i <= s.len(),
    ensures
        name_loop(s, i, out) matches Some((e, b)) ==> i <= e <= s.len(),
    decreases s.len() - i,
{
    if i >= s.len() || !spec_is_regular(s[i]) {
    } else if s[i] == 35u8 && i + 2 < s.len() {
        if !pair_is_utf8(s[i + 1], s[i + 2]) {
        } else if hex_pair(s[i + 1], s[i + 2]) is Some {
            lemma_name_loop(s, i + 3, out.push(hex_pair(s[i + 1], s[i + 2]).unwrap()));
        } else {
            lemma_name_loop(s, i + 1, out.push(s[i]));
        }
    } else {
        lemma_name_loop(s, i + 1, out.push(s[i]));
    }
}

fn hex_pair_exec(a: u8, b: u8) -> (r: Option<u8>)
    ensures
        r == hex_pair(a, b),
{
    if a == 43u8 {
        hex_value_exec(b)
    } else {
        match (hex_value_exec(a), hex_value_exec(b)) {
            (Some(x), Some(y)) => Some(x * 16 + y),
            _ => None,
        }
    }
}

/// Reads a name (ISO 32000-1 7.3.5) starting just after its `/`.
pub fn take_name(data: &[u8], pos: usize) -> (r: Option<(usize, String)>)
    requires
        pos <= data@.len(),
    ensures
        r is Some <==> spec_name(data@, pos as int) is Some,
        r matches Some((e, n)) ==> spec_name(data@, pos as int) == Some((e as int, n@)),
        r matches Some((e, n)) ==> pos <= e <= data@.len(),
{
    proof {
        lemma_name_loop(data@, pos as int, Seq::empty());
    }
    let mut out: Vec<u8> = Vec::new();
    let mut i = pos;
    loop
        invariant
            pos <= i <= data@.len(),
            name_loop(data@, i as int, out@) == name_loop(data@, pos as int, Seq::empty()),
        decreases data@.len() - i,
    {
        if i >= data.len() || is_whitespace(data[i]) || is_delimiter(data[i]) {
            let name = string_from_utf8_lossy(out.as_slice());
            return Some((i, name));
        }
        let c = data[i];
        if c == 35u8 && data.len() - i > 2 {
            let a = data[i + 1];
            let b = data[i + 2];
            let utf8_ok = (a < 128 && b < 128) || (0xc2 <= a && a <= 0xdf && 0x80 <= b && b <= 0xbf);
            if !utf8_ok {
                return None;
            }
            match hex_pair_exec(a, b) {
                Some(byte) => {
                    out.push(byte);
                    i = i + 3;
                },
                None => {
                    out.push(c);
                    i = i + 1;
                },
            }
        } else {
            out.push(c);
            i = i + 1;
        }
    }
}

// ---------------------------------------------------------------------
// Numbers

/// A numeric token's value: an integer, or a real in millionths.
pub enum NumV {
    /// An integer.
    Int(i64),
    /// A real, in millionths.
    Real(i64),
}

/// Whether `c` may occur in a numeric token.
pub open spec fn is_num_char(c: u8) -> bool {
    (48 <= c <= 57) || c == 43u8 || c == 45u8 || c == 46u8
}

/// The end of the run of numeric-token characters starting at `i`.
pub open spec fn num_end(s: Seq<u8>, i: int) -> int
    decreases s.len() - i,
{
    if 0 <= i < s.len() && is_num_char(s[i]) {
        num_end(s, i + 1)
    } else {
        i
    }
}

/// The index of the first `.` in `t`, or its length.
pub open spec fn dot_index(t: Seq<u8>) -> int
    decreases t.len(),
{
    if t.len() == 0 {
        0
    } else if t[0] == 46u8 {
        0
    } else {
        1 + dot_index(t.drop_first())
    }
}

/// The fraction digits `f` as millionths: the first six digits, padded on
/// the right with zeros; further digits are dropped.
pub open spec fn frac_micros(f: Seq<u8>) -> nat {
    if f.len() >= 6 {
        digits_value(f.subrange(0, 6))
    } else {
        digits_value(f) * pow10((6 - f.len()) as nat)
    }
}

/// `10^n`.
pub open spec fn pow10(n: nat) -> nat
    decreases n,
{
    if n == 0 {
        1
    } else {
        10 * pow10((n - 1) as nat)
    }
}

/// The value of a numeric token `t`: an optional sign, then digits with at
/// most one `.` and at least one digit. Without a `.` it is an integer
/// (when it fits in 64 bits); with one, a real, rounded toward zero to a
/// millionth (when it fits).
pub open spec fn num_value(t: Seq<u8>) -> Option<NumV> {
    let neg = t.len() > 0 && t[0] == 45u8;
    let body = if t.len() > 0 && (t[0] == 43u8 || t[0] == 45u8) { t.drop_first() } else { t };
    let d = dot_index(body);
    if d == body.len() {
        int_token(body, neg)
    } else {
        real_token(body.subrange(0, d), body.subrange(d + 1, body.len() as int), neg)
    }
}

/// The integer a sign and the digit run `body` denote, when it fits.
pub open spec fn int_token(body: Seq<u8>, neg: bool) -> Option<NumV> {
    if body.len() == 0 || !all_digits(body) {
        None
    } else {
        let v: int = if neg { -(digits_value(body) as int) } else { digits_value(body) as int };
        if i64::MIN <= v <= i64::MAX {
            Some(NumV::Int(v as i64))
        } else {
            None
        }
    }
}

/// The real (in millionths) a sign, integer digits `ip` and fraction
/// digits `fp` denote, when it fits.
pub open spec fn real_token(ip: Seq<u8>, fp: Seq<u8>, neg: bool) -> Option<NumV> {
    if !all_digits(ip) || !all_digits(fp) || (ip.len() == 0 && fp.len() == 0) {
        None
    } else {
        let m: int = (digits_value(ip) * 1_000_000 + frac_micros(fp)) as int;
        let v: int = if neg { -m } else { m };
        if i64::MIN <= v <= i64::MAX {
            Some(NumV::Real(v as i64))
        } else {
            None
        }
    }
}

/// A number token at `i`.
pub open spec fn spec_number(s: Seq<u8>, i: int) -> Option<(int, NumV)> {
    let e = num_end(s, i);
    if e == i {
        None
    } else {
        match num_value(s.subrange(i, e)) {
            Some(v) => Some((e, v)),
            None => None,
        }
    }
}

/// The number reader moves forward and stays within the input.
pub proof fn lemma_num_end(s: Seq<u8>, i: int)
    requires
        0 <= i <= s.len(),
    ensures
        i <= num_end(s, i) <= s.len(),
        forall|k: int| i <= k < num_end(s, i) ==> is_num_char(#[trigger] s[k]),
    decreases s.len() - i,
{
    if 0 <= i < s.len() && is_num_char(s[i]) {
        lemma_num_end(s, i + 1);
    }
}

/// Reads a numeric token (ISO 32000-1 7.3.3).
pub fn take_number(data: &[u8], pos: usize) -> (r: Option<(usize, NumV)>)
    requires
        pos <= data@.len(),
    ensures
        r is Some <==> spec_number(data@, pos as int) is Some,
        r matches Some((e, v)) ==> spec_number(data@, pos as int) == Some((e as int, v)),
        r matches Some((e, v)) ==> pos < e <= data@.len(),
{
    proof {
        lemma_num_end(data@, pos as int);
    }
    let mut end = pos;
    while end < data.len() && (
        (48 <= data[end] && data[end] <= 57) || data[end] == 43u8 || data[end] == 45u8 || data[end] == 46u8)
        invariant
            pos <= end <= data@.len(),
            num_end(data@, end as int) == num_end(data@, pos as int),
        decreases data@.len() - end,
    {
        end = end + 1;
    }
    if end == pos {
        return None;
    }
    match num_value_exec(data, pos, end) {
        Some(v) => Some((end, v)),
        None => None,
    }
}

/// Reads the digits `data[from..to]` as a number, or `None` when a byte
/// is not a digit or the value reaches `limit`.
fn digits_value_exec(data: &[u8], from: usize, to: usize, limit: u64) -> (r: Option<u64>)
    requires
        from <= to <= data@.len(),
        limit >= 1,
    ensures
        r matches Some(v) ==> all_digits(data@.subrange(from as int, to as int)) && v as nat
            == digits_value(data@.subrange(from as int, to as int)) && v < limit,
        r is None ==> !all_digits(data@.subrange(from as int, to as int)) || digits_value(
            data@.subrange(from as int, to as int),
        ) >= limit,
{
    let mut v: u64 = 0;
    let mut i = from;
    while i < to
        invariant
            from <= i <= to <= data@.len(),
            all_digits(data@.subrange(from as int, i as int)),
            v as nat == digits_value(data@.subrange(from as int, i as int)),
            v < limit,
        decreases to - i,
    {
        let c = data[i];
        let ghost prefix = data@.subrange(from as int, i as int);
        let ghost next = data@.subrange(from as int, i + 1);
        assert(next.drop_last() =~= prefix);
        if c < 48 || c > 57 {
            proof {
                assert(!(48 <= data@.subrange(from as int, to as int)[i - from] <= 57));
            }
            return None;
        }
        let d = (c - 48) as u64;
        if (v as u128) * 10 + (d as u128) >= limit as u128 {
            proof {
                lemma_digits_prefix_le(data@.subrange(from as int, to as int), i + 1 - from);
                assert(data@.subrange(from as int, to as int).subrange(0, i + 1 - from) =~= next);
                assert(digits_value(next) == v * 10 + d);
            }
            return None;
        }
        v = v * 10 + d;
        i = i + 1;
        assert(all_digits(next));
    }
    Some(v)
}

/// A prefix of a digit run denotes no more than the whole run, unless the
/// run contains a non-digit.
proof fn lemma_digits_prefix_le(s: Seq<u8>, k: int)
    requires
        0 <= k <= s.len(),
    ensures
        all_digits(s) ==> digits_value(s.subrange(0, k)) <= digits_value(s),
    decreases s.len() - k,
{
    if k < s.len() && all_digits(s) {
        lemma_digits_prefix_le(s, k + 1);
        let p = s.subrange(0, k + 1);
        assert(p.drop_last() =~= s.subrange(0, k));
        assert(digits_value(p) == digits_value(s.subrange(0, k)) * 10 + (p.last() - 48) as nat);
        assert(48 <= p.last());
    } else if k == s.len() {
        assert(s.subrange(0, k) =~= s);
    }
}

/// `dot_index` is the position of the first `.`.
proof fn lemma_dot_index(t: Seq<u8>, k: int)
    requires
        0 <= k <= t.len(),
        forall|j: int| 0 <= j < k ==> t[j] != 46u8,
        k == t.len() || t[k] == 46u8,
    ensures
        dot_index(t) == k,
    decreases t.len(),
{
    if t.len() > 0 && t[0] != 46u8 {
        lemma_dot_index(t.drop_first(), k - 1);
    }
}

/// A run of `n` digits denotes less than `10^n`.
proof fn lemma_digits_bound(f: Seq<u8>)
    requires
        all_digits(f),
    ensures
        digits_value(f) < pow10(f.len()),
    decreases f.len(),
{
    if f.len() > 0 {
        let g = f.drop_last();
        assert(all_digits(g)) by {
            assert forall|j: int| 0 <= j < g.len() implies 48 <= #[trigger] g[j] <= 57 by {
                assert(g[j] == f[j]);
            }
        }
        lemma_digits_bound(g);
        assert(48 <= f.last() <= 57);
        assert(digits_value(f) == digits_value(g) * 10 + (f.last() - 48) as nat);
        assert(pow10(f.len()) == 10 * pow10(g.len()));
        assert(digits_value(g) * 10 + 9 < 10 * pow10(g.len())) by (nonlinear_arith)
            requires
                digits_value(g) < pow10(g.len()),
        {
        }
    }
}

/// `10^a * 10^b = 10^(a+b)`.
proof fn lemma_pow10_add(a: nat, b: nat)
    ensures
        pow10(a) * pow10(b) == pow10(a + b),
    decreases a,
{
    if a > 0 {
        let a1 = (a - 1) as nat;
        lemma_pow10_add(a1, b);
        let x = pow10(a1);
        let y = pow10(b);
        assert(pow10(a) == 10 * x);
        assert(a1 + b + 1 == a + b);
        assert(pow10(a1 + b + 1) == 10 * pow10(a1 + b));
        assert(x * y == pow10(a1 + b));
        assert((10 * x) * y == 10 * (x * y)) by (nonlinear_arith);
        assert(pow10(a) * pow10(b) == (10 * x) * y);
        assert(pow10(a) * pow10(b) == pow10(a + b));
    } else {
        assert(pow10(a) == 1);
        assert(pow10(a) * pow10(b) == pow10(b)) by (nonlinear_arith)
            requires
                pow10(a) == 1,
        {
        }
    }
}

/// Whether every byte of `data[from..to]` is a digit.
fn all_digits_exec(data: &[u8], from: usize, to: usize) -> (b: bool)
    requires
        from <= to <= data@.len(),
    ensures
        b == all_digits(data@.subrange(from as int, to as int)),
{
    let mut i = from;
    while i < to
        invariant
            from <= i <= to <= data@.len(),
            all_digits(data@.subrange(from as int, i as int)),
        decreases to - i,
    {
        if data[i] < 48 || data[i] > 57 {
            assert(!(48 <= data@.subrange(from as int, to as int)[i - from] <= 57));
            return false;
        }
        i = i + 1;
        assert(all_digits(data@.subrange(from as int, i as int)));
    }
    true
}

/// `10^k` for small `k`.
fn pow10_exec(k: usize) -> (r: u64)
    requires
        k <= 6,
    ensures
        r as nat == pow10(k as nat),
{
    reveal_with_fuel(pow10, 7);
    if k == 0 { 1 } else if k == 1 { 10 } else if k == 2 { 100 } else if k == 3 { 1000 }
    else if k == 4 { 10000 } else if k == 5 { 100000 } else { 1000000 }
}

/// Computes `num_value(data[from..to])`.
fn num_value_exec(data: &[u8], from: usize, to: usize) -> (r: Option<NumV>)
    requires
        from < to <= data@.len(),
    ensures
        r == num_value(data@.subrange(from as int, to as int)),
{
    let ghost t = data@.subrange(from as int, to as int);
    let neg = data[from] == 45u8;
    let start = if data[from] == 43u8 || data[from] == 45u8 { from + 1 } else { from };
    let ghost body = if t.len() > 0 && (t[0] == 43u8 || t[0] == 45u8) { t.drop_first() } else { t };
    assert(body =~= data@.subrange(start as int, to as int));
    let mut d = start;
    while d < to && data[d] != 46u8
        invariant
            start <= d <= to <= data@.len(),
            forall|j: int| start <= j < d ==> data@[j] != 46u8,
        decreases to - d,
    {
        d = d + 1;
    }
    proof {
        lemma_dot_index(body, d - start);
        assert(body.subrange(0, d - start) =~= data@.subrange(start as int, d as int));
    }
    if d == to {
        int_token_exec(data, start, to, neg)
    } else {
        assert(body.subrange(d - start + 1, body.len() as int) =~= data@.subrange(d + 1, to as int));
        real_token_exec(data, start, d, to, neg)
    }
}

/// Computes `int_token(data[from..to], neg)`.
fn int_token_exec(data: &[u8], from: usize, to: usize, neg: bool) -> (r: Option<NumV>)
    requires
        from <= to <= data@.len(),
    ensures
        r == int_token(data@.subrange(from as int, to as int), neg),
{
    if from == to {
        return None;
    }
    let limit: u64 = if neg { 9_223_372_036_854_775_809 } else { 9_223_372_036_854_775_808 };
    match digits_value_exec(data, from, to, limit) {
        Some(v) => {
            if neg {
                let x: i64 = (0i128 - (v as i128)) as i64;
                Some(NumV::Int(x))
            } else {
                Some(NumV::Int(v as i64))
            }
        },
        None => None,
    }
}

/// Computes `real_token(data[from..d], data[d+1..to], neg)`.
fn real_token_exec(data: &[u8], from: usize, d: usize, to: usize, neg: bool) -> (r: Option<NumV>)
    requires
        from <= d < to <= data@.len(),
    ensures
        r == real_token(data@.subrange(from as int, d as int), data@.subrange(d + 1, to as int), neg),
{
    if !all_digits_exec(data, d + 1, to) {
        return None;
    }
    if from == d && d + 1 == to {
        return None;
    }
    let ipv = match digits_value_exec(data, from, d, 9_223_372_036_855) {
        Some(v) => v,
        None => {
            return None;
        },
    };
    let fv = frac_micros_exec(data, d + 1, to);
    let m: u64 = ipv * 1_000_000 + fv;
    if neg {
        if m > 9_223_372_036_854_775_808 {
            return None;
        }
        let x: i64 = (0i128 - (m as i128)) as i64;
        Some(NumV::Real(x))
    } else {
        if m > 9_223_372_036_854_775_807 {
            return None;
        }
        Some(NumV::Real(m as i64))
    }
}

/// Computes `frac_micros(data[from..to])` for a run of digits.
fn frac_micros_exec(data: &[u8], from: usize, to: usize) -> (r: u64)
    requires
        from <= to <= data@.len(),
        all_digits(data@.subrange(from as int, to as int)),
    ensures
        r as nat == frac_micros(data@.subrange(from as int, to as int)),
        r <= 1_000_000,
{
    let flen = to - from;
    let k: usize = if flen >= 6 { 6 } else { flen };
    let ghost fp = data@.subrange(from as int, to as int);
    let ghost f = data@.subrange(from as int, from + k);
    proof {
        assert(all_digits(f)) by {
            assert forall|j: int| 0 <= j < f.len() implies 48 <= #[trigger] f[j] <= 57 by {
                assert(f[j] == fp[j]);
            }
        }
        lemma_digits_bound(f);
        lemma_pow10_add(k as nat, (6 - k) as nat);
        assert(pow10(6) == 1_000_000) by {
            reveal_with_fuel(pow10, 7);
        }
        if fp.len() >= 6 {
            assert(fp.subrange(0, 6) =~= f);
        } else {
            assert(fp =~= f);
        }
    }
    let fv = match digits_value_exec(data, from, from + k, 1_000_000) {
        Some(v) => v,
        None => {
            proof {
                assert(pow10(k as nat) <= 1_000_000) by {
                    reveal_with_fuel(pow10, 7);
                }
            }
            0
        },
    };
    let p = pow10_exec(6 - k);
    proof {
        let x = pow10(k as nat);
        assert(x * p == 1_000_000);
        assert(fv * p <= 1_000_000) by (nonlinear_arith)
            requires
                fv < x,
                x * p == 1_000_000,
                p >= 0,
        {
        }
    }
    fv * p
}

// ---------------------------------------------------------------------
// Strings

/// The octal escape `\ddd` whose first digit is at `i`: the position after
/// its (at most three) digits and its value.
pub open spec fn octal_loop(s: Seq<u8>, i: int, n: int, val: int) -> (int, int)
    decreases 3 - n,
{
    if n >= 3 || i < 0 || i >= s.len() || !(48 <= s[i] <= 55) {
        (i, val)
    } else {
        octal_loop(s, i + 1, n + 1, val * 8 + (s[i] - 48))
    }
}

/// The body of a literal string from position `i` at nesting depth
/// `depth`, with `out` decoded so far: the position after the closing
/// `)` and the decoded bytes (ISO 32000-1 7.3.4.2). `None` when the input
/// ends first.
pub open spec fn lit_loop(s: Seq<u8>, i: int, depth: nat, out: Seq<u8>) -> Option<(int, Seq<u8>)>
    decreases s.len() - i,
{
    if i < 0 || i >= s.len() {
        None
    } else if s[i] == 40u8 {
        lit_loop(s, i + 1, depth + 1, out.push(40u8))
    } else if s[i] == 41u8 {
        if depth == 0 {
            Some((i + 1, out))
        } else {
            lit_loop(s, i + 1, (depth - 1) as nat, out.push(41u8))
        }
    } else if s[i] == 92u8 {
        if i + 1 >= s.len() {
            None
        } else {
            let n = s[i + 1];
            if n == 110u8 {
                lit_loop(s, i + 2, depth, out.push(10u8))
            } else if n == 114u8 {
                lit_loop(s, i + 2, depth, out.push(13u8))
            } else if n == 116u8 {
                lit_loop(s, i + 2, depth, out.push(9u8))
            } else if n == 98u8 {
                lit_loop(s, i + 2, depth, out.push(8u8))
            } else if n == 102u8 {
                lit_loop(s, i + 2, depth, out.push(12u8))
            } else if n == 40u8 || n == 41u8 || n == 92u8 {
                lit_loop(s, i + 2, depth, out.push(n))
            } else if n == 10u8 {
                lit_loop(s, i + 2, depth, out)
            } else if n == 13u8 {
                if i + 2 < s.len() && s[i + 2] == 10u8 {
                    lit_loop(s, i + 3, depth, out)
                } else {
                    lit_loop(s, i + 2, depth, out)
                }
            } else if 48 <= n <= 55 {
                proof {
                    lemma_octal_loop(s, i + 1, 0, 0);
                }
                let (e, v) = octal_loop(s, i + 1, 0, 0);
                lit_loop(s, e, depth, out.push((v % 256) as u8))
            } else {
                lit_loop(s, i + 2, depth, out.push(n))
            }
        }
    } else {
        lit_loop(s, i + 1, depth, out.push(s[i]))
    }
}

/// A literal string whose `(` is at `i`.
pub open spec fn spec_literal(s: Seq<u8>, i: int) -> Option<(int, Seq<u8>)> {
    lit_loop(s, i + 1, 0, Seq::empty())
}

/// Octal escapes read one to three digits and denote at most 511.
pub proof fn lemma_octal_loop(s: Seq<u8>, i: int, n: int, val: int)
    requires
        0 <= i <= s.len(),
        0 <= n <= 3,
        0 <= val < pow8(n),
    ensures
        i <= octal_loop(s, i, n, val).0 <= s.len(),
        octal_loop(s, i, n, val).0 <= i + 3 - n,
        0 <= octal_loop(s, i, n, val).1 < 512,
    decreases 3 - n,
{
    if n >= 3 || i >= s.len() || !(48 <= s[i] <= 55) {
        assert(pow8(n) <= 512) by {
            reveal_with_fuel(pow8, 4);
        }
    } else {
        assert(val * 8 + (s[i] - 48) < pow8(n + 1)) by {
            assert(pow8(n + 1) == 8 * pow8(n));
        }
        lemma_octal_loop(s, i + 1, n + 1, val * 8 + (s[i] - 48));
    }
}

/// `8^n`.
pub open spec fn pow8(n: int) -> int
    decreases n,
{
    if n <= 0 {
        1
    } else {
        8 * pow8(n - 1)
    }
}

/// The literal-string reader only moves forward.
pub proof fn lemma_lit_loop(s: Seq<u8>, i: int, depth: nat, out: Seq<u8>)
    requires
        0 <= i <= s.len(),
    ensures
        lit_loop(s, i, depth, out) matches Some((e, b)) ==> i < e <= s.len(),
    decreases s.len() - i,
{
    if i >= s.len() {
    } else if s[i] == 40u8 {
        lemma_lit_loop(s, i + 1, depth + 1, out.push(40u8));
    } else if s[i] == 41u8 {
        if depth != 0 {
            lemma_lit_loop(s, i + 1, (depth - 1) as nat, out.push(41u8));
        }
    } else if s[i] == 92u8 {
        if i + 1 < s.len() {
            let n = s[i + 1];
            if n == 110u8 {
                lemma_lit_loop(s, i + 2, depth, out.push(10u8));
            } else if n == 114u8 {
                lemma_lit_loop(s, i + 2, depth, out.push(13u8));
            } else if n == 116u8 {
                lemma_lit_loop(s, i + 2, depth, out.push(9u8));
            } else if n == 98u8 {
                lemma_lit_loop(s, i + 2, depth, out.push(8u8));
            } else if n == 102u8 {
                lemma_lit_loop(s, i + 2, depth, out.push(12u8));
            } else if n == 40u8 || n == 41u8 || n == 92u8 {
                lemma_lit_loop(s, i + 2, depth, out.push(n));
            } else if n == 10u8 {
                lemma_lit_loop(s, i + 2, depth, out);
            } else if n == 13u8 {
                if i + 2 < s.len() && s[i + 2] == 10u8 {
                    lemma_lit_loop(s, i + 3, depth, out);
                } else {
                    lemma_lit_loop(s, i + 2, depth, out);
                }
            } else if 48 <= n <= 55 {
                lemma_octal_loop(s, i + 1, 0, 0);
                let (e, v) = octal_loop(s, i + 1, 0, 0);
                lemma_lit_loop(s, e, depth, out.push((v % 256) as u8));
            } else {
                lemma_lit_loop(s, i + 2, depth, out.push(n));
            }
        }
    } else {
        lemma_lit_loop(s, i + 1, depth, out.push(s[i]));
    }
}

/// Reads a literal string (ISO 32000-1 7.3.4.2) whose `(` is at `pos`.
pub fn take_literal_string(data: &[u8], pos: usize) -> (r: Option<(usize, Vec<u8>)>)
    requires
        pos < data@.len(),
        data@[pos as int] == 40u8,
    ensures
        r is Some <==> spec_literal(data@, pos as int) is Some,
        r matches Some((e, b)) ==> spec_literal(data@, pos as int) == Some((e as int, b@)),
        r matches Some((e, b)) ==> pos < e <= data@.len(),
{
    proof {
        lemma_lit_loop(data@, pos + 1, 0, Seq::empty());
    }
    let mut out: Vec<u8> = Vec::new();
    let mut depth: usize = 0;
    assert(data@.len() == data.len());
    let mut i: usize = pos + 1;
    loop
        invariant
            pos + 1 <= i <= data@.len(),
            depth <= i,
            lit_loop(data@, i as int, depth as nat, out@) == lit_loop(data@, pos + 1, 0, Seq::empty()),
        decreases data@.len() - i,
    {
        if i >= data.len() {
            return None;
        }
        let c = data[i];
        if c == 40u8 {
            depth = depth + 1;
            out.push(c);
            i = i + 1;
        } else if c == 41u8 {
            if depth == 0 {
                return Some((i + 1, out));
            }
            depth = depth - 1;
            out.push(c);
            i = i + 1;
        } else if c == 92u8 {
            if data.len() - i < 2 {
                return None;
            }
            let n = data[i + 1];
            if n == 110u8 {
                out.push(10u8);
                i = i + 2;
            } else if n == 114u8 {
                out.push(13u8);
                i = i + 2;
            } else if n == 116u8 {
                out.push(9u8);
                i = i + 2;
            } else if n == 98u8 {
                out.push(8u8);
                i = i + 2;
            } else if n == 102u8 {
                out.push(12u8);
                i = i + 2;
            } else if n == 40u8 || n == 41u8 || n == 92u8 {
                out.push(n);
                i = i + 2;
            } else if n == 10u8 {
                i = i + 2;
            } else if n == 13u8 {
                if data.len() - i > 2 && data[i + 2] == 10u8 {
                    i = i + 3;
                } else {
                    i = i + 2;
                }
            } else if 48 <= n && n <= 55 {
                proof {
                    lemma_octal_loop(data@, i + 1, 0, 0);
                }
                let mut val: u32 = 0;
                let mut cnt: usize = 0;
                let mut j: usize = i + 1;
                while cnt < 3 && j < data.len() && 48 <= data[j] && data[j] <= 55
                    invariant
                        i + 1 <= j <= data@.len(),
                        cnt <= 3,
                        j == i + 1 + cnt,
                        val < pow8(cnt as int),
                        octal_loop(data@, j as int, cnt as int, val as int) == octal_loop(data@, i + 1, 0, 0),
                    decreases 3 - cnt,
                {
                    assert(pow8(cnt + 1) == 8 * pow8(cnt as int));
                    assert(pow8(cnt as int) <= 64) by {
                        reveal_with_fuel(pow8, 4);
                    }
                    val = val * 8 + (data[j] - 48) as u32;
                    j = j + 1;
                    cnt = cnt + 1;
                }
                out.push((val % 256) as u8);
                i = j;
            } else {
                out.push(n);
                i = i + 2;
            }
        } else {
            out.push(c);
            i = i + 1;
        }
    }
}

/// Whether `c` is a hexadecimal digit.
pub open spec fn is_hex_digit(c: u8) -> bool {
    hex_value(c) is Some
}

/// The digits of a hex string from position `i`: the position after its
/// `>` and the digits collected, skipping white space. `None` on any
/// other byte or when the input ends first.
pub open spec fn hex_loop(s: Seq<u8>, i: int, digits: Seq<u8>) -> Option<(int, Seq<u8>)>
    decreases s.len() - i,
{
    if i < 0 || i >= s.len() {
        None
    } else if s[i] == 62u8 {
        Some((i + 1, digits))
    } else if is_hex_digit(s[i]) {
        hex_loop(s, i + 1, digits.push(s[i]))
    } else if spec_is_whitespace(s[i]) {
        hex_loop(s, i + 1, digits)
    } else {
        None
    }
}

/// The bytes a run of hex digits denotes, two digits per byte, a final
/// odd digit completed with `0`.
pub open spec fn hex_decode(digits: Seq<u8>) -> Seq<u8>
    decreases digits.len(),
{
    if digits.len() == 0 {
        Seq::empty()
    } else if digits.len() == 1 {
        seq![(hex_value(digits[0]).unwrap() * 16) as u8]
    } else {
        seq![(hex_value(digits[0]).unwrap() * 16 + hex_value(digits[1]).unwrap()) as u8]
            + hex_decode(digits.subrange(2, digits.len() as int))
    }
}

/// A hex string whose `<` is at `i`.
pub open spec fn spec_hex_string(s: Seq<u8>, i: int) -> Option<(int, Seq<u8>)> {
    match hex_loop(s, i + 1, Seq::empty()) {
        Some((e, d)) => Some((e, hex_decode(d))),
        None => None,
    }
}

/// The hex-string reader only moves forward, and collects hex digits.
pub proof fn lemma_hex_loop(s: Seq<u8>, i: int, digits: Seq<u8>)
    requires
        0 <= i <= s.len(),
    ensures
        hex_loop(s, i, digits) matches Some((e, d)) ==> i < e <= s.len(),
    decreases s.len() - i,
{
    if i < s.len() && s[i] != 62u8 {
        if is_hex_digit(s[i]) {
            lemma_hex_loop(s, i + 1, digits.push(s[i]));
        } else if spec_is_whitespace(s[i]) {
            lemma_hex_loop(s, i + 1, digits);
        }
    }
}

/// Reads a hexadecimal string (ISO 32000-1 7.3.4.3) whose `<` is at `pos`.
pub fn take_hex_string(data: &[u8], pos: usize) -> (r: Option<(usize, Vec<u8>)>)
    requires
        pos < data@.len(),
    ensures
        r is Some <==> spec_hex_string(data@, pos as int) is Some,
        r matches Some((e, b)) ==> spec_hex_string(data@, pos as int) == Some((e as int, b@)),
        r matches Some((e, b)) ==> pos < e <= data@.len(),
{
    proof {
        lemma_hex_loop(data@, pos + 1, Seq::empty());
    }
    let mut digits: Vec<u8> = Vec::new();
    assert(data@.len() == data.len());
    let mut i: usize = pos + 1;
    loop
        invariant
            pos + 1 <= i <= data@.len(),
            hex_loop(data@, i as int, digits@) == hex_loop(data@, pos + 1, Seq::empty()),
            forall|k: int| 0 <= k < digits@.len() ==> is_hex_digit(#[trigger] digits@[k]),
        decreases data@.len() - i,
    {
        if i >= data.len() {
            return None;
        }
        let c = data[i];
        if c == 62u8 {
            let out = decode_hex_digits(&digits);
            return Some((i + 1, out));
        }
        if hex_value_exec(c).is_some() {
            digits.push(c);
        } else if !is_whitespace(c) {
            return None;
        }
        i = i + 1;
    }
}

/// Decodes collected hex digits.
fn decode_hex_digits(digits: &Vec<u8>) -> (out: Vec<u8>)
    requires
        forall|k: int| 0 <= k < digits@.len() ==> is_hex_digit(#[trigger] digits@[k]),
    ensures
        out@ == hex_decode(digits@),
{
    let mut out: Vec<u8> = Vec::new();
    let mut k: usize = 0;
    assert(digits@.subrange(0, digits@.len() as int) =~= digits@);
    while k < digits.len()
        invariant
            k <= digits@.len(),
            k % 2 == 0 || k == digits@.len(),
            forall|j: int| 0 <= j < digits@.len() ==> is_hex_digit(#[trigger] digits@[j]),
            out@ + hex_decode(digits@.subrange(k as int, digits@.len() as int)) == hex_decode(digits@),
        decreases digits@.len() - k,
    {
        let ghost rest = digits@.subrange(k as int, digits@.len() as int);
        let hi = match hex_value_exec(digits[k]) { Some(v) => v, None => 0 };
        if digits.len() - k >= 2 {
            let lo = match hex_value_exec(digits[k + 1]) { Some(v) => v, None => 0 };
            out.push(hi * 16 + lo);
            proof {
                assert(rest.subrange(2, rest.len() as int) =~= digits@.subrange(k + 2, digits@.len() as int));
            }
            k = k + 2;
        } else {
            out.push(hi * 16);
            proof {
                assert(digits@.subrange(k + 1, digits@.len() as int) =~= Seq::<u8>::empty());
            }
            k = k + 1;
        }
    }
    assert(digits@.subrange(k as int, digits@.len() as int) =~= Seq::<u8>::empty());
    assert(out@ =~= hex_decode(digits@));
    out
}

} // verus!
