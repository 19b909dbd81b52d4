//! Reading back what the content-stream writer writes: the parser's
//! grammar undoes the serialization, token by token and item by item.

use vstd::prelude::*;
use vstd::utf8::{decode_utf8, encode_utf8, valid_utf8};
use crate::lexer::{
    NumV, dot_index, prefix_word, regular_end, skip_ws, spec_keyword, frac_micros, int_token, is_num_char, num_end, num_value, pow10, real_token,
    spec_number,
    hex_decode, hex_loop, hex_pair, is_hex_digit, lit_loop, name_loop, pair_is_utf8, spec_hex_string,
    spec_literal, spec_name,
};
use crate::numfmt::{
    all_digits, dec, digits_value, int_dec, lemma_dec_props, pad_zeros, real_text, strip_trailing_zeros,
};
use crate::serialize::{
    entries_text, hex_body, items_text, lit_body, lit_byte_text, name_byte_text, name_text, obj_text,
    string_text,
};
use crate::content_stream::{
    content_text, ei_search, inline_entries_text, item_text, kw_bi, kw_ei, kw_false, kw_id, kw_null, kw_true,
    num_obj, operands_text, spec_array_loop, spec_dict_loop, spec_inline_loop, spec_items, spec_operand,
    spec_parse_content_stream, spec_statement, ItemV,
};
use crate::object::{entries_set, ObjV, lemma_entries_set_fresh};
use crate::syntax::{hex_digit, hex_value, lemma_hex_digit_value, spec_is_delimiter, spec_is_regular, spec_is_whitespace};

verus! {

broadcast use {vstd::utf8::encode_utf8_decode_utf8, vstd::utf8::encode_utf8_valid_utf8};

/// `t` stands in `s` from position `i`.
pub open spec fn embeds(s: Seq<u8>, i: int, t: Seq<u8>) -> bool {
    &&& 0 <= i
    &&& i + t.len() <= s.len()
    &&& forall|k: int| 0 <= k < t.len() ==> #[trigger] s[i + k] == t[k]
}

/// Position `k` of `s` ends a token: the end of input, white space or a
/// delimiter.
pub open spec fn boundary(s: Seq<u8>, k: int) -> bool {
    k == s.len() || (0 <= k < s.len() && (spec_is_whitespace(s[k]) || spec_is_delimiter(s[k])))
}

/// A text embedded in `s` splits into its parts.
pub proof fn lemma_embeds_split(s: Seq<u8>, i: int, a: Seq<u8>, b: Seq<u8>)
    requires
        embeds(s, i, a + b),
    ensures
        embeds(s, i, a),
        embeds(s, i + a.len(), b),
{
    assert forall|k: int| 0 <= k < a.len() implies #[trigger] s[i + k] == a[k] by {
        assert(s[i + k] == (a + b)[k]);
    }
    assert forall|k: int| 0 <= k < b.len() implies #[trigger] s[i + a.len() + k] == b[k] by {
        assert(s[i + (a.len() + k)] == (a + b)[a.len() + k]);
    }
}

// ---------------------------------------------------------------------
// Names

/// The escaped text of a concatenation is the concatenation of the texts.
pub proof fn lemma_name_text_append(a: Seq<u8>, b: Seq<u8>)
    ensures
        name_text(a + b) == name_text(a) + name_text(b),
    decreases b.len(),
{
    if b.len() == 0 {
        assert(a + b =~= a);
        assert(name_text(a) + Seq::<u8>::empty() =~= name_text(a));
    } else {
        lemma_name_text_append(a, b.drop_last());
        assert((a + b).drop_last() =~= a + b.drop_last());
        assert((a + b).last() == b.last());
        assert(name_text(a) + name_text(b.drop_last()) + name_byte_text(b.last()) =~= name_text(a) + (
        name_text(b.drop_last()) + name_byte_text(b.last())));
    }
}

/// The escaped text splits after its first byte.
pub proof fn lemma_name_text_front(b: Seq<u8>)
    requires
        b.len() > 0,
    ensures
        name_text(b) == name_byte_text(b[0]) + name_text(b.drop_first()),
{
    lemma_name_text_append(seq![b[0]], b.drop_first());
    assert(seq![b[0]] + b.drop_first() =~= b);
    assert(seq![b[0]].drop_last() =~= Seq::<u8>::empty());
    assert(name_text(Seq::<u8>::empty()) == Seq::<u8>::empty());
    assert(seq![b[0]].last() == b[0]);
    assert(name_text(seq![b[0]]) == name_text(Seq::<u8>::empty()) + name_byte_text(b[0]));
    assert(name_text(seq![b[0]]) =~= name_byte_text(b[0]));
}

/// Every byte of an escaped name text is a regular character.
pub proof fn lemma_name_text_regular(b: Seq<u8>)
    ensures
        forall|k: int| 0 <= k < name_text(b).len() ==> spec_is_regular(#[trigger] name_text(b)[k]),
    decreases b.len(),
{
    if b.len() > 0 {
        lemma_name_text_regular(b.drop_last());
        let x = b.last();
        lemma_hex_digit_value((x / 16) as int);
        lemma_hex_digit_value((x % 16) as int);
        let t = name_byte_text(x);
        assert forall|k: int| 0 <= k < t.len() implies spec_is_regular(#[trigger] t[k]) by {
        }
        assert forall|k: int| 0 <= k < name_text(b).len() implies spec_is_regular(#[trigger] name_text(b)[k]) by {
            if k < name_text(b.drop_last()).len() {
                assert(name_text(b)[k] == name_text(b.drop_last())[k]);
            } else {
                assert(name_text(b)[k] == t[k - name_text(b.drop_last()).len()]);
            }
        }
    }
}

/// The name reader reads an escaped name text back to its bytes.
pub proof fn lemma_name_loop_reads(s: Seq<u8>, i: int, b: Seq<u8>, out: Seq<u8>)
    requires
        embeds(s, i, name_text(b)),
        i + name_text(b).len() == s.len() || !spec_is_regular(s[i + name_text(b).len()]),
    ensures
        name_loop(s, i, out) == Some((i + name_text(b).len(), out + b)),
    decreases b.len(),
{
    if b.len() == 0 {
        assert(out + b =~= out);
    } else {
        let x = b[0];
        let rest = b.drop_first();
        lemma_name_text_front(b);
        let t = name_byte_text(x);
        lemma_embeds_split(s, i, t, name_text(rest));
        lemma_hex_digit_value((x / 16) as int);
        lemma_hex_digit_value((x % 16) as int);
        assert(out.push(x) + rest =~= out + b);
        if 0x21 <= x <= 0x7e && !spec_is_delimiter(x) && x != 35u8 {
            assert(s[i + 0] == t[0]);
            assert(s[i] == x);
            lemma_name_loop_reads(s, i + 1, rest, out.push(x));
        } else {
            assert(s[i + 0] == t[0]);
            assert(s[i + 1] == t[1]);
            assert(s[i + 2] == t[2]);
            assert(s[i] == 35u8);
            assert(s[i + 1] == hex_digit((x / 16) as int));
            assert(s[i + 2] == hex_digit((x % 16) as int));
            assert(pair_is_utf8(s[i + 1], s[i + 2]));
            assert(hex_pair(s[i + 1], s[i + 2]) == Some(x));
            lemma_name_loop_reads(s, i + 3, rest, out.push(x));
        }
    }
}

/// A name written as `/` and its escaped text reads back as the name.
pub proof fn lemma_name_reads(s: Seq<u8>, i: int, n: Seq<char>)
    requires
        embeds(s, i, seq![47u8] + name_text(encode_utf8(n))),
        boundary(s, i + 1 + name_text(encode_utf8(n)).len()),
    ensures
        spec_name(s, i + 1) == Some((i + 1 + name_text(encode_utf8(n)).len(), n)),
{
    let b = encode_utf8(n);
    lemma_embeds_split(s, i, seq![47u8], name_text(b));
    lemma_name_loop_reads(s, i + 1, b, Seq::empty());
    assert(Seq::<u8>::empty() + b =~= b);
}

// ---------------------------------------------------------------------
// Strings

/// The escaped body of a concatenation is the concatenation of the bodies.
pub proof fn lemma_lit_body_append(a: Seq<u8>, b: Seq<u8>)
    ensures
        lit_body(a + b) == lit_body(a) + lit_body(b),
    decreases b.len(),
{
    if b.len() == 0 {
        assert(a + b =~= a);
        assert(lit_body(a) + Seq::<u8>::empty() =~= lit_body(a));
    } else {
        lemma_lit_body_append(a, b.drop_last());
        assert((a + b).drop_last() =~= a + b.drop_last());
        assert((a + b).last() == b.last());
        assert(lit_body(a) + lit_body(b.drop_last()) + lit_byte_text(b.last()) =~= lit_body(a) + (
        lit_body(b.drop_last()) + lit_byte_text(b.last())));
    }
}

/// The escaped body splits after its first byte.
pub proof fn lemma_lit_body_front(b: Seq<u8>)
    requires
        b.len() > 0,
    ensures
        lit_body(b) == lit_byte_text(b[0]) + lit_body(b.drop_first()),
{
    lemma_lit_body_append(seq![b[0]], b.drop_first());
    assert(seq![b[0]] + b.drop_first() =~= b);
    assert(seq![b[0]].drop_last() =~= Seq::<u8>::empty());
    assert(lit_body(Seq::<u8>::empty()) == Seq::<u8>::empty());
    assert(seq![b[0]].last() == b[0]);
    assert(lit_body(seq![b[0]]) == lit_body(Seq::<u8>::empty()) + lit_byte_text(b[0]));
    assert(lit_body(seq![b[0]]) =~= lit_byte_text(b[0]));
}

/// The literal-string reader reads an escaped body and its `)` back to
/// the bytes.
pub proof fn lemma_lit_loop_reads(s: Seq<u8>, i: int, b: Seq<u8>, out: Seq<u8>)
    requires
        embeds(s, i, lit_body(b) + seq![41u8]),
    ensures
        lit_loop(s, i, 0, out) == Some((i + lit_body(b).len() + 1, out + b)),
    decreases b.len(),
{
    lemma_embeds_split(s, i, lit_body(b), seq![41u8]);
    if b.len() == 0 {
        assert(out + b =~= out);
        assert(s[i + lit_body(b).len() + 0] == seq![41u8][0]);
    } else {
        let x = b[0];
        let rest = b.drop_first();
        lemma_lit_body_front(b);
        let t = lit_byte_text(x);
        assert(lit_body(b) + seq![41u8] =~= t + (lit_body(rest) + seq![41u8]));
        lemma_embeds_split(s, i, t, lit_body(rest) + seq![41u8]);
        assert(out.push(x) + rest =~= out + b);
        assert(s[i + 0] == t[0]);
        if x == 92u8 || x == 40u8 || x == 41u8 || x == 13u8 {
            assert(s[i + 1] == t[1]);
            lemma_lit_loop_reads(s, i + 2, rest, out.push(x));
        } else {
            lemma_lit_loop_reads(s, i + 1, rest, out.push(x));
        }
    }
}

/// A literal string written as `(`, its escaped body and `)` reads back
/// as its bytes.
pub proof fn lemma_literal_reads(s: Seq<u8>, i: int, b: Seq<u8>)
    requires
        embeds(s, i, seq![40u8] + lit_body(b) + seq![41u8]),
    ensures
        spec_literal(s, i) == Some((i + lit_body(b).len() + 2, b)),
{
    assert(seq![40u8] + lit_body(b) + seq![41u8] =~= seq![40u8] + (lit_body(b) + seq![41u8]));
    lemma_embeds_split(s, i, seq![40u8], lit_body(b) + seq![41u8]);
    lemma_lit_loop_reads(s, i + 1, b, Seq::empty());
    assert(Seq::<u8>::empty() + b =~= b);
}

/// The two hexadecimal digits of a byte.
pub open spec fn hex_pair_text(x: u8) -> Seq<u8> {
    seq![hex_digit((x / 16) as int), hex_digit((x % 16) as int)]
}

/// The hexadecimal body splits after its first byte.
pub proof fn lemma_hex_body_front(b: Seq<u8>)
    requires
        b.len() > 0,
    ensures
        hex_body(b) == hex_pair_text(b[0]) + hex_body(b.drop_first()),
    decreases b.len(),
{
    if b.len() == 1 {
        assert(b.drop_last() =~= Seq::<u8>::empty());
        assert(b.drop_first() =~= Seq::<u8>::empty());
        assert(hex_body(Seq::<u8>::empty()) == Seq::<u8>::empty());
        assert(hex_body(b) =~= hex_pair_text(b[0]) + hex_body(b.drop_first()));
    } else {
        lemma_hex_body_front(b.drop_last());
        assert(b.drop_last().drop_first() =~= b.drop_first().drop_last());
        assert(b.drop_first().last() == b.last());
        assert(b.drop_last()[0] == b[0]);
        assert(hex_body(b) =~= hex_pair_text(b[0]) + hex_body(b.drop_first()));
    }
}

/// The hexadecimal body decodes to its bytes.
pub proof fn lemma_hex_decode_body(b: Seq<u8>)
    ensures
        hex_decode(hex_body(b)) == b,
    decreases b.len(),
{
    if b.len() > 0 {
        lemma_hex_body_front(b);
        lemma_hex_decode_body(b.drop_first());
        let x = b[0];
        lemma_hex_digit_value((x / 16) as int);
        lemma_hex_digit_value((x % 16) as int);
        let h = hex_body(b);
        assert(h.subrange(2, h.len() as int) =~= hex_body(b.drop_first()));
        assert((x / 16) * 16 + x % 16 == x);
        assert(hex_decode(h) =~= seq![x] + b.drop_first());
        assert(seq![x] + b.drop_first() =~= b);
    } else {
        assert(hex_body(b) == Seq::<u8>::empty());
    }
}

/// The hex-string reader collects the digits of a hexadecimal body up to
/// its `>`.
pub proof fn lemma_hex_loop_reads(s: Seq<u8>, i: int, b: Seq<u8>, digits: Seq<u8>)
    requires
        embeds(s, i, hex_body(b) + seq![62u8]),
    ensures
        hex_loop(s, i, digits) == Some((i + hex_body(b).len() + 1, digits + hex_body(b))),
    decreases b.len(),
{
    lemma_embeds_split(s, i, hex_body(b), seq![62u8]);
    if b.len() == 0 {
        assert(hex_body(b) == Seq::<u8>::empty());
        assert(digits + hex_body(b) =~= digits);
        assert(s[i + 0] == seq![62u8][0]);
    } else {
        let x = b[0];
        let rest = b.drop_first();
        lemma_hex_body_front(b);
        lemma_hex_digit_value((x / 16) as int);
        lemma_hex_digit_value((x % 16) as int);
        let t = hex_pair_text(x);
        assert(hex_body(b) + seq![62u8] =~= t + (hex_body(rest) + seq![62u8]));
        lemma_embeds_split(s, i, t, hex_body(rest) + seq![62u8]);
        assert(s[i + 0] == t[0]);
        assert(s[i + 1] == t[1]);
        lemma_hex_loop_reads(s, i + 2, rest, digits.push(t[0]).push(t[1]));
        assert(is_hex_digit(t[0]) && is_hex_digit(t[1]));
        assert(t[0] != 62u8 && t[1] != 62u8);
        assert(hex_loop(s, i + 1, digits.push(t[0])) == hex_loop(s, i + 2, digits.push(t[0]).push(t[1])));
        assert(hex_loop(s, i, digits) == hex_loop(s, i + 1, digits.push(t[0])));
        assert(digits.push(t[0]).push(t[1]) + hex_body(rest) =~= digits + hex_body(b));
    }
}

/// A hex string written as `<`, its digits and `>` reads back as its
/// bytes.
pub proof fn lemma_hex_string_reads(s: Seq<u8>, i: int, b: Seq<u8>)
    requires
        embeds(s, i, seq![60u8] + hex_body(b) + seq![62u8]),
    ensures
        spec_hex_string(s, i) == Some((i + hex_body(b).len() + 2, b)),
{
    assert(seq![60u8] + hex_body(b) + seq![62u8] =~= seq![60u8] + (hex_body(b) + seq![62u8]));
    lemma_embeds_split(s, i, seq![60u8], hex_body(b) + seq![62u8]);
    lemma_hex_loop_reads(s, i + 1, b, Seq::empty());
    assert(Seq::<u8>::empty() + hex_body(b) =~= hex_body(b));
    lemma_hex_decode_body(b);
}

// ---------------------------------------------------------------------
// Numbers

/// The numeric-token scan stops right after an embedded run of numeric
/// characters.
pub proof fn lemma_num_end_reads(s: Seq<u8>, i: int, t: Seq<u8>)
    requires
        embeds(s, i, t),
        forall|k: int| 0 <= k < t.len() ==> is_num_char(#[trigger] t[k]),
        i + t.len() == s.len() || !is_num_char(s[i + t.len()]),
    ensures
        num_end(s, i) == i + t.len(),
    decreases t.len(),
{
    if t.len() > 0 {
        assert(s[i + 0] == t[0]);
        let r = t.drop_first();
        assert forall|k: int| 0 <= k < r.len() implies #[trigger] s[i + 1 + k] == r[k] by {
            assert(s[i + (k + 1)] == t[k + 1]);
        }
        assert forall|k: int| 0 <= k < r.len() implies is_num_char(#[trigger] r[k]) by {
            assert(is_num_char(t[k + 1]));
        }
        lemma_num_end_reads(s, i + 1, r);
    }
}

/// A run of digits holds no `.`.
pub proof fn lemma_dot_index_digits(t: Seq<u8>)
    requires
        all_digits(t),
    ensures
        dot_index(t) == t.len(),
    decreases t.len(),
{
    if t.len() > 0 {
        assert(48 <= t[0] <= 57);
        lemma_dot_index_digits(t.drop_first());
    }
}

/// The first `.` after a run of digits is the one that follows it.
pub proof fn lemma_dot_index_at(a: Seq<u8>, b: Seq<u8>)
    requires
        all_digits(a),
    ensures
        dot_index(a + seq![46u8] + b) == a.len(),
    decreases a.len(),
{
    if a.len() == 0 {
        assert((a + seq![46u8] + b)[0] == 46u8);
    } else {
        assert(48 <= a[0] <= 57);
        lemma_dot_index_at(a.drop_first(), b);
        assert((a + seq![46u8] + b).drop_first() =~= a.drop_first() + seq![46u8] + b);
    }
}

/// Leading zeros do not change the value of a digit run.
pub proof fn lemma_digits_value_leading_zeros(k: nat, t: Seq<u8>)
    ensures
        digits_value(Seq::new(k, |j: int| 48u8) + t) == digits_value(t),
    decreases t.len(), k,
{
    if t.len() == 0 {
        if k > 0 {
            let z = Seq::new(k, |j: int| 48u8);
            assert(z + t =~= z);
            assert(z.drop_last() =~= Seq::new((k - 1) as nat, |j: int| 48u8));
            lemma_digits_value_leading_zeros((k - 1) as nat, t);
            assert(Seq::new((k - 1) as nat, |j: int| 48u8) + t =~= Seq::new((k - 1) as nat, |j: int| 48u8));
        } else {
            assert(Seq::new(k, |j: int| 48u8) + t =~= Seq::<u8>::empty());
        }
    } else {
        let z = Seq::new(k, |j: int| 48u8);
        lemma_digits_value_leading_zeros(k, t.drop_last());
        assert((z + t).drop_last() =~= z + t.drop_last());
        assert((z + t).last() == t.last());
    }
}

/// Stripping trailing zeros divides the value by a power of ten.
pub proof fn lemma_strip_value(p: Seq<u8>)
    requires
        all_digits(p),
    ensures
        all_digits(strip_trailing_zeros(p)),
        strip_trailing_zeros(p).len() <= p.len(),
        strip_trailing_zeros(p) == p.subrange(0, strip_trailing_zeros(p).len() as int),
        digits_value(strip_trailing_zeros(p)) * pow10((p.len() - strip_trailing_zeros(p).len()) as nat)
            == digits_value(p),
    decreases p.len(),
{
    if p.len() > 0 && p.last() == 48u8 {
        let q = p.drop_last();
        assert(all_digits(q)) by {
            assert forall|i: int| 0 <= i < q.len() implies 48 <= #[trigger] q[i] <= 57 by {
                assert(q[i] == p[i]);
            }
        }
        lemma_strip_value(q);
        let r = strip_trailing_zeros(q);
        assert(strip_trailing_zeros(p) == r);
        assert(digits_value(p) == digits_value(q) * 10);
        assert(pow10((p.len() - r.len()) as nat) == 10 * pow10((q.len() - r.len()) as nat));
        let va = digits_value(r);
        let vb = pow10((q.len() - r.len()) as nat);
        assert(va * (10 * vb) == (va * vb) * 10) by (nonlinear_arith);
        assert(va * vb == digits_value(q));
        assert(va * pow10((p.len() - r.len()) as nat) == digits_value(p));
        assert(digits_value(strip_trailing_zeros(p)) * pow10((p.len() - strip_trailing_zeros(p).len()) as nat) == digits_value(p));
        assert(r =~= p.subrange(0, r.len() as int)) by {
            assert(r =~= q.subrange(0, r.len() as int));
        }
    } else {
        assert(p.subrange(0, p.len() as int) =~= p);
        assert(strip_trailing_zeros(p) == p);
        assert(pow10(0) == 1);
        assert(digits_value(p) * pow10(0) == digits_value(p));
        assert(digits_value(strip_trailing_zeros(p)) * pow10((p.len() - strip_trailing_zeros(p).len()) as nat) == digits_value(p));
    }
}

/// An integer's decimal text reads back as the integer.
pub proof fn lemma_int_reads(s: Seq<u8>, i: int, n: i64)
    requires
        embeds(s, i, int_dec(n as int)),
        boundary(s, i + int_dec(n as int).len()),
    ensures
        spec_number(s, i) == Some((i + int_dec(n as int).len(), NumV::Int(n))),
{
    let t = int_dec(n as int);
    let a: nat = if n < 0 { (-n) as nat } else { n as nat };
    lemma_dec_props(a);
    let d = dec(a);
    assert forall|k: int| 0 <= k < t.len() implies is_num_char(#[trigger] t[k]) by {
        if n < 0 {
            if k > 0 {
                assert(t[k] == d[k - 1]);
                assert(48 <= d[k - 1] <= 57);
            }
        } else {
            assert(48 <= d[k] <= 57);
        }
    }
    lemma_num_end_reads(s, i, t);
    assert forall|k: int| 0 <= k < t.len() implies #[trigger] s.subrange(i, i + t.len())[k] == t[k] by {
        assert(s[i + k] == t[k]);
    }
    assert(s.subrange(i, i + t.len()) =~= t);
    let body = if n < 0 { t.drop_first() } else { t };
    if n < 0 {
        assert(body =~= d);
    } else {
        assert(t[0] != 43u8 && t[0] != 45u8) by {
            assert(48 <= d[0] <= 57);
        }
    }
    lemma_dot_index_digits(d);
    assert(num_value(t) == int_token(d, n < 0));
}

/// The value of the six padded fraction digits is the fraction.
pub proof fn lemma_frac_reads(fp: nat)
    requires
        0 < fp < 1_000_000,
    ensures
        all_digits(strip_trailing_zeros(pad_zeros(dec(fp), 6))),
        frac_micros(strip_trailing_zeros(pad_zeros(dec(fp), 6))) == fp,
{
    lemma_dec_props(fp);
    let d = dec(fp);
    assert(d.len() <= 6) by {
        lemma_dec_len_bound(fp);
    }
    let p = pad_zeros(d, 6);
    let k: nat = (6 - d.len()) as nat;
    assert(p =~= Seq::new(k, |j: int| 48u8) + d);
    lemma_digits_value_leading_zeros(k, d);
    assert(all_digits(p)) by {
        assert forall|i: int| 0 <= i < p.len() implies 48 <= #[trigger] p[i] <= 57 by {
            if i >= k {
                assert(p[i] == d[i - k]);
            }
        }
    }
    lemma_strip_value(p);
    let f = strip_trailing_zeros(p);
    if f.len() >= 6 {
        assert(f =~= p);
        assert(f.subrange(0, 6) =~= f);
    }
}

/// Numbers below a million have at most six digits.
pub proof fn lemma_dec_len_bound(n: nat)
    requires
        n < 1_000_000,
    ensures
        dec(n).len() <= 6,
{
    assert(pow10(6) == 1_000_000) by {
        reveal_with_fuel(pow10, 7);
    }
    lemma_dec_len_bound_small(n, 6);
}

/// Numbers below `10^k` have at most `k` digits.
pub proof fn lemma_dec_len_bound_small(n: nat, k: nat)
    requires
        n < pow10(k),
        k >= 1,
    ensures
        dec(n).len() <= k,
    decreases n,
{
    lemma_dec_props(n);
    if n >= 10 {
        assert(k >= 2) by {
            if k == 1 {
                assert(pow10(1) == 10 * pow10(0));
            }
        }
        assert(pow10(k) == 10 * pow10((k - 1) as nat));
        assert(n / 10 < pow10((k - 1) as nat));
        lemma_dec_len_bound_small(n / 10, (k - 1) as nat);
    }
}

/// A real's decimal text reads back as the real, when it has a fraction.
pub proof fn lemma_real_reads(s: Seq<u8>, i: int, m: i64)
    requires
        (m as int) % 1_000_000 != 0,
        embeds(s, i, real_text(m as int)),
        boundary(s, i + real_text(m as int).len()),
    ensures
        spec_number(s, i) == Some((i + real_text(m as int).len(), NumV::Real(m))),
{
    let t = real_text(m as int);
    let a: nat = if m < 0 { (-m) as nat } else { m as nat };
    let ip = a / 1_000_000;
    let fp = a % 1_000_000;
    assert(fp != 0) by {
        if m < 0 {
            assert((m as int) % 1_000_000 == 0 <== (-(m as int)) % 1_000_000 == 0) by (nonlinear_arith);
        }
    }
    lemma_dec_props(ip);
    lemma_frac_reads(fp);
    let d = dec(ip);
    let f = strip_trailing_zeros(pad_zeros(dec(fp), 6));
    let body = d + seq![46u8] + f;
    assert(t =~= (if m < 0 { seq![45u8] } else { Seq::<u8>::empty() }) + body);
    assert forall|k: int| 0 <= k < body.len() implies is_num_char(#[trigger] body[k]) by {
        if k < d.len() {
            assert(48 <= d[k] <= 57);
        } else if k > d.len() {
            assert(body[k] == f[k - d.len() - 1]);
            assert(48 <= f[k - d.len() - 1] <= 57);
        }
    }
    assert forall|k: int| 0 <= k < t.len() implies is_num_char(#[trigger] t[k]) by {
        if m < 0 {
            if k > 0 {
                assert(t[k] == body[k - 1]);
            }
        } else {
            assert(t[k] == body[k]);
        }
    }
    lemma_num_end_reads(s, i, t);
    assert forall|k: int| 0 <= k < t.len() implies #[trigger] s.subrange(i, i + t.len())[k] == t[k] by {
        assert(s[i + k] == t[k]);
    }
    assert(s.subrange(i, i + t.len()) =~= t);
    if m < 0 {
        assert(t.drop_first() =~= body);
    } else {
        assert(t =~= body);
        assert(48 <= d[0] <= 57);
    }
    lemma_dot_index_at(d, f);
    assert(body.subrange(0, d.len() as int) =~= d);
    assert(body.subrange(d.len() + 1int, body.len() as int) =~= f);
    assert(ip * 1_000_000 + fp == a);
    assert(num_value(t) == real_token(d, f, m < 0));
}

// ---------------------------------------------------------------------
// Operands

/// Whether an operand value is read back unchanged from its text: no
/// references or streams (which are not operands), no real without a
/// fraction (its text reads as an integer), and dictionaries without a
/// repeated key, at any depth.
pub open spec fn operand_ok(v: ObjV) -> bool
    decreases v,
{
    match v {
        ObjV::Real(m) => (m as int) % 1_000_000 != 0,
        ObjV::Array(items) => items_ok(items),
        ObjV::Dict(entries) => entries_ok(entries) && keys_distinct(entries),
        ObjV::Stream(_, _) => false,
        ObjV::Reference(_, _) => false,
        _ => true,
    }
}

/// Every item is a good operand.
pub open spec fn items_ok(items: Seq<ObjV>) -> bool
    decreases items,
{
    if items.len() == 0 {
        true
    } else {
        items_ok(items.drop_last()) && operand_ok(items.last())
    }
}

/// Every value is a good operand.
pub open spec fn entries_ok(entries: Seq<(Seq<char>, ObjV)>) -> bool
    decreases entries,
{
    if entries.len() == 0 {
        true
    } else {
        entries_ok(entries.drop_last()) && operand_ok(entries.last().1)
    }
}

/// No key occurs twice.
pub open spec fn keys_distinct(entries: Seq<(Seq<char>, ObjV)>) -> bool {
    forall|i: int, j: int| 0 <= i < j < entries.len() ==> entries[i].0 != entries[j].0
}

/// White space is passed over.
pub proof fn lemma_skip_ws_over(s: Seq<u8>, i: int)
    requires
        0 <= i < s.len(),
        spec_is_whitespace(s[i]),
    ensures
        skip_ws(s, i) == skip_ws(s, i + 1),
{
}

/// The scan stops at a byte that is neither white space nor `%`.
pub proof fn lemma_skip_ws_stop(s: Seq<u8>, i: int)
    requires
        0 <= i <= s.len(),
        i == s.len() || (!spec_is_whitespace(s[i]) && s[i] != 37u8),
    ensures
        skip_ws(s, i) == i,
{
}

/// `items_ok` of each item.
pub proof fn lemma_items_ok(items: Seq<ObjV>)
    ensures
        items_ok(items) <==> forall|k: int| 0 <= k < items.len() ==> #[trigger] operand_ok(items[k]),
    decreases items.len(),
{
    if items.len() > 0 {
        let d = items.drop_last();
        lemma_items_ok(d);
        let n = items.len() - 1;
        assert(items.last() == items[n]);
        assert(forall|k: int| 0 <= k < n ==> #[trigger] d[k] == items[k]);
        if items_ok(items) {
            assert forall|k: int| 0 <= k < items.len() implies #[trigger] operand_ok(items[k]) by {
                if k < n {
                    assert(operand_ok(d[k]));
                }
            }
        }
        if forall|k: int| 0 <= k < items.len() ==> #[trigger] operand_ok(items[k]) {
            assert(operand_ok(items[n]));
            assert forall|k: int| 0 <= k < d.len() implies #[trigger] operand_ok(d[k]) by {
                assert(operand_ok(items[k]));
            }
        }
    }
}

/// `entries_ok` of each entry.
pub proof fn lemma_entries_ok(entries: Seq<(Seq<char>, ObjV)>)
    ensures
        entries_ok(entries) <==> forall|k: int| 0 <= k < entries.len() ==> #[trigger] operand_ok(entries[k].1),
    decreases entries.len(),
{
    if entries.len() > 0 {
        let d = entries.drop_last();
        lemma_entries_ok(d);
        let n = entries.len() - 1;
        assert(entries.last() == entries[n]);
        assert(forall|k: int| 0 <= k < n ==> #[trigger] d[k] == entries[k]);
        if entries_ok(entries) {
            assert forall|k: int| 0 <= k < entries.len() implies #[trigger] operand_ok(entries[k].1) by {
                if k < n {
                    assert(operand_ok(d[k].1));
                }
            }
        }
        if forall|k: int| 0 <= k < entries.len() ==> #[trigger] operand_ok(entries[k].1) {
            assert(operand_ok(entries[n].1));
            assert forall|k: int| 0 <= k < d.len() implies #[trigger] operand_ok(d[k].1) by {
                assert(operand_ok(entries[k].1));
            }
        }
    }
}

/// The texts of items joined by single spaces split after the first.
pub proof fn lemma_items_text_front(items: Seq<ObjV>)
    requires
        items.len() > 0,
    ensures
        items.len() == 1 ==> items_text(items) == obj_text(items[0]),
        items.len() > 1 ==> items_text(items) == obj_text(items[0]) + seq![32u8] + items_text(items.drop_first()),
    decreases items.len(),
{
    if items.len() == 2 {
        assert(items.drop_last().len() == 1);
        assert(items.drop_first().len() == 1);
        assert(items.drop_last()[0] == items[0]);
        assert(items.drop_first()[0] == items[1]);
        assert(items.last() == items[1]);
        assert(items_text(items.drop_first()) == obj_text(items.drop_first()[0]));
        assert(items_text(items.drop_last()) == obj_text(items.drop_last()[0]));
    } else if items.len() > 2 {
        lemma_items_text_front(items.drop_last());
        assert(items.drop_last()[0] == items[0]);
        assert(items.drop_last().drop_first() =~= items.drop_first().drop_last());
        assert(items.drop_first().last() == items.last());
        assert(items.drop_first().len() > 1);
        assert(items_text(items.drop_first()) == items_text(items.drop_first().drop_last()) + seq![32u8]
            + obj_text(items.drop_first().last()));
        assert(obj_text(items[0]) + seq![32u8] + items_text(items.drop_last().drop_first()) + seq![32u8]
            + obj_text(items.last()) =~= obj_text(items[0]) + seq![32u8] + (items_text(
            items.drop_first().drop_last(),
        ) + seq![32u8] + obj_text(items.drop_first().last())));
    }
}

/// The dictionary entries' texts split after the first entry.
pub proof fn lemma_entries_text_front(entries: Seq<(Seq<char>, ObjV)>)
    requires
        entries.len() > 0,
    ensures
        entries_text(entries) == seq![32u8, 47u8] + name_text(encode_utf8(entries[0].0)) + seq![32u8]
            + obj_text(entries[0].1) + entries_text(entries.drop_first()),
    decreases entries.len(),
{
    if entries.len() == 1 {
        assert(entries.drop_last() =~= Seq::<(Seq<char>, ObjV)>::empty());
        assert(entries.drop_first() =~= Seq::<(Seq<char>, ObjV)>::empty());
        assert(entries_text(Seq::<(Seq<char>, ObjV)>::empty()) == Seq::<u8>::empty());
        assert(entries_text(entries) =~= seq![32u8, 47u8] + name_text(encode_utf8(entries[0].0))
            + seq![32u8] + obj_text(entries[0].1) + entries_text(entries.drop_first()));
    } else {
        lemma_entries_text_front(entries.drop_last());
        assert(entries.drop_last().drop_first() =~= entries.drop_first().drop_last());
        assert(entries.drop_first().last() == entries.last());
        assert(entries.drop_last()[0] == entries[0]);
        let e0 = entries[0];
        let head = seq![32u8, 47u8] + name_text(encode_utf8(e0.0)) + seq![32u8] + obj_text(e0.1);
        let last = entries.last();
        let tail = seq![32u8, 47u8] + name_text(encode_utf8(last.0)) + seq![32u8] + obj_text(last.1);
        assert(entries_text(entries) == entries_text(entries.drop_last()) + tail);
        assert(entries_text(entries.drop_first()) == entries_text(entries.drop_first().drop_last()) + tail);
        assert(entries_text(entries) =~= head + entries_text(entries.drop_first()));
    }
}

/// The first byte of an operand's text is neither white space nor `%`.
pub proof fn lemma_obj_text_start(v: ObjV)
    requires
        operand_ok(v),
    ensures
        obj_text(v).len() > 0,
        !spec_is_whitespace(obj_text(v)[0]),
        obj_text(v)[0] != 37u8,
        obj_text(v)[0] != 62u8,
        obj_text(v)[0] != 66u8,
        obj_text(v)[0] != 93u8,
{
    match v {
        ObjV::Integer(n) => {
            let a: nat = if n < 0 { (-n) as nat } else { n as nat };
            lemma_dec_props(a);
        },
        ObjV::Real(m) => {
            let a: nat = if m < 0 { (-m) as nat } else { m as nat };
            lemma_dec_props(a / 1_000_000);
        },
        ObjV::Name(n) => {},
        ObjV::Str(h, b) => {},
        ObjV::Array(items) => {},
        ObjV::Dict(e) => {},
        _ => {},
    }
}

/// An operand's text reads back as the operand.
pub proof fn lemma_operand_reads(s: Seq<u8>, i: int, v: ObjV)
    requires
        operand_ok(v),
        embeds(s, i, obj_text(v)),
        boundary(s, i + obj_text(v).len()),
    ensures
        spec_operand(s, i) == Some((i + obj_text(v).len(), v)),
    decreases v, 0int,
{
    let t = obj_text(v);
    lemma_obj_text_start(v);
    assert(s[i + 0] == t[0]);
    assert forall|k: int| 0 <= k < t.len() implies #[trigger] s.subrange(i, i + t.len())[k] == t[k] by {
        assert(s[i + k] == t[k]);
    }
    assert(s.subrange(i, i + t.len()) =~= t);
    match v {
        ObjV::Null => {
            assert(t =~= kw_null());
            assert(s.subrange(i, i + 4) =~= kw_null());
            assert(!prefix_word(s, i, kw_true()) && !prefix_word(s, i, kw_false())) by {
                assert(s.subrange(i, i + 4)[0] != kw_true()[0]);
                if i + 5 <= s.len() {
                    assert(s.subrange(i, i + 5)[0] != kw_false()[0]);
                }
            }
        },
        ObjV::Boolean(b) => {
            if b {
                assert(s.subrange(i, i + 4) =~= kw_true());
            } else {
                assert(s.subrange(i, i + 5) =~= kw_false());
                assert(!prefix_word(s, i, kw_true())) by {
                    assert(s.subrange(i, i + 4)[0] != kw_true()[0]);
                }
            }
        },
        ObjV::Integer(n) => {
            lemma_int_reads(s, i, n);
            let a: nat = if n < 0 { (-n) as nat } else { n as nat };
            lemma_dec_props(a);
        },
        ObjV::Real(m) => {
            lemma_real_reads(s, i, m);
            let a: nat = if m < 0 { (-m) as nat } else { m as nat };
            lemma_dec_props(a / 1_000_000);
        },
        ObjV::Name(n) => {
            lemma_name_reads(s, i, n);
        },
        ObjV::Str(h, b) => {
            if h {
                lemma_hex_string_reads(s, i, b);
                if b.len() > 0 {
                    lemma_hex_body_front(b);
                    lemma_hex_digit_value((b[0] / 16) as int);
                    assert(s[i + 1] == t[1]);
                } else {
                    assert(s[i + 1] == t[1]);
                }
            } else {
                lemma_literal_reads(s, i, b);
            }
        },
        ObjV::Array(items) => {
            assert(t =~= seq![91u8] + (items_text(items) + seq![93u8]));
            lemma_embeds_split(s, i, seq![91u8], items_text(items) + seq![93u8]);
            lemma_items_ok(items);
            assert(items.subrange(0, 0) =~= Seq::<ObjV>::empty());
            assert(items.skip(0) =~= items);
            lemma_array_reads(s, i + 1, items, 0, Seq::empty());
        },
        ObjV::Dict(entries) => {
            assert(t =~= seq![60u8, 60u8] + (entries_text(entries) + seq![32u8, 62u8, 62u8]));
            lemma_embeds_split(s, i, seq![60u8, 60u8], entries_text(entries) + seq![32u8, 62u8, 62u8]);
            assert(s[i + 1] == t[1]);
            lemma_entries_ok(entries);
            assert(entries.skip(0) =~= entries);
            assert(entries.subrange(0, 0) =~= Seq::<(Seq<char>, ObjV)>::empty());
            lemma_dict_reads(s, i + 2, entries, 0);
        },
        _ => {},
    }
}

/// The array loop reads the texts of the items from the `k`-th on, given
/// the first `k` already read.
pub proof fn lemma_array_reads(s: Seq<u8>, i: int, items: Seq<ObjV>, k: int, acc: Seq<ObjV>)
    requires
        0 <= k <= items.len(),
        acc == items.subrange(0, k),
        forall|j: int| 0 <= j < items.len() ==> #[trigger] operand_ok(items[j]),
        k == 0 ==> embeds(s, i, items_text(items.skip(k)) + seq![93u8]),
        k > 0 && k < items.len() ==> embeds(s, i, seq![32u8] + items_text(items.skip(k)) + seq![93u8]),
        k == items.len() && k > 0 ==> embeds(s, i, seq![93u8]),
    ensures
        spec_array_loop(s, i, acc) == Some(
            (
                i + (if k == 0 { 0int } else if k < items.len() { 1int } else { 0int }) + items_text(
                    items.skip(k),
                ).len() + 1,
                ObjV::Array(items),
            ),
        ),
    decreases items, items.len() - k,
{
    let r = items.skip(k);
    if k == items.len() {
        assert(r =~= Seq::<ObjV>::empty());
        assert(items_text(r) == Seq::<u8>::empty());
        if k == 0 {
            assert(items_text(r) + seq![93u8] =~= seq![93u8]);
        }
        assert(s[i + 0] == seq![93u8][0]);
        lemma_skip_ws_stop(s, i);
        assert(acc =~= items);
    } else {
        let lead: int = if k == 0 { 0 } else { 1 };
        let x = r[0];
        assert(r.len() > 0);
        lemma_items_text_front(r);
        assert(r.drop_first() =~= items.skip(k + 1));
        assert(x == items[k]);
        assert(operand_ok(x));
        lemma_obj_text_start(x);
        let tx = obj_text(x);
        let after = if r.len() > 1 { seq![32u8] + items_text(r.drop_first()) + seq![93u8] } else { seq![93u8] };
        let whole = items_text(r) + seq![93u8];
        assert(whole =~= tx + after) by {
            if r.len() > 1 {
                assert(items_text(r) + seq![93u8] =~= tx + (seq![32u8] + items_text(r.drop_first()) + seq![93u8]));
            } else {
                assert(items_text(r) == tx);
            }
        }
        let j = i + lead;
        if k > 0 {
            assert(seq![32u8] + items_text(r) + seq![93u8] =~= seq![32u8] + whole);
            lemma_embeds_split(s, i, seq![32u8], whole);
            assert(s[i + 0] == seq![32u8][0]);
            lemma_skip_ws_over(s, i);
        }
        lemma_embeds_split(s, j, tx, after);
        assert(s[j + 0] == tx[0]);
        lemma_skip_ws_stop(s, j);
        assert(skip_ws(s, i) == j);
        assert(s[j + tx.len() + 0] == after[0]);
        lemma_operand_reads(s, j, x);
        let e = j + tx.len();
        assert(acc.push(x) =~= items.subrange(0, k + 1));
        if r.len() > 1 {
            lemma_embeds_split(s, j, tx, after);
            lemma_array_reads(s, e, items, k + 1, acc.push(x));
        } else {
            assert(k + 1 == items.len());
            lemma_array_reads(s, e, items, k + 1, acc.push(x));
            assert(items.skip(k + 1) =~= Seq::<ObjV>::empty());
        }
    }
}

/// The positions in the text `/Key value` of an entry, after a
/// white-space byte `lead` and followed by `rest`: the name is read, and
/// the value stands after one space.
pub proof fn lemma_entry_positions(s: Seq<u8>, i: int, lead: u8, key: Seq<char>, val: ObjV, rest: Seq<u8>)
    requires
        spec_is_whitespace(lead),
        operand_ok(val),
        rest.len() > 0,
        spec_is_whitespace(rest[0]),
        embeds(s, i, seq![lead] + (seq![47u8] + name_text(encode_utf8(key))) + (seq![32u8] + (obj_text(val) + rest))),
    ensures
        ({
            let nt = name_text(encode_utf8(key));
            let p = i + 2 + nt.len();
            &&& skip_ws(s, i) == i + 1
            &&& s[i + 1] == 47u8
            &&& i + 2 < s.len()
            &&& !(s[i + 1] == 62u8)
            &&& spec_name(s, i + 2) == Some((p, key))
            &&& skip_ws(s, p) == p + 1
            &&& embeds(s, p + 1, obj_text(val))
            &&& boundary(s, p + 1 + obj_text(val).len())
            &&& embeds(s, p + 1 + obj_text(val).len(), rest)
        }),
{
    let nt = name_text(encode_utf8(key));
    let vt = obj_text(val);
    lemma_embeds_split(s, i, seq![lead], (seq![47u8] + nt) + (seq![32u8] + (vt + rest)));
    lemma_embeds_split(s, i + 1, seq![47u8] + nt, seq![32u8] + (vt + rest));
    let p = i + 1 + 1 + nt.len();
    lemma_embeds_split(s, p, seq![32u8], vt + rest);
    lemma_embeds_split(s, p + 1, vt, rest);
    assert(s[i + 0] == seq![lead][0]);
    lemma_skip_ws_over(s, i);
    assert(s[i + 1 + 0] == (seq![47u8] + nt)[0]);
    lemma_skip_ws_stop(s, i + 1);
    assert(s[p + 0] == seq![32u8][0]);
    lemma_name_reads(s, i + 1, key);
    lemma_skip_ws_over(s, p);
    lemma_obj_text_start(val);
    assert(s[p + 1 + 0] == vt[0]);
    lemma_skip_ws_stop(s, p + 1);
    assert(s[p + 1 + vt.len() + 0] == rest[0]);
}

/// The dictionary loop reads the entries from the `k`-th on, given the
/// first `k` already read, and the closing ` >>`.
pub proof fn lemma_dict_reads(s: Seq<u8>, i: int, entries: Seq<(Seq<char>, ObjV)>, k: int)
    requires
        0 <= k <= entries.len(),
        keys_distinct(entries),
        forall|j: int| 0 <= j < entries.len() ==> #[trigger] operand_ok(entries[j].1),
        embeds(s, i, entries_text(entries.skip(k)) + seq![32u8, 62u8, 62u8]),
    ensures
        spec_dict_loop(s, i, entries.subrange(0, k)) == Some(
            (i + entries_text(entries.skip(k)).len() + 3, ObjV::Dict(entries)),
        ),
    decreases entries, entries.len() - k,
{
    let r = entries.skip(k);
    let acc = entries.subrange(0, k);
    if k == entries.len() {
        assert(r =~= Seq::<(Seq<char>, ObjV)>::empty());
        assert(entries_text(r) == Seq::<u8>::empty());
        let t = entries_text(r) + seq![32u8, 62u8, 62u8];
        assert(t =~= seq![32u8, 62u8, 62u8]);
        assert(s[i + 0] == t[0]);
        assert(s[i + 1] == t[1]);
        assert(s[i + 2] == t[2]);
        lemma_skip_ws_over(s, i);
        lemma_skip_ws_stop(s, i + 1);
        assert(acc =~= entries);
    } else {
        let (key, val) = r[0];
        assert(r[0] == entries[k]);
        lemma_entries_text_front(r);
        assert(r.drop_first() =~= entries.skip(k + 1));
        let nt = name_text(encode_utf8(key));
        let vt = obj_text(val);
        let rest = entries_text(entries.skip(k + 1)) + seq![32u8, 62u8, 62u8];
        let whole = entries_text(r) + seq![32u8, 62u8, 62u8];
        assert(whole =~= seq![32u8] + (seq![47u8] + nt) + (seq![32u8] + (vt + rest)));
        assert(operand_ok(val));
        assert(rest[0] == 32u8) by {
            if k + 1 < entries.len() {
                lemma_entries_text_front(entries.skip(k + 1));
            } else {
                assert(entries.skip(k + 1) =~= Seq::<(Seq<char>, ObjV)>::empty());
                assert(entries_text(entries.skip(k + 1)) == Seq::<u8>::empty());
            }
        }
        lemma_entry_positions(s, i, 32u8, key, val, rest);
        let p = i + 2 + nt.len();
        lemma_operand_reads(s, p + 1, val);
        assert forall|j: int| 0 <= j < acc.len() implies acc[j].0 != key by {
            assert(acc[j] == entries[j]);
        }
        lemma_entries_set_fresh(acc, key, val);
        assert(acc.push((key, val)) =~= entries.subrange(0, k + 1));
        lemma_dict_reads(s, p + 1 + vt.len(), entries, k + 1);
    }
}

// ---------------------------------------------------------------------
// Statements

/// Whether an operator statement is read back unchanged from its text:
/// its operands are good operands, and the operator is a non-empty run
/// of regular characters that does not itself read as an operand (a
/// number, `true`, `false` or `null`); an operator without operands is
/// not `BI`, which opens an inline image.
pub open spec fn op_ok(op: Seq<char>, args: Seq<ObjV>) -> bool {
    let b = encode_utf8(op);
    &&& b.len() > 0
    &&& forall|k: int| 0 <= k < b.len() ==> spec_is_regular(#[trigger] b[k])
    &&& !is_num_char(b[0])
    &&& b != kw_true()
    &&& b != kw_false()
    &&& b != kw_null()
    &&& (args.len() == 0 ==> b != kw_bi())
    &&& items_ok(args)
}

/// A run of regular characters `b` followed by a newline is the keyword
/// `w` exactly when the two are equal.
pub proof fn lemma_word_at(s: Seq<u8>, j: int, b: Seq<u8>, w: Seq<u8>)
    requires
        embeds(s, j, b + seq![10u8]),
        forall|k: int| 0 <= k < b.len() ==> spec_is_regular(#[trigger] b[k]),
        forall|k: int| 0 <= k < w.len() ==> spec_is_regular(#[trigger] w[k]),
    ensures
        prefix_word(s, j, w) <==> b == w,
{
    let t = b + seq![10u8];
    if b == w {
        assert(s.subrange(j, j + w.len()) =~= w) by {
            assert forall|k: int| 0 <= k < w.len() implies #[trigger] s.subrange(j, j + w.len())[k] == w[k] by {
                assert(s[j + k] == t[k]);
            }
        }
        assert(s[j + b.len()] == t[b.len() as int]);
    }
    if prefix_word(s, j, w) {
        assert(s.subrange(j, j + w.len()) == w);
        if w.len() < b.len() {
            assert(s[j + w.len()] == t[w.len() as int]);
            assert(spec_is_regular(b[w.len() as int]));
            assert(false);
        } else if w.len() > b.len() {
            assert(s[j + b.len()] == t[b.len() as int]);
            assert(s.subrange(j, j + w.len())[b.len() as int] == w[b.len() as int]);
            assert(spec_is_regular(w[b.len() as int]));
            assert(false);
        } else {
            assert forall|k: int| 0 <= k < b.len() implies b[k] == w[k] by {
                assert(s[j + k] == t[k]);
                assert(s.subrange(j, j + w.len())[k] == w[k]);
            }
            assert(b =~= w);
        }
    }
}

/// The run of regular characters from `j + k` ends where `b` ends.
proof fn lemma_regular_run(s: Seq<u8>, j: int, b: Seq<u8>, k: int)
    requires
        embeds(s, j, b + seq![10u8]),
        forall|m: int| 0 <= m < b.len() ==> spec_is_regular(#[trigger] b[m]),
        0 <= k <= b.len(),
    ensures
        regular_end(s, j + k) == j + b.len(),
    decreases b.len() - k,
{
    let t = b + seq![10u8];
    assert(s[j + k] == t[k]);
    if k < b.len() {
        lemma_regular_run(s, j, b, k + 1);
    }
}

/// An operator written as its UTF-8 bytes and a newline reads back as a
/// keyword, and not as an operand.
pub proof fn lemma_keyword_reads(s: Seq<u8>, j: int, op: Seq<char>, args: Seq<ObjV>)
    requires
        op_ok(op, args),
        embeds(s, j, encode_utf8(op) + seq![10u8]),
    ensures
        spec_operand(s, j) is None,
        spec_keyword(s, j) == Some((j + encode_utf8(op).len(), op)),
{
    let b = encode_utf8(op);
    let t = b + seq![10u8];
    assert(s[j + 0] == t[0]);
    assert(spec_is_regular(b[0]));
    assert(forall|k: int| 0 <= k < kw_true().len() ==> spec_is_regular(#[trigger] kw_true()[k]));
    assert(forall|k: int| 0 <= k < kw_false().len() ==> spec_is_regular(#[trigger] kw_false()[k]));
    assert(forall|k: int| 0 <= k < kw_null().len() ==> spec_is_regular(#[trigger] kw_null()[k]));
    lemma_word_at(s, j, b, kw_true());
    lemma_word_at(s, j, b, kw_false());
    lemma_word_at(s, j, b, kw_null());
    lemma_regular_run(s, j, b, 0);
    assert(s.subrange(j, j + b.len()) =~= b) by {
        assert forall|k: int| 0 <= k < b.len() implies #[trigger] s.subrange(j, j + b.len())[k] == b[k] by {
            assert(s[j + k] == t[k]);
        }
    }
}

/// Each operand's text and a space split after the first operand.
pub proof fn lemma_operands_text_front(args: Seq<ObjV>)
    requires
        args.len() > 0,
    ensures
        operands_text(args) == obj_text(args[0]) + seq![32u8] + operands_text(args.drop_first()),
    decreases args.len(),
{
    if args.len() == 1 {
        assert(args.drop_last() =~= Seq::<ObjV>::empty());
        assert(args.drop_first() =~= Seq::<ObjV>::empty());
        assert(operands_text(Seq::<ObjV>::empty()) == Seq::<u8>::empty());
        assert(operands_text(args) =~= obj_text(args[0]) + seq![32u8] + operands_text(args.drop_first()));
    } else {
        lemma_operands_text_front(args.drop_last());
        assert(args.drop_last().drop_first() =~= args.drop_first().drop_last());
        assert(args.drop_first().last() == args.last());
        assert(args.drop_last()[0] == args[0]);
        assert(operands_text(args) =~= obj_text(args[0]) + seq![32u8] + operands_text(args.drop_first()));
    }
}

/// The statement loop reads the operands from the `k`-th on, given the
/// first `k` already read, then the operator. White space from `i` up
/// to `j` is passed over first.
pub proof fn lemma_statement_reads(s: Seq<u8>, i: int, j: int, op: Seq<char>, args: Seq<ObjV>, k: int)
    requires
        op_ok(op, args),
        0 <= k <= args.len(),
        0 <= i <= j,
        skip_ws(s, i) == skip_ws(s, j),
        embeds(s, j, operands_text(args.skip(k)) + encode_utf8(op) + seq![10u8]),
    ensures
        spec_statement(s, i, args.subrange(0, k)) == Some(
            (j + operands_text(args.skip(k)).len() + encode_utf8(op).len(), op, args),
        ),
    decreases args.len() - k,
{
    let b = encode_utf8(op);
    let r = args.skip(k);
    let acc = args.subrange(0, k);
    lemma_items_ok(args);
    if k == args.len() {
        assert(r =~= Seq::<ObjV>::empty());
        assert(operands_text(r) == Seq::<u8>::empty());
        assert(operands_text(r) + b + seq![10u8] =~= b + seq![10u8]);
        assert(s[j + 0] == (b + seq![10u8])[0]);
        assert(spec_is_regular(b[0]));
        lemma_skip_ws_stop(s, j);
        lemma_keyword_reads(s, j, op, args);
        assert(acc =~= args);
    } else {
        let x = r[0];
        assert(x == args[k]);
        assert(operand_ok(x));
        lemma_operands_text_front(r);
        assert(r.drop_first() =~= args.skip(k + 1));
        let tx = obj_text(x);
        let rest = operands_text(args.skip(k + 1)) + b + seq![10u8];
        assert(operands_text(r) + b + seq![10u8] =~= tx + (seq![32u8] + rest));
        lemma_embeds_split(s, j, tx, seq![32u8] + rest);
        lemma_embeds_split(s, j + tx.len(), seq![32u8], rest);
        lemma_obj_text_start(x);
        assert(s[j + 0] == tx[0]);
        lemma_skip_ws_stop(s, j);
        let e = j + tx.len();
        assert(s[e + 0] == seq![32u8][0]);
        lemma_operand_reads(s, j, x);
        lemma_skip_ws_over(s, e);
        assert(acc.push(x) =~= args.subrange(0, k + 1));
        lemma_statement_reads(s, e, e + 1, op, args, k + 1);
    }
}

// ---------------------------------------------------------------------
// Inline images

/// Whether inline image data is read back whole: no white-space byte
/// followed by `EI` and a boundary stands in it, so that the first such
/// place in the data, the newline and `EI` written after it, is its end.
pub open spec fn data_ok(data: Seq<u8>) -> bool {
    ei_search(data + seq![10u8, 69u8, 73u8, 10u8], 0) == Some(data.len() as int)
}

/// The search for the end of the data finds in `s` what it finds in a
/// text `t` that stands in `s`, as long as the place found has three
/// more bytes of `t` after it.
pub proof fn lemma_ei_search_local(s: Seq<u8>, i: int, t: Seq<u8>, k: int, q: int)
    requires
        embeds(s, i, t),
        0 <= k,
        ei_search(t, k) == Some(q),
        q + 3 < t.len(),
    ensures
        ei_search(s, i + k) == Some(i + q),
    decreases t.len() - k,
{
    assert(k + 3 <= t.len());
    assert(s[i + k] == t[k]);
    assert(s[i + (k + 1)] == t[k + 1]);
    assert(s[i + (k + 2)] == t[k + 2]);
    let tw = spec_is_whitespace(t[k]) && prefix_word(t, k + 1, kw_ei());
    let sw = spec_is_whitespace(s[i + k]) && prefix_word(s, i + k + 1, kw_ei());
    if k + 3 < t.len() {
        assert(s[i + (k + 3)] == t[k + 3]);
        assert(s.subrange(i + k + 1, i + k + 3) =~= t.subrange(k + 1, k + 3)) by {
            assert(s.subrange(i + k + 1, i + k + 3)[0] == t.subrange(k + 1, k + 3)[0]);
            assert(s.subrange(i + k + 1, i + k + 3)[1] == t.subrange(k + 1, k + 3)[1]);
        }
        assert(tw == sw);
        if !tw {
            lemma_ei_search_local(s, i, t, k + 1, q);
        }
    } else {
        assert(q >= k + 1 || q == k);
        assert(false) by {
            if tw {
                assert(q == k);
            } else {
                assert(ei_search(t, k + 1) is None);
            }
        }
    }
}

/// `/Key value` and a newline per parameter split after the first.
pub proof fn lemma_inline_entries_text_front(entries: Seq<(Seq<char>, ObjV)>)
    requires
        entries.len() > 0,
    ensures
        inline_entries_text(entries) == seq![47u8] + name_text(encode_utf8(entries[0].0)) + seq![32u8]
            + obj_text(entries[0].1) + seq![10u8] + inline_entries_text(entries.drop_first()),
    decreases entries.len(),
{
    let e0 = entries[0];
    let head = seq![47u8] + name_text(encode_utf8(e0.0)) + seq![32u8] + obj_text(e0.1) + seq![10u8];
    if entries.len() == 1 {
        assert(entries.drop_last() =~= Seq::<(Seq<char>, ObjV)>::empty());
        assert(entries.drop_first() =~= Seq::<(Seq<char>, ObjV)>::empty());
        assert(inline_entries_text(Seq::<(Seq<char>, ObjV)>::empty()) == Seq::<u8>::empty());
        assert(inline_entries_text(entries) =~= head + inline_entries_text(entries.drop_first()));
    } else {
        lemma_inline_entries_text_front(entries.drop_last());
        assert(entries.drop_last().drop_first() =~= entries.drop_first().drop_last());
        assert(entries.drop_first().last() == entries.last());
        assert(entries.drop_last()[0] == entries[0]);
        let last = entries.last();
        let tail = seq![47u8] + name_text(encode_utf8(last.0)) + seq![32u8] + obj_text(last.1) + seq![10u8];
        assert(inline_entries_text(entries) =~= inline_entries_text(entries.drop_last()) + tail);
        assert(inline_entries_text(entries.drop_first()) =~= inline_entries_text(entries.drop_first().drop_last())
            + tail);
        assert(inline_entries_text(entries) =~= head + inline_entries_text(entries.drop_first()));
    }
}

/// After the last parameter: the newline, `ID`, a space, the data and
/// `EI` read as the end of the inline image.
proof fn lemma_inline_end_reads(s: Seq<u8>, i: int, acc: Seq<(Seq<char>, ObjV)>, data: Seq<u8>)
    requires
        data_ok(data),
        embeds(s, i, seq![10u8, 73u8, 68u8, 32u8] + (data + seq![10u8, 69u8, 73u8, 10u8])),
    ensures
        spec_inline_loop(s, i, acc) == Some((i + 4 + data.len() + 3, acc, data)),
{
    let tail = seq![10u8, 69u8, 73u8, 10u8];
    let t = seq![10u8, 73u8, 68u8, 32u8] + (data + tail);
    assert(s[i + 0] == t[0]);
    assert(s[i + 1] == t[1]);
    assert(s[i + 2] == t[2]);
    assert(s[i + 3] == t[3]);
    lemma_skip_ws_over(s, i);
    lemma_skip_ws_stop(s, i + 1);
    assert(s.subrange(i + 1, i + 3) =~= kw_id()) by {
        assert(s.subrange(i + 1, i + 3)[0] == kw_id()[0]);
        assert(s.subrange(i + 1, i + 3)[1] == kw_id()[1]);
    }
    assert(prefix_word(s, i + 1, kw_id()));
    lemma_embeds_split(s, i, seq![10u8, 73u8, 68u8, 32u8], data + tail);
    lemma_ei_search_local(s, i + 4, data + tail, 0, data.len() as int);
    assert(s.subrange(i + 4, i + 4 + data.len()) =~= data) by {
        assert forall|m: int| 0 <= m < data.len() implies #[trigger] s.subrange(i + 4, i + 4 + data.len())[m]
            == data[m] by {
            assert(s[i + 4 + m] == (data + tail)[m]);
        }
    }
}

/// The text of an inline image from the newline before its `k`-th
/// parameter: the parameters, `ID`, a space, the data, a newline and
/// `EI`.
pub open spec fn inline_tail(entries: Seq<(Seq<char>, ObjV)>, k: int, data: Seq<u8>) -> Seq<u8> {
    seq![10u8] + inline_entries_text(entries.skip(k)) + seq![73u8, 68u8, 32u8] + data + seq![10u8, 69u8, 73u8, 10u8]
}

/// The tail from the `k`-th parameter is that parameter's text and the
/// tail from the next one.
proof fn lemma_inline_tail_step(entries: Seq<(Seq<char>, ObjV)>, k: int, data: Seq<u8>)
    requires
        0 <= k < entries.len(),
    ensures
        inline_tail(entries, k, data) == seq![10u8] + (seq![47u8] + name_text(encode_utf8(entries[k].0))) + (
        seq![32u8] + (obj_text(entries[k].1) + inline_tail(entries, k + 1, data))),
{
    let r = entries.skip(k);
    assert(r[0] == entries[k]);
    lemma_inline_entries_text_front(r);
    assert(r.drop_first() =~= entries.skip(k + 1));
    assert(inline_tail(entries, k, data) =~= seq![10u8] + (seq![47u8] + name_text(encode_utf8(entries[k].0))) + (
    seq![32u8] + (obj_text(entries[k].1) + inline_tail(entries, k + 1, data))));
}

/// The inline image loop reads the parameters from the `k`-th on, given
/// the first `k` already read, then the data up to `EI`.
pub proof fn lemma_inline_reads(s: Seq<u8>, i: int, entries: Seq<(Seq<char>, ObjV)>, k: int, data: Seq<u8>)
    requires
        0 <= k <= entries.len(),
        keys_distinct(entries),
        forall|j: int| 0 <= j < entries.len() ==> #[trigger] operand_ok(entries[j].1),
        data_ok(data),
        embeds(s, i, inline_tail(entries, k, data)),
    ensures
        spec_inline_loop(s, i, entries.subrange(0, k)) == Some(
            (i + inline_tail(entries, k, data).len() - 1, entries, data),
        ),
    decreases entries.len() - k,
{
    let r = entries.skip(k);
    let acc = entries.subrange(0, k);
    let t = inline_tail(entries, k, data);
    if k == entries.len() {
        assert(r =~= Seq::<(Seq<char>, ObjV)>::empty());
        assert(inline_entries_text(r) == Seq::<u8>::empty());
        assert(t =~= seq![10u8, 73u8, 68u8, 32u8] + (data + seq![10u8, 69u8, 73u8, 10u8]));
        lemma_inline_end_reads(s, i, acc, data);
        assert(acc =~= entries);
    } else {
        let (key, val) = entries[k];
        let nt = name_text(encode_utf8(key));
        let vt = obj_text(val);
        let rest = inline_tail(entries, k + 1, data);
        lemma_inline_tail_step(entries, k, data);
        assert(operand_ok(val));
        lemma_entry_positions(s, i, 10u8, key, val, rest);
        assert(s[i + 1 + 0] == (seq![47u8] + nt)[0]);
        assert(!prefix_word(s, i + 1, kw_id())) by {
            assert(s.subrange(i + 1, i + 3)[0] != kw_id()[0]);
        }
        let p = i + 2 + nt.len();
        lemma_operand_reads(s, p + 1, val);
        assert forall|j: int| 0 <= j < acc.len() implies acc[j].0 != key by {
            assert(acc[j] == entries[j]);
        }
        lemma_entries_set_fresh(acc, key, val);
        assert(acc.push((key, val)) =~= entries.subrange(0, k + 1));
        lemma_inline_reads(s, p + 1 + vt.len(), entries, k + 1, data);
    }
}

// ---------------------------------------------------------------------
// Content streams

/// Whether a content item is read back unchanged from its text: a good
/// operator statement, or an inline image whose parameters are good
/// operands under distinct keys and whose data is read back whole. Raw
/// bytes are written as they are and make no such promise.
pub open spec fn item_ok(it: ItemV) -> bool {
    match it {
        ItemV::Op(op, args) => op_ok(op, args),
        ItemV::Inline(entries, data) => entries_ok(entries) && keys_distinct(entries) && data_ok(data),
        ItemV::Raw(_) => false,
    }
}

/// The text of items splits after the first item.
pub proof fn lemma_content_text_front(items: Seq<ItemV>)
    requires
        items.len() > 0,
    ensures
        content_text(items) == item_text(items[0]) + content_text(items.drop_first()),
    decreases items.len(),
{
    if items.len() == 1 {
        assert(items.drop_last() =~= Seq::<ItemV>::empty());
        assert(items.drop_first() =~= Seq::<ItemV>::empty());
        assert(content_text(Seq::<ItemV>::empty()) == Seq::<u8>::empty());
        assert(content_text(items) =~= item_text(items[0]) + content_text(items.drop_first()));
    } else {
        lemma_content_text_front(items.drop_last());
        assert(items.drop_last().drop_first() =~= items.drop_first().drop_last());
        assert(items.drop_first().last() == items.last());
        assert(items.drop_last()[0] == items[0]);
        assert(content_text(items) =~= item_text(items[0]) + content_text(items.drop_first()));
    }
}

/// An operator statement's text at `j`, followed by more text, reads
/// back as the statement, and the parse goes on after its newline.
proof fn lemma_op_item_reads(s: Seq<u8>, j: int, op: Seq<char>, args: Seq<ObjV>)
    requires
        op_ok(op, args),
        embeds(s, j, item_text(ItemV::Op(op, args))),
    ensures
        skip_ws(s, j) == j,
        !prefix_word(s, j, kw_bi()),
        spec_statement(s, j, Seq::empty()) == Some(
            (j + item_text(ItemV::Op(op, args)).len() - 1, op, args),
        ),
{
    let b = encode_utf8(op);
    let t = operands_text(args) + b + seq![10u8];
    assert(item_text(ItemV::Op(op, args)) == t);
    lemma_items_ok(args);
    if args.len() > 0 {
        lemma_operands_text_front(args);
        lemma_obj_text_start(args[0]);
        assert(t[0] == obj_text(args[0])[0]);
        assert(s[j + 0] == t[0]);
        assert(!prefix_word(s, j, kw_bi())) by {
            assert(s.subrange(j, j + 2)[0] != kw_bi()[0]);
        }
    } else {
        assert(operands_text(args) == Seq::<u8>::empty());
        assert(t =~= b + seq![10u8]);
        assert(s[j + 0] == t[0]);
        assert(spec_is_regular(b[0]));
        assert(forall|k: int| 0 <= k < kw_bi().len() ==> spec_is_regular(#[trigger] kw_bi()[k]));
        lemma_word_at(s, j, b, kw_bi());
    }
    lemma_skip_ws_stop(s, j);
    assert(args.skip(0) =~= args);
    assert(args.subrange(0, 0) =~= Seq::<ObjV>::empty());
    lemma_statement_reads(s, j, j, op, args, 0);
}

/// An inline image's text at `j`, followed by more text, reads back as
/// the image, and the parse goes on after its `EI`.
proof fn lemma_inline_item_reads(s: Seq<u8>, j: int, entries: Seq<(Seq<char>, ObjV)>, data: Seq<u8>)
    requires
        item_ok(ItemV::Inline(entries, data)),
        embeds(s, j, item_text(ItemV::Inline(entries, data))),
    ensures
        skip_ws(s, j) == j,
        prefix_word(s, j, kw_bi()),
        spec_inline_loop(s, j + 2, Seq::empty()) == Some(
            (j + item_text(ItemV::Inline(entries, data)).len() - 1, entries, data),
        ),
{
    let tail = inline_tail(entries, 0, data);
    assert(entries.skip(0) =~= entries);
    assert(item_text(ItemV::Inline(entries, data)) =~= seq![66u8, 73u8] + tail);
    lemma_embeds_split(s, j, seq![66u8, 73u8], tail);
    assert(s[j + 0] == (seq![66u8, 73u8] + tail)[0]);
    assert(s[j + 1] == (seq![66u8, 73u8] + tail)[1]);
    assert(s[j + 2] == (seq![66u8, 73u8] + tail)[2]);
    assert(s.subrange(j, j + 2) =~= kw_bi()) by {
        assert(s.subrange(j, j + 2)[0] == kw_bi()[0]);
        assert(s.subrange(j, j + 2)[1] == kw_bi()[1]);
    }
    lemma_skip_ws_stop(s, j);
    lemma_entries_ok(entries);
    assert(entries.subrange(0, 0) =~= Seq::<(Seq<char>, ObjV)>::empty());
    lemma_inline_reads(s, j + 2, entries, 0, data);
}

/// The items' text, standing at `j` and running to the end of `s`,
/// reads back as the items, from any `i` whose white space leads to
/// where `j`'s does.
pub proof fn lemma_items_reads(s: Seq<u8>, i: int, j: int, items: Seq<ItemV>)
    requires
        0 <= i <= j,
        skip_ws(s, i) == skip_ws(s, j),
        embeds(s, j, content_text(items)),
        j + content_text(items).len() == s.len(),
        forall|k: int| 0 <= k < items.len() ==> #[trigger] item_ok(items[k]),
    ensures
        spec_items(s, i) == items,
    decreases items.len(),
{
    if items.len() == 0 {
        assert(content_text(items) == Seq::<u8>::empty());
        lemma_skip_ws_stop(s, j);
        assert(spec_items(s, i) =~= items);
    } else {
        let it = items[0];
        let rest = items.drop_first();
        assert(item_ok(it));
        lemma_content_text_front(items);
        lemma_embeds_split(s, j, item_text(it), content_text(rest));
        let e = j + item_text(it).len() - 1;
        assert forall|k: int| 0 <= k < rest.len() implies #[trigger] item_ok(rest[k]) by {
            assert(rest[k] == items[k + 1]);
        }
        match it {
            ItemV::Op(op, args) => {
                lemma_op_item_reads(s, j, op, args);
            },
            ItemV::Inline(entries, data) => {
                lemma_inline_item_reads(s, j, entries, data);
            },
            ItemV::Raw(_) => {},
        }
        assert(item_text(it).last() == 10u8);
        assert(s[j + (item_text(it).len() - 1)] == item_text(it)[item_text(it).len() - 1]);
        lemma_skip_ws_over(s, e);
        lemma_items_reads(s, e, e + 1, rest);
        assert(spec_items(s, i) =~= seq![it] + rest);
        assert(seq![it] + rest =~= items);
    }
}

/// Round trip of content streams: items that are operator statements
/// and inline images, each read back unchanged from its text
/// (`item_ok`), are parsed back from their serialized text as the same
/// items.
pub proof fn lemma_content_round_trip(items: Seq<ItemV>)
    requires
        forall|k: int| 0 <= k < items.len() ==> #[trigger] item_ok(items[k]),
    ensures
        spec_parse_content_stream(content_text(items)) == items,
{
    let s = content_text(items);
    lemma_items_reads(s, 0, 0, items);
}

} // verus!
