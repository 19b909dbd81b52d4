//! Escaping text for literal strings in content streams.

use vstd::prelude::*;
use vstd::utf8::{
    encode_scalar, encode_utf8, last_continuation_byte, leading_byte_width_2, leading_byte_width_3, leading_byte_width_4,
    second_last_continuation_byte, third_last_continuation_byte,
};
use crate::lexer::{lit_loop, spec_literal};
use crate::stdtext::push_char;

verus! {

/// The escaped form of one character: `\`, `(` and `)` get a backslash,
/// line feed, carriage return and tab become `\n`, `\r` and `\t`.
pub open spec fn escape_char(c: char) -> Seq<char> {
    if c == '\\' {
        seq!['\\', '\\']
    } else if c == '(' {
        seq!['\\', '(']
    } else if c == ')' {
        seq!['\\', ')']
    } else if c == '\n' {
        seq!['\\', 'n']
    } else if c == '\r' {
        seq!['\\', 'r']
    } else if c == '\t' {
        seq!['\\', 't']
    } else {
        seq![c]
    }
}

/// The escaped form of a text, character by character.
pub open spec fn escape_text(s: Seq<char>) -> Seq<char>
    decreases s.len(),
{
    if s.len() == 0 {
        Seq::empty()
    } else {
        escape_text(s.drop_last()) + escape_char(s.last())
    }
}

/// Escapes special characters for a PDF literal string.
pub fn escape_string(s: &str) -> (r: String)
    ensures
        r@ == escape_text(s@),
{
    let mut result = String::new();
    let ghost chars = s@;
    for c in it: s.chars()
        invariant
            it.seq() == chars,
            result@ == escape_text(chars.take(it.index() as int)),
    {
        let ghost k = it.index() as int;
        let ghost before = result@;
        if c == '\\' {
            push_char(&mut result, '\\');
            push_char(&mut result, '\\');
        } else if c == '(' {
            push_char(&mut result, '\\');
            push_char(&mut result, '(');
        } else if c == ')' {
            push_char(&mut result, '\\');
            push_char(&mut result, ')');
        } else if c == '\n' {
            push_char(&mut result, '\\');
            push_char(&mut result, 'n');
        } else if c == '\r' {
            push_char(&mut result, '\\');
            push_char(&mut result, 'r');
        } else if c == '\t' {
            push_char(&mut result, '\\');
            push_char(&mut result, 't');
        } else {
            push_char(&mut result, c);
        }
        proof {
            assert(chars.take(k + 1).drop_last() =~= chars.take(k));
            assert(result@ =~= before + escape_char(c));
        }
    }
    assert(chars.take(chars.len() as int) =~= chars);
    result
}

/// The encoding of two texts one after the other is the two encodings.
proof fn lemma_encode_concat(a: Seq<char>, b: Seq<char>)
    ensures
        encode_utf8(a + b) == encode_utf8(a) + encode_utf8(b),
    decreases a.len(),
{
    if a.len() == 0 {
        assert(a + b =~= b);
        assert(encode_utf8(a) =~= Seq::<u8>::empty());
        assert(encode_utf8(a) + encode_utf8(b) =~= encode_utf8(b));
    } else {
        lemma_encode_concat(a.drop_first(), b);
        assert((a + b).drop_first() =~= a.drop_first() + b);
        assert((a + b)[0] == a[0]);
        assert(encode_utf8(a + b) =~= encode_scalar(a[0] as u32) + (encode_utf8(a.drop_first()) + encode_utf8(b)));
    }
}

/// Every byte of a multi-byte encoding is 128 or more.
proof fn lemma_high_bytes(x: u32)
    by (bit_vector)
    ensures
        leading_byte_width_2(x) >= 128,
        leading_byte_width_3(x) >= 128,
        leading_byte_width_4(x) >= 128,
        last_continuation_byte(x) >= 128,
        second_last_continuation_byte(x) >= 128,
        third_last_continuation_byte(x) >= 128,
{
}

/// A one-byte encoding is the character's code.
proof fn lemma_ascii_byte(x: u32)
    by (bit_vector)
    requires
        x <= 0x7F,
    ensures
        ((x & 0x7F) as u8) as u32 == x,
{
}

/// Reading a run of bytes other than `(`, `)` and `\` copies them.
proof fn lemma_lit_copy(s: Seq<u8>, i: int, w: int, d: nat, out: Seq<u8>)
    requires
        0 <= i <= i + w < s.len(),
        0 <= w,
        forall|k: int| i <= k < i + w ==> #[trigger] s[k] != 40u8 && s[k] != 41u8 && s[k] != 92u8,
    ensures
        lit_loop(s, i, d, out) == lit_loop(s, i + w, d, out + s.subrange(i, i + w)),
    decreases w,
{
    if w == 0 {
        assert(out + s.subrange(i, i) =~= out);
    } else {
        assert(s[i] != 40u8 && s[i] != 41u8 && s[i] != 92u8);
        lemma_lit_copy(s, i + 1, w - 1, d, out.push(s[i]));
        assert(out.push(s[i]) + s.subrange(i + 1, i + w) =~= out + s.subrange(i, i + w));
    }
}

/// The encoding of one character is its scalar's encoding.
proof fn lemma_encode_one(c: char)
    ensures
        encode_utf8(seq![c]) == encode_scalar(c as u32),
{
    assert(seq![c].drop_first() =~= Seq::<char>::empty());
    assert(encode_utf8(Seq::<char>::empty()) =~= Seq::<u8>::empty());
    assert(encode_scalar(c as u32) + Seq::<u8>::empty() =~= encode_scalar(c as u32));
}

/// Reading the escaped form of one character gives the character's
/// encoding.
proof fn lemma_lit_char(s: Seq<u8>, i: int, c: char, out: Seq<u8>)
    requires
        0 <= i,
        i + encode_utf8(escape_char(c)).len() < s.len(),
        s.subrange(i, i + encode_utf8(escape_char(c)).len()) == encode_utf8(escape_char(c)),
    ensures
        lit_loop(s, i, 0, out) == lit_loop(s, i + encode_utf8(escape_char(c)).len(), 0, out + encode_utf8(seq![c])),
{
    let e = encode_utf8(escape_char(c));
    let l = e.len() as int;
    lemma_encode_one(c);
    lemma_high_bytes(c as u32);
    if c == '\\' || c == '(' || c == ')' || c == '\n' || c == '\r' || c == '\t' {
        let x = escape_char(c)[1];
        assert(escape_char(c) =~= seq!['\\', x]);
        lemma_encode_concat(seq!['\\'], seq![x]);
        assert(seq!['\\'] + seq![x] =~= seq!['\\', x]);
        lemma_encode_one('\\');
        lemma_encode_one(x);
        lemma_ascii_byte('\\' as u32);
        lemma_ascii_byte(x as u32);
        lemma_ascii_byte(c as u32);
        let b0 = ((('\\' as u32) & 0x7F) as u8);
        let bx = (((x as u32) & 0x7F) as u8);
        let bc = (((c as u32) & 0x7F) as u8);
        assert(e =~= seq![b0, bx]);
        assert(s.subrange(i, i + l)[0] == s[i]);
        assert(s.subrange(i, i + l)[1] == s[i + 1]);
        assert(s[i] == 92u8);
        assert(s[i + 1] == bx);
        assert(encode_utf8(seq![c]) =~= seq![bc]);
        assert(out + seq![bc] =~= out.push(bc));
    } else {
        assert(escape_char(c) =~= seq![c]);
        if (c as u32) <= 0x7F {
            lemma_ascii_byte(c as u32);
        }
        assert forall|k: int| i <= k < i + l implies #[trigger] s[k] != 40u8 && s[k] != 41u8 && s[k] != 92u8 by {
            assert(s.subrange(i, i + l)[k - i] == s[k]);
            assert(s[k] == e[k - i]);
        }
        lemma_lit_copy(s, i, l, 0, out);
    }
}

/// The encoding of a text's escaped form, after a `(`, reads back, up to
/// its end, as the text's encoding.
proof fn lemma_lit_prefix(s: Seq<char>, tail: Seq<u8>)
    requires
        tail.len() > 0,
    ensures
        lit_loop(seq![40u8] + encode_utf8(escape_text(s)) + tail, 1, 0, Seq::empty()) == lit_loop(
            seq![40u8] + encode_utf8(escape_text(s)) + tail,
            1 + encode_utf8(escape_text(s)).len() as int,
            0,
            encode_utf8(s),
        ),
    decreases s.len(),
{
    if s.len() == 0 {
        assert(encode_utf8(s) =~= Seq::<u8>::empty());
    } else {
        let p = s.drop_last();
        let c = s.last();
        let ec = encode_utf8(escape_char(c));
        lemma_encode_concat(escape_text(p), escape_char(c));
        let tail2 = ec + tail;
        lemma_lit_prefix(p, tail2);
        let data = seq![40u8] + encode_utf8(escape_text(s)) + tail;
        assert(data =~= seq![40u8] + encode_utf8(escape_text(p)) + tail2);
        let at: int = 1 + encode_utf8(escape_text(p)).len() as int;
        assert(data.subrange(at, at + ec.len()) =~= ec);
        lemma_lit_char(data, at, c, encode_utf8(p));
        assert(s =~= p + seq![c]);
        lemma_encode_concat(p, seq![c]);
    }
}

/// Reading back, as a literal string, a text escaped by `escape_string`
/// and put in parentheses gives the text's UTF-8 bytes and consumes the
/// whole input.
pub proof fn lemma_escape_round_trip(s: Seq<char>)
    ensures
        spec_literal(encode_utf8(seq!['('] + escape_text(s) + seq![')']), 0) == Some(
            (encode_utf8(seq!['('] + escape_text(s) + seq![')']).len() as int, encode_utf8(s)),
        ),
{
    let data = encode_utf8(seq!['('] + escape_text(s) + seq![')']);
    lemma_encode_concat(seq!['('] + escape_text(s), seq![')']);
    lemma_encode_concat(seq!['('], escape_text(s));
    lemma_encode_one('(');
    lemma_encode_one(')');
    lemma_ascii_byte('(' as u32);
    lemma_ascii_byte(')' as u32);
    assert(encode_utf8(seq!['(']) =~= seq![40u8]);
    assert(encode_utf8(seq![')']) =~= seq![41u8]);
    assert(data =~= seq![40u8] + encode_utf8(escape_text(s)) + seq![41u8]);
    lemma_lit_prefix(s, seq![41u8]);
    let at: int = 1 + encode_utf8(escape_text(s)).len() as int;
    assert(data[at] == 41u8);
}

} // verus!
