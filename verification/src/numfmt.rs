//! Decimal text of integers and fixed-point reals, as PDF writes them.

use vstd::prelude::*;

verus! {

/// The ASCII digit for `d` (0 through 9).
pub open spec fn digit(d: int) -> u8 {
    (48 + d) as u8
}

/// The decimal digits of `n`, without leading zeros ("0" for zero).
pub open spec fn dec(n: nat) -> Seq<u8>
    decreases n,
{
    if n < 10 {
        seq![digit(n as int)]
    } else {
        dec(n / 10).push(digit((n % 10) as int))
    }
}

/// The number a run of ASCII digits denotes.
pub open spec fn digits_value(s: Seq<u8>) -> nat
    decreases s.len(),
{
    if s.len() == 0 {
        0
    } else {
        digits_value(s.drop_last()) * 10 + (s.last() - 48) as nat
    }
}

/// True when every byte of `s` is an ASCII digit.
pub open spec fn all_digits(s: Seq<u8>) -> bool {
    forall|i: int| 0 <= i < s.len() ==> 48 <= #[trigger] s[i] <= 57
}

/// `s` left-padded with `'0'` to at least `w` bytes.
pub open spec fn pad_zeros(s: Seq<u8>, w: nat) -> Seq<u8> {
    if s.len() >= w {
        s
    } else {
        Seq::new((w - s.len()) as nat, |i: int| 48u8) + s
    }
}

/// The decimal text of a signed integer.
pub open spec fn int_dec(i: int) -> Seq<u8> {
    if i < 0 {
        seq![45u8] + dec((-i) as nat)
    } else {
        dec(i as nat)
    }
}

/// Scale of the fixed-point reals: a real is stored in millionths.
pub const REAL_SCALE: i64 = 1_000_000;

/// `s` without its trailing `'0'` bytes.
pub open spec fn strip_trailing_zeros(s: Seq<u8>) -> Seq<u8>
    decreases s.len(),
{
    if s.len() > 0 && s.last() == 48u8 {
        strip_trailing_zeros(s.drop_last())
    } else {
        s
    }
}

/// The decimal text of the fixed-point real `micros / 1_000_000`: an
/// optional `-`, the integer part, and, when the fraction is not zero,
/// a `.` followed by the fraction's digits without trailing zeros.
pub open spec fn real_text(micros: int) -> Seq<u8> {
    let a: nat = if micros < 0 { (-micros) as nat } else { micros as nat };
    let ip = a / 1_000_000;
    let fp = a % 1_000_000;
    let sign: Seq<u8> = if micros < 0 { seq![45u8] } else { Seq::empty() };
    if fp == 0 {
        sign + dec(ip)
    } else {
        sign + dec(ip) + seq![46u8] + strip_trailing_zeros(pad_zeros(dec(fp), 6))
    }
}

/// The digits of `n` consist of ASCII digits, the first of which is not
/// `'0'` unless `n` is zero, and they denote `n`.
pub proof fn lemma_dec_props(n: nat)
    ensures
        all_digits(dec(n)),
        dec(n).len() >= 1,
        digits_value(dec(n)) == n,
        n > 0 ==> dec(n)[0] != 48u8,
        n < 10 ==> dec(n).len() == 1,
        n >= 10 ==> dec(n).len() == dec(n / 10).len() + 1,
    decreases n,
{
    if n < 10 {
        assert(dec(n).drop_last() =~= Seq::<u8>::empty());
        assert(digits_value(Seq::<u8>::empty()) == 0);
        assert(dec(n).last() == digit(n as int));
        assert(digit(n as int) == 48 + n);
        assert(digits_value(dec(n)) == n);
    } else {
        lemma_dec_props(n / 10);
        let s = dec(n);
        assert(s.drop_last() =~= dec(n / 10));
        assert(s.last() == digit((n % 10) as int));
        assert(n == (n / 10) * 10 + n % 10);
        assert(digit((n % 10) as int) == 48 + n % 10);
        assert(digits_value(s) == digits_value(dec(n / 10)) * 10 + (n % 10));
    }
}

/// Distinct numbers have distinct decimal texts.
pub proof fn lemma_dec_injective(a: nat, b: nat)
    requires
        dec(a) == dec(b),
    ensures
        a == b,
{
    lemma_dec_props(a);
    lemma_dec_props(b);
}

/// Appends the decimal digits of `n` to `out`.
pub fn write_dec(out: &mut Vec<u8>, n: u64)
    ensures
        final(out)@ == old(out)@ + dec(n as nat),
    decreases n,
{
    if n < 10 {
        out.push((48 + n) as u8);
    } else {
        write_dec(out, n / 10);
        out.push((48 + n % 10) as u8);
    }
}

/// The decimal digits of `n`.
pub fn dec_bytes(n: u64) -> (r: Vec<u8>)
    ensures
        r@ == dec(n as nat),
{
    let mut v: Vec<u8> = Vec::new();
    write_dec(&mut v, n);
    assert(v@ =~= dec(n as nat));
    v
}

/// Appends the decimal digits of `n`, left-padded with zeros to `width`.
pub fn write_dec_padded(out: &mut Vec<u8>, n: u64, width: usize)
    ensures
        final(out)@ == old(out)@ + pad_zeros(dec(n as nat), width as nat),
{
    let digits = dec_bytes(n);
    let ghost start = out@;
    if digits.len() < width {
        let fill = width - digits.len();
        let mut k: usize = 0;
        while k < fill
            invariant
                k <= fill,
                out@ == start + Seq::new(k as nat, |i: int| 48u8),
            decreases fill - k,
        {
            out.push(48u8);
            k = k + 1;
            assert(out@ =~= start + Seq::new(k as nat, |i: int| 48u8));
        }
    }
    let mut j: usize = 0;
    let ghost mid = out@;
    while j < digits.len()
        invariant
            j <= digits.len(),
            out@ == mid + digits@.subrange(0, j as int),
        decreases digits.len() - j,
    {
        out.push(digits[j]);
        j = j + 1;
        assert(out@ =~= mid + digits@.subrange(0, j as int));
    }
    assert(digits@.subrange(0, digits.len() as int) =~= digits@);
    assert(out@ =~= start + pad_zeros(dec(n as nat), width as nat));
}

/// Appends the decimal text of the signed integer `i`.
pub fn write_int(out: &mut Vec<u8>, i: i64)
    ensures
        final(out)@ == old(out)@ + int_dec(i as int),
{
    if i < 0 {
        out.push(45u8);
        let m: u64 = (0i128 - (i as i128)) as u64;
        write_dec(out, m);
        assert(final(out)@ =~= old(out)@ + int_dec(i as int));
    } else {
        write_dec(out, i as u64);
    }
}

/// Appends the six-digit fraction `fp` without its trailing zeros.
fn write_fraction(out: &mut Vec<u8>, fp: u64)
    requires
        fp < 1_000_000,
    ensures
        final(out)@ == old(out)@ + strip_trailing_zeros(pad_zeros(dec(fp as nat), 6)),
{
    let mut frac: Vec<u8> = Vec::new();
    write_dec_padded(&mut frac, fp, 6);
    assert(frac@ =~= pad_zeros(dec(fp as nat), 6));
    let mut end = frac.len();
    assert(frac@.subrange(0, end as int) =~= frac@);
    while end > 0 && frac[end - 1] == 48u8
        invariant
            end <= frac.len(),
            strip_trailing_zeros(frac@) == strip_trailing_zeros(frac@.subrange(0, end as int)),
        decreases end,
    {
        assert(frac@.subrange(0, end as int).drop_last() =~= frac@.subrange(0, end - 1));
        end = end - 1;
    }
    assert(strip_trailing_zeros(frac@.subrange(0, end as int)) == frac@.subrange(0, end as int));
    let ghost before = out@;
    let mut j: usize = 0;
    while j < end
        invariant
            j <= end <= frac.len(),
            out@ == before + frac@.subrange(0, j as int),
        decreases end - j,
    {
        out.push(frac[j]);
        j = j + 1;
        assert(out@ =~= before + frac@.subrange(0, j as int));
    }
}

/// Appends the decimal text of the fixed-point real `micros / 10^6`.
pub fn write_real(out: &mut Vec<u8>, micros: i64)
    ensures
        final(out)@ == old(out)@ + real_text(micros as int),
{
    let ghost start = out@;
    let a: u64 = if micros < 0 { (0i128 - (micros as i128)) as u64 } else { micros as u64 };
    let ip = a / 1_000_000;
    let fp = a % 1_000_000;
    if micros < 0 {
        out.push(45u8);
    }
    write_dec(out, ip);
    if fp != 0 {
        out.push(46u8);
        write_fraction(out, fp);
    }
    assert(out@ =~= start + real_text(micros as int));
}

} // verus!
