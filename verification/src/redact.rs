//! Helpers of redaction: PDF date strings (ISO 32000-1 7.9.4) for the
//! audit log, rectangle normalization and the character codes a string
//! shows.

use vstd::prelude::*;
use std::collections::HashSet;
use crate::numfmt::{dec, pad_zeros, write_dec_padded};
use crate::object::PdfReal;
use crate::types::Rectangle;
use crate::util::{ascii_text, push_ascii};

verus! {

/// Whether `y` is a leap year of the proleptic Gregorian calendar.
pub open spec fn is_leap(y: int) -> bool {
    (y % 4 == 0 && y % 100 != 0) || y % 400 == 0
}

/// The number of days of month `m` of year `y`.
pub open spec fn days_in_month(y: int, m: int) -> int {
    if m == 2 {
        if is_leap(y) { 29 } else { 28 }
    } else if m == 4 || m == 6 || m == 9 || m == 11 {
        30
    } else {
        31
    }
}

/// The number of days from 1970-01-01 to the date `y-m-d`: years counted
/// from March, so that the leap day ends a year, in eras of 400 years.
pub open spec fn days_from_civil(y: int, m: int, d: int) -> int {
    let yy = if m <= 2 { y - 1 } else { y };
    let era = yy / 400;
    let yoe = yy - era * 400;
    let mp = if m > 2 { m - 3 } else { m + 9 };
    let doy = (153 * mp + 2) / 5 + d - 1;
    let doe = yoe * 365 + yoe / 4 - yoe / 100 + doy;
    era * 146097 + doe - 719468
}

/// The facts about a day of an era that make `civil_from_days` right.
#[verifier::rlimit(80)]
#[verifier::spinoff_prover]
proof fn lemma_day_of_era(doe: int)
    requires
        0 <= doe < 146097,
    ensures
        ({
            let yoe = (doe - doe / 1460 + doe / 36524 - doe / 146096) / 365;
            let doy = doe - (365 * yoe + yoe / 4 - yoe / 100);
            let mp = (5 * doy + 2) / 153;
            let d = doy - (153 * mp + 2) / 5 + 1;
            &&& 0 <= yoe < 400
            &&& 0 <= doy < 366
            &&& 0 <= mp < 12
            &&& 1 <= d <= 31
            &&& (mp == 1 || mp == 3 || mp == 6 || mp == 8) ==> d <= 30
            &&& mp == 11 ==> (d <= 28 || (d == 29 && ((yoe + 1) % 4 == 0 && (yoe + 1) % 100 != 0 || (yoe + 1) % 400 == 0)))
        }),
{
}

/// The day of era, year of era, day of year and month index computed
/// for a day count shifted to 0000-03-01.
pub open spec fn era_of(zz: int) -> int {
    zz / 146097
}

/// Converts a count of days since 1970-01-01 to a (year, month, day) date
/// of the proleptic Gregorian calendar.
pub fn civil_from_days(z: i64) -> (r: (i64, u32, u32))
    requires
        i64::MIN + 146_096 <= z + 719_468 <= i64::MAX,
    ensures
        1 <= r.1 <= 12,
        1 <= r.2 <= days_in_month(r.0 as int, r.1 as int),
        days_from_civil(r.0 as int, r.1 as int, r.2 as int) == z,
{
    let z = z + 719_468;
    let era: i64 = if z >= 0 { z / 146_097 } else { 0 - (146_096 - z) / 146_097 };
    assert(era == era_of(z as int)) by (nonlinear_arith)
        requires
            z >= 0 ==> era == z / 146_097,
            z < 0 ==> era == 0 - (146_096 - z) / 146_097,
    {
    }
    assert(0 <= z - era * 146_097 < 146_097) by (nonlinear_arith)
        requires
            era == era_of(z as int),
    {
    }
    let doe = (z - era * 146_097) as u64;
    proof {
        lemma_day_of_era(doe as int);
    }
    let yoe = (doe - doe / 1460 + doe / 36524 - doe / 146096) / 365;
    let y = yoe as i64 + era * 400;
    let doy = doe - (365 * yoe + yoe / 4 - yoe / 100);
    let mp = (5 * doy + 2) / 153;
    let d = (doy - (153 * mp + 2) / 5 + 1) as u32;
    let m = (if mp < 10 { mp + 3 } else { mp - 9 }) as u32;
    let y = if m <= 2 { y + 1 } else { y };
    proof {
        let yy = if m <= 2 { y - 1 } else { y as int };
        assert(yy == yoe + era * 400);
        assert(yy / 400 == era) by (nonlinear_arith)
            requires
                yy == yoe + era * 400,
                0 <= yoe < 400,
        {
        }
        if m <= 2 {
            assert((y as int) % 4 == (yoe + 1) % 4 && (y as int) % 100 == (yoe + 1) % 100
                && (y as int) % 400 == (yoe + 1) % 400) by (nonlinear_arith)
                requires
                    y == yoe + 1 + era * 400,
            {
            }
        }
    }
    (y, m, d)
}

/// The day of a March-based year on which the month `mp` (0 for March)
/// starts.
pub open spec fn month_start(mp: int) -> int {
    (153 * mp + 2) / 5
}

/// The day of the March-based year of a valid date lies within its
/// month: at least the month's start, before the next month's (or day
/// 366 for February, the year's last month).
proof fn lemma_day_of_year(y: int, m: int, d: int)
    requires
        1 <= m <= 12,
        1 <= d <= days_in_month(y, m),
    ensures
        ({
            let mp = if m > 2 { m - 3 } else { m + 9 };
            let doy = month_start(mp) + d - 1;
            &&& 0 <= mp < 12
            &&& month_start(mp) <= doy
            &&& doy < (if mp < 11 { month_start(mp + 1) } else { 366 })
            &&& (mp < 11 ==> doy <= 364)
        }),
{
    let mp = if m > 2 { m - 3 } else { m + 9 };
    assert(month_start(0) == 0 && month_start(1) == 31 && month_start(2) == 61 && month_start(3) == 92);
    assert(month_start(4) == 122 && month_start(5) == 153 && month_start(6) == 184 && month_start(7) == 214);
    assert(month_start(8) == 245 && month_start(9) == 275 && month_start(10) == 306 && month_start(11) == 337);
}

/// A later month of a March-based year starts no earlier.
proof fn lemma_month_start_mono(a: int, b: int)
    requires
        0 <= a <= b,
    ensures
        month_start(a) <= month_start(b),
{
    assert((153 * a + 2) / 5 <= (153 * b + 2) / 5) by (nonlinear_arith)
        requires
            0 <= a <= b,
    {
    }
}

/// The day of the era on which the year `yoe` of a 400-year era starts.
pub open spec fn year_start(yoe: int) -> int {
    yoe * 365 + yoe / 4 - yoe / 100
}

/// A later year of an era starts no earlier than the days of the years
/// before it: each year has at least 365 days, and the one before a leap
/// day 366.
proof fn lemma_year_start_step(a: int)
    requires
        0 <= a < 399,
    ensures
        year_start(a + 1) == year_start(a) + 365 + (if (a + 1) % 4 == 0 && (a + 1) % 100 != 0 { 1int } else { 0 }),
{
    assert((a + 1) / 4 == a / 4 + (if (a + 1) % 4 == 0 { 1int } else { 0 })) by (nonlinear_arith)
        requires
            0 <= a,
    {
    }
    assert((a + 1) / 100 == a / 100 + (if (a + 1) % 100 == 0 { 1int } else { 0 })) by (nonlinear_arith)
        requires
            0 <= a,
    {
    }
    if (a + 1) % 100 == 0 {
        assert((a + 1) % 4 == 0) by (nonlinear_arith)
            requires
                (a + 1) % 100 == 0,
        {
        }
    }
}

/// Years of an era start in order.
proof fn lemma_year_start_mono(a: int, b: int)
    requires
        0 <= a < b < 400,
    ensures
        year_start(a + 1) <= year_start(b),
    decreases b - a,
{
    if a + 1 < b {
        lemma_year_start_mono(a + 1, b);
        lemma_year_start_step(a + 1);
    }
}

/// The parts of a valid date as `days_from_civil` counts it: the era,
/// the year of the era and the day of the era, which lies in that year.
proof fn lemma_civil_parts(y: int, m: int, d: int)
    requires
        1 <= m <= 12,
        1 <= d <= days_in_month(y, m),
    ensures
        ({
            let yy = if m <= 2 { y - 1 } else { y };
            let era = yy / 400;
            let yoe = yy - era * 400;
            let mp = if m > 2 { m - 3 } else { m + 9 };
            let doy = month_start(mp) + d - 1;
            let doe = year_start(yoe) + doy;
            &&& 0 <= yoe < 400
            &&& year_start(yoe) <= doe
            &&& (yoe < 399 ==> doe < year_start(yoe + 1))
            &&& 0 <= doe < 146097
            &&& days_from_civil(y, m, d) == era * 146097 + doe - 719468
        }),
{
    let yy = if m <= 2 { y - 1 } else { y };
    let era = yy / 400;
    let yoe = yy - era * 400;
    let mp = if m > 2 { m - 3 } else { m + 9 };
    let doy = month_start(mp) + d - 1;
    lemma_day_of_year(y, m, d);
    assert(0 <= yoe < 400) by (nonlinear_arith)
        requires
            era == yy / 400,
            yoe == yy - era * 400,
    {
    }
    if mp == 11 && doy == 365 {
        // The 29th of February: y is a leap year, and y = yy + 1.
        assert(d == 29 && m == 2 && is_leap(y));
        assert((yoe + 1) % 4 == y % 4 && (yoe + 1) % 100 == y % 100 && (yoe + 1) % 400 == y % 400) by (nonlinear_arith)
            requires
                yoe == yy - era * 400,
                y == yy + 1,
        {
        }
    }
    if yoe < 399 {
        lemma_year_start_step(yoe);
        if mp == 11 && doy == 365 {
            assert((yoe + 1) % 400 != 0);
        }
    }
    assert(year_start(399) == 145731);
    if yoe < 399 {
        lemma_year_start_mono(yoe, 399);
    }
    assert(year_start(yoe) >= 0) by (nonlinear_arith)
        requires
            0 <= yoe < 400,
    {
    }
}

/// Two valid dates with the same day count are the same date: the date
/// text `date_text` of an instant is therefore fixed by it (see
/// `is_date_string_of`).
pub proof fn lemma_days_from_civil_injective(y1: int, m1: int, d1: int, y2: int, m2: int, d2: int)
    requires
        1 <= m1 <= 12,
        1 <= d1 <= days_in_month(y1, m1),
        1 <= m2 <= 12,
        1 <= d2 <= days_in_month(y2, m2),
        days_from_civil(y1, m1, d1) == days_from_civil(y2, m2, d2),
    ensures
        y1 == y2,
        m1 == m2,
        d1 == d2,
{
    lemma_civil_parts(y1, m1, d1);
    lemma_civil_parts(y2, m2, d2);
    let yy1 = if m1 <= 2 { y1 - 1 } else { y1 };
    let yy2 = if m2 <= 2 { y2 - 1 } else { y2 };
    let era1 = yy1 / 400;
    let era2 = yy2 / 400;
    let yoe1 = yy1 - era1 * 400;
    let yoe2 = yy2 - era2 * 400;
    let mp1 = if m1 > 2 { m1 - 3 } else { m1 + 9 };
    let mp2 = if m2 > 2 { m2 - 3 } else { m2 + 9 };
    let doy1 = month_start(mp1) + d1 - 1;
    let doy2 = month_start(mp2) + d2 - 1;
    let doe1 = year_start(yoe1) + doy1;
    let doe2 = year_start(yoe2) + doy2;
    assert(era1 == era2 && doe1 == doe2) by (nonlinear_arith)
        requires
            era1 * 146097 + doe1 == era2 * 146097 + doe2,
            0 <= doe1 < 146097,
            0 <= doe2 < 146097,
    {
    }
    if yoe1 < yoe2 {
        lemma_year_start_mono(yoe1, yoe2);
        assert(false);
    }
    if yoe2 < yoe1 {
        lemma_year_start_mono(yoe2, yoe1);
        assert(false);
    }
    assert(doy1 == doy2);
    lemma_day_of_year(y1, m1, d1);
    lemma_day_of_year(y2, m2, d2);
    if mp1 < mp2 {
        lemma_month_start_mono(mp1 + 1, mp2);
        assert(false);
    }
    if mp2 < mp1 {
        lemma_month_start_mono(mp2 + 1, mp1);
        assert(false);
    }
    assert(yy1 == yy2) by (nonlinear_arith)
        requires
            era1 == era2,
            yoe1 == yoe2,
            yoe1 == yy1 - era1 * 400,
            yoe2 == yy2 - era2 * 400,
    {
    }
}

/// The PDF date string `D:YYYYMMDDHHmmSSZ` of a date and a second of the
/// day, each field zero-padded (the year to at least four digits).
pub open spec fn date_text(y: nat, m: nat, d: nat, secs_of_day: nat) -> Seq<char> {
    "D:"@ + ascii_text(pad_zeros(dec(y), 4)) + ascii_text(pad_zeros(dec(m), 2)) + ascii_text(
        pad_zeros(dec(d), 2),
    ) + ascii_text(pad_zeros(dec(secs_of_day / 3600), 2)) + ascii_text(
        pad_zeros(dec((secs_of_day % 3600) / 60), 2),
    ) + ascii_text(pad_zeros(dec(secs_of_day % 60), 2)) + "Z"@
}

/// The PDF date string (UTC) of the instant `secs` seconds after
/// 1970-01-01T00:00:00Z.
pub open spec fn is_date_string_of(s: Seq<char>, secs: nat) -> bool {
    exists|y: nat, m: nat, d: nat|
        #![trigger date_text(y, m, d, secs % 86400)]
        1 <= m <= 12 && 1 <= d <= days_in_month(y as int, m as int) && days_from_civil(
            y as int,
            m as int,
            d as int,
        ) == secs / 86400 && s == date_text(y, m, d, secs % 86400)
}

/// An instant has one PDF date string: the string `format_pdf_date_utc`
/// returns is fixed by its argument.
pub proof fn lemma_date_string_unique(s1: Seq<char>, s2: Seq<char>, secs: nat)
    requires
        is_date_string_of(s1, secs),
        is_date_string_of(s2, secs),
    ensures
        s1 == s2,
{
    let (y1, m1, d1) = choose|y: nat, m: nat, d: nat|
        #![trigger date_text(y, m, d, secs % 86400)]
        1 <= m <= 12 && 1 <= d <= days_in_month(y as int, m as int) && days_from_civil(y as int, m as int, d as int) == secs
            / 86400 && s1 == date_text(y, m, d, secs % 86400);
    let (y2, m2, d2) = choose|y: nat, m: nat, d: nat|
        #![trigger date_text(y, m, d, secs % 86400)]
        1 <= m <= 12 && 1 <= d <= days_in_month(y as int, m as int) && days_from_civil(y as int, m as int, d as int) == secs
            / 86400 && s2 == date_text(y, m, d, secs % 86400);
    lemma_days_from_civil_injective(y1 as int, m1 as int, d1 as int, y2 as int, m2 as int, d2 as int);
}

/// Appends `n` in decimal, zero-padded to `width`, as characters.
fn push_padded(s: &mut String, n: u64, width: usize)
    ensures
        final(s)@ == old(s)@ + ascii_text(pad_zeros(dec(n as nat), width as nat)),
{
    let mut digits: Vec<u8> = Vec::new();
    write_dec_padded(&mut digits, n, width);
    proof {
        crate::numfmt::lemma_dec_props(n as nat);
        assert(digits@ =~= pad_zeros(dec(n as nat), width as nat));
        assert forall|i: int| 0 <= i < digits@.len() implies #[trigger] digits@[i] < 128 by {
            if dec(n as nat).len() < width {
                let k = width - dec(n as nat).len();
                if i >= k {
                    assert(digits@[i] == dec(n as nat)[i - k]);
                }
            }
        }
    }
    push_ascii(s, digits.as_slice());
}

/// Formats the instant `secs` seconds after 1970-01-01T00:00:00Z as a PDF
/// date string (ISO 32000-1 7.9.4) in UTC: `D:YYYYMMDDHHmmSSZ`.
pub fn format_pdf_date_utc(secs: u64) -> (r: String)
    ensures
        is_date_string_of(r@, secs as nat),
{
    let days = (secs / 86_400) as i64;
    let rem = secs % 86_400;
    let (y, mo, d) = civil_from_days(days);
    assert(y >= 0) by {
        assert(days >= 0);
        if y < 0 {
            assert(days_from_civil(y as int, mo as int, d as int) < 0) by (nonlinear_arith)
                requires
                    y < 0,
                    1 <= mo <= 12,
                    1 <= d <= 31,
            {
            }
        }
    }
    let mut s = String::from_str("D:");
    push_padded(&mut s, y as u64, 4);
    push_padded(&mut s, mo as u64, 2);
    push_padded(&mut s, d as u64, 2);
    push_padded(&mut s, rem / 3600, 2);
    push_padded(&mut s, (rem % 3600) / 60, 2);
    push_padded(&mut s, rem % 60, 2);
    s.append("Z");
    proof {
        let t = date_text(y as nat, mo as nat, d as nat, secs as nat % 86400);
        assert(s@ =~= t);
        assert(days == secs / 86400);
    }
    s
}

/// The system clock's time (calls `std::time::SystemTime`, which only
/// Rust sees inside).
#[verifier::external_type_specification]
#[verifier::external_body]
pub struct ExSystemTime(std::time::SystemTime);

/// The system clock's reading: calls `SystemTime::now`. Nothing is
/// promised of it.
#[verifier::external_body]
fn system_now() -> (t: std::time::SystemTime) {
    std::time::SystemTime::now()
}

/// The time elapsed from 1970-01-01T00:00:00Z to `t`, or none when `t`
/// is earlier: calls `SystemTime::duration_since(UNIX_EPOCH)`. Nothing is
/// promised of the value.
#[verifier::external_body]
fn since_unix_epoch(t: std::time::SystemTime) -> (d: Option<std::time::Duration>) {
    t.duration_since(std::time::UNIX_EPOCH).ok()
}

/// The whole seconds of `d`: calls `Duration::as_secs`. Nothing is
/// promised of the value.
#[verifier::external_body]
fn whole_seconds(d: std::time::Duration) -> (secs: u64) {
    d.as_secs()
}

/// The seconds since 1970-01-01T00:00:00Z on the system clock, zero
/// when the clock reads earlier.
fn unix_seconds_now() -> (secs: u64) {
    match since_unix_epoch(system_now()) {
        Some(d) => whole_seconds(d),
        None => 0,
    }
}

/// The current time as a PDF date string (UTC).
pub fn now_pdf_date() -> (r: String)
    ensures
        exists|secs: nat| #[trigger] is_date_string_of(r@, secs),
{
    let secs = unix_seconds_now();
    let r = format_pdf_date_utc(secs);
    assert(is_date_string_of(r@, secs as nat));
    r
}

/// The rectangle with the same corners put in order: `llx <= urx` and
/// `lly <= ury`.
pub fn normalize_rect(r: Rectangle) -> (n: Rectangle)
    ensures
        n.llx.micros == if r.llx.micros <= r.urx.micros { r.llx.micros } else { r.urx.micros },
        n.urx.micros == if r.llx.micros <= r.urx.micros { r.urx.micros } else { r.llx.micros },
        n.lly.micros == if r.lly.micros <= r.ury.micros { r.lly.micros } else { r.ury.micros },
        n.ury.micros == if r.lly.micros <= r.ury.micros { r.ury.micros } else { r.lly.micros },
{
    let llx = if r.llx.micros <= r.urx.micros { r.llx } else { r.urx };
    let urx = if r.llx.micros <= r.urx.micros { r.urx } else { r.llx };
    let lly = if r.lly.micros <= r.ury.micros { r.lly } else { r.ury };
    let ury = if r.lly.micros <= r.ury.micros { r.ury } else { r.lly };
    Rectangle::new(llx, lly, urx, ury)
}

/// The code of a run of bytes read big-endian, keeping the low 32 bits.
pub open spec fn code_of(b: Seq<u8>) -> u32
    decreases b.len(),
{
    if b.len() == 0 {
        0
    } else {
        ((code_of(b.drop_last()) as int * 256 + b.last()) % 0x1_0000_0000) as u32
    }
}

/// The codes of the whole chunks of `width` bytes of `b`, a last partial
/// chunk passed over.
pub open spec fn chunk_codes(b: Seq<u8>, width: nat) -> Set<u32> {
    Set::new(
        |c: u32|
            exists|k: int|
                0 <= k && (k + 1) * width <= b.len() && #[trigger] code_of(b.subrange(k * width, (k + 1) * width)) == c,
    )
}

/// Adds to `out` the code of every whole chunk of `code_width` bytes of
/// `bytes` (a width of zero read as one).
pub fn collect_codes(bytes: &[u8], code_width: usize, out: &mut HashSet<u32>)
    ensures
        final(out)@ == old(out)@.union(chunk_codes(bytes@, if code_width == 0 { 1 } else { code_width as nat })),
{
    broadcast use vstd::std_specs::hash::group_hash_axioms;
    let cw: usize = if code_width == 0 { 1 } else { code_width };
    let ghost start = out@;
    let ghost w = cw as nat;
    let mut i: usize = 0;
    let mut k: usize = 0;
    while cw <= bytes.len() - i
        invariant
            i <= bytes@.len(),
            bytes@.len() == bytes.len(),
            cw >= 1,
            w == cw,
            i == k * cw,
            out@ == start.union(Set::new(
                |c: u32| exists|j: int| 0 <= j < k && #[trigger] code_of(bytes@.subrange(j * w, (j + 1) * w)) == c,
            )),
        decreases bytes@.len() - i,
    {
        let mut code: u32 = 0;
        let mut t: usize = 0;
        while t < cw
            invariant
                t <= cw,
                i + cw <= bytes@.len(),
                bytes@.len() == bytes.len(),
                code == code_of(bytes@.subrange(i as int, (i + t) as int)),
            decreases cw - t,
        {
            let b = bytes[i + t];
            proof {
                let s1 = bytes@.subrange(i as int, (i + t + 1) as int);
                assert(s1.drop_last() =~= bytes@.subrange(i as int, (i + t) as int));
                assert(s1.last() == b);
                assert(((code as u64) * 256 + b as u64) % 0x1_0000_0000 == ((code << 8) | (b as u32)) as u64) by (bit_vector);
            }
            code = (code << 8) | (b as u32);
            t = t + 1;
        }
        let ghost before = out@;
        out.insert(code);
        proof {
            assert(i + cw == (k + 1) * cw) by (nonlinear_arith)
                requires
                    i == k * cw,
            ;
            assert(k + 1 <= (k + 1) * cw) by (nonlinear_arith)
                requires
                    cw >= 1,
            ;
            assert(out@ =~= start.union(Set::new(
                |c: u32| exists|j: int| 0 <= j < k + 1 && #[trigger] code_of(bytes@.subrange(j * w, (j + 1) * w)) == c,
            ))) by {
                assert(code == code_of(bytes@.subrange(k * w, (k + 1) * w)));
            }
        }
        i = i + cw;
        k = k + 1;
    }
    proof {
        assert(Set::new(
            |c: u32| exists|j: int| 0 <= j < k && #[trigger] code_of(bytes@.subrange(j * w, (j + 1) * w)) == c,
        ) =~= chunk_codes(bytes@, w)) by {
            assert forall|c: u32| chunk_codes(bytes@, w).contains(c) implies exists|j: int|
                0 <= j < k && #[trigger] code_of(bytes@.subrange(j * w, (j + 1) * w)) == c by {
                let j = choose|j: int| 0 <= j && (j + 1) * w <= bytes@.len() && #[trigger] code_of(bytes@.subrange(j * w, (j + 1) * w)) == c;
                if j >= k {
                    assert((j + 1) * w >= (k + 1) * w) by (nonlinear_arith)
                        requires
                            j >= k,
                            w >= 1,
                    ;
                    assert((k + 1) * w == k * w + w) by (nonlinear_arith);
                }
            }
            assert forall|c: u32| (exists|j: int| 0 <= j < k && #[trigger] code_of(bytes@.subrange(j * w, (j + 1) * w)) == c) implies chunk_codes(bytes@, w).contains(c) by {
                let j = choose|j: int| 0 <= j < k && #[trigger] code_of(bytes@.subrange(j * w, (j + 1) * w)) == c;
                assert((j + 1) * w <= k * w) by (nonlinear_arith)
                    requires
                        j < k,
                        w >= 1,
                ;
            }
        }
    }
}

} // verus!
