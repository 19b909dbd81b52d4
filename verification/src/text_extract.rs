//! Text extraction from a page's content stream (ISO 32000-1 9.10).
//!
//! The text shown by `Tj`, `'`, `"` and `TJ` is decoded per font: a
//! simple font reads one byte per code, a composite (`Type0`) font two
//! (the `Identity-H`/`-V` case). A code is looked up, in order, in the
//! font's `/ToUnicode` CMap (9.10.3); for a simple font, in the
//! WinAnsiEncoding table (Annex D.2); for a composite font it becomes
//! U+FFFD. Text shown with no font selected is read through the
//! WinAnsiEncoding table. Line-moving operators and `ET` emit a line
//! break, and a `TJ` adjustment below -100 a space.

use vstd::prelude::*;
use crate::content_stream::{lemma_view_items, parse_content_stream, spec_parse_content_stream, view_items, ContentItem, ItemV};
use crate::font_use::{font_entries_v, resolve_v, resources_v, MAX_RESOURCE_DEPTH};
use crate::graph::{ref_id, EditableDocument, EditorError};
use crate::object::ObjectId;
use crate::object::{entries_get, lemma_view_entries, lemma_view_objs, str_eq, view_objs, ObjV, Object, PdfDictionary};
use crate::redact::code_of;
use crate::stdtext::{char_from_u32, push_char};
use crate::util::{be_units, decode_utf16_lossy, utf16_decode};

verus! {

/// The most codes one `bfrange` entry of a `/ToUnicode` CMap maps: a
/// longer range is passed over.
pub const MAX_CMAP_RANGE: u32 = 65536;

/// The text of UTF-16BE bytes.
pub open spec fn utf16_text(b: Seq<u8>) -> Seq<char> {
    utf16_decode(be_units(b))
}

/// The text of the destination `d` of a `bfrange` entry for the code `j`
/// places after its first: `d` with its last UTF-16 unit increased by
/// `j` (modulo 2^16).
pub open spec fn bumped_text(d: Seq<u8>, j: nat) -> Seq<char> {
    let u = be_units(d);
    if u.len() == 0 {
        Seq::empty()
    } else {
        utf16_decode(u.update(u.len() - 1, ((u.last() + j) % 65536) as u16))
    }
}

/// The mappings of the operands of one `beginbfchar ... endbfchar`
/// block: each pair of strings maps the code of the first to the
/// UTF-16BE text of the second; a pair not of two strings is passed
/// over.
pub open spec fn bfchar_pairs(args: Seq<ObjV>) -> Seq<(u32, Seq<char>)>
    decreases args.len(),
{
    if args.len() < 2 {
        Seq::empty()
    } else {
        (match (args[0], args[1]) {
            (ObjV::Str(_, s), ObjV::Str(_, d)) => seq![(code_of(s), utf16_text(d))],
            _ => Seq::empty(),
        }) + bfchar_pairs(args.skip(2))
    }
}

/// The mappings of one `bfrange` entry from its `j`-th code on, of `n`
/// codes from `lo`: a string destination gives each code its bumped
/// text; an array gives each code the text of its string element, a
/// code without one being passed over.
pub open spec fn range_pairs(lo: u32, dst: ObjV, j: nat, n: nat) -> Seq<(u32, Seq<char>)>
    decreases n - j,
{
    if j >= n {
        Seq::empty()
    } else {
        (match dst {
            ObjV::Str(_, d) => seq![((lo + j) as u32, bumped_text(d, j))],
            ObjV::Array(a) => if j < a.len() && a[j as int] is Str {
                seq![((lo + j) as u32, utf16_text(a[j as int]->Str_1))]
            } else {
                Seq::empty()
            },
            _ => Seq::empty(),
        }) + range_pairs(lo, dst, j + 1, n)
    }
}

/// The mappings of the operands of one `beginbfrange ... endbfrange`
/// block: triples of low code, high code and destination; a triple whose
/// bounds are not strings, run backwards or span `MAX_CMAP_RANGE` codes
/// or more is passed over.
pub open spec fn bfrange_pairs(args: Seq<ObjV>) -> Seq<(u32, Seq<char>)>
    decreases args.len(),
{
    if args.len() < 3 {
        Seq::empty()
    } else {
        (match (args[0], args[1]) {
            (ObjV::Str(_, l), ObjV::Str(_, h)) => if code_of(l) <= code_of(h) && code_of(h) - code_of(l) < MAX_CMAP_RANGE {
                range_pairs(code_of(l), args[2], 0, (code_of(h) - code_of(l) + 1) as nat)
            } else {
                Seq::empty()
            },
            _ => Seq::empty(),
        }) + bfrange_pairs(args.skip(3))
    }
}

/// The mappings of a parsed CMap, in order.
pub open spec fn cmap_pairs(items: Seq<ItemV>) -> Seq<(u32, Seq<char>)>
    decreases items.len(),
{
    if items.len() == 0 {
        Seq::empty()
    } else {
        (match items[0] {
            ItemV::Op(op, args) => if op == "endbfchar"@ {
                bfchar_pairs(args)
            } else if op == "endbfrange"@ {
                bfrange_pairs(args)
            } else {
                Seq::empty()
            },
            _ => Seq::empty(),
        }) + cmap_pairs(items.drop_first())
    }
}

/// The mappings of a `/ToUnicode` CMap's bytes, read with the content
/// stream syntax (its `bfchar`/`bfrange` blocks end in the operators
/// `endbfchar`/`endbfrange`).
pub open spec fn tounicode_v(b: Seq<u8>) -> Seq<(u32, Seq<char>)> {
    cmap_pairs(spec_parse_content_stream(b))
}

/// The text mapped to `code`: that of its last mapping.
pub open spec fn lookup_v(pairs: Seq<(u32, Seq<char>)>, code: u32) -> Option<Seq<char>>
    decreases pairs.len(),
{
    if pairs.len() == 0 {
        None
    } else if pairs.last().0 == code {
        Some(pairs.last().1)
    } else {
        lookup_v(pairs.drop_last(), code)
    }
}

/// The views of mappings.
pub open spec fn pairs_v(s: Seq<(u32, String)>) -> Seq<(u32, Seq<char>)> {
    Seq::new(s.len(), |i: int| (s[i].0, s[i].1@))
}

/// The text of UTF-16BE bytes.
fn utf16_string(b: &[u8]) -> (r: String)
    ensures
        r@ == utf16_text(b@),
{
    let n = b.len() / 2;
    let mut units: Vec<u16> = Vec::new();
    let mut k: usize = 0;
    while k < n
        invariant
            k <= n,
            n == b@.len() / 2,
            b@.len() == b.len(),
            units@.len() == k,
            forall|j: int| 0 <= j < k ==> #[trigger] units@[j] == be_units(b@)[j],
        decreases n - k,
    {
        units.push((b[2 * k] as u16) * 256 + (b[2 * k + 1] as u16));
        k = k + 1;
    }
    assert(units@ =~= be_units(b@));
    decode_utf16_lossy(units.as_slice())
}

/// The bumped text of a range destination (see `bumped_text`).
fn bumped_string(d: &[u8], j: u32) -> (r: String)
    ensures
        r@ == bumped_text(d@, j as nat),
{
    let n = d.len() / 2;
    if n == 0 {
        return String::new();
    }
    let mut units: Vec<u16> = Vec::new();
    let mut k: usize = 0;
    while k < n
        invariant
            k <= n,
            n == d@.len() / 2,
            d@.len() == d.len(),
            units@.len() == k,
            forall|i: int| 0 <= i < k ==> #[trigger] units@[i] == be_units(d@)[i],
        decreases n - k,
    {
        units.push((d[2 * k] as u16) * 256 + (d[2 * k + 1] as u16));
        k = k + 1;
    }
    assert(units@ =~= be_units(d@));
    let last = units[n - 1];
    let bumped = ((last as u64 + j as u64) % 65536) as u16;
    units.set(n - 1, bumped);
    decode_utf16_lossy(units.as_slice())
}

/// The code of a run of at most four bytes (see `code_of`).
fn code_of_bytes(b: &[u8]) -> (c: u32)
    ensures
        c == code_of(b@),
{
    let mut code: u32 = 0;
    let mut t: usize = 0;
    while t < b.len()
        invariant
            t <= b@.len(),
            code == code_of(b@.subrange(0, t as int)),
        decreases b@.len() - t,
    {
        let x = b[t];
        proof {
            let s1 = b@.subrange(0, t + 1);
            assert(s1.drop_last() =~= b@.subrange(0, t as int));
            assert(((code as u64) * 256 + x as u64) % 0x1_0000_0000 == ((code << 8) | (x as u32)) as u64) by (bit_vector);
        }
        code = (code << 8) | (x as u32);
        t = t + 1;
    }
    assert(b@.subrange(0, b@.len() as int) =~= b@);
    code
}

/// Appends the mappings of a `bfchar` block's operands.
fn push_bfchar(args: &Vec<Object>, out: &mut Vec<(u32, String)>)
    ensures
        pairs_v(final(out)@) == pairs_v(old(out)@) + bfchar_pairs(view_objs(args@)),
{
    let ghost av = view_objs(args@);
    proof {
        lemma_view_objs(args@);
        assert(av.skip(0) =~= av);
    }
    let ghost start = pairs_v(out@);
    let mut i: usize = 0;
    while i + 1 < args.len()
        invariant
            i <= args@.len(),
            i % 2 == 0,
            av == view_objs(args@),
            av.len() == args@.len(),
            forall|k: int| 0 <= k < av.len() ==> #[trigger] av[k] == args@[k].v(),
            start + bfchar_pairs(av) == pairs_v(out@) + bfchar_pairs(av.skip(i as int)),
        decreases args@.len() - i,
    {
        let ghost rest = av.skip(i as int);
        assert(rest.skip(2) =~= av.skip(i as int + 2));
        assert(rest[0] == av[i as int] && rest[1] == av[i as int + 1]);
        let ghost before = pairs_v(out@);
        match (&args[i], &args[i + 1]) {
            (Object::String(s), Object::String(d)) => {
                let code = code_of_bytes(s.as_bytes());
                let text = utf16_string(d.as_bytes());
                out.push((code, text));
                assert(pairs_v(out@) =~= before.push((code, text@)));
            },
            _ => {},
        }
        assert(pairs_v(out@) + bfchar_pairs(av.skip(i as int + 2)) =~= before + bfchar_pairs(rest));
        i = i + 2;
    }
    assert(bfchar_pairs(av.skip(i as int)) =~= Seq::<(u32, Seq<char>)>::empty());
    assert(pairs_v(out@) + Seq::<(u32, Seq<char>)>::empty() =~= pairs_v(out@));
}

/// Appends the mappings of one `bfrange` entry of `n` codes from `lo`.
fn push_range(lo: u32, n: u32, dst: &Object, out: &mut Vec<(u32, String)>)
    requires
        lo as int + n as int <= u32::MAX + 1,
    ensures
        pairs_v(final(out)@) == pairs_v(old(out)@) + range_pairs(lo, dst.v(), 0, n as nat),
{
    let ghost start = pairs_v(out@);
    let mut j: u32 = 0;
    while j < n
        invariant
            j <= n,
            lo as int + n as int <= u32::MAX + 1,
            start + range_pairs(lo, dst.v(), 0, n as nat) == pairs_v(out@) + range_pairs(lo, dst.v(), j as nat, n as nat),
        decreases n - j,
    {
        let ghost before = pairs_v(out@);
        match dst {
            Object::String(d) => {
                let text = bumped_string(d.as_bytes(), j);
                out.push((lo + j, text));
                assert(pairs_v(out@) =~= before.push(((lo + j) as u32, text@)));
            },
            Object::Array(a) => {
                proof {
                    lemma_view_objs(a.items@);
                }
                if (j as usize) < a.items.len() {
                    match &a.items[j as usize] {
                        Object::String(s) => {
                            let text = utf16_string(s.as_bytes());
                            out.push((lo + j, text));
                            assert(pairs_v(out@) =~= before.push(((lo + j) as u32, text@)));
                        },
                        _ => {},
                    }
                }
            },
            _ => {},
        }
        assert(pairs_v(out@) + range_pairs(lo, dst.v(), j as nat + 1, n as nat) =~= before + range_pairs(
            lo,
            dst.v(),
            j as nat,
            n as nat,
        ));
        j = j + 1;
    }
    assert(pairs_v(out@) + Seq::<(u32, Seq<char>)>::empty() =~= pairs_v(out@));
}

/// Appends the mappings of a `bfrange` block's operands.
fn push_bfrange(args: &Vec<Object>, out: &mut Vec<(u32, String)>)
    ensures
        pairs_v(final(out)@) == pairs_v(old(out)@) + bfrange_pairs(view_objs(args@)),
{
    let ghost av = view_objs(args@);
    proof {
        lemma_view_objs(args@);
        assert(av.skip(0) =~= av);
    }
    let ghost start = pairs_v(out@);
    let mut i: usize = 0;
    while args.len() >= 3 && i < args.len() - 2
        invariant
            i <= args@.len(),
            av == view_objs(args@),
            av.len() == args@.len(),
            forall|k: int| 0 <= k < av.len() ==> #[trigger] av[k] == args@[k].v(),
            start + bfrange_pairs(av) == pairs_v(out@) + bfrange_pairs(av.skip(i as int)),
        decreases args@.len() - i,
    {
        let ghost rest = av.skip(i as int);
        assert(rest.skip(3) =~= av.skip(i as int + 3));
        assert(rest[0] == av[i as int] && rest[1] == av[i as int + 1] && rest[2] == av[i as int + 2]);
        let ghost before = pairs_v(out@);
        match (&args[i], &args[i + 1]) {
            (Object::String(l), Object::String(h)) => {
                let lo = code_of_bytes(l.as_bytes());
                let hi = code_of_bytes(h.as_bytes());
                if lo <= hi && hi - lo < MAX_CMAP_RANGE {
                    push_range(lo, hi - lo + 1, &args[i + 2], out);
                }
            },
            _ => {},
        }
        assert(pairs_v(out@) + bfrange_pairs(av.skip(i as int + 3)) =~= before + bfrange_pairs(rest));
        i = i + 3;
    }
    assert(bfrange_pairs(av.skip(i as int)) =~= Seq::<(u32, Seq<char>)>::empty());
    assert(pairs_v(out@) + Seq::<(u32, Seq<char>)>::empty() =~= pairs_v(out@));
}

/// The mappings of a `/ToUnicode` CMap (see `tounicode_v`), in order.
pub fn parse_tounicode_cmap(data: &[u8]) -> (r: Vec<(u32, String)>)
    ensures
        pairs_v(r@) == tounicode_v(data@),
{
    let items = parse_content_stream(data);
    let ghost vi = view_items(items@);
    proof {
        lemma_view_items(items@);
        assert(vi.skip(0) =~= vi);
    }
    let mut out: Vec<(u32, String)> = Vec::new();
    assert(pairs_v(out@) =~= Seq::<(u32, Seq<char>)>::empty());
    let mut i: usize = 0;
    while i < items.len()
        invariant
            i <= items@.len(),
            vi == view_items(items@),
            vi == spec_parse_content_stream(data@),
            vi.len() == items@.len(),
            forall|k: int| 0 <= k < vi.len() ==> #[trigger] vi[k] == items@[k].v(),
            cmap_pairs(vi) == pairs_v(out@) + cmap_pairs(vi.skip(i as int)),
        decreases items@.len() - i,
    {
        let ghost rest = vi.skip(i as int);
        assert(rest.drop_first() =~= vi.skip(i as int + 1));
        assert(rest[0] == vi[i as int]);
        let ghost before = pairs_v(out@);
        match &items[i] {
            ContentItem::Op { operator, operands } => {
                if str_eq(operator.as_str(), "endbfchar") {
                    push_bfchar(operands, &mut out);
                } else if str_eq(operator.as_str(), "endbfrange") {
                    push_bfrange(operands, &mut out);
                }
            },
            _ => {},
        }
        assert(pairs_v(out@) + cmap_pairs(vi.skip(i as int + 1)) =~= before + cmap_pairs(rest));
        i = i + 1;
    }
    assert(cmap_pairs(vi.skip(i as int)) =~= Seq::<(u32, Seq<char>)>::empty());
    assert(pairs_v(out@) + Seq::<(u32, Seq<char>)>::empty() =~= pairs_v(out@));
    out
}

/// The text mapped to `code` (see `lookup_v`).
pub fn lookup_code(pairs: &Vec<(u32, String)>, code: u32) -> (r: Option<String>)
    ensures
        match lookup_v(pairs_v(pairs@), code) {
            Some(t) => r matches Some(s) && s@ == t,
            None => r is None,
        },
{
    let ghost pv = pairs_v(pairs@);
    let mut i: usize = pairs.len();
    assert(pv.take(i as int) =~= pv);
    while i > 0
        invariant
            i <= pairs@.len(),
            pv == pairs_v(pairs@),
            lookup_v(pv, code) == lookup_v(pv.take(i as int), code),
        decreases i,
    {
        let ghost t = pv.take(i as int);
        assert(t.drop_last() =~= pv.take(i as int - 1));
        assert(t.last() == (pairs@[i - 1].0, pairs@[i - 1].1@));
        if pairs[i - 1].0 == code {
            return Some(pairs[i - 1].1.clone());
        }
        i = i - 1;
    }
    None
}

/// The character of a byte in WinAnsiEncoding (ISO 32000-1 Annex D.2,
/// the Windows-1252 code page): the Latin-1 character outside
/// 0x80..=0x9F, the code page's character inside it, U+FFFD for the five
/// codes it leaves undefined.
pub open spec fn win_ansi_char(b: u8) -> char {
    if b < 0x80 || b > 0x9F {
        (b as u32) as char
    } else {
        let t = seq![
            '\u{20AC}', '\u{FFFD}', '\u{201A}', '\u{0192}', '\u{201E}', '\u{2026}', '\u{2020}', '\u{2021}',
            '\u{02C6}', '\u{2030}', '\u{0160}', '\u{2039}', '\u{0152}', '\u{FFFD}', '\u{017D}', '\u{FFFD}',
            '\u{FFFD}', '\u{2018}', '\u{2019}', '\u{201C}', '\u{201D}', '\u{2022}', '\u{2013}', '\u{2014}',
            '\u{02DC}', '\u{2122}', '\u{0161}', '\u{203A}', '\u{0153}', '\u{FFFD}', '\u{017E}', '\u{0178}'
        ];
        t[b - 0x80]
    }
}

/// The WinAnsiEncoding text of bytes.
pub open spec fn win_ansi_text(b: Seq<u8>) -> Seq<char> {
    Seq::new(b.len(), |i: int| win_ansi_char(b[i]))
}

/// The WinAnsiEncoding character of a byte (see `win_ansi_char`).
pub fn win_ansi_char_of(b: u8) -> (c: char)
    ensures
        c == win_ansi_char(b),
{
    if b < 0x80 || b > 0x9F {
        let c = char_from_u32(b as u32).unwrap();
        proof {
            broadcast use vstd::utf8::char_u32_cast;
            vstd::utf8::char_u32_cast(c, c as u32);
        }
        return c;
    }
    match b {
        0x80 => '\u{20AC}',
        0x82 => '\u{201A}',
        0x83 => '\u{0192}',
        0x84 => '\u{201E}',
        0x85 => '\u{2026}',
        0x86 => '\u{2020}',
        0x87 => '\u{2021}',
        0x88 => '\u{02C6}',
        0x89 => '\u{2030}',
        0x8A => '\u{0160}',
        0x8B => '\u{2039}',
        0x8C => '\u{0152}',
        0x8E => '\u{017D}',
        0x91 => '\u{2018}',
        0x92 => '\u{2019}',
        0x93 => '\u{201C}',
        0x94 => '\u{201D}',
        0x95 => '\u{2022}',
        0x96 => '\u{2013}',
        0x97 => '\u{2014}',
        0x98 => '\u{02DC}',
        0x99 => '\u{2122}',
        0x9A => '\u{0161}',
        0x9B => '\u{203A}',
        0x9C => '\u{0153}',
        0x9E => '\u{017E}',
        0x9F => '\u{0178}',
        _ => '\u{FFFD}',
    }
}

/// Appends the WinAnsiEncoding text of `b` to `out`.
pub fn push_win_ansi(out: &mut String, b: &[u8])
    ensures
        final(out)@ == old(out)@ + win_ansi_text(b@),
{
    let ghost start = out@;
    let mut i: usize = 0;
    while i < b.len()
        invariant
            i <= b@.len(),
            out@ == start + win_ansi_text(b@.subrange(0, i as int)),
        decreases b@.len() - i,
    {
        let c = win_ansi_char_of(b[i]);
        push_char(out, c);
        assert(win_ansi_text(b@.subrange(0, i + 1)) =~= win_ansi_text(b@.subrange(0, i as int)).push(c));
        i = i + 1;
    }
    assert(b@.subrange(0, b@.len() as int) =~= b@);
}

/// How a font's codes decode: whether it is composite (two bytes per
/// code) and its `/ToUnicode` mappings, if it has a readable one.
pub type DecoderV = (bool, Option<Seq<(u32, Seq<char>)>>);

/// The text of a font's codes, one code per chunk of one byte (simple
/// font) or two (composite; a last odd byte is a chunk of its own): the
/// `/ToUnicode` text of the chunk's code; else, for a simple font, its
/// WinAnsiEncoding character; for a composite one, U+FFFD.
pub open spec fn decode_v(dec: DecoderV, b: Seq<u8>) -> Seq<char>
    decreases b.len(),
{
    if b.len() == 0 {
        Seq::empty()
    } else {
        let w: int = if dec.0 && b.len() >= 2 { 2 } else { 1 };
        let chunk = b.take(w);
        let mapped = match dec.1 {
            Some(p) => lookup_v(p, code_of(chunk)),
            None => None,
        };
        (match mapped {
            Some(t) => t,
            None => if dec.0 {
                seq!['\u{FFFD}']
            } else {
                win_ansi_text(chunk)
            },
        }) + decode_v(dec, b.skip(w))
    }
}

/// An exec font decoder.
pub struct FontDecoder {
    /// Whether the font is composite (`/Subtype /Type0`).
    pub composite: bool,
    /// Its `/ToUnicode` mappings, when it has a readable one.
    pub tounicode: Option<Vec<(u32, String)>>,
}

impl FontDecoder {
    /// The decoder's value.
    pub open spec fn v(&self) -> DecoderV {
        (
            self.composite,
            match self.tounicode {
                Some(p) => Some(pairs_v(p@)),
                None => None,
            },
        )
    }

    /// Appends the text of `b` (see `decode_v`).
    pub fn decode_into(&self, b: &[u8], out: &mut String)
        ensures
            final(out)@ == old(out)@ + decode_v(self.v(), b@),
    {
        let ghost start = out@;
        let ghost dec = self.v();
        let mut i: usize = 0;
        assert(b@.skip(0) =~= b@);
        while i < b.len()
            invariant
                i <= b@.len(),
                dec == self.v(),
                start + decode_v(dec, b@) == out@ + decode_v(dec, b@.skip(i as int)),
            decreases b@.len() - i,
        {
            let w: usize = if self.composite && b.len() - i >= 2 { 2 } else { 1 };
            let chunk = slice_range(b, i, i + w);
            let ghost rest = b@.skip(i as int);
            assert(rest.take(w as int) =~= chunk@);
            assert(rest.skip(w as int) =~= b@.skip(i + w));
            let code = code_of_bytes(chunk.as_slice());
            let ghost before = out@;
            let mapped = match &self.tounicode {
                Some(p) => lookup_code(p, code),
                None => None,
            };
            match mapped {
                Some(t) => {
                    out.append(t.as_str());
                },
                None => {
                    if self.composite {
                        push_char(out, '\u{FFFD}');
                        assert(out@ =~= before + seq!['\u{FFFD}']);
                    } else {
                        push_win_ansi(out, chunk.as_slice());
                    }
                },
            }
            assert(out@ + decode_v(dec, b@.skip(i + w)) =~= before + decode_v(dec, rest));
            i = i + w;
        }
        assert(b@.skip(i as int) =~= Seq::<u8>::empty());
        assert(out@ + Seq::<char>::empty() =~= out@);
    }
}

/// The bytes `b[start..end]`.
fn slice_range(b: &[u8], start: usize, end: usize) -> (r: Vec<u8>)
    requires
        start <= end <= b@.len(),
    ensures
        r@ == b@.subrange(start as int, end as int),
{
    let mut r: Vec<u8> = Vec::new();
    let mut i = start;
    while i < end
        invariant
            start <= i <= end,
            end <= b@.len(),
            r@ == b@.subrange(start as int, i as int),
        decreases end - i,
    {
        r.push(b[i]);
        assert(b@.subrange(start as int, i + 1) =~= r@);
        i = i + 1;
    }
    r
}

/// How the font dictionary `d` decodes: composite when its `/Subtype` is
/// `Type0`; its `/ToUnicode` mappings when that refers to a stream
/// stored without a `/Filter`.
pub open spec fn decoder_v(doc: &EditableDocument, d: Seq<(Seq<char>, ObjV)>) -> DecoderV {
    (
        entries_get(d, "Subtype"@) == Some(ObjV::Name("Type0"@)),
        match entries_get(d, "ToUnicode"@) {
            Some(ObjV::Reference(n, g)) => match doc.object(ref_id(n, g)) {
                Some(ObjV::Stream(sd, data)) => if entries_get(sd, "Filter"@) is Some {
                    None
                } else {
                    Some(tounicode_v(data))
                },
                _ => None,
            },
            _ => None,
        },
    )
}

/// The decoders of the fonts of a `/Font` subdictionary, by resource
/// name, in order; an entry that does not resolve to a dictionary is
/// passed over.
pub open spec fn decoders_v(doc: &EditableDocument, fd: Seq<(Seq<char>, ObjV)>) -> Seq<(Seq<char>, DecoderV)>
    decreases fd.len(),
{
    if fd.len() == 0 {
        Seq::empty()
    } else {
        let r = decoders_v(doc, fd.drop_last());
        match resolve_v(doc, fd.last().1) {
            Some(d) => r.push((fd.last().0, decoder_v(doc, d))),
            None => r,
        }
    }
}

/// The decoder of the resource name `name`: the last one under it.
pub open spec fn find_dec(decs: Seq<(Seq<char>, DecoderV)>, name: Seq<char>) -> Option<DecoderV>
    decreases decs.len(),
{
    if decs.len() == 0 {
        None
    } else if decs.last().0 == name {
        Some(decs.last().1)
    } else {
        find_dec(decs.drop_last(), name)
    }
}

/// The text of string bytes shown with the decoder `cur`, or read
/// through WinAnsiEncoding when no font is selected.
pub open spec fn shown_v(cur: Option<DecoderV>, b: Seq<u8>) -> Seq<char> {
    match cur {
        Some(d) => decode_v(d, b),
        None => win_ansi_text(b),
    }
}

/// The text of the elements of a `TJ` array: its strings, and a space
/// for each adjustment below -100.
pub open spec fn tj_text(a: Seq<ObjV>, cur: Option<DecoderV>) -> Seq<char>
    decreases a.len(),
{
    if a.len() == 0 {
        Seq::empty()
    } else {
        (match a[0] {
            ObjV::Str(_, b) => shown_v(cur, b),
            ObjV::Integer(n) => if n < -100 { seq![' '] } else { Seq::empty() },
            ObjV::Real(m) => if m < -100000000 { seq![' '] } else { Seq::empty() },
            _ => Seq::empty(),
        }) + tj_text(a.drop_first(), cur)
    }
}

/// The text of a run of content items: `Tf` selects the decoder of its
/// first operand, a name; `Tj` shows its last operand, a string; `'` and
/// `"` start a line and do the same; `TJ` shows its first operand, an
/// array; `T*`, `Td`, `TD` and `ET` start a line.
pub open spec fn items_text(items: Seq<ItemV>, decs: Seq<(Seq<char>, DecoderV)>, cur: Option<DecoderV>) -> Seq<char>
    decreases items.len(),
{
    if items.len() == 0 {
        Seq::empty()
    } else {
        let rest = items.drop_first();
        match items[0] {
            ItemV::Op(op, args) => {
                let last_str = if args.len() > 0 && args.last() is Str {
                    shown_v(cur, args.last()->Str_1)
                } else {
                    Seq::empty()
                };
                if op == "Tf"@ {
                    let next = if args.len() > 0 && args[0] is Name {
                        find_dec(decs, args[0]->Name_0)
                    } else {
                        cur
                    };
                    items_text(rest, decs, next)
                } else if op == "Tj"@ {
                    last_str + items_text(rest, decs, cur)
                } else if op == "'"@ || op == "\""@ {
                    seq!['\n'] + last_str + items_text(rest, decs, cur)
                } else if op == "TJ"@ {
                    (if args.len() > 0 && args[0] is Array {
                        tj_text(args[0]->Array_0, cur)
                    } else {
                        Seq::empty()
                    }) + items_text(rest, decs, cur)
                } else if op == "T*"@ || op == "Td"@ || op == "TD"@ || op == "ET"@ {
                    seq!['\n'] + items_text(rest, decs, cur)
                } else {
                    items_text(rest, decs, cur)
                }
            },
            _ => items_text(rest, decs, cur),
        }
    }
}

/// The text of the page `page` (ISO 32000-1 9.10): its content read with
/// the decoders of the fonts of its effective resources, starting with
/// no font selected.
pub open spec fn page_text_v(doc: &EditableDocument, page: ObjectId) -> Result<Seq<char>, EditorError> {
    match resources_v(doc, page, MAX_RESOURCE_DEPTH as nat) {
        Err(e) => Err(e),
        Ok(res) => match doc.spec_page_content(page) {
            Err(e) => Err(e),
            Ok(b) => Ok(items_text(spec_parse_content_stream(b), decoders_v(doc, font_entries_v(doc, res)), None)),
        },
    }
}

/// The views of named decoders.
pub open spec fn decs_v(s: Seq<(String, FontDecoder)>) -> Seq<(Seq<char>, DecoderV)> {
    Seq::new(s.len(), |i: int| (s[i].0@, s[i].1.v()))
}

/// The index of the last decoder under `name`.
fn find_decoder(decs: &Vec<(String, FontDecoder)>, name: &str) -> (r: Option<usize>)
    ensures
        match r {
            Some(k) => k < decs@.len() && find_dec(decs_v(decs@), name@) == Some(decs_v(decs@)[k as int].1),
            None => find_dec(decs_v(decs@), name@) is None,
        },
{
    let ghost dv = decs_v(decs@);
    let mut i: usize = decs.len();
    assert(dv.take(i as int) =~= dv);
    while i > 0
        invariant
            i <= decs@.len(),
            dv == decs_v(decs@),
            find_dec(dv, name@) == find_dec(dv.take(i as int), name@),
        decreases i,
    {
        let ghost t = dv.take(i as int);
        assert(t.drop_last() =~= dv.take(i as int - 1));
        assert(t.last() == dv[i - 1]);
        if str_eq(decs[i - 1].0.as_str(), name) {
            return Some(i - 1);
        }
        i = i - 1;
    }
    None
}

impl EditableDocument {
    /// The decoder of the font dictionary `dict` (see `decoder_v`).
    fn build_font_decoder(&self, dict: &PdfDictionary) -> (r: FontDecoder)
        ensures
            r.v() == decoder_v(self, dict.view_entries()),
    {
        let composite = match dict.get("Subtype") {
            Some(Object::Name(n)) => str_eq(n.as_str(), "Type0"),
            _ => false,
        };
        let tounicode = match dict.get("ToUnicode") {
            Some(Object::Reference(id)) => {
                assert(ref_id(id.number, id.generation) == *id);
                match self.get_object(*id) {
                    Some(Object::Stream(s)) => {
                        if s.dictionary.get("Filter").is_some() {
                            None
                        } else {
                            Some(parse_tounicode_cmap(s.data.as_slice()))
                        }
                    },
                    _ => None,
                }
            },
            _ => None,
        };
        FontDecoder { composite, tounicode }
    }

    /// The decoders of the fonts of the `/Font` subdictionary `fd` (see
    /// `decoders_v`).
    fn font_decoders(&self, fd: &PdfDictionary) -> (r: Vec<(String, FontDecoder)>)
        ensures
            decs_v(r@) == decoders_v(self, fd.view_entries()),
    {
        let ghost e = fd.view_entries();
        proof {
            lemma_view_entries(fd.entries@);
        }
        let mut out: Vec<(String, FontDecoder)> = Vec::new();
        assert(decs_v(out@) =~= decoders_v(self, e.take(0)));
        let mut i: usize = 0;
        while i < fd.entries.len()
            invariant
                i <= fd.entries@.len(),
                e == fd.view_entries(),
                e.len() == fd.entries@.len(),
                forall|j: int| 0 <= j < e.len() ==> #[trigger] e[j] == (fd.entries@[j].0@, fd.entries@[j].1.v()),
                decs_v(out@) == decoders_v(self, e.take(i as int)),
            decreases fd.entries@.len() - i,
        {
            assert(e.take(i as int + 1).drop_last() =~= e.take(i as int));
            let ghost before = decs_v(out@);
            match self.resolve_dict_or_ref(&fd.entries[i].1) {
                Ok(d) => {
                    let dec = self.build_font_decoder(&d);
                    out.push((fd.entries[i].0.clone(), dec));
                    assert(decs_v(out@) =~= before.push((e[i as int].0, decoder_v(self, d.view_entries()))));
                },
                Err(_) => {},
            }
            i = i + 1;
        }
        assert(e.take(i as int) =~= e);
        out
    }
}

/// The decoder an index into `decs` stands for.
pub open spec fn cur_v(decs: Seq<(String, FontDecoder)>, cur: Option<usize>) -> Option<DecoderV> {
    match cur {
        Some(k) => Some(decs[k as int].1.v()),
        None => None,
    }
}

/// Appends the text of string bytes shown with the decoder at `cur`
/// (see `shown_v`).
fn push_shown(decs: &Vec<(String, FontDecoder)>, cur: Option<usize>, b: &[u8], out: &mut String)
    requires
        cur matches Some(k) ==> k < decs@.len(),
    ensures
        final(out)@ == old(out)@ + shown_v(cur_v(decs@, cur), b@),
{
    match cur {
        Some(k) => decs[k].1.decode_into(b, out),
        None => push_win_ansi(out, b),
    }
}

/// Appends the text of a `TJ` array (see `tj_text`).
fn push_tj(decs: &Vec<(String, FontDecoder)>, cur: Option<usize>, a: &Vec<Object>, out: &mut String)
    requires
        cur matches Some(k) ==> k < decs@.len(),
    ensures
        final(out)@ == old(out)@ + tj_text(view_objs(a@), cur_v(decs@, cur)),
{
    let ghost av = view_objs(a@);
    let ghost cv = cur_v(decs@, cur);
    proof {
        lemma_view_objs(a@);
        assert(av.skip(0) =~= av);
    }
    let ghost start = out@;
    let mut j: usize = 0;
    while j < a.len()
        invariant
            j <= a@.len(),
            av == view_objs(a@),
            av.len() == a@.len(),
            forall|k: int| 0 <= k < av.len() ==> #[trigger] av[k] == a@[k].v(),
            cv == cur_v(decs@, cur),
            cur matches Some(k) ==> k < decs@.len(),
            start + tj_text(av, cv) == out@ + tj_text(av.skip(j as int), cv),
        decreases a@.len() - j,
    {
        let ghost rest = av.skip(j as int);
        assert(rest.drop_first() =~= av.skip(j as int + 1));
        assert(rest[0] == av[j as int]);
        let ghost before = out@;
        match &a[j] {
            Object::String(s) => push_shown(decs, cur, s.as_bytes(), out),
            Object::Integer(n) => {
                if *n < -100 {
                    push_char(out, ' ');
                    assert(out@ =~= before + seq![' ']);
                }
            },
            Object::Real(r) => {
                if r.micros < -100000000 {
                    push_char(out, ' ');
                    assert(out@ =~= before + seq![' ']);
                }
            },
            _ => {},
        }
        assert(out@ + tj_text(av.skip(j as int + 1), cv) =~= before + tj_text(rest, cv));
        j = j + 1;
    }
    assert(av.skip(j as int) =~= Seq::<ObjV>::empty());
    assert(out@ + Seq::<char>::empty() =~= out@);
}

/// Appends the text of the content items (see `items_text`), starting
/// with no font selected.
fn push_items_text(items: &Vec<ContentItem>, decs: &Vec<(String, FontDecoder)>, out: &mut String)
    ensures
        final(out)@ == old(out)@ + items_text(view_items(items@), decs_v(decs@), None),
{
    let ghost vi = view_items(items@);
    let ghost dv = decs_v(decs@);
    proof {
        lemma_view_items(items@);
        assert(vi.skip(0) =~= vi);
    }
    let ghost start = out@;
    let mut cur: Option<usize> = None;
    let mut i: usize = 0;
    while i < items.len()
        invariant
            i <= items@.len(),
            vi == view_items(items@),
            vi.len() == items@.len(),
            forall|k: int| 0 <= k < vi.len() ==> #[trigger] vi[k] == items@[k].v(),
            dv == decs_v(decs@),
            cur matches Some(k) ==> k < decs@.len(),
            start + items_text(vi, dv, None) == out@ + items_text(vi.skip(i as int), dv, cur_v(decs@, cur)),
        decreases items@.len() - i,
    {
        let ghost rest = vi.skip(i as int);
        assert(rest.drop_first() =~= vi.skip(i as int + 1));
        assert(rest[0] == vi[i as int]);
        let ghost before = out@;
        let ghost cv = cur_v(decs@, cur);
        match &items[i] {
            ContentItem::Op { operator, operands } => {
                let ghost args = view_objs(operands@);
                proof {
                    lemma_view_objs(operands@);
                }
                let op = operator.as_str();
                if str_eq(op, "Tf") {
                    if operands.len() > 0 {
                        match &operands[0] {
                            Object::Name(n) => {
                                cur = find_decoder(decs, n.as_str());
                                assert(cur_v(decs@, cur) == find_dec(dv, n.name@));
                            },
                            _ => {},
                        }
                    }
                } else if str_eq(op, "Tj") || str_eq(op, "'") || str_eq(op, "\"") {
                    if !str_eq(op, "Tj") {
                        push_char(out, '\n');
                    }
                    if operands.len() > 0 {
                        match &operands[operands.len() - 1] {
                            Object::String(s) => push_shown(decs, cur, s.as_bytes(), out),
                            _ => {},
                        }
                    }
                } else if str_eq(op, "TJ") {
                    if operands.len() > 0 {
                        match &operands[0] {
                            Object::Array(a) => push_tj(decs, cur, &a.items, out),
                            _ => {},
                        }
                    }
                } else if str_eq(op, "T*") || str_eq(op, "Td") || str_eq(op, "TD") || str_eq(op, "ET") {
                    push_char(out, '\n');
                }
            },
            _ => {},
        }
        assert(out@ + items_text(vi.skip(i as int + 1), dv, cur_v(decs@, cur)) =~= before + items_text(rest, dv, cv));
        i = i + 1;
    }
    assert(vi.skip(i as int) =~= Seq::<ItemV>::empty());
    assert(out@ + Seq::<char>::empty() =~= out@);
}

impl EditableDocument {
    /// A best-effort Unicode text of the page `page_id`'s content (ISO
    /// 32000-1 9.10; see `page_text_v` and the module documentation).
    pub fn extract_page_text(&self, page_id: ObjectId) -> (r: Result<String, EditorError>)
        ensures
            match page_text_v(self, page_id) {
                Ok(t) => r matches Ok(s) && s@ == t,
                Err(e) => r == Err::<String, EditorError>(e),
            },
    {
        let resources = match self.effective_resources(page_id) {
            Ok(d) => d,
            Err(e) => {
                return Err(e);
            },
        };
        let fd = self.font_entries(&resources);
        let decs = self.font_decoders(&fd);
        let content = match self.page_content_bytes(page_id) {
            Ok(b) => b,
            Err(e) => {
                return Err(e);
            },
        };
        let items = parse_content_stream(content.as_slice());
        let mut out = String::new();
        push_items_text(&items, &decs, &mut out);
        assert(out@ =~= items_text(view_items(items@), decs_v(decs@), None));
        Ok(out)
    }
}

/// The font selected after reading the items: the decoder of the last
/// `Tf` whose first operand is a name, else `cur`.
pub open spec fn font_after(items: Seq<ItemV>, decs: Seq<(Seq<char>, DecoderV)>, cur: Option<DecoderV>) -> Option<DecoderV>
    decreases items.len(),
{
    if items.len() == 0 {
        cur
    } else {
        let rest = items.drop_first();
        match items[0] {
            ItemV::Op(op, args) => if op == "Tf"@ {
                font_after(
                    rest,
                    decs,
                    if args.len() > 0 && args[0] is Name {
                        find_dec(decs, args[0]->Name_0)
                    } else {
                        cur
                    },
                )
            } else {
                font_after(rest, decs, cur)
            },
            _ => font_after(rest, decs, cur),
        }
    }
}

/// The text of two runs of items one after the other is the text of the
/// first followed by that of the second, read with the font the first
/// leaves selected.
pub proof fn lemma_items_text_concat(a: Seq<ItemV>, b: Seq<ItemV>, decs: Seq<(Seq<char>, DecoderV)>, cur: Option<DecoderV>)
    ensures
        items_text(a + b, decs, cur) == items_text(a, decs, cur) + items_text(b, decs, font_after(a, decs, cur)),
    decreases a.len(),
{
    if a.len() == 0 {
        assert(a + b =~= b);
    } else {
        let rest = a.drop_first();
        assert((a + b).drop_first() =~= rest + b);
        assert((a + b)[0] == a[0]);
        let c1 = match a[0] {
            ItemV::Op(op, args) => if op == "Tf"@ {
                if args.len() > 0 && args[0] is Name {
                    find_dec(decs, args[0]->Name_0)
                } else {
                    cur
                }
            } else {
                cur
            },
            _ => cur,
        };
        lemma_items_text_concat(rest, b, decs, c1);
        let tail_a = items_text(rest, decs, c1);
        let tail_b = items_text(b, decs, font_after(rest, decs, c1));
        assert forall|x: Seq<char>| #![auto] (x + tail_a) + tail_b =~= x + (tail_a + tail_b) by {}
    }
}

/// Reveals the operator names that the laws below tell apart.
proof fn lemma_op_names()
    ensures
        "Tf"@ != "Tj"@ && "Tf"@ != "'"@ && "Tf"@ != "\""@ && "Tf"@ != "TJ"@ && "Tf"@ != "T*"@ && "Tf"@ != "Td"@ && "Tf"@ != "TD"@
            && "Tf"@ != "ET"@,
        "Tj"@ != "'"@ && "Tj"@ != "\""@ && "Tj"@ != "TJ"@ && "Tj"@ != "T*"@ && "Tj"@ != "Td"@ && "Tj"@ != "TD"@ && "Tj"@ != "ET"@,
        "'"@ != "TJ"@ && "'"@ != "T*"@ && "'"@ != "Td"@ && "'"@ != "TD"@ && "'"@ != "ET"@ && "'"@ != "\""@,
        "\""@ != "TJ"@ && "\""@ != "T*"@ && "\""@ != "Td"@ && "\""@ != "TD"@ && "\""@ != "ET"@,
        "TJ"@ != "T*"@ && "TJ"@ != "Td"@ && "TJ"@ != "TD"@ && "TJ"@ != "ET"@,
{
    reveal_strlit("Tf");
    reveal_strlit("Tj");
    reveal_strlit("'");
    reveal_strlit("\"");
    reveal_strlit("TJ");
    reveal_strlit("T*");
    reveal_strlit("Td");
    reveal_strlit("TD");
    reveal_strlit("ET");
    assert("Tf"@[1] != "Tj"@[1]);
    assert("Tf"@[1] != "TJ"@[1]);
    assert("Tf"@[1] != "T*"@[1]);
    assert("Tf"@[1] != "Td"@[1]);
    assert("Tf"@[1] != "TD"@[1]);
    assert("Tf"@[0] != "ET"@[0]);
    assert("Tj"@[1] != "TJ"@[1]);
    assert("Tj"@[1] != "T*"@[1]);
    assert("Tj"@[1] != "Td"@[1]);
    assert("Tj"@[1] != "TD"@[1]);
    assert("Tj"@[0] != "ET"@[0]);
    assert("'"@[0] != "\""@[0]);
    assert("TJ"@[1] != "T*"@[1]);
    assert("TJ"@[1] != "Td"@[1]);
    assert("TJ"@[1] != "TD"@[1]);
    assert("TJ"@[0] != "ET"@[0]);
}

/// Inserting a line-break operator (`T*`, `Td`, `TD` or `ET`) anywhere
/// among the items inserts exactly one line break at that place of the
/// extracted text, and leaves the text around it as it was.
pub proof fn lemma_line_break_ops(
    a: Seq<ItemV>,
    b: Seq<ItemV>,
    op: Seq<char>,
    args: Seq<ObjV>,
    decs: Seq<(Seq<char>, DecoderV)>,
    cur: Option<DecoderV>,
)
    requires
        op == "T*"@ || op == "Td"@ || op == "TD"@ || op == "ET"@,
    ensures
        items_text(a.push(ItemV::Op(op, args)) + b, decs, cur) == items_text(a, decs, cur) + seq!['\n'] + items_text(
            b,
            decs,
            font_after(a, decs, cur),
        ),
        items_text(a + b, decs, cur) == items_text(a, decs, cur) + items_text(b, decs, font_after(a, decs, cur)),
{
    lemma_op_names();
    let x = ItemV::Op(op, args);
    assert(a.push(x) + b =~= a + (seq![x] + b));
    lemma_items_text_concat(a, seq![x] + b, decs, cur);
    lemma_items_text_concat(a, b, decs, cur);
    let f = font_after(a, decs, cur);
    assert((seq![x] + b).drop_first() =~= b);
    assert((seq![x] + b)[0] == x);
    assert(items_text(seq![x] + b, decs, f) == seq!['\n'] + items_text(b, decs, f));
}

/// Inserting a string-showing operator anywhere among the items inserts
/// its last operand, read with the font selected at that place: `Tj`
/// shows it where the text is, `'` and `"` start a line first.
pub proof fn lemma_show_ops(
    a: Seq<ItemV>,
    b: Seq<ItemV>,
    op: Seq<char>,
    args: Seq<ObjV>,
    h: bool,
    bytes: Seq<u8>,
    decs: Seq<(Seq<char>, DecoderV)>,
    cur: Option<DecoderV>,
)
    requires
        op == "Tj"@ || op == "'"@ || op == "\""@,
        args.len() > 0,
        args.last() == ObjV::Str(h, bytes),
    ensures
        items_text(a.push(ItemV::Op(op, args)) + b, decs, cur) == items_text(a, decs, cur) + (if op == "Tj"@ {
            Seq::empty()
        } else {
            seq!['\n']
        }) + shown_v(font_after(a, decs, cur), bytes) + items_text(b, decs, font_after(a, decs, cur)),
{
    lemma_op_names();
    let x = ItemV::Op(op, args);
    assert(a.push(x) + b =~= a + (seq![x] + b));
    lemma_items_text_concat(a, seq![x] + b, decs, cur);
    let f = font_after(a, decs, cur);
    assert((seq![x] + b).drop_first() =~= b);
    assert((seq![x] + b)[0] == x);
    let t = items_text(a, decs, cur);
    let s = shown_v(f, bytes);
    let r = items_text(b, decs, f);
    if op == "Tj"@ {
        assert(items_text(seq![x] + b, decs, f) == s + r);
        assert(t + (s + r) =~= t + Seq::<char>::empty() + s + r);
    } else {
        assert(items_text(seq![x] + b, decs, f) == seq!['\n'] + s + r);
        assert(t + (seq!['\n'] + s + r) =~= t + seq!['\n'] + s + r);
    }
}

/// Inserting an operator that neither selects a font, shows text nor
/// starts a line leaves the extracted text unchanged.
pub proof fn lemma_other_ops(
    a: Seq<ItemV>,
    b: Seq<ItemV>,
    op: Seq<char>,
    args: Seq<ObjV>,
    decs: Seq<(Seq<char>, DecoderV)>,
    cur: Option<DecoderV>,
)
    requires
        op != "Tf"@ && op != "Tj"@ && op != "'"@ && op != "\""@ && op != "TJ"@ && op != "T*"@ && op != "Td"@ && op != "TD"@ && op
            != "ET"@,
    ensures
        items_text(a.push(ItemV::Op(op, args)) + b, decs, cur) == items_text(a + b, decs, cur),
{
    let x = ItemV::Op(op, args);
    assert(a.push(x) + b =~= a + (seq![x] + b));
    lemma_items_text_concat(a, seq![x] + b, decs, cur);
    lemma_items_text_concat(a, b, decs, cur);
    let f = font_after(a, decs, cur);
    assert((seq![x] + b).drop_first() =~= b);
    assert((seq![x] + b)[0] == x);
}

/// The text of `TJ` elements one after the other is the text of each
/// run in turn; a string shows its text, a number below -100
/// (thousandths of a text space unit) a space, anything else nothing.
pub proof fn lemma_tj_text_concat(a: Seq<ObjV>, b: Seq<ObjV>, cur: Option<DecoderV>)
    ensures
        tj_text(a + b, cur) == tj_text(a, cur) + tj_text(b, cur),
        forall|h: bool, x: Seq<u8>| #[trigger] tj_text(seq![ObjV::Str(h, x)], cur) == shown_v(cur, x),
        forall|n: i64| #[trigger] tj_text(seq![ObjV::Integer(n)], cur) == (if n < -100 { seq![' '] } else { Seq::<char>::empty() }),
        forall|m: i64| #[trigger] tj_text(seq![ObjV::Real(m)], cur) == (if m < -100000000 { seq![' '] } else { Seq::<char>::empty() }),
    decreases a.len(),
{
    assert forall|h: bool, x: Seq<u8>| #[trigger] tj_text(seq![ObjV::Str(h, x)], cur) == shown_v(cur, x) by {
        reveal_with_fuel(tj_text, 2);
        assert(seq![ObjV::Str(h, x)].drop_first() =~= Seq::<ObjV>::empty());
        assert(shown_v(cur, x) + Seq::<char>::empty() =~= shown_v(cur, x));
    }
    assert forall|n: i64| #[trigger] tj_text(seq![ObjV::Integer(n)], cur) == (if n < -100 { seq![' '] } else { Seq::<char>::empty() }) by {
        reveal_with_fuel(tj_text, 2);
        assert(seq![ObjV::Integer(n)].drop_first() =~= Seq::<ObjV>::empty());
        assert(seq![' '] + Seq::<char>::empty() =~= seq![' ']);
        assert(Seq::<char>::empty() + Seq::<char>::empty() =~= Seq::<char>::empty());
    }
    assert forall|m: i64| #[trigger] tj_text(seq![ObjV::Real(m)], cur) == (if m < -100000000 { seq![' '] } else { Seq::<char>::empty() }) by {
        reveal_with_fuel(tj_text, 2);
        assert(seq![ObjV::Real(m)].drop_first() =~= Seq::<ObjV>::empty());
        assert(seq![' '] + Seq::<char>::empty() =~= seq![' ']);
        assert(Seq::<char>::empty() + Seq::<char>::empty() =~= Seq::<char>::empty());
    }
    if a.len() == 0 {
        assert(a + b =~= b);
        assert(Seq::<char>::empty() + tj_text(b, cur) =~= tj_text(b, cur));
    } else {
        lemma_tj_text_concat(a.drop_first(), b, cur);
        assert((a + b).drop_first() =~= a.drop_first() + b);
        assert((a + b)[0] == a[0]);
        let h = tj_text(seq![a[0]], cur);
        let x = match a[0] {
            ObjV::Str(_, bb) => shown_v(cur, bb),
            ObjV::Integer(n) => if n < -100 { seq![' '] } else { Seq::empty() },
            ObjV::Real(m) => if m < -100000000 { seq![' '] } else { Seq::empty() },
            _ => Seq::empty(),
        };
        assert(x + (tj_text(a.drop_first(), cur) + tj_text(b, cur)) =~= (x + tj_text(a.drop_first(), cur)) + tj_text(b, cur));
    }
}

/// Inserting `TJ` with an array first operand inserts the text of its
/// elements, read with the font selected at that place.
pub proof fn lemma_tj_op(
    a: Seq<ItemV>,
    b: Seq<ItemV>,
    args: Seq<ObjV>,
    elems: Seq<ObjV>,
    decs: Seq<(Seq<char>, DecoderV)>,
    cur: Option<DecoderV>,
)
    requires
        args.len() > 0,
        args[0] == ObjV::Array(elems),
    ensures
        items_text(a.push(ItemV::Op("TJ"@, args)) + b, decs, cur) == items_text(a, decs, cur) + tj_text(
            elems,
            font_after(a, decs, cur),
        ) + items_text(b, decs, font_after(a, decs, cur)),
{
    lemma_op_names();
    let x = ItemV::Op("TJ"@, args);
    assert(a.push(x) + b =~= a + (seq![x] + b));
    lemma_items_text_concat(a, seq![x] + b, decs, cur);
    let f = font_after(a, decs, cur);
    assert((seq![x] + b).drop_first() =~= b);
    assert((seq![x] + b)[0] == x);
    let t = items_text(a, decs, cur);
    assert(t + (tj_text(elems, f) + items_text(b, decs, f)) =~= t + tj_text(elems, f) + items_text(b, decs, f));
}

/// `Tf` with a font name selects, for what follows, the decoder last
/// listed under that name (none when the name has none); it shows
/// nothing itself.
pub proof fn lemma_tf_op(
    a: Seq<ItemV>,
    b: Seq<ItemV>,
    args: Seq<ObjV>,
    name: Seq<char>,
    decs: Seq<(Seq<char>, DecoderV)>,
    cur: Option<DecoderV>,
)
    requires
        args.len() > 0,
        args[0] == ObjV::Name(name),
    ensures
        items_text(a.push(ItemV::Op("Tf"@, args)) + b, decs, cur) == items_text(a, decs, cur) + items_text(
            b,
            decs,
            find_dec(decs, name),
        ),
        find_dec(decs, name) matches Some(d) ==> exists|i: int|
            0 <= i < decs.len() && #[trigger] decs[i] == (name, d) && forall|j: int| i < j < decs.len() ==> (#[trigger] decs[j]).0 != name,
        find_dec(decs, name) is None ==> forall|i: int| 0 <= i < decs.len() ==> (#[trigger] decs[i]).0 != name,
{
    let x = ItemV::Op("Tf"@, args);
    assert(a.push(x) + b =~= a + (seq![x] + b));
    lemma_items_text_concat(a, seq![x] + b, decs, cur);
    assert((seq![x] + b).drop_first() =~= b);
    assert((seq![x] + b)[0] == x);
    lemma_find_dec_last(decs, name);
}

/// `find_dec` finds the last decoder listed under the name.
proof fn lemma_find_dec_last(decs: Seq<(Seq<char>, DecoderV)>, name: Seq<char>)
    ensures
        find_dec(decs, name) matches Some(d) ==> exists|i: int|
            0 <= i < decs.len() && #[trigger] decs[i] == (name, d) && forall|j: int| i < j < decs.len() ==> (#[trigger] decs[j]).0 != name,
        find_dec(decs, name) is None ==> forall|i: int| 0 <= i < decs.len() ==> (#[trigger] decs[i]).0 != name,
    decreases decs.len(),
{
    if decs.len() > 0 {
        let p = decs.drop_last();
        lemma_find_dec_last(p, name);
        if decs.last().0 == name {
            assert(decs[decs.len() - 1] == (name, decs.last().1));
        } else {
            if let Some(d) = find_dec(p, name) {
                let i = choose|i: int|
                    0 <= i < p.len() && #[trigger] p[i] == (name, d) && forall|j: int| i < j < p.len() ==> (#[trigger] p[j]).0 != name;
                assert(decs[i] == p[i]);
                assert forall|j: int| i < j < decs.len() implies (#[trigger] decs[j]).0 != name by {
                    if j < p.len() {
                        assert(decs[j] == p[j]);
                    }
                }
            } else {
                assert forall|i: int| 0 <= i < decs.len() implies (#[trigger] decs[i]).0 != name by {
                    if i < p.len() {
                        assert(decs[i] == p[i]);
                    }
                }
            }
        }
    }
}

/// WinAnsiEncoding reads each byte as one character: outside 0x80 to
/// 0x9F the character with the byte's code (ASCII and Latin-1), and the
/// text of two byte runs one after the other is the text of each.
pub proof fn lemma_win_ansi_text(a: Seq<u8>, b: Seq<u8>)
    ensures
        win_ansi_text(a + b) == win_ansi_text(a) + win_ansi_text(b),
        win_ansi_text(a).len() == a.len(),
        forall|i: int| 0 <= i < a.len() && (a[i] < 0x80 || a[i] > 0x9F) ==> (#[trigger] win_ansi_text(a)[i]) as u32 == a[i] as u32,
{
    assert(win_ansi_text(a + b) =~= win_ansi_text(a) + win_ansi_text(b));
    assert forall|i: int| 0 <= i < a.len() && (a[i] < 0x80 || a[i] > 0x9F) implies (#[trigger] win_ansi_text(a)[i]) as u32
        == a[i] as u32 by {}
}

} // verus!
