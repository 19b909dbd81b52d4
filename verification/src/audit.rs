//! Redaction audit trail: **who** redacted **what area of what page**,
//! and **when**, as a private, length-prefixed binary log stored in a
//! stream referenced from the document catalog.
//!
//! An entry never carries the redacted content itself: only the actor, a
//! caller-supplied reason, a timestamp, the page, the rectangular area
//! (in the page's default user space) and *counts* of what was removed.
//!
//! # On-disk format
//!
//! All multi-byte integers are big-endian.
//!
//! ```text
//! magic:        8 bytes   b"RPDFAUD1"
//! entry_count:  u32
//! entry* (entry_count times):
//!   page_index:              u32  (0xFFFF_FFFF means "no specific page")
//!   has_area:                u8   (0 or 1)
//!   area (if has_area == 1): f64 llx, f64 lly, f64 urx, f64 ury
//!   text_runs_removed:       u32
//!   images_removed:          u32
//!   tounicode_entries_pruned:u32
//!   actor_len:     u32; actor bytes (UTF-8)
//!   reason_len:    u32; reason bytes (UTF-8)
//!   timestamp_len: u32; timestamp bytes (UTF-8)
//! ```
//!
//! The four area coordinates are carried as the bit patterns of their
//! IEEE-754 double values, exactly as they are stored on disk.
//!
//! Reading this back is untrusted-input parsing: [`parse_log`] bounds the
//! total input size, the number of entries and every length-prefixed
//! field, and on truncated or malformed input it stops and returns the
//! entries parsed so far.

use vstd::prelude::*;
use vstd::string::StringSliceAdditionalSpecFns;
use vstd::utf8::{encode_utf8, decode_utf8, valid_utf8};
use crate::object::{Object, ObjectId, PdfDictionary, PdfName, PdfStream};
use crate::stdtext::{lossy_text, string_from_utf8_lossy};

verus! {

broadcast use {vstd::utf8::encode_utf8_decode_utf8, vstd::utf8::encode_utf8_valid_utf8};

/// Catalog key the audit log stream is referenced under (ISO 32000-1
/// 7.3.7 permits application-private dictionary entries).
pub const AUDIT_LOG_CATALOG_KEY: &'static str = "RustPdfRedactionLog";

/// Hard cap on the audit-log stream size accepted when reading.
pub const MAX_AUDIT_LOG_BYTES: usize = 8388608;

/// Hard cap on the number of entries read from one log stream.
pub const MAX_AUDIT_ENTRIES: usize = 100000;

/// Hard cap on any single length-prefixed string field within an entry.
pub const MAX_FIELD_BYTES: u32 = 65536;

/// A redacted rectangle `[llx lly urx ury]`, each coordinate given by the
/// bit pattern of its IEEE-754 double value.
#[derive(Debug, Clone, Copy, PartialEq, Eq, Structural)]
pub struct AuditArea {
    /// Lower-left x.
    pub llx: u64,
    /// Lower-left y.
    pub lly: u64,
    /// Upper-right x.
    pub urx: u64,
    /// Upper-right y.
    pub ury: u64,
}

/// One recorded redaction action.
#[derive(Debug, PartialEq)]
pub struct RedactionAuditEntry {
    /// Who performed the redaction (caller-supplied).
    pub actor: String,
    /// Why the redaction was performed (caller-supplied free text).
    pub reason: String,
    /// When the redaction was performed, in PDF date format unless the
    /// caller supplied a different string.
    pub timestamp: String,
    /// Which page (0-based) was affected, or `None` for a whole-document
    /// action.
    pub page_index: Option<usize>,
    /// The redacted rectangle, or `None` for actions that are not
    /// area-scoped.
    pub area: Option<AuditArea>,
    /// Number of content-stream text-showing operators removed.
    pub text_runs_removed: usize,
    /// Number of image XObjects (and inline images) removed.
    pub images_removed: usize,
    /// Number of now-orphaned `/ToUnicode` CMap entries pruned.
    pub tounicode_entries_pruned: usize,
}

/// The value of an entry: its texts by their characters.
pub struct EntryV {
    /// The actor's text.
    pub actor: Seq<char>,
    /// The reason's text.
    pub reason: Seq<char>,
    /// The timestamp's text.
    pub timestamp: Seq<char>,
    /// The page index.
    pub page_index: Option<usize>,
    /// The area.
    pub area: Option<AuditArea>,
    /// Text runs removed.
    pub text_runs_removed: usize,
    /// Images removed.
    pub images_removed: usize,
    /// ToUnicode entries pruned.
    pub tounicode_entries_pruned: usize,
}

impl RedactionAuditEntry {
    /// The entry's value.
    pub open spec fn v(self) -> EntryV {
        EntryV {
            actor: self.actor@,
            reason: self.reason@,
            timestamp: self.timestamp@,
            page_index: self.page_index,
            area: self.area,
            text_runs_removed: self.text_runs_removed,
            images_removed: self.images_removed,
            tounicode_entries_pruned: self.tounicode_entries_pruned,
        }
    }
}

/// The values of a sequence of entries.
pub open spec fn view_log(s: Seq<RedactionAuditEntry>) -> Seq<EntryV> {
    Seq::new(s.len(), |i: int| s[i].v())
}

// ---------------------------------------------------------------------
// The format

/// `b"RPDFAUD1"`.
pub open spec fn magic() -> Seq<u8> {
    seq![82u8, 80u8, 68u8, 70u8, 65u8, 85u8, 68u8, 49u8]
}

/// The big-endian bytes of a 32-bit value.
#[verifier::opaque]
pub open spec fn be32(x: nat) -> Seq<u8> {
    seq![
        ((x / 0x1000000) % 256) as u8,
        ((x / 0x10000) % 256) as u8,
        ((x / 0x100) % 256) as u8,
        (x % 256) as u8,
    ]
}

/// The value of four big-endian bytes.
#[verifier::opaque]
pub open spec fn be32_value(b: Seq<u8>) -> nat {
    (b[0] as nat) * 0x1000000 + (b[1] as nat) * 0x10000 + (b[2] as nat) * 0x100 + (b[3] as nat)
}

/// The big-endian bytes of a 64-bit value.
pub open spec fn be64(x: nat) -> Seq<u8> {
    be32(x / 0x100000000) + be32(x % 0x100000000)
}

/// The value of eight big-endian bytes.
pub open spec fn be64_value(b: Seq<u8>) -> nat {
    be32_value(b.subrange(0, 4)) * 0x100000000 + be32_value(b.subrange(4, 8))
}

/// A length-prefixed field: the length (capped at `MAX_FIELD_BYTES`) and
/// that many bytes.
pub open spec fn field_text(b: Seq<u8>) -> Seq<u8> {
    let n: nat = if b.len() > MAX_FIELD_BYTES { MAX_FIELD_BYTES as nat } else { b.len() };
    be32(n) + b.subrange(0, n as int)
}

/// The stored page index: the index modulo 2^32, or `0xFFFF_FFFF` for
/// none.
pub open spec fn page_raw(p: Option<usize>) -> nat {
    match p {
        Some(i) => (i as nat) % 0x100000000,
        None => 0xffffffff,
    }
}

/// The area part of an entry: a presence byte and the four coordinates.
pub open spec fn area_text(a: Option<AuditArea>) -> Seq<u8> {
    match a {
        Some(r) => seq![1u8] + be64(r.llx as nat) + be64(r.lly as nat) + be64(r.urx as nat) + be64(
            r.ury as nat,
        ),
        None => seq![0u8],
    }
}

/// The bytes of one entry.
#[verifier::opaque]
pub open spec fn entry_text(e: EntryV) -> Seq<u8> {
    be32(page_raw(e.page_index)) + area_text(e.area) + be32((e.text_runs_removed as nat) % 0x100000000)
        + be32((e.images_removed as nat) % 0x100000000) + be32(
        (e.tounicode_entries_pruned as nat) % 0x100000000,
    ) + field_text(encode_utf8(e.actor)) + field_text(encode_utf8(e.reason)) + field_text(
        encode_utf8(e.timestamp),
    )
}

/// The bytes of a sequence of entries.
pub open spec fn entries_bytes(es: Seq<EntryV>) -> Seq<u8>
    decreases es.len(),
{
    if es.len() == 0 {
        Seq::empty()
    } else {
        entries_bytes(es.drop_last()) + entry_text(es.last())
    }
}

/// The bytes of a whole log.
pub open spec fn log_text(es: Seq<EntryV>) -> Seq<u8> {
    magic() + be32(es.len() % 0x100000000) + entries_bytes(es)
}

// ---------------------------------------------------------------------
// Reading

/// A length-prefixed field at `pos`: the position after it and its text.
/// `None` when the declared length exceeds `MAX_FIELD_BYTES` or runs past
/// the end.
pub open spec fn spec_field(d: Seq<u8>, pos: int) -> Option<(int, Seq<char>)> {
    if pos + 4 > d.len() {
        None
    } else {
        let n = be32_value(d.subrange(pos, pos + 4));
        if n > MAX_FIELD_BYTES || pos + 4 + n > d.len() {
            None
        } else {
            Some((pos + 4 + n, lossy_text(d.subrange(pos + 4, pos + 4 + n))))
        }
    }
}

/// The area part at `pos`: presence byte 1 and four coordinates, or
/// presence byte 0. `None` for any other presence byte or too little
/// input.
pub open spec fn spec_area(d: Seq<u8>, pos: int) -> Option<(int, Option<AuditArea>)> {
    if pos + 1 > d.len() {
        None
    } else if d[pos] == 0u8 {
        Some((pos + 1, None))
    } else if d[pos] == 1u8 {
        if pos + 33 > d.len() {
            None
        } else {
            Some(
                (
                    pos + 33,
                    Some(
                        AuditArea {
                            llx: be64_value(d.subrange(pos + 1, pos + 9)) as u64,
                            lly: be64_value(d.subrange(pos + 9, pos + 17)) as u64,
                            urx: be64_value(d.subrange(pos + 17, pos + 25)) as u64,
                            ury: be64_value(d.subrange(pos + 25, pos + 33)) as u64,
                        },
                    ),
                ),
            )
        }
    } else {
        None
    }
}

/// One entry at `pos`: the position after it and its value.
#[verifier::opaque]
pub open spec fn spec_entry(d: Seq<u8>, pos: int) -> Option<(int, EntryV)> {
    if pos + 4 > d.len() {
        None
    } else {
        let page = be32_value(d.subrange(pos, pos + 4));
        let page_index: Option<usize> = if page == 0xffffffff { None } else { Some(page as usize) };
        match spec_area(d, pos + 4) {
            None => None,
            Some((p1, area)) => if p1 + 12 > d.len() {
                None
            } else {
                let t = be32_value(d.subrange(p1, p1 + 4));
                let im = be32_value(d.subrange(p1 + 4, p1 + 8));
                let tu = be32_value(d.subrange(p1 + 8, p1 + 12));
                match spec_field(d, p1 + 12) {
                    None => None,
                    Some((p2, actor)) => match spec_field(d, p2) {
                        None => None,
                        Some((p3, reason)) => match spec_field(d, p3) {
                            None => None,
                            Some((p4, timestamp)) => Some(
                                (
                                    p4,
                                    EntryV {
                                        actor,
                                        reason,
                                        timestamp,
                                        page_index,
                                        area,
                                        text_runs_removed: t as usize,
                                        images_removed: im as usize,
                                        tounicode_entries_pruned: tu as usize,
                                    },
                                ),
                            ),
                        },
                    },
                }
            },
        }
    }
}

/// Up to `count` entries from `pos`, stopping at the first that fails.
pub open spec fn spec_entries(d: Seq<u8>, pos: int, count: nat) -> Seq<EntryV>
    decreases count,
{
    if count == 0 {
        Seq::empty()
    } else {
        match spec_entry(d, pos) {
            Some((p, e)) => seq![e] + spec_entries(d, p, (count - 1) as nat),
            None => Seq::empty(),
        }
    }
}

/// The entries of a log: nothing when the input exceeds
/// `MAX_AUDIT_LOG_BYTES` or lacks the magic and count; otherwise up to
/// `min(count, MAX_AUDIT_ENTRIES)` entries, stopping at the first that
/// fails to parse.
pub open spec fn spec_parse_log(d: Seq<u8>) -> Seq<EntryV> {
    if d.len() > MAX_AUDIT_LOG_BYTES || d.len() < 12 || d.subrange(0, 8) != magic() {
        Seq::empty()
    } else {
        let c = be32_value(d.subrange(8, 12));
        let count: nat = if c > MAX_AUDIT_ENTRIES { MAX_AUDIT_ENTRIES as nat } else { c };
        spec_entries(d, 12, count)
    }
}

// ---------------------------------------------------------------------
// Writing

/// Appends the big-endian bytes of `x`.
pub(crate) fn write_u32(out: &mut Vec<u8>, x: u32)
    ensures
        final(out)@ == old(out)@ + be32(x as nat),
{
    reveal(be32);
    out.push(((x / 0x1000000) % 256) as u8);
    out.push(((x / 0x10000) % 256) as u8);
    out.push(((x / 0x100) % 256) as u8);
    out.push((x % 256) as u8);
    assert(final(out)@ =~= old(out)@ + be32(x as nat));
}

/// Appends the big-endian bytes of `x`.
fn write_u64(out: &mut Vec<u8>, x: u64)
    ensures
        final(out)@ == old(out)@ + be64(x as nat),
{
    write_u32(out, (x / 0x100000000) as u32);
    write_u32(out, (x % 0x100000000) as u32);
    assert(final(out)@ =~= old(out)@ + be64(x as nat));
}

/// Appends a length-prefixed field, truncated to `MAX_FIELD_BYTES`.
fn write_field(out: &mut Vec<u8>, bytes: &[u8])
    ensures
        final(out)@ == old(out)@ + field_text(bytes@),
{
    let len: u32 = if bytes.len() > MAX_FIELD_BYTES as usize { MAX_FIELD_BYTES } else { bytes.len() as u32 };
    write_u32(out, len);
    let ghost mid = out@;
    let mut i: usize = 0;
    while i < len as usize
        invariant
            i <= len <= bytes@.len(),
            out@ == mid + bytes@.subrange(0, i as int),
        decreases len - i,
    {
        out.push(bytes[i]);
        i = i + 1;
        assert(out@ =~= mid + bytes@.subrange(0, i as int));
    }
    assert(final(out)@ =~= old(out)@ + field_text(bytes@));
}

/// The fixed-size head of an entry: page, area and counts.
pub open spec fn entry_head(e: EntryV) -> Seq<u8> {
    be32(page_raw(e.page_index)) + area_text(e.area) + be32((e.text_runs_removed as nat) % 0x100000000)
        + be32((e.images_removed as nat) % 0x100000000) + be32(
        (e.tounicode_entries_pruned as nat) % 0x100000000,
    )
}

/// Appends the area part of an entry.
fn write_area(out: &mut Vec<u8>, a: Option<AuditArea>)
    ensures
        final(out)@ == old(out)@ + area_text(a),
{
    match a {
        Some(r) => {
            out.push(1u8);
            write_u64(out, r.llx);
            write_u64(out, r.lly);
            write_u64(out, r.urx);
            write_u64(out, r.ury);
            assert(final(out)@ =~= old(out)@ + area_text(a));
        },
        None => {
            out.push(0u8);
            assert(final(out)@ =~= old(out)@ + area_text(a));
        },
    }
}

/// Appends the fixed-size head of an entry.
fn write_entry_head(out: &mut Vec<u8>, e: &RedactionAuditEntry)
    ensures
        final(out)@ == old(out)@ + entry_head(e.v()),
{
    let ghost start = out@;
    let page: u32 = match e.page_index {
        Some(p) => (p as u64 % 0x100000000) as u32,
        None => 0xffffffff,
    };
    write_u32(out, page);
    write_area(out, e.area);
    write_u32(out, (e.text_runs_removed as u64 % 0x100000000) as u32);
    write_u32(out, (e.images_removed as u64 % 0x100000000) as u32);
    write_u32(out, (e.tounicode_entries_pruned as u64 % 0x100000000) as u32);
    assert(out@ =~= start + entry_head(e.v()));
}

/// Appends the bytes of one entry.
fn write_entry(out: &mut Vec<u8>, e: &RedactionAuditEntry)
    ensures
        final(out)@ == old(out)@ + entry_text(e.v()),
{
    let ghost start = out@;
    reveal(entry_text);
    write_entry_head(out, e);
    write_field(out, e.actor.as_str().as_bytes());
    write_field(out, e.reason.as_str().as_bytes());
    write_field(out, e.timestamp.as_str().as_bytes());
    assert(out@ =~= start + entry_text(e.v()));
}

/// Serializes `entries` to the on-disk format described in the module
/// docs.
pub fn serialize_log(entries: &[RedactionAuditEntry]) -> (out: Vec<u8>)
    ensures
        out@ == log_text(view_log(entries@)),
{
    let mut out: Vec<u8> = Vec::new();
    out.push(82u8);
    out.push(80u8);
    out.push(68u8);
    out.push(70u8);
    out.push(65u8);
    out.push(85u8);
    out.push(68u8);
    out.push(49u8);
    write_u32(&mut out, (entries.len() as u64 % 0x100000000) as u32);
    let ghost head = out@;
    let mut i: usize = 0;
    while i < entries.len()
        invariant
            i <= entries@.len(),
            out@ == head + entries_bytes(view_log(entries@.subrange(0, i as int))),
        decreases entries@.len() - i,
    {
        write_entry(&mut out, &entries[i]);
        proof {
            let a = view_log(entries@.subrange(0, i + 1));
            assert(a.drop_last() =~= view_log(entries@.subrange(0, i as int)));
        }
        i = i + 1;
    }
    assert(entries@.subrange(0, entries@.len() as int) =~= entries@);
    assert(out@ =~= log_text(view_log(entries@)));
    out
}

// ---------------------------------------------------------------------
// Reading

/// A cursor over untrusted input.
pub struct Reader<'a> {
    /// The input.
    pub data: &'a [u8],
    /// The next position to read.
    pub pos: usize,
}

impl<'a> Reader<'a> {
    /// Takes the next `n` bytes, if that many remain.
    pub fn take(&mut self, n: usize) -> (r: Option<&'a [u8]>)
        ensures
            final(self).data == old(self).data,
            old(self).pos + n <= old(self).data@.len() ==> (r matches Some(b) && b@ == old(self).data@.subrange(
                old(self).pos as int,
                old(self).pos + n,
            ) && final(self).pos == old(self).pos + n),
            old(self).pos + n > old(self).data@.len() ==> r is None && final(self).pos == old(self).pos,
    {
        if self.pos > self.data.len() || n > self.data.len() - self.pos {
            None
        } else {
            let end = self.pos + n;
            let slice = vstd::slice::slice_subrange(self.data, self.pos, end);
            self.pos = end;
            Some(slice)
        }
    }

    /// Takes one byte.
    pub fn take_u8(&mut self) -> (r: Option<u8>)
        ensures
            final(self).data == old(self).data,
            old(self).pos + 1 <= old(self).data@.len() ==> r == Some(old(self).data@[old(self).pos as int])
                && final(self).pos == old(self).pos + 1,
            old(self).pos + 1 > old(self).data@.len() ==> r is None && final(self).pos == old(self).pos,
    {
        match self.take(1) {
            Some(b) => Some(b[0]),
            None => None,
        }
    }

    /// Takes a big-endian 32-bit value.
    pub fn take_u32(&mut self) -> (r: Option<u32>)
        ensures
            final(self).data == old(self).data,
            old(self).pos + 4 <= old(self).data@.len() ==> (r matches Some(x) && x as nat == be32_value(
                old(self).data@.subrange(old(self).pos as int, old(self).pos + 4),
            ) && final(self).pos == old(self).pos + 4),
            old(self).pos + 4 > old(self).data@.len() ==> r is None && final(self).pos == old(self).pos,
    {
        match self.take(4) {
            Some(b) => {
                reveal(be32_value);
                let x: u32 = (b[0] as u32) * 0x1000000 + (b[1] as u32) * 0x10000 + (b[2] as u32) * 0x100 + (b[3] as u32);
                Some(x)
            },
            None => None,
        }
    }

    /// Takes a big-endian 64-bit value (an IEEE-754 double's bit pattern).
    pub fn take_f64(&mut self) -> (r: Option<u64>)
        ensures
            final(self).data == old(self).data,
            old(self).pos + 8 <= old(self).data@.len() ==> (r matches Some(x) && x as nat == be64_value(
                old(self).data@.subrange(old(self).pos as int, old(self).pos + 8),
            ) && final(self).pos == old(self).pos + 8),
            old(self).pos + 8 > old(self).data@.len() ==> r is None,
    {
        let ghost d = self.data@;
        let ghost p = self.pos;
        let hi = match self.take_u32() {
            Some(x) => x,
            None => {
                return None;
            },
        };
        let lo = match self.take_u32() {
            Some(x) => x,
            None => {
                return None;
            },
        };
        proof {
            assert(d.subrange(p as int, p + 8).subrange(0, 4) =~= d.subrange(p as int, p + 4));
            assert(d.subrange(p as int, p + 8).subrange(4, 8) =~= d.subrange(p + 4, p + 8));
        }
        Some((hi as u64) * 0x100000000 + (lo as u64))
    }

    /// Takes a length-prefixed field as text, decoded leniently.
    pub fn take_field_string(&mut self) -> (r: Option<String>)
        ensures
            final(self).data == old(self).data,
            spec_field(old(self).data@, old(self).pos as int) matches Some((p, t)) ==> (r matches Some(s) && s@
                == t && final(self).pos == p),
            spec_field(old(self).data@, old(self).pos as int) is None ==> r is None,
    {
        let len = match self.take_u32() {
            Some(x) => x,
            None => {
                return None;
            },
        };
        if len > MAX_FIELD_BYTES {
            return None;
        }
        match self.take(len as usize) {
            Some(bytes) => Some(string_from_utf8_lossy(bytes)),
            None => None,
        }
    }
}

/// Reads one entry at the reader's position.
pub fn parse_entry(r: &mut Reader) -> (res: Option<RedactionAuditEntry>)
    ensures
        final(r).data == old(r).data,
        spec_entry(old(r).data@, old(r).pos as int) matches Some((p, e)) ==> (res matches Some(x) && x.v()
            == e && final(r).pos == p),
        spec_entry(old(r).data@, old(r).pos as int) is None ==> res is None,
{
    let ghost d = r.data@;
    let ghost p0 = r.pos as int;
    reveal(spec_entry);
    let page_raw = r.take_u32()?;
    let page_index = if page_raw == 0xffffffffu32 { None } else { Some(page_raw as usize) };
    let has_area = r.take_u8()?;
    let area = if has_area == 1 {
        let llx = r.take_f64()?;
        let lly = r.take_f64()?;
        let urx = r.take_f64()?;
        let ury = r.take_f64()?;
        Some(AuditArea { llx, lly, urx, ury })
    } else if has_area == 0 {
        None
    } else {
        return None;
    };
    let ghost p1 = r.pos as int;
    assert(spec_area(d, p0 + 4) == Some((p1, area)));
    let text_runs_removed = r.take_u32()? as usize;
    let images_removed = r.take_u32()? as usize;
    let tounicode_entries_pruned = r.take_u32()? as usize;
    let actor = r.take_field_string()?;
    let reason = r.take_field_string()?;
    let timestamp = r.take_field_string()?;
    Some(RedactionAuditEntry {
        actor,
        reason,
        timestamp,
        page_index,
        area,
        text_runs_removed,
        images_removed,
        tounicode_entries_pruned,
    })
}

/// Parses the on-disk format described in the module docs.
///
/// Best-effort over untrusted input: stops and returns whatever entries
/// parsed successfully so far as soon as the magic/header is missing, a
/// declared length would run past the end of `data`, or any of the
/// bounds is exceeded; it never panics or over-reads.
pub fn parse_log(data: &[u8]) -> (out: Vec<RedactionAuditEntry>)
    ensures
        view_log(out@) == spec_parse_log(data@),
{
    let mut out: Vec<RedactionAuditEntry> = Vec::new();
    if data.len() > MAX_AUDIT_LOG_BYTES {
        assert(view_log(out@) =~= spec_parse_log(data@));
        return out;
    }
    let mut r = Reader { data, pos: 0 };
    let magic_bytes = match r.take(8) {
        Some(b) => b,
        None => {
            assert(view_log(out@) =~= spec_parse_log(data@));
            return out;
        },
    };
    let expected = [82u8, 80u8, 68u8, 70u8, 65u8, 85u8, 68u8, 49u8];
    assert(expected@ =~= magic());
    if !crate::object::bytes_eq(magic_bytes, expected.as_slice()) {
        assert(view_log(out@) =~= spec_parse_log(data@));
        return out;
    }
    let count = match r.take_u32() {
        Some(c) => c,
        None => {
            assert(view_log(out@) =~= spec_parse_log(data@));
            return out;
        },
    };
    let count: usize = if count as usize > MAX_AUDIT_ENTRIES { MAX_AUDIT_ENTRIES } else { count as usize };
    let mut k: usize = 0;
    assert(view_log(out@) + spec_entries(data@, 12, count as nat) =~= spec_parse_log(data@));
    while k < count
        invariant
            k <= count,
            r.data == data,
            view_log(out@) + spec_entries(data@, r.pos as int, (count - k) as nat) == spec_parse_log(data@),
        decreases count - k,
    {
        let ghost before = out@;
        let ghost pos = r.pos as int;
        match parse_entry(&mut r) {
            Some(entry) => {
                out.push(entry);
                assert(view_log(out@) =~= view_log(before).push(out@.last().v()));
                assert(view_log(out@) + spec_entries(data@, r.pos as int, (count - k - 1) as nat) =~= view_log(before) + spec_entries(data@, pos, (count - k) as nat));
            },
            None => {
                assert(view_log(out@) =~= spec_parse_log(data@));
                return out;
            },
        }
        k = k + 1;
    }
    assert(view_log(out@) =~= spec_parse_log(data@));
    out
}

// ---------------------------------------------------------------------
// Laws

/// Whether an entry fits the format: a page index other than the
/// "no page" marker, counts below 2^32, and each text within
/// `MAX_FIELD_BYTES` bytes of UTF-8.
pub open spec fn entry_fits(e: EntryV) -> bool {
    &&& (e.page_index matches Some(p) ==> p < 0xffffffff)
    &&& e.text_runs_removed < 0x100000000
    &&& e.images_removed < 0x100000000
    &&& e.tounicode_entries_pruned < 0x100000000
    &&& encode_utf8(e.actor).len() <= MAX_FIELD_BYTES
    &&& encode_utf8(e.reason).len() <= MAX_FIELD_BYTES
    &&& encode_utf8(e.timestamp).len() <= MAX_FIELD_BYTES
}

proof fn lemma_be32(x: nat)
    requires
        x < 0x100000000,
    ensures
        be32(x).len() == 4,
        be32_value(be32(x)) == x,
{
    reveal(be32);
    reveal(be32_value);
    let b = be32(x);
    assert(b[0] as nat == (x / 0x1000000) % 256);
    assert(b[1] as nat == (x / 0x10000) % 256);
    assert(b[2] as nat == (x / 0x100) % 256);
    assert(b[3] as nat == x % 256);
    assert(((x / 0x1000000) % 256) * 0x1000000 + ((x / 0x10000) % 256) * 0x10000 + ((x / 0x100) % 256) * 0x100 + x % 256 == x) by (nonlinear_arith)
        requires
            x < 0x100000000,
    {
    }
}

proof fn lemma_be64(x: nat)
    requires
        x < 0x10000000000000000,
    ensures
        be64(x).len() == 8,
        be64_value(be64(x)) == x,
{
    let hi = x / 0x100000000;
    let lo = x % 0x100000000;
    lemma_be32(hi);
    lemma_be32(lo);
    let b = be64(x);
    assert(b.subrange(0, 4) =~= be32(hi));
    assert(b.subrange(4, 8) =~= be32(lo));
}

proof fn lemma_field(d: Seq<u8>, pos: int, chars: Seq<char>)
    requires
        0 <= pos,
        encode_utf8(chars).len() <= MAX_FIELD_BYTES,
        pos + field_text(encode_utf8(chars)).len() <= d.len(),
        d.subrange(pos, pos + field_text(encode_utf8(chars)).len()) == field_text(encode_utf8(chars)),
    ensures
        field_text(encode_utf8(chars)).len() == 4 + encode_utf8(chars).len(),
        spec_field(d, pos) == Some((pos + field_text(encode_utf8(chars)).len(), chars)),
{
    let b = encode_utf8(chars);
    let f = field_text(b);
    lemma_be32(b.len());
    assert(b.subrange(0, b.len() as int) =~= b);
    assert(d.subrange(pos, pos + 4) =~= f.subrange(0, 4));
    assert(f.subrange(0, 4) =~= be32(b.len()));
    assert(d.subrange(pos + 4, pos + 4 + b.len()) =~= f.subrange(4, f.len() as int));
    assert(f.subrange(4, f.len() as int) =~= b);
}

/// The length of an entry's area part.
pub open spec fn area_len(a: Option<AuditArea>) -> int {
    if a is Some { 33 } else { 1 }
}

#[verifier::rlimit(40)]
proof fn lemma_area(d: Seq<u8>, q: int, a: Option<AuditArea>)
    requires
        0 <= q,
        q + area_len(a) <= d.len(),
        d.subrange(q, q + area_len(a)) == area_text(a),
    ensures
        area_text(a).len() == area_len(a),
        spec_area(d, q) == Some((q + area_len(a), a)),
{
    match a {
        Some(r) => {
            lemma_be64(r.llx as nat);
            lemma_be64(r.lly as nat);
            lemma_be64(r.urx as nat);
            lemma_be64(r.ury as nat);
            let t = area_text(a);
            assert(t.len() == 33);
            assert(d[q] == t[0]);
            assert(d.subrange(q + 1, q + 9) =~= t.subrange(1, 9));
            assert(t.subrange(1, 9) =~= be64(r.llx as nat));
            assert(d.subrange(q + 9, q + 17) =~= t.subrange(9, 17));
            assert(t.subrange(9, 17) =~= be64(r.lly as nat));
            assert(d.subrange(q + 17, q + 25) =~= t.subrange(17, 25));
            assert(t.subrange(17, 25) =~= be64(r.urx as nat));
            assert(d.subrange(q + 25, q + 33) =~= t.subrange(25, 33));
            assert(t.subrange(25, 33) =~= be64(r.ury as nat));
        },
        None => {
            assert(d[q] == area_text(a)[0]);
        },
    }
}

/// Where the parts of an entry's bytes stand.
#[verifier::rlimit(40)]
proof fn lemma_entry_parts(d: Seq<u8>, pos: int, e: EntryV)
    requires
        0 <= pos,
        entry_fits(e),
        pos + entry_text(e).len() <= d.len(),
        d.subrange(pos, pos + entry_text(e).len()) == entry_text(e),
    ensures
        ({
            let f1 = field_text(encode_utf8(e.actor));
            let f2 = field_text(encode_utf8(e.reason));
            let f3 = field_text(encode_utf8(e.timestamp));
            let p1 = pos + 4 + area_len(e.area);
            let p2 = p1 + 12;
            let p3 = p2 + f1.len();
            let p4 = p3 + f2.len();
            &&& entry_text(e).len() == p4 + f3.len() - pos
            &&& d.subrange(pos, pos + 4) == be32(page_raw(e.page_index))
            &&& d.subrange(pos + 4, p1) == area_text(e.area)
            &&& d.subrange(p1, p1 + 4) == be32(e.text_runs_removed as nat)
            &&& d.subrange(p1 + 4, p1 + 8) == be32(e.images_removed as nat)
            &&& d.subrange(p1 + 8, p1 + 12) == be32(e.tounicode_entries_pruned as nat)
            &&& d.subrange(p2, p3) == f1
            &&& d.subrange(p3, p4) == f2
            &&& d.subrange(p4, p4 + f3.len()) == f3
        }),
{
    reveal(entry_text);
    let t = entry_text(e);
    let pr = page_raw(e.page_index);
    let at = area_text(e.area);
    match e.area {
        Some(r) => {
            lemma_be64(r.llx as nat);
            lemma_be64(r.lly as nat);
            lemma_be64(r.urx as nat);
            lemma_be64(r.ury as nat);
        },
        None => {},
    }
    assert(at.len() == area_len(e.area));
    lemma_be32(pr);
    lemma_be32(e.text_runs_removed as nat);
    lemma_be32(e.images_removed as nat);
    lemma_be32(e.tounicode_entries_pruned as nat);
    let f1 = field_text(encode_utf8(e.actor));
    let f2 = field_text(encode_utf8(e.reason));
    let f3 = field_text(encode_utf8(e.timestamp));
    let c1 = be32(e.text_runs_removed as nat);
    let c2 = be32(e.images_removed as nat);
    let c3 = be32(e.tounicode_entries_pruned as nat);
    let p1 = pos + 4 + area_len(e.area);
    let p2 = p1 + 12;
    let p3 = p2 + f1.len();
    let p4 = p3 + f2.len();
    assert(t =~= be32(pr) + at + c1 + c2 + c3 + f1 + f2 + f3);
    let o = pos;
    assert(d.subrange(pos, pos + 4) =~= t.subrange(0, 4));
    assert(t.subrange(0, 4) =~= be32(pr));
    assert(d.subrange(pos + 4, p1) =~= t.subrange(4, p1 - o));
    assert(t.subrange(4, p1 - o) =~= at);
    assert(d.subrange(p1, p1 + 4) =~= t.subrange(p1 - o, p1 - o + 4));
    assert(t.subrange(p1 - o, p1 - o + 4) =~= c1);
    assert(d.subrange(p1 + 4, p1 + 8) =~= t.subrange(p1 - o + 4, p1 - o + 8));
    assert(t.subrange(p1 - o + 4, p1 - o + 8) =~= c2);
    assert(d.subrange(p1 + 8, p1 + 12) =~= t.subrange(p1 - o + 8, p1 - o + 12));
    assert(t.subrange(p1 - o + 8, p1 - o + 12) =~= c3);
    assert(d.subrange(p2, p3) =~= t.subrange(p2 - o, p3 - o));
    assert(t.subrange(p2 - o, p3 - o) =~= f1);
    assert(d.subrange(p3, p4) =~= t.subrange(p3 - o, p4 - o));
    assert(t.subrange(p3 - o, p4 - o) =~= f2);
    assert(d.subrange(p4, p4 + f3.len()) =~= t.subrange(p4 - o, p4 - o + f3.len()));
    assert(t.subrange(p4 - o, p4 - o + f3.len()) =~= f3);
}

#[verifier::rlimit(40)]
proof fn lemma_entry(d: Seq<u8>, pos: int, e: EntryV)
    requires
        0 <= pos,
        entry_fits(e),
        pos + entry_text(e).len() <= d.len(),
        d.subrange(pos, pos + entry_text(e).len()) == entry_text(e),
    ensures
        spec_entry(d, pos) == Some((pos + entry_text(e).len(), e)),
{
    lemma_entry_parts(d, pos, e);
    reveal(spec_entry);
    let pr = page_raw(e.page_index);
    lemma_be32(pr);
    lemma_be32(e.text_runs_removed as nat);
    lemma_be32(e.images_removed as nat);
    lemma_be32(e.tounicode_entries_pruned as nat);
    let f1 = field_text(encode_utf8(e.actor));
    let f2 = field_text(encode_utf8(e.reason));
    let f3 = field_text(encode_utf8(e.timestamp));
    let p1 = pos + 4 + area_len(e.area);
    let p2 = p1 + 12;
    let p3 = p2 + f1.len();
    let p4 = p3 + f2.len();
    lemma_area(d, pos + 4, e.area);
    lemma_field(d, p2, e.actor);
    lemma_field(d, p3, e.reason);
    lemma_field(d, p4, e.timestamp);
    match e.page_index {
        Some(p) => {
            assert(pr == p);
        },
        None => {},
    }
}

proof fn lemma_entries_bytes_first(es: Seq<EntryV>)
    requires
        es.len() >= 1,
    ensures
        entries_bytes(es) == entry_text(es[0]) + entries_bytes(es.drop_first()),
    decreases es.len(),
{
    if es.len() == 1 {
        assert(es.drop_last() =~= Seq::<EntryV>::empty());
        assert(entries_bytes(es.drop_last()) =~= Seq::<u8>::empty());
        assert(entries_bytes(es.drop_first()) =~= Seq::<u8>::empty());
        assert(es.drop_first() =~= Seq::<EntryV>::empty());
        assert(entries_bytes(es) =~= entry_text(es[0]));
    } else {
        lemma_entries_bytes_first(es.drop_last());
        assert(es.drop_last().drop_first() =~= es.drop_first().drop_last());
        assert(es.drop_first().last() == es.last());
        assert(es.drop_last()[0] == es[0]);
        assert(entries_bytes(es) =~= entry_text(es[0]) + entries_bytes(es.drop_first()));
    }
}

proof fn lemma_entries(d: Seq<u8>, pos: int, es: Seq<EntryV>)
    requires
        0 <= pos <= d.len(),
        forall|i: int| 0 <= i < es.len() ==> entry_fits(#[trigger] es[i]),
        d.subrange(pos, d.len() as int) == entries_bytes(es),
    ensures
        spec_entries(d, pos, es.len()) == es,
    decreases es.len(),
{
    if es.len() > 0 {
        lemma_entries_bytes_first(es);
        let t = entry_text(es[0]);
        assert(entries_bytes(es).len() == t.len() + entries_bytes(es.drop_first()).len());
        assert(d.subrange(pos, d.len() as int).len() == d.len() - pos);
        assert(pos + t.len() <= d.len());
        assert(d.subrange(pos, pos + t.len()) =~= d.subrange(pos, d.len() as int).subrange(0, t.len() as int));
        assert(entries_bytes(es).subrange(0, t.len() as int) =~= t);
        lemma_entry(d, pos, es[0]);
        let rest = es.drop_first();
        assert(d.subrange(pos + t.len(), d.len() as int) =~= d.subrange(pos, d.len() as int).subrange(t.len() as int, (d.len() - pos) as int));
        assert(entries_bytes(es).subrange(t.len() as int, entries_bytes(es).len() as int) =~= entries_bytes(rest));
        assert forall|i: int| 0 <= i < rest.len() implies entry_fits(#[trigger] rest[i]) by {
            assert(rest[i] == es[i + 1]);
        }
        lemma_entries(d, pos + t.len(), rest);
        assert(seq![es[0]] + rest =~= es);
    } else {
        assert(spec_entries(d, pos, 0) =~= es);
    }
}

/// The log read from a resolved stream, or none.
pub open spec fn resolved_log(res: Option<Vec<u8>>) -> Seq<EntryV> {
    match res {
        Some(d) => spec_parse_log(d@),
        None => Seq::empty(),
    }
}

/// The audit log a catalog records: the log read from the stream its
/// audit entry references, as `resolve_stream` decodes it; empty when
/// the entry is missing or not a reference, or the stream cannot be had.
pub fn load_from_catalog<F: Fn(ObjectId) -> Option<Vec<u8>>>(
    catalog: &PdfDictionary,
    resolve_stream: F,
) -> (out: Vec<RedactionAuditEntry>)
    requires
        forall|id: ObjectId| call_requires(resolve_stream, (id,)),
    ensures
        catalog.spec_get(AUDIT_LOG_CATALOG_KEY@) matches Some(crate::object::ObjV::Reference(n, g))
            ==> exists|res: Option<Vec<u8>>|
            call_ensures(resolve_stream, (ObjectId { number: n, generation: g },), res)
                && #[trigger] resolved_log(res) == view_log(out@),
        !(catalog.spec_get(AUDIT_LOG_CATALOG_KEY@) matches Some(crate::object::ObjV::Reference(_, _)))
            ==> out@.len() == 0,
{
    match catalog.get(AUDIT_LOG_CATALOG_KEY) {
        Some(Object::Reference(id)) => {
            let res = resolve_stream(*id);
            let out = match &res {
                Some(decoded) => parse_log(decoded.as_slice()),
                None => {
                    let out: Vec<RedactionAuditEntry> = Vec::new();
                    assert(view_log(out@) =~= Seq::<EntryV>::empty());
                    out
                },
            };
            proof {
                let key = ObjectId { number: id.number, generation: id.generation };
                assert(key == *id);
                assert(call_ensures(resolve_stream, (key,), res));
                assert(view_log(out@) == resolved_log(res));
                assert(catalog.spec_get(AUDIT_LOG_CATALOG_KEY@) == Some(crate::object::ObjV::Reference(id.number, id.generation)));

            }
            out
        },
        Some(o) => {
            assert(!(o.v() is Reference));
            Vec::new()
        },
        None => Vec::new(),
    }
}

/// The stream that stores `entries` as a document's audit log:
/// `/Type /RustPdfRedactionLog` and the serialized log, unfiltered.
pub fn build_log_stream(entries: &[RedactionAuditEntry]) -> (s: PdfStream)
    ensures
        s.dictionary.view_entries() == seq![
            ("Type"@, crate::object::ObjV::Name("RustPdfRedactionLog"@)),
        ],
        s.data@ == log_text(view_log(entries@)),
{
    let mut dict = PdfDictionary::new();
    dict.set("Type", Object::Name(PdfName::new_unchecked("RustPdfRedactionLog")));
    assert(dict.view_entries() =~= seq![("Type"@, crate::object::ObjV::Name("RustPdfRedactionLog"@))]);
    PdfStream::with_dictionary(dict, serialize_log(entries))
}

/// Reading back what [`serialize_log`] writes gives the entries back
/// unchanged, when every entry fits the format (see [`entry_fits`]) and
/// the log is within the reader's bounds on entry count and size.
pub proof fn lemma_log_round_trip(es: Seq<EntryV>)
    requires
        es.len() <= MAX_AUDIT_ENTRIES,
        log_text(es).len() <= MAX_AUDIT_LOG_BYTES,
        forall|i: int| 0 <= i < es.len() ==> entry_fits(#[trigger] es[i]),
    ensures
        spec_parse_log(log_text(es)) == es,
{
    let d = log_text(es);
    lemma_be32(es.len() % 0x100000000);
    assert(d.subrange(0, 8) =~= magic());
    assert(d.subrange(8, 12) =~= be32(es.len() % 0x100000000));
    assert(d.subrange(12, d.len() as int) =~= entries_bytes(es));
    lemma_entries(d, 12, es);
}

} // verus!
