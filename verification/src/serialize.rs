//! The textual form of PDF objects (ISO 32000-1 7.3), as this crate
//! writes them.

use vstd::prelude::*;
use vstd::string::StringSliceAdditionalSpecFns;
use vstd::utf8::encode_utf8;
use crate::numfmt::{dec, int_dec, real_text, write_dec, write_int, write_real};
use crate::object::{Object, ObjV, PdfArray, PdfDictionary, PdfString, view_objs, view_entries};
use crate::syntax::{hex_digit, hex_digit_exec, is_delimiter, spec_is_delimiter};

verus! {

/// The text of one byte of a name: the byte itself when it is a printable
/// regular character other than `#`, else `#` and two hex digits.
pub open spec fn name_byte_text(b: u8) -> Seq<u8> {
    if 0x21 <= b <= 0x7e && !spec_is_delimiter(b) && b != 35u8 {
        seq![b]
    } else {
        seq![35u8, hex_digit((b / 16) as int), hex_digit((b % 16) as int)]
    }
}

/// The escaped text of a name's bytes (without the leading `/`).
pub open spec fn name_text(bytes: Seq<u8>) -> Seq<u8>
    decreases bytes.len(),
{
    if bytes.len() == 0 {
        Seq::empty()
    } else {
        name_text(bytes.drop_last()) + name_byte_text(bytes.last())
    }
}

/// The text of one byte inside a literal string: `\`, `(`, `)` and
/// carriage return are escaped, every other byte stands for itself.
pub open spec fn lit_byte_text(b: u8) -> Seq<u8> {
    if b == 92u8 {
        seq![92u8, 92u8]
    } else if b == 40u8 {
        seq![92u8, 40u8]
    } else if b == 41u8 {
        seq![92u8, 41u8]
    } else if b == 13u8 {
        seq![92u8, 114u8]
    } else {
        seq![b]
    }
}

/// The escaped body of a literal string.
pub open spec fn lit_body(bytes: Seq<u8>) -> Seq<u8>
    decreases bytes.len(),
{
    if bytes.len() == 0 {
        Seq::empty()
    } else {
        lit_body(bytes.drop_last()) + lit_byte_text(bytes.last())
    }
}

/// The hexadecimal body of a hex string: two upper-case digits per byte.
pub open spec fn hex_body(bytes: Seq<u8>) -> Seq<u8>
    decreases bytes.len(),
{
    if bytes.len() == 0 {
        Seq::empty()
    } else {
        hex_body(bytes.drop_last()) + seq![
            hex_digit((bytes.last() / 16) as int),
            hex_digit((bytes.last() % 16) as int),
        ]
    }
}

/// The text of a string object.
pub open spec fn string_text(hex: bool, bytes: Seq<u8>) -> Seq<u8> {
    if hex {
        seq![60u8] + hex_body(bytes) + seq![62u8]
    } else {
        seq![40u8] + lit_body(bytes) + seq![41u8]
    }
}

/// The text of a value.
pub open spec fn obj_text(o: ObjV) -> Seq<u8>
    decreases o,
{
    match o {
        ObjV::Null => seq![110u8, 117u8, 108u8, 108u8],
        ObjV::Boolean(b) => if b {
            seq![116u8, 114u8, 117u8, 101u8]
        } else {
            seq![102u8, 97u8, 108u8, 115u8, 101u8]
        },
        ObjV::Integer(i) => int_dec(i as int),
        ObjV::Real(m) => real_text(m as int),
        ObjV::Str(hex, b) => string_text(hex, b),
        ObjV::Name(n) => seq![47u8] + name_text(encode_utf8(n)),
        ObjV::Array(items) => seq![91u8] + items_text(items) + seq![93u8],
        ObjV::Dict(entries) => seq![60u8, 60u8] + entries_text(entries) + seq![32u8, 62u8, 62u8],
        ObjV::Stream(entries, data) => seq![60u8, 60u8] + entries_text(entries) + seq![32u8, 62u8, 62u8]
            + stream_open() + data + stream_close(),
        ObjV::Reference(n, g) => dec(n as nat) + seq![32u8] + dec(g as nat) + seq![32u8, 82u8],
    }
}

/// `\nstream\n`.
pub open spec fn stream_open() -> Seq<u8> {
    seq![10u8, 115u8, 116u8, 114u8, 101u8, 97u8, 109u8, 10u8]
}

/// `\nendstream`.
pub open spec fn stream_close() -> Seq<u8> {
    seq![10u8, 101u8, 110u8, 100u8, 115u8, 116u8, 114u8, 101u8, 97u8, 109u8]
}

/// The texts of `items`, separated by single spaces.
pub open spec fn items_text(items: Seq<ObjV>) -> Seq<u8>
    decreases items,
{
    if items.len() == 0 {
        Seq::empty()
    } else if items.len() == 1 {
        obj_text(items[0])
    } else {
        items_text(items.drop_last()) + seq![32u8] + obj_text(items.last())
    }
}

/// `<<`, then ` /Key value` per entry, then ` >>`.
pub open spec fn dict_text(entries: Seq<(Seq<char>, ObjV)>) -> Seq<u8> {
    seq![60u8, 60u8] + entries_text(entries) + seq![32u8, 62u8, 62u8]
}

/// ` /Key value` for each entry.
pub open spec fn entries_text(entries: Seq<(Seq<char>, ObjV)>) -> Seq<u8>
    decreases entries,
{
    if entries.len() == 0 {
        Seq::empty()
    } else {
        entries_text(entries.drop_last()) + seq![32u8, 47u8] + name_text(
            encode_utf8(entries.last().0),
        ) + seq![32u8] + obj_text(entries.last().1)
    }
}

/// Appends the escaped text of a name's bytes.
pub fn write_name_bytes(out: &mut Vec<u8>, bytes: &[u8])
    ensures
        final(out)@ == old(out)@ + name_text(bytes@),
{
    let ghost start = out@;
    let mut i: usize = 0;
    while i < bytes.len()
        invariant
            i <= bytes.len(),
            out@ == start + name_text(bytes@.subrange(0, i as int)),
        decreases bytes.len() - i,
    {
        let b = bytes[i];
        if 0x21 <= b && b <= 0x7e && !is_delimiter(b) && b != 35u8 {
            out.push(b);
        } else {
            out.push(35u8);
            out.push(hex_digit_exec(b / 16));
            out.push(hex_digit_exec(b % 16));
        }
        assert(bytes@.subrange(0, i + 1).drop_last() =~= bytes@.subrange(0, i as int));
        i = i + 1;
        assert(out@ =~= start + name_text(bytes@.subrange(0, i as int)));
    }
    assert(bytes@.subrange(0, bytes.len() as int) =~= bytes@);
}

/// Appends the text of a string object.
pub fn write_string(out: &mut Vec<u8>, s: &PdfString)
    ensures
        final(out)@ == old(out)@ + string_text(s.is_hex(), s.bytes()),
{
    let ghost start = out@;
    let bytes = s.as_bytes();
    let hex = match s {
        PdfString::Hex(_) => true,
        PdfString::Literal(_) => false,
    };
    out.push(if hex { 60u8 } else { 40u8 });
    let ghost mid = out@;
    let mut i: usize = 0;
    while i < bytes.len()
        invariant
            i <= bytes.len(),
            out@ == mid + (if hex { hex_body(bytes@.subrange(0, i as int)) } else { lit_body(bytes@.subrange(0, i as int)) }),
        decreases bytes.len() - i,
    {
        let b = bytes[i];
        if hex {
            out.push(hex_digit_exec(b / 16));
            out.push(hex_digit_exec(b % 16));
        } else if b == 92u8 {
            out.push(92u8);
            out.push(92u8);
        } else if b == 40u8 {
            out.push(92u8);
            out.push(40u8);
        } else if b == 41u8 {
            out.push(92u8);
            out.push(41u8);
        } else if b == 13u8 {
            out.push(92u8);
            out.push(114u8);
        } else {
            out.push(b);
        }
        assert(bytes@.subrange(0, i + 1).drop_last() =~= bytes@.subrange(0, i as int));
        i = i + 1;
        assert(out@ =~= mid + (if hex { hex_body(bytes@.subrange(0, i as int)) } else { lit_body(bytes@.subrange(0, i as int)) }));
    }
    out.push(if hex { 62u8 } else { 41u8 });
    assert(bytes@.subrange(0, bytes.len() as int) =~= bytes@);
    assert(out@ =~= start + string_text(s.is_hex(), s.bytes()));
}

/// Appends the text of a name whose text is `name`.
pub fn write_name(out: &mut Vec<u8>, name: &str)
    ensures
        final(out)@ == old(out)@ + seq![47u8] + name_text(encode_utf8(name@)),
{
    out.push(47u8);
    write_name_bytes(out, name.as_bytes());
}

/// Appends `bytes`.
pub fn write_bytes(out: &mut Vec<u8>, bytes: &[u8])
    ensures
        final(out)@ == old(out)@ + bytes@,
{
    let ghost start = out@;
    let mut i: usize = 0;
    while i < bytes.len()
        invariant
            i <= bytes.len(),
            out@ == start + bytes@.subrange(0, i as int),
        decreases bytes.len() - i,
    {
        out.push(bytes[i]);
        i = i + 1;
        assert(out@ =~= start + bytes@.subrange(0, i as int));
    }
    assert(bytes@.subrange(0, bytes.len() as int) =~= bytes@);
}

/// Appends the text of a dictionary.
pub fn write_dictionary(out: &mut Vec<u8>, d: &PdfDictionary)
    ensures
        final(out)@ == old(out)@ + dict_text(d.view_entries()),
    decreases d,
{
    let ghost start = out@;
    out.push(60u8);
    out.push(60u8);
    let ghost mid = out@;
    let mut i: usize = 0;
    while i < d.entries.len()
        invariant
            i <= d.entries@.len(),
            out@ == mid + entries_text(view_entries(d.entries@.subrange(0, i as int))),
        decreases d.entries@.len() - i,
    {
        let entry = &d.entries[i];
        out.push(32u8);
        write_name(out, entry.0.as_str());
        out.push(32u8);
        write_object(out, &entry.1);
        proof {
            let s1 = d.entries@.subrange(0, i + 1);
            assert(s1.drop_last() =~= d.entries@.subrange(0, i as int));
            assert(s1.last() == d.entries@[i as int]);
            let vs = view_entries(s1);
            assert(vs == view_entries(d.entries@.subrange(0, i as int)).push((d.entries@[i as int].0@, d.entries@[i as int].1.v())));
            assert(vs.drop_last() =~= view_entries(d.entries@.subrange(0, i as int)));
        }
        i = i + 1;
        assert(out@ =~= mid + entries_text(view_entries(d.entries@.subrange(0, i as int))));
    }
    out.push(32u8);
    out.push(62u8);
    out.push(62u8);
    assert(d.entries@.subrange(0, d.entries@.len() as int) =~= d.entries@);
    assert(out@ =~= start + dict_text(d.view_entries()));
}

/// Appends the text of an array.
pub fn write_array(out: &mut Vec<u8>, a: &PdfArray)
    ensures
        final(out)@ == old(out)@ + seq![91u8] + items_text(a.view_items()) + seq![93u8],
    decreases a,
{
    let ghost start = out@;
    out.push(91u8);
    let ghost mid = out@;
    let mut i: usize = 0;
    while i < a.items.len()
        invariant
            i <= a.items@.len(),
            out@ == mid + items_text(view_objs(a.items@.subrange(0, i as int))),
        decreases a.items@.len() - i,
    {
        if i > 0 {
            out.push(32u8);
        }
        write_object(out, &a.items[i]);
        proof {
            let s1 = a.items@.subrange(0, i + 1);
            assert(s1.drop_last() =~= a.items@.subrange(0, i as int));
            let vs = view_objs(s1);
            assert(vs == view_objs(a.items@.subrange(0, i as int)).push(a.items@[i as int].v()));
            assert(vs.drop_last() =~= view_objs(a.items@.subrange(0, i as int)));
            assert(vs.last() == a.items@[i as int].v());
            if i == 0 {
                assert(view_objs(s1.drop_last()) =~= Seq::<ObjV>::empty());
                assert(vs.len() == 1);
                assert(items_text(vs) == obj_text(vs[0]));
            } else {
                crate::object::lemma_view_objs(a.items@.subrange(0, i as int));
                assert(vs.len() >= 2);
            }
        }
        i = i + 1;
        assert(out@ =~= mid + items_text(view_objs(a.items@.subrange(0, i as int))));
    }
    out.push(93u8);
    assert(a.items@.subrange(0, a.items@.len() as int) =~= a.items@);
    assert(out@ =~= start + seq![91u8] + items_text(a.view_items()) + seq![93u8]);
}

/// Appends the text of an object.
pub fn write_object(out: &mut Vec<u8>, obj: &Object)
    ensures
        final(out)@ == old(out)@ + obj_text(obj.v()),
    decreases obj,
{
    let ghost start = out@;
    match obj {
        Object::Null => {
            out.push(110u8);
            out.push(117u8);
            out.push(108u8);
            out.push(108u8);
            assert(out@ =~= start + obj_text(obj.v()));
        },
        Object::Boolean(b) => {
            if *b {
                out.push(116u8);
                out.push(114u8);
                out.push(117u8);
                out.push(101u8);
            } else {
                out.push(102u8);
                out.push(97u8);
                out.push(108u8);
                out.push(115u8);
                out.push(101u8);
            }
            assert(out@ =~= start + obj_text(obj.v()));
        },
        Object::Integer(i) => {
            write_int(out, *i);
        },
        Object::Real(r) => {
            write_real(out, r.micros);
        },
        Object::String(s) => {
            write_string(out, s);
        },
        Object::Name(n) => {
            write_name(out, n.name.as_str());
            assert(out@ =~= start + obj_text(obj.v()));
        },
        Object::Array(a) => {
            write_array(out, a);
        },
        Object::Dictionary(d) => {
            write_dictionary(out, d);
        },
        Object::Stream(s) => {
            write_dictionary(out, &s.dictionary);
            out.push(10u8);
            out.push(115u8);
            out.push(116u8);
            out.push(114u8);
            out.push(101u8);
            out.push(97u8);
            out.push(109u8);
            out.push(10u8);
            write_bytes(out, s.data.as_slice());
            out.push(10u8);
            out.push(101u8);
            out.push(110u8);
            out.push(100u8);
            out.push(115u8);
            out.push(116u8);
            out.push(114u8);
            out.push(101u8);
            out.push(97u8);
            out.push(109u8);
            assert(out@ =~= start + obj_text(obj.v()));
        },
        Object::Reference(id) => {
            write_dec(out, id.number as u64);
            out.push(32u8);
            write_dec(out, id.generation as u64);
            out.push(32u8);
            out.push(82u8);
            assert(out@ =~= start + obj_text(obj.v()));
        },
    }
}

/// The text of an object.
pub fn to_pdf_bytes(obj: &Object) -> (r: Vec<u8>)
    ensures
        r@ == obj_text(obj.v()),
{
    let mut v: Vec<u8> = Vec::new();
    write_object(&mut v, obj);
    assert(v@ =~= obj_text(obj.v()));
    v
}

} // verus!
