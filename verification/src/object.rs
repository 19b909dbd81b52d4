//! The PDF object model (ISO 32000-1:2008 Section 7.3) and its textual
//! serialization.
//!
//! Real numbers are held in fixed point, as a count of millionths, so
//! that they can be compared and written exactly.

use vstd::prelude::*;
use vstd::utf8::*;
use vstd::string::StringSliceAdditionalSpecFns;
use crate::numfmt::{dec, write_dec};

verus! {

broadcast use vstd::utf8::encode_utf8_decode_utf8;

/// An indirect object's identifier (object number and generation).
#[derive(Debug, Clone, Copy, PartialEq, Eq, Structural, Hash, PartialOrd, Ord)]
pub struct ObjectId {
    /// The object number.
    pub number: u32,
    /// The generation number.
    pub generation: u16,
}

impl ObjectId {
    /// An id with generation 0.
    pub fn new(number: u32) -> (id: ObjectId)
        ensures
            id.number == number,
            id.generation == 0,
    {
        ObjectId { number, generation: 0 }
    }

    /// An id with an explicit generation.
    pub fn with_generation(number: u32, generation: u16) -> (id: ObjectId)
        ensures
            id.number == number,
            id.generation == generation,
    {
        ObjectId { number, generation }
    }

    /// The text `N G R` of a reference to this id.
    pub open spec fn ref_text(self) -> Seq<u8> {
        dec(self.number as nat) + seq![32u8] + dec(self.generation as nat) + seq![32u8, 82u8]
    }

    /// Writes `N G R`.
    pub fn write_reference(&self, out: &mut Vec<u8>)
        ensures
            final(out)@ == old(out)@ + self.ref_text(),
    {
        write_dec(out, self.number as u64);
        out.push(32u8);
        write_dec(out, self.generation as u64);
        out.push(32u8);
        out.push(82u8);
        assert(final(out)@ =~= old(out)@ + self.ref_text());
    }

    /// The text `N G R` of a reference to this id.
    pub fn reference_string(&self) -> (r: Vec<u8>)
        ensures
            r@ == self.ref_text(),
    {
        let mut v: Vec<u8> = Vec::new();
        self.write_reference(&mut v);
        assert(v@ =~= self.ref_text());
        v
    }
}

/// A real number in fixed point: `micros / 1_000_000`.
#[derive(Debug, Clone, Copy, PartialEq, Eq, Structural, Hash, PartialOrd, Ord)]
pub struct PdfReal {
    /// The value in millionths.
    pub micros: i64,
}

impl PdfReal {
    /// The real with the given count of millionths.
    pub fn from_micros(micros: i64) -> (r: PdfReal)
        ensures
            r.micros == micros,
    {
        PdfReal { micros }
    }

    /// The real equal to the integer `n`, when it is representable.
    pub fn from_integer(n: i64) -> (r: Option<PdfReal>)
        ensures
            r matches Some(x) ==> x.micros == n * 1_000_000,
            r is None <==> !(i64::MIN <= n * 1_000_000 <= i64::MAX),
    {
        if n > 9_223_372_036_854 || n < -9_223_372_036_854 {
            None
        } else {
            Some(PdfReal { micros: n * 1_000_000 })
        }
    }
}

/// A PDF string object (ISO 32000-1 7.3.4): its bytes, and whether it is
/// written in literal `( )` or hexadecimal `< >` form.
#[derive(Debug, Clone, PartialEq, Eq)]
pub enum PdfString {
    /// `(...)` form.
    Literal(Vec<u8>),
    /// `<...>` form.
    Hex(Vec<u8>),
}

impl PdfString {
    /// Whether the string is in hexadecimal form.
    pub open spec fn is_hex(self) -> bool {
        self is Hex
    }

    /// The string's bytes.
    pub open spec fn bytes(self) -> Seq<u8> {
        match self {
            PdfString::Literal(b) => b@,
            PdfString::Hex(b) => b@,
        }
    }

    /// A literal string holding the UTF-8 bytes of `s`.
    pub fn literal(s: &str) -> (r: PdfString)
        ensures
            r is Literal,
            r.bytes() == s.spec_bytes(),
    {
        let b = s.as_bytes();
        PdfString::Literal(slice_to_vec_u8(b))
    }

    /// The string's bytes.
    pub fn as_bytes(&self) -> (b: &[u8])
        ensures
            b@ == self.bytes(),
    {
        match self {
            PdfString::Literal(b) => b.as_slice(),
            PdfString::Hex(b) => b.as_slice(),
        }
    }

    /// A copy of this string.
    pub fn copy(&self) -> (r: PdfString)
        ensures
            r.bytes() == self.bytes(),
            r.is_hex() == self.is_hex(),
    {
        match self {
            PdfString::Literal(b) => PdfString::Literal(b.clone()),
            PdfString::Hex(b) => PdfString::Hex(b.clone()),
        }
    }
}

/// Copies a byte slice into a vector.
pub fn slice_to_vec_u8(b: &[u8]) -> (v: Vec<u8>)
    ensures
        v@ == b@,
{
    let mut v: Vec<u8> = Vec::with_capacity(b.len());
    let mut i: usize = 0;
    while i < b.len()
        invariant
            i <= b.len(),
            v@ == b@.subrange(0, i as int),
        decreases b.len() - i,
    {
        v.push(b[i]);
        i = i + 1;
        assert(v@ =~= b@.subrange(0, i as int));
    }
    assert(v@ =~= b@);
    v
}

/// Whether two byte slices hold the same bytes.
pub fn bytes_eq(a: &[u8], b: &[u8]) -> (r: bool)
    ensures
        r == (a@ == b@),
{
    if a.len() != b.len() {
        return false;
    }
    let mut i: usize = 0;
    while i < a.len()
        invariant
            i <= a.len() == b.len(),
            a@.subrange(0, i as int) == b@.subrange(0, i as int),
        decreases a.len() - i,
    {
        if a[i] != b[i] {
            assert(a@[i as int] != b@[i as int]);
            return false;
        }
        assert(a@.subrange(0, i + 1) =~= a@.subrange(0, i as int).push(a@[i as int]));
        assert(b@.subrange(0, i + 1) =~= b@.subrange(0, i as int).push(b@[i as int]));
        i = i + 1;
    }
    assert(a@ =~= a@.subrange(0, a.len() as int));
    assert(b@ =~= b@.subrange(0, b.len() as int));
    true
}

/// Whether two strings hold the same characters.
pub fn str_eq(a: &str, b: &str) -> (r: bool)
    ensures
        r == (a@ == b@),
{
    let r = bytes_eq(a.as_bytes(), b.as_bytes());
    proof {
        if r {
            assert(decode_utf8(encode_utf8(a@)) == a@);
            assert(decode_utf8(encode_utf8(b@)) == b@);
        }
    }
    r
}

/// A PDF name object (ISO 32000-1 7.3.5), held as its decoded text.
#[derive(Debug, Clone, PartialEq, Eq)]
pub struct PdfName {
    /// The name's text, without the leading `/`.
    pub name: String,
}

impl PdfName {
    /// The name with the given text.
    pub fn new_unchecked(s: &str) -> (n: PdfName)
        ensures
            n.name@ == s@,
    {
        PdfName { name: String::from_str(s) }
    }

    /// The name's text.
    pub fn as_str(&self) -> (s: &str)
        ensures
            s@ == self.name@,
    {
        self.name.as_str()
    }
}

/// A PDF array (ISO 32000-1 7.3.6).
#[derive(Debug, PartialEq)]
pub struct PdfArray {
    /// The elements, in order.
    pub items: Vec<Object>,
}

/// A PDF dictionary (ISO 32000-1 7.3.7). Entries keep the order in which
/// their keys were first set; setting an existing key replaces its value
/// in place.
#[derive(Debug, PartialEq)]
pub struct PdfDictionary {
    /// The entries, in insertion order.
    pub entries: Vec<(String, Object)>,
}

/// A PDF stream (ISO 32000-1 7.3.8): its dictionary and its (encoded)
/// data.
#[derive(Debug, PartialEq)]
pub struct PdfStream {
    /// The stream dictionary.
    pub dictionary: PdfDictionary,
    /// The stream's bytes, as stored in the file.
    pub data: Vec<u8>,
}

/// A PDF object (ISO 32000-1 7.3).
#[derive(Debug, PartialEq)]
pub enum Object {
    /// `null`.
    Null,
    /// `true` / `false`.
    Boolean(bool),
    /// An integer.
    Integer(i64),
    /// A real number.
    Real(PdfReal),
    /// A string.
    String(PdfString),
    /// A name.
    Name(PdfName),
    /// An array.
    Array(PdfArray),
    /// A dictionary.
    Dictionary(PdfDictionary),
    /// A stream.
    Stream(PdfStream),
    /// An indirect reference `N G R`.
    Reference(ObjectId),
}

/// The mathematical value of an [`Object`]: strings and names by their
/// contents, containers by the values of their elements.
pub enum ObjV {
    /// `null`.
    Null,
    /// A boolean.
    Boolean(bool),
    /// An integer.
    Integer(i64),
    /// A real, in millionths.
    Real(i64),
    /// A string: whether it is hexadecimal, and its bytes.
    Str(bool, Seq<u8>),
    /// A name's text.
    Name(Seq<char>),
    /// An array's element values.
    Array(Seq<ObjV>),
    /// A dictionary's entries (key text, value).
    Dict(Seq<(Seq<char>, ObjV)>),
    /// A stream's dictionary entries and data.
    Stream(Seq<(Seq<char>, ObjV)>, Seq<u8>),
    /// A reference (number, generation).
    Reference(u32, u16),
}

/// The values of a sequence of objects.
pub open spec fn view_objs(s: Seq<Object>) -> Seq<ObjV>
    decreases s,
{
    if s.len() == 0 {
        Seq::empty()
    } else {
        view_objs(s.drop_last()).push(s.last().v())
    }
}

/// The values of a sequence of dictionary entries.
pub open spec fn view_entries(s: Seq<(String, Object)>) -> Seq<(Seq<char>, ObjV)>
    decreases s,
{
    if s.len() == 0 {
        Seq::empty()
    } else {
        view_entries(s.drop_last()).push((s.last().0@, s.last().1.v()))
    }
}

impl Object {
    /// The object's value.
    pub open spec fn v(self) -> ObjV
        decreases self,
    {
        match self {
            Object::Null => ObjV::Null,
            Object::Boolean(b) => ObjV::Boolean(b),
            Object::Integer(i) => ObjV::Integer(i),
            Object::Real(r) => ObjV::Real(r.micros),
            Object::String(s) => ObjV::Str(s.is_hex(), s.bytes()),
            Object::Name(n) => ObjV::Name(n.name@),
            Object::Array(a) => ObjV::Array(view_objs(a.items@)),
            Object::Dictionary(d) => ObjV::Dict(view_entries(d.entries@)),
            Object::Stream(s) => ObjV::Stream(view_entries(s.dictionary.entries@), s.data@),
            Object::Reference(id) => ObjV::Reference(id.number, id.generation),
        }
    }
}

/// Element `i` of the values is the value of element `i`.
pub proof fn lemma_view_objs(s: Seq<Object>)
    ensures
        view_objs(s).len() == s.len(),
        forall|i: int| 0 <= i < s.len() ==> #[trigger] view_objs(s)[i] == s[i].v(),
    decreases s.len(),
{
    if s.len() > 0 {
        lemma_view_objs(s.drop_last());
    }
}

/// Entry `i` of the values is the value of entry `i`.
pub proof fn lemma_view_entries(s: Seq<(String, Object)>)
    ensures
        view_entries(s).len() == s.len(),
        forall|i: int|
            0 <= i < s.len() ==> #[trigger] view_entries(s)[i] == (s[i].0@, s[i].1.v()),
    decreases s.len(),
{
    if s.len() > 0 {
        lemma_view_entries(s.drop_last());
    }
}

/// The first value stored under `key` among `entries`, if any.
pub open spec fn entries_get(entries: Seq<(Seq<char>, ObjV)>, key: Seq<char>) -> Option<ObjV>
    decreases entries.len(),
{
    if entries.len() == 0 {
        None
    } else if entries[0].0 == key {
        Some(entries[0].1)
    } else {
        entries_get(entries.drop_first(), key)
    }
}

/// `entries` with the first entry under `key` given `value`, or with
/// `(key, value)` appended when there is none.
pub open spec fn entries_set(entries: Seq<(Seq<char>, ObjV)>, key: Seq<char>, value: ObjV) -> Seq<
    (Seq<char>, ObjV),
>
    decreases entries.len(),
{
    if entries.len() == 0 {
        seq![(key, value)]
    } else if entries[0].0 == key {
        entries.update(0, (key, value))
    } else {
        seq![entries[0]] + entries_set(entries.drop_first(), key, value)
    }
}

/// `entries` without the first entry under `key`.
pub open spec fn entries_remove(entries: Seq<(Seq<char>, ObjV)>, key: Seq<char>) -> Seq<
    (Seq<char>, ObjV),
>
    decreases entries.len(),
{
    if entries.len() == 0 {
        entries
    } else if entries[0].0 == key {
        entries.drop_first()
    } else {
        seq![entries[0]] + entries_remove(entries.drop_first(), key)
    }
}

/// The index of the first entry under `key`, or the length when none is.
pub open spec fn entries_find(entries: Seq<(Seq<char>, ObjV)>, key: Seq<char>) -> int
    decreases entries.len(),
{
    if entries.len() == 0 {
        0
    } else if entries[0].0 == key {
        0
    } else {
        1 + entries_find(entries.drop_first(), key)
    }
}

/// `entries_find` locates the first entry under `key`.
pub proof fn lemma_entries_find(entries: Seq<(Seq<char>, ObjV)>, key: Seq<char>)
    ensures
        0 <= entries_find(entries, key) <= entries.len(),
        forall|j: int| 0 <= j < entries_find(entries, key) ==> entries[j].0 != key,
        entries_find(entries, key) < entries.len() ==> entries[entries_find(entries, key)].0 == key,
        entries_find(entries, key) < entries.len() ==> entries_get(entries, key) == Some(
            entries[entries_find(entries, key)].1,
        ),
        entries_find(entries, key) == entries.len() ==> entries_get(entries, key) is None,
        entries_find(entries, key) < entries.len() ==> entries_remove(entries, key) =~= entries.subrange(
            0,
            entries_find(entries, key),
        ) + entries.subrange(entries_find(entries, key) + 1, entries.len() as int),
        entries_find(entries, key) == entries.len() ==> entries_remove(entries, key) == entries,
    decreases entries.len(),
{
    if entries.len() > 0 && entries[0].0 != key {
        let rest = entries.drop_first();
        lemma_entries_find(rest, key);
        assert forall|j: int| 0 <= j < entries_find(entries, key) implies entries[j].0 != key by {
            if j > 0 {
                assert(entries[j] == rest[j - 1]);
            }
        }
        let f = entries_find(rest, key);
        if f < rest.len() {
            assert(entries_remove(entries, key) =~= entries.subrange(0, f + 1) + entries.subrange(
                f + 2,
                entries.len() as int,
            ));
        }
    }
}

/// Reading a key right after setting it gives the value set; other keys
/// are unaffected.
pub proof fn lemma_entries_get_set(
    entries: Seq<(Seq<char>, ObjV)>,
    key: Seq<char>,
    value: ObjV,
    other: Seq<char>,
)
    ensures
        entries_get(entries_set(entries, key, value), key) == Some(value),
        other != key ==> entries_get(entries_set(entries, key, value), other) == entries_get(
            entries,
            other,
        ),
    decreases entries.len(),
{
    let s = entries_set(entries, key, value);
    if entries.len() > 0 && entries[0].0 != key {
        lemma_entries_get_set(entries.drop_first(), key, value, other);
        assert(s.drop_first() =~= entries_set(entries.drop_first(), key, value));
        assert(s[0] == entries[0]);
        if other != key {
            if entries[0].0 == other {
                assert(entries_get(s, other) == Some(entries[0].1));
            } else {
                assert(entries_get(s, other) == entries_get(s.drop_first(), other));
            }
        }
    } else if entries.len() > 0 {
        assert(s.drop_first() =~= entries.drop_first());
        assert(s[0] == (key, value));
        if other != key {
            assert(entries_get(s, other) == entries_get(s.drop_first(), other));
        }
    } else {
        assert(s.drop_first() =~= Seq::<(Seq<char>, ObjV)>::empty());
        assert(s[0] == (key, value));
        if other != key {
            assert(entries_get(s, other) == entries_get(s.drop_first(), other));
        }
    }
}

/// Removing a key leaves it absent; other keys are unaffected.
pub proof fn lemma_entries_get_remove(entries: Seq<(Seq<char>, ObjV)>, key: Seq<char>, other: Seq<char>)
    requires
        forall|i: int, j: int| 0 <= i < j < entries.len() ==> entries[i].0 != entries[j].0,
    ensures
        entries_get(entries_remove(entries, key), key) is None,
        other != key ==> entries_get(entries_remove(entries, key), other) == entries_get(
            entries,
            other,
        ),
    decreases entries.len(),
{
    if entries.len() > 0 {
        let rest = entries.drop_first();
        lemma_entries_get_remove(rest, key, other);
        if entries[0].0 == key {
            lemma_entries_absent(rest, key);
        } else {
            let s = entries_remove(entries, key);
            assert(s.drop_first() =~= entries_remove(rest, key));
        }
    }
}

/// Setting a key leaves at least one entry.
pub proof fn lemma_entries_set_len(entries: Seq<(Seq<char>, ObjV)>, key: Seq<char>, value: ObjV)
    ensures
        entries_set(entries, key, value).len() >= 1,
        entries_set(entries, key, value).len() >= entries.len(),
    decreases entries.len(),
{
    if entries.len() > 0 && entries[0].0 != key {
        lemma_entries_set_len(entries.drop_first(), key, value);
    }
}

/// Setting a key that no entry holds appends the entry.
pub proof fn lemma_entries_set_fresh(entries: Seq<(Seq<char>, ObjV)>, key: Seq<char>, value: ObjV)
    requires
        forall|i: int| 0 <= i < entries.len() ==> entries[i].0 != key,
    ensures
        entries_set(entries, key, value) == entries.push((key, value)),
    decreases entries.len(),
{
    if entries.len() > 0 {
        lemma_entries_set_fresh(entries.drop_first(), key, value);
        assert(seq![entries[0]] + entries.drop_first().push((key, value)) =~= entries.push((key, value)));
    } else {
        assert(seq![(key, value)] =~= entries.push((key, value)));
    }
}

/// A key that no entry holds reads as absent.
pub proof fn lemma_entries_absent(entries: Seq<(Seq<char>, ObjV)>, key: Seq<char>)
    requires
        forall|i: int| 0 <= i < entries.len() ==> entries[i].0 != key,
    ensures
        entries_get(entries, key) is None,
    decreases entries.len(),
{
    if entries.len() > 0 {
        lemma_entries_absent(entries.drop_first(), key);
    }
}

impl PdfArray {
    /// The values of the elements.
    pub open spec fn view_items(self) -> Seq<ObjV> {
        view_objs(self.items@)
    }

    /// An empty array.
    pub fn new() -> (a: PdfArray)
        ensures
            a.items@.len() == 0,
    {
        PdfArray { items: Vec::new() }
    }

    /// An array holding `items`.
    pub fn from_objects(items: Vec<Object>) -> (a: PdfArray)
        ensures
            a.items@ == items@,
    {
        PdfArray { items }
    }

    /// Appends an element.
    pub fn push(&mut self, obj: Object)
        ensures
            final(self).items@ == old(self).items@.push(obj),
    {
        self.items.push(obj);
    }

    /// The number of elements.
    pub fn len(&self) -> (n: usize)
        ensures
            n == self.items@.len(),
    {
        self.items.len()
    }

    /// Whether the array has no elements.
    pub fn is_empty(&self) -> (b: bool)
        ensures
            b == (self.items@.len() == 0),
    {
        self.items.len() == 0
    }

    /// The element at `i`, if any.
    pub fn get(&self, i: usize) -> (r: Option<&Object>)
        ensures
            i < self.items@.len() ==> r == Some(&self.items@[i as int]),
            i >= self.items@.len() ==> r is None,
    {
        if i < self.items.len() {
            Some(&self.items[i])
        } else {
            None
        }
    }
}

impl PdfDictionary {
    /// The values of the entries, in order.
    pub open spec fn view_entries(self) -> Seq<(Seq<char>, ObjV)> {
        view_entries(self.entries@)
    }

    /// Whether no two entries share a key.
    pub open spec fn keys_unique(self) -> bool {
        forall|i: int, j: int|
            0 <= i < j < self.entries@.len() ==> self.entries@[i].0@ != self.entries@[j].0@
    }

    /// The value stored under `key`, if any.
    pub open spec fn spec_get(self, key: Seq<char>) -> Option<ObjV> {
        entries_get(self.view_entries(), key)
    }

    /// An empty dictionary.
    pub fn new() -> (d: PdfDictionary)
        ensures
            d.entries@.len() == 0,
    {
        PdfDictionary { entries: Vec::new() }
    }

    /// The index of the first entry under `key`, or the number of entries.
    fn find(&self, key: &str) -> (i: usize)
        ensures
            i == entries_find(self.view_entries(), key@),
    {
        proof {
            lemma_view_entries(self.entries@);
            lemma_entries_find(self.view_entries(), key@);
        }
        let mut i: usize = 0;
        while i < self.entries.len()
            invariant
                i <= self.entries@.len(),
                view_entries(self.entries@).len() == self.entries@.len(),
                forall|j: int| 0 <= j < i ==> #[trigger] self.entries@[j].0@ != key@,
                forall|j: int|
                    0 <= j < self.entries@.len() ==> #[trigger] view_entries(self.entries@)[j] == (
                    self.entries@[j].0@,
                    self.entries@[j].1.v(),
                ),
                0 <= entries_find(self.view_entries(), key@) <= self.entries@.len(),
                forall|j: int|
                    0 <= j < entries_find(self.view_entries(), key@) ==> self.view_entries()[j].0
                        != key@,
                entries_find(self.view_entries(), key@) < self.entries@.len()
                    ==> self.view_entries()[entries_find(self.view_entries(), key@)].0 == key@,
            decreases self.entries@.len() - i,
        {
            if str_eq(self.entries[i].0.as_str(), key) {
                assert(self.view_entries()[i as int].0 == key@);
                return i;
            }
            i = i + 1;
        }
        i
    }

    /// Whether an entry is stored under `key`.
    pub fn contains_key(&self, key: &str) -> (b: bool)
        ensures
            b == (self.spec_get(key@) is Some),
    {
        proof {
            lemma_entries_find(self.view_entries(), key@);
            lemma_view_entries(self.entries@);
        }
        self.find(key) < self.entries.len()
    }

    /// The value stored under `key`, if any.
    pub fn get(&self, key: &str) -> (r: Option<&Object>)
        ensures
            r matches Some(o) ==> self.spec_get(key@) == Some(o.v()),
            r is None ==> self.spec_get(key@) is None,
    {
        proof {
            lemma_entries_find(self.view_entries(), key@);
            lemma_view_entries(self.entries@);
        }
        let i = self.find(key);
        if i < self.entries.len() {
            Some(&self.entries[i].1)
        } else {
            None
        }
    }

    /// Stores `value` under `key`, replacing the value of an existing entry
    /// in place, or appending a new entry.
    pub fn set(&mut self, key: &str, value: Object)
        ensures
            final(self).view_entries() == entries_set(old(self).view_entries(), key@, value.v()),
    {
        proof {
            lemma_entries_find(self.view_entries(), key@);
            lemma_view_entries(self.entries@);
        }
        let i = self.find(key);
        let ghost old_entries = self.view_entries();
        let ghost vv = value.v();
        if i < self.entries.len() {
            let k = String::from_str(key);
            self.entries.set(i, (k, value));
            proof {
                lemma_view_entries(self.entries@);
                lemma_entries_set_at(old_entries, key@, vv, i as int);
                assert(self.view_entries() =~= old_entries.update(i as int, (key@, vv)));
            }
        } else {
            let k = String::from_str(key);
            self.entries.push((k, value));
            proof {
                lemma_view_entries(self.entries@);
                lemma_entries_set_at(old_entries, key@, vv, i as int);
                assert(self.view_entries() =~= old_entries.push((key@, vv)));
            }
        }
    }

    /// Removes the entry stored under `key`, returning its value.
    pub fn remove(&mut self, key: &str) -> (r: Option<Object>)
        ensures
            final(self).view_entries() == entries_remove(old(self).view_entries(), key@),
            r matches Some(o) ==> old(self).spec_get(key@) == Some(o.v()),
            r is None ==> old(self).spec_get(key@) is None,
    {
        proof {
            lemma_entries_find(self.view_entries(), key@);
            lemma_view_entries(self.entries@);
        }
        let i = self.find(key);
        let ghost old_entries = self.view_entries();
        let ghost old_raw = self.entries@;
        if i < self.entries.len() {
            let (_, v) = self.entries.remove(i);
            proof {
                lemma_view_entries(self.entries@);
                assert(self.entries@ =~= old_raw.subrange(0, i as int) + old_raw.subrange(
                    i + 1,
                    old_raw.len() as int,
                ));
                assert(self.view_entries() =~= old_entries.subrange(0, i as int)
                    + old_entries.subrange(i + 1, old_entries.len() as int));
            }
            Some(v)
        } else {
            None
        }
    }

    /// The number of entries.
    pub fn len(&self) -> (n: usize)
        ensures
            n == self.entries@.len(),
    {
        self.entries.len()
    }

    /// Whether the dictionary has no entries.
    pub fn is_empty(&self) -> (b: bool)
        ensures
            b == (self.entries@.len() == 0),
    {
        self.entries.len() == 0
    }
}

/// Setting at the index `entries_find` locates is `entries_set`.
proof fn lemma_entries_set_at(entries: Seq<(Seq<char>, ObjV)>, key: Seq<char>, value: ObjV, i: int)
    requires
        i == entries_find(entries, key),
    ensures
        i < entries.len() ==> entries_set(entries, key, value) =~= entries.update(i, (key, value)),
        i == entries.len() ==> entries_set(entries, key, value) =~= entries.push((key, value)),
    decreases entries.len(),
{
    lemma_entries_find(entries, key);
    if entries.len() > 0 && entries[0].0 != key {
        lemma_entries_set_at(entries.drop_first(), key, value, i - 1);
    }
}

impl PdfStream {
    /// A stream with the given dictionary and data.
    pub fn with_dictionary(dictionary: PdfDictionary, data: Vec<u8>) -> (s: PdfStream)
        ensures
            s.dictionary == dictionary,
            s.data == data,
    {
        PdfStream { dictionary, data }
    }

    /// A stream with an empty dictionary.
    pub fn new(data: Vec<u8>) -> (s: PdfStream)
        ensures
            s.dictionary.entries@.len() == 0,
            s.data == data,
    {
        PdfStream { dictionary: PdfDictionary::new(), data }
    }
}

/// A deep copy of `obj`.
pub fn copy_object(obj: &Object) -> (r: Object)
    ensures
        r.v() == obj.v(),
    decreases obj,
{
    match obj {
        Object::Null => Object::Null,
        Object::Boolean(b) => Object::Boolean(*b),
        Object::Integer(n) => Object::Integer(*n),
        Object::Real(x) => Object::Real(*x),
        Object::String(st) => Object::String(st.copy()),
        Object::Name(n) => Object::Name(PdfName::new_unchecked(n.as_str())),
        Object::Array(arr) => Object::Array(copy_array(arr)),
        Object::Dictionary(dict) => Object::Dictionary(copy_dictionary(dict)),
        Object::Stream(st) => Object::Stream(
            PdfStream { dictionary: copy_dictionary(&st.dictionary), data: slice_to_vec_u8(st.data.as_slice()) },
        ),
        Object::Reference(id) => Object::Reference(*id),
    }
}

/// A deep copy of `arr`.
pub fn copy_array(arr: &PdfArray) -> (r: PdfArray)
    ensures
        r.view_items() == arr.view_items(),
    decreases arr,
{
    let mut items: Vec<Object> = Vec::new();
    let mut i: usize = 0;
    while i < arr.items.len()
        invariant
            i <= arr.items@.len(),
            view_objs(items@) == view_objs(arr.items@.subrange(0, i as int)),
        decreases arr.items@.len() - i,
    {
        let ghost prev = items@;
        let o = copy_object(&arr.items[i]);
        items.push(o);
        proof {
            let s1 = arr.items@.subrange(0, i + 1);
            assert(s1.drop_last() =~= arr.items@.subrange(0, i as int));
            assert(items@.drop_last() =~= prev);
        }
        i = i + 1;
    }
    assert(arr.items@.subrange(0, arr.items@.len() as int) =~= arr.items@);
    PdfArray { items }
}

/// A deep copy of `dict`, entry for entry.
pub fn copy_dictionary(dict: &PdfDictionary) -> (r: PdfDictionary)
    ensures
        r.view_entries() == dict.view_entries(),
    decreases dict,
{
    let mut entries: Vec<(String, Object)> = Vec::new();
    let mut i: usize = 0;
    while i < dict.entries.len()
        invariant
            i <= dict.entries@.len(),
            view_entries(entries@) == view_entries(dict.entries@.subrange(0, i as int)),
        decreases dict.entries@.len() - i,
    {
        let ghost prev = entries@;
        let entry = &dict.entries[i];
        let v = copy_object(&entry.1);
        let k = String::from_str(entry.0.as_str());
        entries.push((k, v));
        proof {
            let s1 = dict.entries@.subrange(0, i + 1);
            assert(s1.drop_last() =~= dict.entries@.subrange(0, i as int));
            assert(entries@.drop_last() =~= prev);
        }
        i = i + 1;
    }
    assert(dict.entries@.subrange(0, dict.entries@.len() as int) =~= dict.entries@);
    PdfDictionary { entries }
}

} // verus!
