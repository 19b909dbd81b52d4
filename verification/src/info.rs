//! The document information dictionary (ISO 32000-1 14.3.3).

use vstd::prelude::*;
use vstd::string::StringSliceAdditionalSpecFns;
use vstd::utf8::encode_utf8;
use crate::object::{Object, ObjV, PdfDictionary, PdfString, entries_set, entries_get};

verus! {

/// Document metadata (Info dictionary).
#[derive(Debug)]
pub struct DocumentInfo {
    /// The document's title.
    pub title: Option<String>,
    /// The name of the person who created the document.
    pub author: Option<String>,
    /// The subject of the document.
    pub subject: Option<String>,
    /// Keywords associated with the document.
    pub keywords: Option<String>,
    /// The name of the application that created the original document.
    pub creator: Option<String>,
    /// The name of the application that produced the PDF.
    pub producer: Option<String>,
    /// The date and time the document was created.
    pub creation_date: Option<String>,
    /// The date and time the document was most recently modified.
    pub mod_date: Option<String>,
}

/// The text of an optional field.
pub open spec fn opt_text(o: Option<String>) -> Option<Seq<char>> {
    match o {
        Some(s) => Some(s@),
        None => None,
    }
}

/// `entries` with `key` set to a literal string holding the UTF-8 bytes
/// of `value`, when there is a value.
pub open spec fn set_text(entries: Seq<(Seq<char>, ObjV)>, key: Seq<char>, value: Option<Seq<char>>) -> Seq<
    (Seq<char>, ObjV),
> {
    match value {
        Some(t) => entries_set(entries, key, ObjV::Str(false, encode_utf8(t))),
        None => entries,
    }
}

/// The texts of an info value, field by field.
pub struct InfoV {
    pub title: Option<Seq<char>>,
    pub author: Option<Seq<char>>,
    pub subject: Option<Seq<char>>,
    pub keywords: Option<Seq<char>>,
    pub creator: Option<Seq<char>>,
    pub producer: Option<Seq<char>>,
    pub creation_date: Option<Seq<char>>,
    pub mod_date: Option<Seq<char>>,
}

/// The texts of `i`.
pub open spec fn info_v(i: DocumentInfo) -> InfoV {
    InfoV {
        title: opt_text(i.title),
        author: opt_text(i.author),
        subject: opt_text(i.subject),
        keywords: opt_text(i.keywords),
        creator: opt_text(i.creator),
        producer: opt_text(i.producer),
        creation_date: opt_text(i.creation_date),
        mod_date: opt_text(i.mod_date),
    }
}

/// No text at all.
pub open spec fn empty_info_v() -> InfoV {
    InfoV {
        title: None,
        author: None,
        subject: None,
        keywords: None,
        creator: None,
        producer: None,
        creation_date: None,
        mod_date: None,
    }
}

/// One setter call: field `f` (0 title, 1 author, 2 subject, 3 keywords,
/// 4 creator, 5 producer) set to `t`, every other field kept.
pub open spec fn set_field(v: InfoV, f: nat, t: Seq<char>) -> InfoV {
    if f == 0 {
        InfoV { title: Some(t), ..v }
    } else if f == 1 {
        InfoV { author: Some(t), ..v }
    } else if f == 2 {
        InfoV { subject: Some(t), ..v }
    } else if f == 3 {
        InfoV { keywords: Some(t), ..v }
    } else if f == 4 {
        InfoV { creator: Some(t), ..v }
    } else if f == 5 {
        InfoV { producer: Some(t), ..v }
    } else {
        v
    }
}

/// A sequence of setter calls, in order.
pub open spec fn apply_calls(v: InfoV, calls: Seq<(nat, Seq<char>)>) -> InfoV
    decreases calls.len(),
{
    if calls.len() == 0 {
        v
    } else {
        set_field(apply_calls(v, calls.drop_last()), calls.last().0, calls.last().1)
    }
}

/// Field `f` of the texts (see `set_field` for the numbering).
pub open spec fn field_of(v: InfoV, f: nat) -> Option<Seq<char>> {
    if f == 0 {
        v.title
    } else if f == 1 {
        v.author
    } else if f == 2 {
        v.subject
    } else if f == 3 {
        v.keywords
    } else if f == 4 {
        v.creator
    } else {
        v.producer
    }
}

/// The text of the last call among `calls` that sets field `f`, if any.
pub open spec fn last_text(calls: Seq<(nat, Seq<char>)>, f: nat) -> Option<Seq<char>>
    decreases calls.len(),
{
    if calls.len() == 0 {
        None
    } else if calls.last().0 == f {
        Some(calls.last().1)
    } else {
        last_text(calls.drop_last(), f)
    }
}

/// The setters of `DocumentInfo` and of `DocumentInfoBuilder` act alike
/// (`set_field` on the texts) and both start with no text, so any
/// sequence of setter calls on a builder followed by `build` gives the
/// texts the same calls give on a new `DocumentInfo`: each of the six
/// fields holds the text of the last call that set it, or none, and the
/// two dates stay absent.
pub proof fn lemma_info_calls(calls: Seq<(nat, Seq<char>)>)
    ensures
        apply_calls(empty_info_v(), calls).creation_date is None,
        apply_calls(empty_info_v(), calls).mod_date is None,
        forall|f: nat| f < 6 ==> #[trigger] field_of(apply_calls(empty_info_v(), calls), f) == last_text(calls, f),
    decreases calls.len(),
{
    if calls.len() > 0 {
        let prev = calls.drop_last();
        lemma_info_calls(prev);
        assert forall|f: nat| f < 6 implies #[trigger] field_of(apply_calls(empty_info_v(), calls), f) == last_text(calls, f) by {
            assert(field_of(apply_calls(empty_info_v(), prev), f) == last_text(prev, f));
        }
    }
}

impl DocumentInfo {
    /// Whether every field is empty.
    pub open spec fn spec_is_empty(&self) -> bool {
        &&& self.title is None
        &&& self.author is None
        &&& self.subject is None
        &&& self.keywords is None
        &&& self.creator is None
        &&& self.producer is None
        &&& self.creation_date is None
        &&& self.mod_date is None
    }

    /// The entries of the info dictionary: `Title`, `Author`, `Subject`,
    /// `Keywords`, `Creator`, `Producer`, `CreationDate`, `ModDate`, each
    /// present when its field is, as a literal string of its UTF-8 bytes.
    pub open spec fn dict_entries(&self) -> Seq<(Seq<char>, ObjV)> {
        let e0 = Seq::empty();
        let e1 = set_text(e0, "Title"@, opt_text(self.title));
        let e2 = set_text(e1, "Author"@, opt_text(self.author));
        let e3 = set_text(e2, "Subject"@, opt_text(self.subject));
        let e4 = set_text(e3, "Keywords"@, opt_text(self.keywords));
        let e5 = set_text(e4, "Creator"@, opt_text(self.creator));
        let e6 = set_text(e5, "Producer"@, opt_text(self.producer));
        let e7 = set_text(e6, "CreationDate"@, opt_text(self.creation_date));
        set_text(e7, "ModDate"@, opt_text(self.mod_date))
    }

    /// This info is `before` with the title set to `t`.
    pub open spec fn sets_title(self, before: DocumentInfo, t: Seq<char>) -> bool {
        opt_text(self.title) == Some(t) && self.author == before.author && self.subject == before.subject && self.keywords == before.keywords && self.creator == before.creator && self.producer == before.producer && self.creation_date == before.creation_date && self.mod_date == before.mod_date
    }

    /// This info is `before` with the author set to `t`.
    pub open spec fn sets_author(self, before: DocumentInfo, t: Seq<char>) -> bool {
        opt_text(self.author) == Some(t) && self.title == before.title && self.subject == before.subject && self.keywords == before.keywords && self.creator == before.creator && self.producer == before.producer && self.creation_date == before.creation_date && self.mod_date == before.mod_date
    }

    /// This info is `before` with the subject set to `t`.
    pub open spec fn sets_subject(self, before: DocumentInfo, t: Seq<char>) -> bool {
        opt_text(self.subject) == Some(t) && self.title == before.title && self.author == before.author && self.keywords == before.keywords && self.creator == before.creator && self.producer == before.producer && self.creation_date == before.creation_date && self.mod_date == before.mod_date
    }

    /// This info is `before` with the keywords set to `t`.
    pub open spec fn sets_keywords(self, before: DocumentInfo, t: Seq<char>) -> bool {
        opt_text(self.keywords) == Some(t) && self.title == before.title && self.author == before.author && self.subject == before.subject && self.creator == before.creator && self.producer == before.producer && self.creation_date == before.creation_date && self.mod_date == before.mod_date
    }

    /// This info is `before` with the creator set to `t`.
    pub open spec fn sets_creator(self, before: DocumentInfo, t: Seq<char>) -> bool {
        opt_text(self.creator) == Some(t) && self.title == before.title && self.author == before.author && self.subject == before.subject && self.keywords == before.keywords && self.producer == before.producer && self.creation_date == before.creation_date && self.mod_date == before.mod_date
    }

    /// This info is `before` with the producer set to `t`.
    pub open spec fn sets_producer(self, before: DocumentInfo, t: Seq<char>) -> bool {
        opt_text(self.producer) == Some(t) && self.title == before.title && self.author == before.author && self.subject == before.subject && self.keywords == before.keywords && self.creator == before.creator && self.creation_date == before.creation_date && self.mod_date == before.mod_date
    }

    /// Creates a new empty document info.
    pub fn new() -> (i: DocumentInfo)
        ensures
            i.spec_is_empty(),
    {
        DocumentInfo {
            title: None,
            author: None,
            subject: None,
            keywords: None,
            creator: None,
            producer: None,
            creation_date: None,
            mod_date: None,
        }
    }

    /// Sets the document title.
    pub fn title(self, title: &str) -> (r: DocumentInfo)
        ensures
            info_v(r) == set_field(info_v(self), 0, title@),
            opt_text(r.title) == Some(title@),
            r.author == self.author && r.subject == self.subject && r.keywords == self.keywords,
            r.creator == self.creator && r.producer == self.producer,
            r.creation_date == self.creation_date && r.mod_date == self.mod_date,
    {
        let mut s = self;
        s.title = Some(String::from_str(title));
        s
    }

    /// Sets the document author.
    pub fn author(self, author: &str) -> (r: DocumentInfo)
        ensures
            info_v(r) == set_field(info_v(self), 1, author@),
            opt_text(r.author) == Some(author@),
            r.title == self.title && r.subject == self.subject && r.keywords == self.keywords,
            r.creator == self.creator && r.producer == self.producer,
            r.creation_date == self.creation_date && r.mod_date == self.mod_date,
    {
        let mut s = self;
        s.author = Some(String::from_str(author));
        s
    }

    /// Sets the document subject.
    pub fn subject(self, subject: &str) -> (r: DocumentInfo)
        ensures
            info_v(r) == set_field(info_v(self), 2, subject@),
            opt_text(r.subject) == Some(subject@),
            r.title == self.title && r.author == self.author && r.keywords == self.keywords,
            r.creator == self.creator && r.producer == self.producer,
            r.creation_date == self.creation_date && r.mod_date == self.mod_date,
    {
        let mut s = self;
        s.subject = Some(String::from_str(subject));
        s
    }

    /// Sets the document keywords.
    pub fn keywords(self, keywords: &str) -> (r: DocumentInfo)
        ensures
            info_v(r) == set_field(info_v(self), 3, keywords@),
            opt_text(r.keywords) == Some(keywords@),
            r.title == self.title && r.author == self.author && r.subject == self.subject,
            r.creator == self.creator && r.producer == self.producer,
            r.creation_date == self.creation_date && r.mod_date == self.mod_date,
    {
        let mut s = self;
        s.keywords = Some(String::from_str(keywords));
        s
    }

    /// Sets the creator application name.
    pub fn creator(self, creator: &str) -> (r: DocumentInfo)
        ensures
            info_v(r) == set_field(info_v(self), 4, creator@),
            opt_text(r.creator) == Some(creator@),
            r.title == self.title && r.author == self.author && r.subject == self.subject,
            r.keywords == self.keywords && r.producer == self.producer,
            r.creation_date == self.creation_date && r.mod_date == self.mod_date,
    {
        let mut s = self;
        s.creator = Some(String::from_str(creator));
        s
    }

    /// Sets the producer application name.
    pub fn producer(self, producer: &str) -> (r: DocumentInfo)
        ensures
            info_v(r) == set_field(info_v(self), 5, producer@),
            opt_text(r.producer) == Some(producer@),
            r.title == self.title && r.author == self.author && r.subject == self.subject,
            r.keywords == self.keywords && r.creator == self.creator,
            r.creation_date == self.creation_date && r.mod_date == self.mod_date,
    {
        let mut s = self;
        s.producer = Some(String::from_str(producer));
        s
    }

    /// Sets the creation date (should be in PDF date format).
    pub fn creation_date(self, date: &str) -> (r: DocumentInfo)
        ensures
            opt_text(r.creation_date) == Some(date@),
            r.title == self.title && r.author == self.author && r.subject == self.subject,
            r.keywords == self.keywords && r.creator == self.creator,
            r.producer == self.producer && r.mod_date == self.mod_date,
    {
        let mut s = self;
        s.creation_date = Some(String::from_str(date));
        s
    }

    /// Sets the modification date (should be in PDF date format).
    pub fn mod_date(self, date: &str) -> (r: DocumentInfo)
        ensures
            opt_text(r.mod_date) == Some(date@),
            r.title == self.title && r.author == self.author && r.subject == self.subject,
            r.keywords == self.keywords && r.creator == self.creator,
            r.producer == self.producer && r.creation_date == self.creation_date,
    {
        let mut s = self;
        s.mod_date = Some(String::from_str(date));
        s
    }

    /// Returns true if all fields are empty.
    pub fn is_empty(&self) -> (b: bool)
        ensures
            b == self.spec_is_empty(),
    {
        self.title.is_none() && self.author.is_none() && self.subject.is_none() && self.keywords.is_none()
            && self.creator.is_none() && self.producer.is_none() && self.creation_date.is_none()
            && self.mod_date.is_none()
    }

    /// Converts the document info to a PDF dictionary.
    pub fn to_dictionary(&self) -> (d: PdfDictionary)
        ensures
            d.view_entries() == self.dict_entries(),
    {
        let mut dict = PdfDictionary::new();
        assert(dict.view_entries() =~= Seq::<(Seq<char>, ObjV)>::empty());
        set_opt(&mut dict, "Title", &self.title);
        set_opt(&mut dict, "Author", &self.author);
        set_opt(&mut dict, "Subject", &self.subject);
        set_opt(&mut dict, "Keywords", &self.keywords);
        set_opt(&mut dict, "Creator", &self.creator);
        set_opt(&mut dict, "Producer", &self.producer);
        set_opt(&mut dict, "CreationDate", &self.creation_date);
        set_opt(&mut dict, "ModDate", &self.mod_date);
        dict
    }
}

/// Sets `key` to a literal string of `value`'s UTF-8 bytes, when present.
fn set_opt(dict: &mut PdfDictionary, key: &str, value: &Option<String>)
    ensures
        final(dict).view_entries() == set_text(old(dict).view_entries(), key@, opt_text(*value)),
{
    match value {
        Some(s) => {
            dict.set(key, Object::String(PdfString::literal(s.as_str())));
        },
        None => {},
    }
}

/// Builder for document info with a fluent interface.
pub struct DocumentInfoBuilder {
    info: DocumentInfo,
}

impl DocumentInfoBuilder {
    /// The info being built.
    pub closed spec fn spec_info(&self) -> DocumentInfo {
        self.info
    }

    /// Creates a new document info builder.
    pub fn new() -> (b: DocumentInfoBuilder)
        ensures
            info_v(b.spec_info()) == empty_info_v(),
            b.spec_info().spec_is_empty(),
    {
        DocumentInfoBuilder { info: DocumentInfo::new() }
    }

    /// Sets the document title.
    pub fn title(self, title: &str) -> (b: DocumentInfoBuilder)
        ensures
            info_v(b.spec_info()) == set_field(info_v(self.spec_info()), 0, title@),
            b.spec_info() == (DocumentInfo { title: b.spec_info().title, ..self.spec_info() }),
            opt_text(b.spec_info().title) == Some(title@),
    {
        DocumentInfoBuilder { info: self.info.title(title) }
    }

    /// Sets the document author.
    pub fn author(self, author: &str) -> (b: DocumentInfoBuilder)
        ensures
            info_v(b.spec_info()) == set_field(info_v(self.spec_info()), 1, author@),
            b.spec_info() == (DocumentInfo { author: b.spec_info().author, ..self.spec_info() }),
            opt_text(b.spec_info().author) == Some(author@),
    {
        DocumentInfoBuilder { info: self.info.author(author) }
    }

    /// Sets the document subject.
    pub fn subject(self, subject: &str) -> (b: DocumentInfoBuilder)
        ensures
            info_v(b.spec_info()) == set_field(info_v(self.spec_info()), 2, subject@),
            b.spec_info() == (DocumentInfo { subject: b.spec_info().subject, ..self.spec_info() }),
            opt_text(b.spec_info().subject) == Some(subject@),
    {
        DocumentInfoBuilder { info: self.info.subject(subject) }
    }

    /// Sets the document keywords.
    pub fn keywords(self, keywords: &str) -> (b: DocumentInfoBuilder)
        ensures
            info_v(b.spec_info()) == set_field(info_v(self.spec_info()), 3, keywords@),
            b.spec_info() == (DocumentInfo { keywords: b.spec_info().keywords, ..self.spec_info() }),
            opt_text(b.spec_info().keywords) == Some(keywords@),
    {
        DocumentInfoBuilder { info: self.info.keywords(keywords) }
    }

    /// Sets the creator application.
    pub fn creator(self, creator: &str) -> (b: DocumentInfoBuilder)
        ensures
            info_v(b.spec_info()) == set_field(info_v(self.spec_info()), 4, creator@),
            b.spec_info() == (DocumentInfo { creator: b.spec_info().creator, ..self.spec_info() }),
            opt_text(b.spec_info().creator) == Some(creator@),
    {
        DocumentInfoBuilder { info: self.info.creator(creator) }
    }

    /// Sets the producer application.
    pub fn producer(self, producer: &str) -> (b: DocumentInfoBuilder)
        ensures
            info_v(b.spec_info()) == set_field(info_v(self.spec_info()), 5, producer@),
            b.spec_info() == (DocumentInfo { producer: b.spec_info().producer, ..self.spec_info() }),
            opt_text(b.spec_info().producer) == Some(producer@),
    {
        DocumentInfoBuilder { info: self.info.producer(producer) }
    }

    /// Builds the document info.
    pub fn build(self) -> (i: DocumentInfo)
        ensures
            i == self.spec_info(),
    {
        self.info
    }
}

/// The value an info field is written as: a literal string of its UTF-8
/// bytes, when it is set.
pub open spec fn lit_of(v: Option<Seq<char>>) -> Option<ObjV> {
    match v {
        Some(t) => Some(ObjV::Str(false, encode_utf8(t))),
        None => None,
    }
}

/// Every key of `e` is in `keys`.
pub open spec fn keys_within(e: Seq<(Seq<char>, ObjV)>, keys: Set<Seq<char>>) -> bool {
    forall|i: int| 0 <= i < e.len() ==> keys.contains(#[trigger] e[i].0)
}

/// The eight keys of an information dictionary.
pub open spec fn info_keys() -> Set<Seq<char>> {
    set!["Title"@, "Author"@, "Subject"@, "Keywords"@, "Creator"@, "Producer"@, "CreationDate"@, "ModDate"@]
}

/// Setting a key of `keys` keeps every key within `keys`.
proof fn lemma_set_keys_within(e: Seq<(Seq<char>, ObjV)>, k: Seq<char>, v: ObjV, keys: Set<Seq<char>>)
    requires
        keys_within(e, keys),
        keys.contains(k),
    ensures
        keys_within(entries_set(e, k, v), keys),
    decreases e.len(),
{
    if e.len() > 0 && e[0].0 != k {
        assert(keys_within(e.drop_first(), keys)) by {
            assert forall|i: int| 0 <= i < e.drop_first().len() implies keys.contains(#[trigger] e.drop_first()[i].0) by {
                assert(e.drop_first()[i] == e[i + 1]);
            }
        }
        lemma_set_keys_within(e.drop_first(), k, v, keys);
        let r = entries_set(e, k, v);
        assert forall|i: int| 0 <= i < r.len() implies keys.contains(#[trigger] r[i].0) by {
            if i > 0 {
                assert(r[i] == entries_set(e.drop_first(), k, v)[i - 1]);
            }
        }
    }
}

/// One field's step of the dictionary: what it sets and what it keeps.
proof fn lemma_set_text_step(e: Seq<(Seq<char>, ObjV)>, k: Seq<char>, v: Option<Seq<char>>, other: Seq<char>)
    requires
        keys_within(e, info_keys()),
        info_keys().contains(k),
    ensures
        keys_within(set_text(e, k, v), info_keys()),
        entries_get(set_text(e, k, v), k) == (if v is Some { lit_of(v) } else { entries_get(e, k) }),
        other != k ==> entries_get(set_text(e, k, v), other) == entries_get(e, other),
        set_text(e, k, v).len() >= e.len(),
        v is Some ==> set_text(e, k, v).len() >= 1,
        v is None ==> set_text(e, k, v) == e,
{
    if let Some(t) = v {
        lemma_set_keys_within(e, k, ObjV::Str(false, encode_utf8(t)), info_keys());
        crate::object::lemma_entries_get_set(e, k, ObjV::Str(false, encode_utf8(t)), other);
        crate::object::lemma_entries_set_len(e, k, ObjV::Str(false, encode_utf8(t)));
    }
}

/// The entries of setting the first `n` of the keys `ks` to the values
/// `vs`, in order.
pub open spec fn set_texts(ks: Seq<Seq<char>>, vs: Seq<Option<Seq<char>>>, n: nat) -> Seq<(Seq<char>, ObjV)>
    decreases n,
{
    if n == 0 {
        Seq::empty()
    } else {
        set_text(set_texts(ks, vs, (n - 1) as nat), ks[n - 1], vs[n - 1])
    }
}

/// Setting distinct keys of the information dictionary in turn.
proof fn lemma_set_texts(ks: Seq<Seq<char>>, vs: Seq<Option<Seq<char>>>, n: nat)
    requires
        n <= ks.len(),
        n <= vs.len(),
        forall|a: int, b: int| 0 <= a < b < ks.len() ==> ks[a] != ks[b],
        forall|a: int| 0 <= a < ks.len() ==> info_keys().contains(#[trigger] ks[a]),
    ensures
        keys_within(set_texts(ks, vs, n), info_keys()),
        forall|q: int| 0 <= q < ks.len() ==> #[trigger] entries_get(set_texts(ks, vs, n), ks[q]) == (if q < n { lit_of(vs[q]) } else { None::<ObjV> }),
        set_texts(ks, vs, n).len() == 0 <==> forall|q: int| 0 <= q < n ==> #[trigger] vs[q] is None,
    decreases n,
{
    if n > 0 {
        let m = (n - 1) as nat;
        lemma_set_texts(ks, vs, m);
        let e = set_texts(ks, vs, m);
        assert(info_keys().contains(ks[m as int]));
        assert forall|q: int| 0 <= q < ks.len() implies #[trigger] entries_get(set_texts(ks, vs, n), ks[q]) == (if q < n {
            lit_of(vs[q])
        } else {
            None::<ObjV>
        }) by {
            lemma_set_text_step(e, ks[m as int], vs[m as int], ks[q]);
            if q != m {
                assert(ks[q] != ks[m as int]);
            }
        }
        lemma_set_text_step(e, ks[m as int], vs[m as int], ks[m as int]);
        if vs[m as int] is Some {
            assert(!(forall|q: int| 0 <= q < n ==> #[trigger] vs[q] is None));
        } else {
            assert((forall|q: int| 0 <= q < n ==> #[trigger] vs[q] is None) <==> (forall|q: int| 0 <= q < m ==> #[trigger] vs[q] is None));
        }
    }
}

/// The information dictionary holds, under each of its eight keys, the
/// matching field written as a literal string, and nothing under any
/// other key; it is empty exactly when every field is unset.
pub proof fn lemma_info_dictionary(info: DocumentInfo)
    ensures
        entries_get(info.dict_entries(), "Title"@) == lit_of(opt_text(info.title)),
        entries_get(info.dict_entries(), "Author"@) == lit_of(opt_text(info.author)),
        entries_get(info.dict_entries(), "Subject"@) == lit_of(opt_text(info.subject)),
        entries_get(info.dict_entries(), "Keywords"@) == lit_of(opt_text(info.keywords)),
        entries_get(info.dict_entries(), "Creator"@) == lit_of(opt_text(info.creator)),
        entries_get(info.dict_entries(), "Producer"@) == lit_of(opt_text(info.producer)),
        entries_get(info.dict_entries(), "CreationDate"@) == lit_of(opt_text(info.creation_date)),
        entries_get(info.dict_entries(), "ModDate"@) == lit_of(opt_text(info.mod_date)),
        keys_within(info.dict_entries(), info_keys()),
        info.spec_is_empty() <==> info.dict_entries().len() == 0,
{
    reveal_strlit("Title");
    reveal_strlit("Author");
    reveal_strlit("Subject");
    reveal_strlit("Keywords");
    reveal_strlit("Creator");
    reveal_strlit("Producer");
    reveal_strlit("CreationDate");
    reveal_strlit("ModDate");
    let ks = seq!["Title"@, "Author"@, "Subject"@, "Keywords"@, "Creator"@, "Producer"@, "CreationDate"@, "ModDate"@];
    assert(ks[2][0] == 'S' && ks[4][0] == 'C' && ks[7][0] == 'M' && ks[3][0] == 'K' && ks[5][0] == 'P');
    assert forall|a: int, b: int| 0 <= a < b < ks.len() implies ks[a] != ks[b] by {
        if ks[a].len() == ks[b].len() {
            assert(ks[a][0] != ks[b][0]);
        }
    }
    assert forall|a: int| 0 <= a < ks.len() implies info_keys().contains(#[trigger] ks[a]) by {}
    let vs = seq![opt_text(info.title), opt_text(info.author), opt_text(info.subject), opt_text(info.keywords),
        opt_text(info.creator), opt_text(info.producer), opt_text(info.creation_date), opt_text(info.mod_date)];
    lemma_set_texts(ks, vs, 8);
    reveal_with_fuel(set_texts, 9);
    assert(set_texts(ks, vs, 8) == info.dict_entries());
    assert(entries_get(set_texts(ks, vs, 8), ks[0]) == lit_of(vs[0]));
    assert(entries_get(set_texts(ks, vs, 8), ks[1]) == lit_of(vs[1]));
    assert(entries_get(set_texts(ks, vs, 8), ks[2]) == lit_of(vs[2]));
    assert(entries_get(set_texts(ks, vs, 8), ks[3]) == lit_of(vs[3]));
    assert(entries_get(set_texts(ks, vs, 8), ks[4]) == lit_of(vs[4]));
    assert(entries_get(set_texts(ks, vs, 8), ks[5]) == lit_of(vs[5]));
    assert(entries_get(set_texts(ks, vs, 8), ks[6]) == lit_of(vs[6]));
    assert(entries_get(set_texts(ks, vs, 8), ks[7]) == lit_of(vs[7]));
    if info.spec_is_empty() {
        assert forall|q: int| 0 <= q < 8 implies #[trigger] vs[q] is None by {}
    } else {
        if info.title is Some { assert(vs[0] is Some); }
        if info.author is Some { assert(vs[1] is Some); }
        if info.subject is Some { assert(vs[2] is Some); }
        if info.keywords is Some { assert(vs[3] is Some); }
        if info.creator is Some { assert(vs[4] is Some); }
        if info.producer is Some { assert(vs[5] is Some); }
        if info.creation_date is Some { assert(vs[6] is Some); }
        if info.mod_date is Some { assert(vs[7] is Some); }
    }
}

} // verus!
