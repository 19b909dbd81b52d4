//! PDF/A (ISO 19005) flavors, reports and the byte-level checks used when
//! validating a document against them.

use vstd::prelude::*;
use vstd::string::StringSliceAdditionalSpecFns;
use crate::object::{str_eq, Object, ObjV, PdfDictionary, view_objs};
use crate::version::PdfVersion;

verus! {

/// A PDF/A conformance flavor: the "b" (basic) level of parts 1 to 3.
#[derive(Debug, Clone, Copy, PartialEq, Eq, Structural)]
pub enum PdfAFlavor {
    /// PDF/A-1b (ISO 19005-1:2005), based on the PDF 1.4 Reference.
    Part1B,
    /// PDF/A-2b (ISO 19005-2:2011), based on ISO 32000-1 (PDF 1.7).
    Part2B,
    /// PDF/A-3b (ISO 19005-3:2012), based on ISO 32000-1 (PDF 1.7); the
    /// only one of the three that permits arbitrary embedded files.
    Part3B,
}

impl PdfAFlavor {
    /// The `pdfaid:part` value (1, 2 or 3).
    pub fn part_number(self) -> (n: u8)
        ensures
            n == (match self {
                PdfAFlavor::Part1B => 1u8,
                PdfAFlavor::Part2B => 2u8,
                PdfAFlavor::Part3B => 3u8,
            }),
    {
        match self {
            PdfAFlavor::Part1B => 1,
            PdfAFlavor::Part2B => 2,
            PdfAFlavor::Part3B => 3,
        }
    }

    /// The PDF version a file of this flavor is written with: 1.4 for
    /// part 1, 1.7 for parts 2 and 3.
    pub fn min_pdf_version(self) -> (v: PdfVersion)
        ensures
            v == (if self == PdfAFlavor::Part1B {
                PdfVersion::V1_4
            } else {
                PdfVersion::V1_7
            }),
    {
        match self {
            PdfAFlavor::Part1B => PdfVersion::V1_4,
            PdfAFlavor::Part2B | PdfAFlavor::Part3B => PdfVersion::V1_7,
        }
    }

    /// Whether transparency is allowed (not in part 1).
    pub fn allows_transparency(self) -> (b: bool)
        ensures
            b == (self != PdfAFlavor::Part1B),
    {
        !matches!(self, PdfAFlavor::Part1B)
    }

    /// Whether optional content is allowed (not in part 1).
    pub fn allows_optional_content(self) -> (b: bool)
        ensures
            b == (self != PdfAFlavor::Part1B),
    {
        !matches!(self, PdfAFlavor::Part1B)
    }

    /// Whether arbitrary embedded files are allowed (part 3 only).
    pub fn allows_embedded_files(self) -> (b: bool)
        ensures
            b == (self == PdfAFlavor::Part3B),
    {
        matches!(self, PdfAFlavor::Part3B)
    }
}

/// One rule checked and found violated.
#[derive(Debug, Clone, PartialEq, Eq)]
pub struct PdfAViolation {
    /// A short, stable identifier for the rule.
    pub rule: &'static str,
    /// Human-readable detail (which object, which font, ...).
    pub message: String,
}

impl PdfAViolation {
    /// A violation of `rule` with the given detail.
    pub fn new(rule: &'static str, message: &str) -> (v: PdfAViolation)
        ensures
            v.rule == rule,
            v.message@ == message@,
    {
        PdfAViolation { rule, message: String::from_str(message) }
    }
}

/// The result of validating a document against a flavor.
#[derive(Debug, Clone)]
pub struct PdfAReport {
    /// The flavor checked against.
    pub flavor: PdfAFlavor,
    /// Every rule violation found.
    pub violations: Vec<PdfAViolation>,
}

impl PdfAReport {
    /// `true` if no violations were found.
    pub fn is_conformant(&self) -> (b: bool)
        ensures
            b == (self.violations@.len() == 0),
    {
        self.violations.len() == 0
    }
}

/// Inputs of a conversion that cannot be derived from the source
/// document itself.
pub struct PdfAConversionOptions<'a> {
    /// ICC profile bytes for the `/OutputIntent`.
    pub icc_profile: &'a [u8],
    /// `/OutputConditionIdentifier` (e.g. `"sRGB IEC61966-2.1"`).
    pub icc_identifier: &'a str,
    /// `/OutputCondition` (free text).
    pub icc_condition: &'a str,
    /// `dc:title` of the XMP packet, if any.
    pub title: Option<&'a str>,
    /// `pdf:Producer` / `xmp:CreatorTool`, if any.
    pub producer: Option<&'a str>,
}

/// What a conversion changed.
#[derive(Debug, Clone, Default, PartialEq, Eq)]
pub struct PdfAConversionSummary {
    /// Streams whose filter chain was rewritten from `LZWDecode`.
    pub lzw_streams_reencoded: usize,
    /// `/ExtGState` dictionaries whose `/SMask`/`/BM` were reset.
    pub extgstates_disabled: usize,
    /// Objects whose transparency group was removed.
    pub transparency_groups_removed: usize,
    /// Whether a fresh `/OutputIntent` was added.
    pub output_intent_added: bool,
    /// Catalog-level keys removed, in the order removed.
    pub catalog_entries_removed: Vec<&'static str>,
}

/// Whether a base font name is that of a subset (ISO 32000-1 9.6.4):
/// six upper-case ASCII letters, `+`, and at least one more byte.
pub open spec fn spec_is_subset_tagged(b: Seq<u8>) -> bool {
    &&& b.len() > 6
    &&& b[6] == 43u8
    &&& forall|i: int| 0 <= i < 6 ==> 65 <= #[trigger] b[i] <= 90
}

/// Whether the name of a base font carries a subset tag such as
/// `ABCDEF+`.
pub fn is_subset_tagged(name: &str) -> (r: bool)
    ensures
        r == spec_is_subset_tagged(name.spec_bytes()),
{
    let bytes = name.as_bytes();
    if bytes.len() <= 6 || bytes[6] != 43u8 {
        return false;
    }
    let mut i: usize = 0;
    while i < 6
        invariant
            i <= 6,
            bytes@ == name.spec_bytes(),
            bytes@.len() > 6,
            bytes@[6] == 43u8,
            forall|j: int| 0 <= j < i ==> 65 <= #[trigger] bytes@[j] <= 90,
        decreases 6 - i,
    {
        if bytes[i] < 65u8 || bytes[i] > 90u8 {
            assert(!(65 <= bytes@[i as int] <= 90));
            return false;
        }
        i = i + 1;
    }
    true
}

/// Whether a value is the name `LZWDecode`.
pub open spec fn is_lzw_name(o: ObjV) -> bool {
    o == ObjV::Name("LZWDecode"@)
}

/// Whether some item is the name `LZWDecode`.
pub open spec fn has_lzw(items: Seq<ObjV>) -> bool {
    exists|i: int| 0 <= i < items.len() && #[trigger] is_lzw_name(items[i])
}

/// Whether a stream dictionary's `/Filter` is `LZWDecode` or an array
/// holding it.
pub open spec fn spec_uses_lzw(entries: Seq<(Seq<char>, ObjV)>) -> bool {
    match crate::object::entries_get(entries, "Filter"@) {
        Some(ObjV::Name(n)) => n == "LZWDecode"@,
        Some(ObjV::Array(items)) => has_lzw(items),
        _ => false,
    }
}

/// Whether the stream with dictionary `dict` is filtered with `LZWDecode`.
pub fn stream_uses_lzw(dict: &PdfDictionary) -> (r: bool)
    ensures
        r == spec_uses_lzw(dict.view_entries()),
{
    match dict.get("Filter") {
        Some(Object::Name(n)) => str_eq(n.as_str(), "LZWDecode"),
        Some(Object::Array(arr)) => {
            proof {
                crate::object::lemma_view_objs(arr.items@);
            }
            let ghost filter = dict.spec_get("Filter"@);
            assert(filter == Some(ObjV::Array(view_objs(arr.items@))));
            let mut i: usize = 0;
            while i < arr.items.len()
                invariant
                    i <= arr.items@.len(),
                    filter == dict.spec_get("Filter"@),
                    filter == Some(ObjV::Array(view_objs(arr.items@))),
                    view_objs(arr.items@).len() == arr.items@.len(),
                    forall|j: int| 0 <= j < arr.items@.len() ==> #[trigger] view_objs(arr.items@)[j] == arr.items@[j].v(),
                    forall|j: int| 0 <= j < i ==> !#[trigger] is_lzw_name(view_objs(arr.items@)[j]),
                    !has_lzw(view_objs(arr.items@).take(i as int)),
                decreases arr.items@.len() - i,
            {
                match &arr.items[i] {
                    Object::Name(n) => {
                        if str_eq(n.as_str(), "LZWDecode") {
                            proof {
                                let items = view_objs(arr.items@);
                                assert(dict.spec_get("Filter"@) == Some(ObjV::Array(items)));
                                assert(is_lzw_name(items[i as int]));
                                assert(has_lzw(items));
                                assert(crate::object::entries_get(dict.view_entries(), "Filter"@) == Some(ObjV::Array(items)));
                                assert(spec_uses_lzw(dict.view_entries()));
                            }
                            return true;
                        }
                    },
                    _ => {},
                }
                i = i + 1;
            }
            false
        },
        _ => false,
    }
}

} // verus!
