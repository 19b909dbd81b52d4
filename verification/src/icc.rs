//! ICC output-intent support (ISO 32000-1:2008 14.11.5 "Output
//! Intents"): the structural check of a caller-supplied ICC profile's
//! header, and the names the output-intent dictionary uses.
//!
//! The ICC.1 profile header is a fixed 128-byte structure: bytes 0..4
//! hold the profile size (big-endian `u32`), bytes 16..20 the data colour
//! space signature (e.g. `b"RGB "`, `b"CMYK"`, `b"GRAY"`), bytes 36..40
//! the fixed signature `b"acsp"`. Only those fields are read.

use vstd::prelude::*;

verus! {

/// Size of the fixed ICC header.
pub const ICC_HEADER_LEN: usize = 128;

/// Hard cap on the ICC profile size accepted.
pub const MAX_ICC_PROFILE_BYTES: usize = 33554432;

/// The ICC "data colour space" a profile declares (header bytes 16..20).
#[derive(Debug, Clone, Copy, PartialEq, Eq, Structural)]
pub enum IccColorSpace {
    /// `b"GRAY"`: 1 component.
    Gray,
    /// `b"RGB "`: 3 components.
    Rgb,
    /// `b"CMYK"`: 4 components.
    Cmyk,
}

/// The signature bytes of a colour space.
pub open spec fn signature(cs: IccColorSpace) -> Seq<u8> {
    match cs {
        IccColorSpace::Gray => seq![71u8, 82u8, 65u8, 89u8],
        IccColorSpace::Rgb => seq![82u8, 71u8, 66u8, 32u8],
        IccColorSpace::Cmyk => seq![67u8, 77u8, 89u8, 75u8],
    }
}

/// The `/N` component count of a colour space (ISO 32000-1 Table 95).
pub open spec fn spec_component_count(cs: IccColorSpace) -> i64 {
    match cs {
        IccColorSpace::Gray => 1,
        IccColorSpace::Rgb => 3,
        IccColorSpace::Cmyk => 4,
    }
}

impl IccColorSpace {
    /// The `/N` value (ISO 32000-1 Table 95) for this colour space.
    pub fn component_count(self) -> (n: i64)
        ensures
            n == spec_component_count(self),
    {
        match self {
            IccColorSpace::Gray => 1,
            IccColorSpace::Rgb => 3,
            IccColorSpace::Cmyk => 4,
        }
    }

    /// The device colour space named as `/Alternate` for this space.
    pub fn alternate_device_space(self) -> (s: &'static str)
        ensures
            self == IccColorSpace::Gray ==> s@ == "DeviceGray"@,
            self == IccColorSpace::Rgb ==> s@ == "DeviceRGB"@,
            self == IccColorSpace::Cmyk ==> s@ == "DeviceCMYK"@,
    {
        match self {
            IccColorSpace::Gray => "DeviceGray",
            IccColorSpace::Rgb => "DeviceRGB",
            IccColorSpace::Cmyk => "DeviceCMYK",
        }
    }

    /// The colour space whose signature is `sig`, if any.
    pub fn from_signature(sig: &[u8]) -> (r: Option<IccColorSpace>)
        ensures
            r matches Some(cs) ==> signature(cs) == sig@,
            r is None ==> forall|cs: IccColorSpace| signature(cs) != sig@,
    {
        if sig.len() != 4 {
            return None;
        }
        if sig[0] == 71 && sig[1] == 82 && sig[2] == 65 && sig[3] == 89 {
            assert(sig@ =~= signature(IccColorSpace::Gray));
            Some(IccColorSpace::Gray)
        } else if sig[0] == 82 && sig[1] == 71 && sig[2] == 66 && sig[3] == 32 {
            assert(sig@ =~= signature(IccColorSpace::Rgb));
            Some(IccColorSpace::Rgb)
        } else if sig[0] == 67 && sig[1] == 77 && sig[2] == 89 && sig[3] == 75 {
            assert(sig@ =~= signature(IccColorSpace::Cmyk));
            Some(IccColorSpace::Cmyk)
        } else {
            assert forall|cs: IccColorSpace| signature(cs) != sig@ by {
                if signature(cs) == sig@ {
                    assert(signature(cs)[0] == sig@[0]);
                    assert(signature(cs)[1] == sig@[1]);
                    assert(signature(cs)[2] == sig@[2]);
                    assert(signature(cs)[3] == sig@[3]);
                }
            }
            None
        }
    }
}

/// Why a caller-supplied byte string was rejected as an ICC profile by
/// [`validate_icc_header`].
#[derive(Debug, Clone, Copy, PartialEq, Eq, Structural)]
pub enum IccError {
    /// Fewer than 128 bytes: too short to hold the fixed header.
    TooShort,
    /// Longer than [`MAX_ICC_PROFILE_BYTES`].
    TooLarge,
    /// Bytes 36..40 are not `b"acsp"`.
    BadSignature,
    /// Bytes 16..20 are not `GRAY`, `RGB ` or `CMYK`.
    UnsupportedColorSpace,
    /// The header's declared profile size is larger than the data.
    DeclaredSizeExceedsData,
}

/// The profile size the header declares (bytes 0..4, big-endian).
pub open spec fn declared_size(d: Seq<u8>) -> nat {
    (d[0] as nat) * 0x1000000 + (d[1] as nat) * 0x10000 + (d[2] as nat) * 0x100 + (d[3] as nat)
}

/// `b"acsp"`.
pub open spec fn acsp() -> Seq<u8> {
    seq![97u8, 99u8, 115u8, 112u8]
}

/// The outcome of validating `d`, checks in order: size cap, header
/// length, declared size, file signature, colour space.
pub open spec fn spec_validate_icc_header(d: Seq<u8>) -> Result<IccColorSpace, IccError> {
    if d.len() > MAX_ICC_PROFILE_BYTES {
        Err(IccError::TooLarge)
    } else if d.len() < ICC_HEADER_LEN {
        Err(IccError::TooShort)
    } else if declared_size(d) > d.len() {
        Err(IccError::DeclaredSizeExceedsData)
    } else if d.subrange(36, 40) != acsp() {
        Err(IccError::BadSignature)
    } else if exists|cs: IccColorSpace| signature(cs) == d.subrange(16, 20) {
        Ok(choose|cs: IccColorSpace| signature(cs) == d.subrange(16, 20))
    } else {
        Err(IccError::UnsupportedColorSpace)
    }
}

/// Distinct colour spaces have distinct signatures.
proof fn lemma_signature_injective(a: IccColorSpace, b: IccColorSpace)
    requires
        signature(a) == signature(b),
    ensures
        a == b,
{
    assert(signature(a)[0] == signature(b)[0]);
    assert(signature(a)[3] == signature(b)[3]);
}

/// Validates that `data` has a structurally plausible ICC.1 header and
/// returns its declared data colour space.
///
/// This is a structural sanity check, not full ICC.1 conformance
/// validation: it does not walk the tag table or verify any tag.
pub fn validate_icc_header(data: &[u8]) -> (r: Result<IccColorSpace, IccError>)
    ensures
        r == spec_validate_icc_header(data@),
{
    if data.len() > MAX_ICC_PROFILE_BYTES {
        return Err(IccError::TooLarge);
    }
    if data.len() < ICC_HEADER_LEN {
        return Err(IccError::TooShort);
    }
    let declared: u64 = (data[0] as u64) * 0x1000000 + (data[1] as u64) * 0x10000 + (data[2] as u64) * 0x100
        + (data[3] as u64);
    if declared > data.len() as u64 {
        return Err(IccError::DeclaredSizeExceedsData);
    }
    if !(data[36] == 97 && data[37] == 99 && data[38] == 115 && data[39] == 112) {
        proof {
            if data@.subrange(36, 40) == acsp() {
                assert(data@.subrange(36, 40)[0] == data@[36]);
                assert(data@.subrange(36, 40)[1] == data@[37]);
                assert(data@.subrange(36, 40)[2] == data@[38]);
                assert(data@.subrange(36, 40)[3] == data@[39]);
            }
        }
        return Err(IccError::BadSignature);
    }
    assert(data@.subrange(36, 40) =~= acsp());
    let sig = vstd::slice::slice_subrange(data, 16, 20);
    match IccColorSpace::from_signature(sig) {
        Some(cs) => {
            proof {
                let c = choose|c: IccColorSpace| signature(c) == data@.subrange(16, 20);
                lemma_signature_injective(c, cs);
            }
            Ok(cs)
        },
        None => Err(IccError::UnsupportedColorSpace),
    }
}

/// Which `/S` output-intent subtype value to use (ISO 32000-1 Table 394).
#[derive(Debug, Clone, Copy, PartialEq, Eq, Structural)]
pub enum OutputIntentSubtype {
    /// `/GTS_PDFA1`, the conventional value for PDF/A output intents.
    PdfA,
    /// `/GTS_PDFX`, PDF/X output intents.
    PdfX,
}

impl OutputIntentSubtype {
    /// The subtype's name.
    pub fn as_name(self) -> (s: &'static str)
        ensures
            self == OutputIntentSubtype::PdfA ==> s@ == "GTS_PDFA1"@,
            self == OutputIntentSubtype::PdfX ==> s@ == "GTS_PDFX"@,
    {
        match self {
            OutputIntentSubtype::PdfA => "GTS_PDFA1",
            OutputIntentSubtype::PdfX => "GTS_PDFX",
        }
    }
}

/// An output intent read back from a document's `/OutputIntents` array.
#[derive(Debug)]
pub struct OutputIntentInfo {
    /// The `/S` subtype name (e.g. `"GTS_PDFA1"`).
    pub subtype: String,
    /// `/OutputConditionIdentifier`.
    pub identifier: Option<String>,
    /// Whether `/DestOutputProfile` is present and its bytes pass
    /// [`validate_icc_header`].
    pub has_valid_icc_profile: bool,
    /// The embedded profile's declared colour space, if it validated.
    pub color_space: Option<IccColorSpace>,
}

} // verus!
