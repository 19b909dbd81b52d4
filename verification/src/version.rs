//! PDF version identifiers (the `%PDF-x.y` header).

use vstd::prelude::*;

verus! {

/// PDF version identifier.
#[derive(Debug, Clone, Copy, PartialEq, Eq, Structural, PartialOrd, Ord, Hash)]
pub enum PdfVersion {
    /// PDF 1.0
    V1_0,
    /// PDF 1.1
    V1_1,
    /// PDF 1.2
    V1_2,
    /// PDF 1.3
    V1_3,
    /// PDF 1.4
    V1_4,
    /// PDF 1.5
    V1_5,
    /// PDF 1.6
    V1_6,
    /// PDF 1.7 (ISO 32000-1:2008)
    V1_7,
    /// PDF 2.0 (ISO 32000-2:2020)
    V2_0,
}

impl PdfVersion {
    /// Position of the version in release order (1.0 is 0, 2.0 is 8).
    pub open spec fn rank(self) -> int {
        match self {
            PdfVersion::V1_0 => 0,
            PdfVersion::V1_1 => 1,
            PdfVersion::V1_2 => 2,
            PdfVersion::V1_3 => 3,
            PdfVersion::V1_4 => 4,
            PdfVersion::V1_5 => 5,
            PdfVersion::V1_6 => 6,
            PdfVersion::V1_7 => 7,
            PdfVersion::V2_0 => 8,
        }
    }

    /// The major version number.
    pub open spec fn spec_major(self) -> u8 {
        if self == PdfVersion::V2_0 { 2 } else { 1 }
    }

    /// The minor version number.
    pub open spec fn spec_minor(self) -> u8 {
        if self == PdfVersion::V2_0 { 0 } else { self.rank() as u8 }
    }

    /// The header text `"M.m"` of this version.
    pub open spec fn text(self) -> Seq<char> {
        seq![
            (48 + self.spec_major()) as char,
            '.',
            (48 + self.spec_minor()) as char,
        ]
    }

    /// Returns the version string for the PDF header (e.g., "1.7").
    pub fn as_str(&self) -> (s: &'static str)
        ensures
            s@ == self.text(),
    {
        proof {
            reveal_strlit("1.0");
            reveal_strlit("1.1");
            reveal_strlit("1.2");
            reveal_strlit("1.3");
            reveal_strlit("1.4");
            reveal_strlit("1.5");
            reveal_strlit("1.6");
            reveal_strlit("1.7");
            reveal_strlit("2.0");
        }
        match self {
            PdfVersion::V1_0 => "1.0",
            PdfVersion::V1_1 => "1.1",
            PdfVersion::V1_2 => "1.2",
            PdfVersion::V1_3 => "1.3",
            PdfVersion::V1_4 => "1.4",
            PdfVersion::V1_5 => "1.5",
            PdfVersion::V1_6 => "1.6",
            PdfVersion::V1_7 => "1.7",
            PdfVersion::V2_0 => "2.0",
        }
    }

    /// Returns the major version number.
    pub fn major(&self) -> (m: u8)
        ensures
            m == self.spec_major(),
    {
        match self {
            PdfVersion::V2_0 => 2,
            _ => 1,
        }
    }

    /// Returns the minor version number.
    pub fn minor(&self) -> (m: u8)
        ensures
            m == self.spec_minor(),
    {
        match self {
            PdfVersion::V1_0 => 0,
            PdfVersion::V1_1 => 1,
            PdfVersion::V1_2 => 2,
            PdfVersion::V1_3 => 3,
            PdfVersion::V1_4 => 4,
            PdfVersion::V1_5 => 5,
            PdfVersion::V1_6 => 6,
            PdfVersion::V1_7 => 7,
            PdfVersion::V2_0 => 0,
        }
    }

    /// Position in release order, as an executable value.
    fn ordinal(&self) -> (r: u8)
        ensures
            r == self.rank(),
    {
        match self {
            PdfVersion::V1_0 => 0,
            PdfVersion::V1_1 => 1,
            PdfVersion::V1_2 => 2,
            PdfVersion::V1_3 => 3,
            PdfVersion::V1_4 => 4,
            PdfVersion::V1_5 => 5,
            PdfVersion::V1_6 => 6,
            PdfVersion::V1_7 => 7,
            PdfVersion::V2_0 => 8,
        }
    }

    /// Checks if a feature is supported in this version.
    ///
    /// Returns true if the feature requires a version <= this version.
    pub fn supports(&self, required: PdfVersion) -> (b: bool)
        ensures
            b == (required.rank() <= self.rank()),
    {
        required.ordinal() <= self.ordinal()
    }

    /// Parses a header version string such as `"1.7"`.
    pub fn try_from(s: &str) -> (r: Result<PdfVersion, String>)
        ensures
            r matches Ok(v) ==> v.text() == s@,
            r is Err ==> forall|v: PdfVersion| v.text() != s@,
    {
        let n = s.unicode_len();
        if n == 3 {
            let a = s.get_char(0);
            let dot = s.get_char(1);
            let b = s.get_char(2);
            if dot == '.' {
                let found = if a == '1' {
                    if b == '0' { Some(PdfVersion::V1_0) }
                    else if b == '1' { Some(PdfVersion::V1_1) }
                    else if b == '2' { Some(PdfVersion::V1_2) }
                    else if b == '3' { Some(PdfVersion::V1_3) }
                    else if b == '4' { Some(PdfVersion::V1_4) }
                    else if b == '5' { Some(PdfVersion::V1_5) }
                    else if b == '6' { Some(PdfVersion::V1_6) }
                    else if b == '7' { Some(PdfVersion::V1_7) }
                    else { None }
                } else if a == '2' && b == '0' {
                    Some(PdfVersion::V2_0)
                } else {
                    None
                };
                if let Some(v) = found {
                    assert(v.text() =~= s@);
                    return Ok(v);
                }
            }
        }
        let mut msg = String::from_str("Unknown PDF version: ");
        msg.append(s);
        Err(msg)
    }
}

impl Default for PdfVersion {
    fn default() -> (v: PdfVersion)
        ensures
            v == PdfVersion::V1_7,
    {
        PdfVersion::V1_7
    }
}

} // verus!
