//! Geometric values of a page.

use vstd::prelude::*;
use crate::object::PdfReal;

verus! {

/// A rectangle given by its lower-left and upper-right corners (ISO
/// 32000-1 7.9.5), in points.
#[derive(Debug, Clone, Copy, PartialEq, Eq, Structural)]
pub struct Rectangle {
    /// Lower-left x.
    pub llx: PdfReal,
    /// Lower-left y.
    pub lly: PdfReal,
    /// Upper-right x.
    pub urx: PdfReal,
    /// Upper-right y.
    pub ury: PdfReal,
}

impl Rectangle {
    /// The rectangle with the given corners.
    pub fn new(llx: PdfReal, lly: PdfReal, urx: PdfReal, ury: PdfReal) -> (r: Rectangle)
        ensures
            r.llx == llx,
            r.lly == lly,
            r.urx == urx,
            r.ury == ury,
    {
        Rectangle { llx, lly, urx, ury }
    }

    /// An A4 page, 595 by 842 points, from the origin.
    pub fn a4() -> (r: Rectangle)
        ensures
            r.llx.micros == 0,
            r.lly.micros == 0,
            r.urx.micros == 595_000_000,
            r.ury.micros == 842_000_000,
    {
        Rectangle {
            llx: PdfReal::from_micros(0),
            lly: PdfReal::from_micros(0),
            urx: PdfReal::from_micros(595_000_000),
            ury: PdfReal::from_micros(842_000_000),
        }
    }

    /// A US Letter page, 612 by 792 points, from the origin.
    pub open spec fn spec_letter() -> Rectangle {
        Rectangle {
            llx: PdfReal { micros: 0 },
            lly: PdfReal { micros: 0 },
            urx: PdfReal { micros: 612_000_000 },
            ury: PdfReal { micros: 792_000_000 },
        }
    }

    /// A US Letter page, 612 by 792 points, from the origin.
    pub fn letter() -> (r: Rectangle)
        ensures
            r == Rectangle::spec_letter(),
    {
        Rectangle {
            llx: PdfReal::from_micros(0),
            lly: PdfReal::from_micros(0),
            urx: PdfReal::from_micros(612_000_000),
            ury: PdfReal::from_micros(792_000_000),
        }
    }

    /// The corners as `[llx, lly, urx, ury]`.
    pub fn to_array(&self) -> (a: [PdfReal; 4])
        ensures
            a@ == seq![self.llx, self.lly, self.urx, self.ury],
    {
        let a = [self.llx, self.lly, self.urx, self.ury];
        assert(a@ =~= seq![self.llx, self.lly, self.urx, self.ury]);
        a
    }
}

} // verus!
