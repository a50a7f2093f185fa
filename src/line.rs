//! Lines through lattice points, kept as a direction and a contact point.
use vstd::prelude::*;
use crate::geometry::{coord_ok, pt_ok};

verus! {

/// A line through `contact` with direction `(run, rise)`.
///
/// A direction with `run == 0` is vertical; the zero direction describes no line
/// and overlaps nothing.
pub struct Line {
    run: i64,
    rise: i64,
    contact: (i64, i64),
}

/// A direction component: at most twice `COORD_MAX` in absolute value.
pub open spec fn delta_ok(d: int) -> bool {
    -2 * crate::geometry::COORD_MAX <= d <= 2 * crate::geometry::COORD_MAX
}

/// Do the lines `(run1, rise1, c1)` and `(run2, rise2, c2)` coincide?
///
/// Two lines that are not vertical coincide when their slopes and intercepts
/// agree, two vertical lines when they meet the x-axis at one place.
pub open spec fn lines_overlap(
    run1: int,
    rise1: int,
    c1: (i64, i64),
    run2: int,
    rise2: int,
    c2: (i64, i64),
) -> bool {
    if (run1 == 0 && rise1 == 0) || (run2 == 0 && rise2 == 0) {
        false
    } else if run1 == 0 && run2 == 0 {
        c1.0 == c2.0
    } else if run1 == 0 || run2 == 0 {
        false
    } else {
        rise1 * run2 == rise2 * run1 && (c1.1 * run1 - rise1 * c1.0) * run2 == (c2.1 * run2 - rise2
            * c2.0) * run1
    }
}

impl Line {
    pub closed spec fn spec_run(&self) -> int {
        self.run as int
    }

    pub closed spec fn spec_rise(&self) -> int {
        self.rise as int
    }

    pub closed spec fn spec_contact(&self) -> (i64, i64) {
        self.contact
    }

    /// Bounded direction and contact point.
    pub open spec fn wf(&self) -> bool {
        delta_ok(self.spec_run()) && delta_ok(self.spec_rise()) && pt_ok(self.spec_contact())
    }

    /// The line through `a` and `b`, directed from the one with the smaller x
    /// to the other, touching `a`.
    pub fn from_points(a: &(i64, i64), b: &(i64, i64)) -> (r: Line)
        requires
            pt_ok(*a),
            pt_ok(*b),
        ensures
            r.wf(),
            r.spec_contact() == *a,
            a.0 <= b.0 ==> r.spec_run() == b.0 - a.0 && r.spec_rise() == b.1 - a.1,
            a.0 > b.0 ==> r.spec_run() == a.0 - b.0 && r.spec_rise() == a.1 - b.1,
    {
        let left = if a.0 <= b.0 { a } else { b };
        let right = if a.0 <= b.0 { b } else { a };
        Line::new(right.1 - left.1, right.0 - left.0, *a)
    }

    /// The line through `contact` with slope `rise / run` (vertical when `run`
    /// is zero).
    pub fn new(rise: i64, run: i64, contact: (i64, i64)) -> (r: Line)
        ensures
            r.spec_run() == run,
            r.spec_rise() == rise,
            r.spec_contact() == contact,
    {
        Line { run, rise, contact }
    }

    /// Do `self` and `other` describe one line?
    pub fn is_overlapping_with(&self, other: &Self) -> (r: bool)
        requires
            self.wf(),
            other.wf(),
        ensures
            r == lines_overlap(
                self.spec_run(),
                self.spec_rise(),
                self.spec_contact(),
                other.spec_run(),
                other.spec_rise(),
                other.spec_contact(),
            ),
    {
        let run1 = self.run as i128;
        let rise1 = self.rise as i128;
        let run2 = other.run as i128;
        let rise2 = other.rise as i128;
        if (run1 == 0 && rise1 == 0) || (run2 == 0 && rise2 == 0) {
            false
        } else if run1 == 0 && run2 == 0 {
            self.contact.0 == other.contact.0
        } else if run1 == 0 || run2 == 0 {
            false
        } else {
            let cx1 = self.contact.0 as i128;
            let cy1 = self.contact.1 as i128;
            let cx2 = other.contact.0 as i128;
            let cy2 = other.contact.1 as i128;
            let m: i128 = 0x20_0000;
            proof {
                crate::geometry::lemma_mul_small(rise1 as int, run2 as int, m as int, m as int);
                crate::geometry::lemma_mul_small(rise2 as int, run1 as int, m as int, m as int);
                crate::geometry::lemma_mul_small(cy1 as int, run1 as int, m as int, m as int);
                crate::geometry::lemma_mul_small(rise1 as int, cx1 as int, m as int, m as int);
                crate::geometry::lemma_mul_small(cy2 as int, run2 as int, m as int, m as int);
                crate::geometry::lemma_mul_small(rise2 as int, cx2 as int, m as int, m as int);
            }
            let i1 = cy1 * run1 - rise1 * cx1;
            let i2 = cy2 * run2 - rise2 * cx2;
            proof {
                crate::geometry::lemma_mul_small(i1 as int, run2 as int, 2 * m * m, m as int);
                crate::geometry::lemma_mul_small(i2 as int, run1 as int, 2 * m * m, m as int);
            }
            rise1 * run2 == rise2 * run1 && i1 * run2 == i2 * run1
        }
    }
}

} // verus!
