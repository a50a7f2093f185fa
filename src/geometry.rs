//! Lattice points, rational points and the orientation predicate.
use vstd::prelude::*;

verus! {

/// Largest absolute value of a vertex coordinate.
///
/// Every quantity derived from vertices (areas, moments, circumcentres and the
/// comparisons made with them) then fits in 128-bit arithmetic.
pub const COORD_MAX: i64 = 1048576;

/// Largest number of vertices of a polygon, and of half-edges of a subdivision.
pub const MAX_CYCLE: usize = 2147483648;

/// Bound on the numerators of a representative point.
pub open spec fn rep_bound() -> int {
    0x4000_0000_0000_0000_0000_0000int
}

/// Bound on the denominator of a representative point.
pub open spec fn rep_den_bound() -> int {
    0x800_0000_0000_0000_0000int
}

/// A coordinate within `COORD_MAX`.
pub open spec fn coord_ok(c: int) -> bool {
    -COORD_MAX <= c <= COORD_MAX
}

/// A lattice point whose coordinates are within `COORD_MAX`.
pub open spec fn pt_ok(p: (i64, i64)) -> bool {
    coord_ok(p.0 as int) && coord_ok(p.1 as int)
}

/// Every point of the sequence is within `COORD_MAX`.
pub open spec fn pts_ok(s: Seq<(i64, i64)>) -> bool {
    forall|i: int| 0 <= i < s.len() ==> #[trigger] pt_ok(s[i])
}

/// Twice the signed area of the triangle `(a, b, c)`: positive when `c` lies to
/// the left of the directed line from `a` to `b`.
pub open spec fn orient(a: (i64, i64), b: (i64, i64), c: (i64, i64)) -> int {
    (b.0 - a.0) * (c.1 - a.1) - (b.1 - a.1) * (c.0 - a.0)
}

/// Do the three points, in this order, make a left turn?
pub fn makes_left_turn(pt1: (i64, i64), pt2: (i64, i64), pt3: (i64, i64)) -> (r: bool)
    requires
        pt_ok(pt1),
        pt_ok(pt2),
        pt_ok(pt3),
    ensures
        r == (orient(pt1, pt2, pt3) > 0),
{
    let x1 = pt1.0 as i128;
    let y1 = pt1.1 as i128;
    let x2 = pt2.0 as i128;
    let y2 = pt2.1 as i128;
    let x3 = pt3.0 as i128;
    let y3 = pt3.1 as i128;
    proof {
        lemma_mul_small(x2 - x1, y3 - y1, 0x20_0000, 0x20_0000);
        lemma_mul_small(y2 - y1, x3 - x1, 0x20_0000, 0x20_0000);
    }
    (x2 - x1) * (y3 - y1) - (y2 - y1) * (x3 - x1) > 0
}

/// A product of two bounded factors is bounded by the product of the bounds.
pub proof fn lemma_mul_small(a: int, b: int, ma: int, mb: int)
    requires
        -ma <= a <= ma,
        -mb <= b <= mb,
    ensures
        -(ma * mb) <= a * b <= ma * mb,
{
    assert(-(ma * mb) <= a * b <= ma * mb) by (nonlinear_arith)
        requires
            -ma <= a <= ma,
            -mb <= b <= mb,
    ;
}

/// A point with rational coordinates `(x / den, y / den)`.
#[derive(Clone, Copy, Debug)]
pub struct RatPoint {
    pub x: i128,
    pub y: i128,
    pub den: i128,
}

impl RatPoint {
    /// A denominator that is positive, with all three numbers within the
    /// representative bound.
    pub open spec fn wf(&self) -> bool {
        0 < self.den <= rep_den_bound() && -rep_bound() <= self.x <= rep_bound() && -rep_bound()
            <= self.y <= rep_bound()
    }

    /// The point `(x / den, y / den)`.
    pub fn new(x: i128, y: i128, den: i128) -> (r: RatPoint)
        ensures
            r.x == x && r.y == y && r.den == den,
    {
        RatPoint { x, y, den }
    }

    /// The lattice point `p`.
    pub fn from_lattice(p: (i64, i64)) -> (r: RatPoint)
        requires
            pt_ok(p),
        ensures
            r.x == p.0 && r.y == p.1 && r.den == 1,
            r.wf(),
    {
        RatPoint { x: p.0 as i128, y: p.1 as i128, den: 1 }
    }

    /// The x-coordinate rounded toward zero.
    pub open spec fn spec_x_truncated(&self) -> int {
        if self.x >= 0 {
            self.x as int / self.den as int
        } else {
            -((-self.x) as int / self.den as int)
        }
    }

    /// The x-coordinate rounded toward zero.
    pub fn x_truncated(&self) -> (r: i128)
        requires
            self.wf(),
        ensures
            r == self.spec_x_truncated(),
    {
        if self.x >= 0 {
            self.x / self.den
        } else {
            -((-self.x) / self.den)
        }
    }
}

} // verus!
