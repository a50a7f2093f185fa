//! Closed disks with a rational centre, and the smallest enclosing disk of a set
//! of lattice points.
use vstd::prelude::*;
use crate::geometry::{RatPoint, pt_ok, pts_ok, lemma_mul_small};

verus! {

/// Squared distance, scaled by `c.den²`, from the rational point `c` to `q`.
pub open spec fn scaled_sqdist(c: RatPoint, q: (i64, i64)) -> int {
    (q.0 * c.den - c.x) * (q.0 * c.den - c.x) + (q.1 * c.den - c.y) * (q.1 * c.den - c.y)
}

/// Is `q` in the closed disk centred at `c` whose boundary passes through `rim`?
pub open spec fn in_disk(c: RatPoint, rim: (i64, i64), q: (i64, i64)) -> bool {
    scaled_sqdist(c, q) <= scaled_sqdist(c, rim)
}

/// Twice the signed area of the triangle `(a, b, c)`; zero when they are collinear.
pub open spec fn wedge(a: (i64, i64), b: (i64, i64), c: (i64, i64)) -> int {
    (b.0 - a.0) * (c.1 - a.1) - (b.1 - a.1) * (c.0 - a.0)
}

/// A closed disk: its centre, and a lattice point on its boundary.
#[derive(Clone, Copy, Debug)]
pub struct Disk {
    center: RatPoint,
    rim: (i64, i64),
}

impl Disk {
    pub closed spec fn spec_center(&self) -> RatPoint {
        self.center
    }

    pub closed spec fn spec_rim(&self) -> (i64, i64) {
        self.rim
    }

    /// Is `q` in the disk?
    pub open spec fn has(&self, q: (i64, i64)) -> bool {
        in_disk(self.spec_center(), self.spec_rim(), q)
    }

    /// Bounds that keep the containment test within 128-bit arithmetic.
    pub open spec fn wf(&self) -> bool {
        let c = self.spec_center();
        &&& 0 < c.den <= 0x2000_0000_0000
        &&& -0x4_0000_0000_0000_0000 <= c.x <= 0x4_0000_0000_0000_0000
        &&& -0x4_0000_0000_0000_0000 <= c.y <= 0x4_0000_0000_0000_0000
        &&& pt_ok(self.spec_rim())
    }

    /// The disk centred at `center` whose boundary passes through `rim`.
    pub fn new(center: RatPoint, rim: (i64, i64)) -> (r: Disk)
        ensures
            r.spec_center() == center,
            r.spec_rim() == rim,
    {
        Disk { center, rim }
    }

    /// Is `a` in the closed disk? Points on the boundary count as contained.
    pub fn contains_point(&self, a: &(i64, i64)) -> (r: bool)
        requires
            self.wf(),
            pt_ok(*a),
        ensures
            r == self.has(*a),
    {
        let d = self.center.den;
        let nx = self.center.x;
        let ny = self.center.y;
        let qx = a.0 as i128;
        let qy = a.1 as i128;
        let rx = self.rim.0 as i128;
        let ry = self.rim.1 as i128;
        let m: i128 = 0x10_0000;
        proof {
            lemma_mul_small(qx as int, qx as int, m as int, m as int);
            lemma_mul_small(qy as int, qy as int, m as int, m as int);
            lemma_mul_small(rx as int, rx as int, m as int, m as int);
            lemma_mul_small(ry as int, ry as int, m as int, m as int);
        }
        let s = qx * qx + qy * qy - rx * rx - ry * ry;
        proof {
            lemma_mul_small(d as int, s as int, 0x2000_0000_0000, 0x400_0000_0000);
            lemma_mul_small((qx - rx) as int, nx as int, 2 * m as int, 0x4_0000_0000_0000_0000);
            lemma_mul_small((qy - ry) as int, ny as int, 2 * m as int, 0x4_0000_0000_0000_0000);
        }
        let lhs = d * s;
        let rhs = 2 * ((qx - rx) * nx + (qy - ry) * ny);
        proof {
            lemma_disk_test(qx as int, qy as int, rx as int, ry as int, nx as int, ny as int, d as int);
        }
        lhs <= rhs
    }

    /// The centre of the disk.
    pub fn centroid(&self) -> (r: RatPoint)
        ensures
            r == self.spec_center(),
    {
        self.center
    }

    /// A lattice point on the boundary of the disk.
    pub fn rim(&self) -> (r: (i64, i64))
        ensures
            r == self.spec_rim(),
    {
        self.rim
    }
}

/// Expansion of the square of a difference.
proof fn lemma_sq_sub(a: int, b: int)
    ensures
        (a - b) * (a - b) == a * a - 2 * (a * b) + b * b,
{
    vstd::arithmetic::mul::lemma_mul_is_distributive_sub(a - b, a, b);
    vstd::arithmetic::mul::lemma_mul_is_distributive_sub_other_way(a, a, b);
    vstd::arithmetic::mul::lemma_mul_is_distributive_sub_other_way(b, a, b);
    vstd::arithmetic::mul::lemma_mul_is_commutative(a, b);
}

/// One coordinate of the containment test.
proof fn lemma_square_diff(q: int, r: int, n: int, d: int)
    ensures
        (q * d - n) * (q * d - n) - (r * d - n) * (r * d - n) == d * (d * (q * q - r * r) - 2 * ((
        q - r) * n)),
{
    lemma_sq_sub(q * d, n);
    lemma_sq_sub(r * d, n);
    assert((q * d) * (q * d) == d * (d * (q * q))) by (nonlinear_arith);
    assert((r * d) * (r * d) == d * (d * (r * r))) by (nonlinear_arith);
    assert((q * d) * n == d * (q * n)) by (nonlinear_arith);
    assert((r * d) * n == d * (r * n)) by (nonlinear_arith);
    vstd::arithmetic::mul::lemma_mul_is_distributive_sub(d, q * q, r * r);
    vstd::arithmetic::mul::lemma_mul_is_distributive_sub_other_way(n, q, r);
    vstd::arithmetic::mul::lemma_mul_is_distributive_sub(d, d * (q * q - r * r), 2 * ((q - r) * n));
    vstd::arithmetic::mul::lemma_mul_is_distributive_sub(d, d * (q * q), d * (r * r));
    vstd::arithmetic::mul::lemma_mul_is_distributive_sub(d, q * n, r * n);
    assert(d * (2 * ((q - r) * n)) == 2 * (d * ((q - r) * n))) by (nonlinear_arith);
}

/// The containment test that `contains_point` computes is the one `in_disk` states.
proof fn lemma_disk_test(qx: int, qy: int, rx: int, ry: int, nx: int, ny: int, d: int)
    requires
        d > 0,
    ensures
        ((qx * d - nx) * (qx * d - nx) + (qy * d - ny) * (qy * d - ny) <= (rx * d - nx) * (rx * d
            - nx) + (ry * d - ny) * (ry * d - ny)) <==> (d * (qx * qx + qy * qy - rx * rx - ry * ry)
            <= 2 * ((qx - rx) * nx + (qy - ry) * ny)),
{
    let lhs = d * (qx * qx + qy * qy - rx * rx - ry * ry);
    let rhs = 2 * ((qx - rx) * nx + (qy - ry) * ny);
    let big_l = (qx * d - nx) * (qx * d - nx) + (qy * d - ny) * (qy * d - ny);
    let big_r = (rx * d - nx) * (rx * d - nx) + (ry * d - ny) * (ry * d - ny);
    lemma_square_diff(qx, rx, nx, d);
    lemma_square_diff(qy, ry, ny, d);
    let sx = d * (qx * qx - rx * rx) - 2 * ((qx - rx) * nx);
    let sy = d * (qy * qy - ry * ry) - 2 * ((qy - ry) * ny);
    vstd::arithmetic::mul::lemma_mul_is_distributive_add(d, sx, sy);
    vstd::arithmetic::mul::lemma_mul_is_distributive_sub(d, qx * qx, rx * rx);
    vstd::arithmetic::mul::lemma_mul_is_distributive_sub(d, qy * qy, ry * ry);
    vstd::arithmetic::mul::lemma_mul_is_distributive_add(d, qx * qx - rx * rx, qy * qy - ry * ry);
    vstd::arithmetic::mul::lemma_mul_is_distributive_sub(d, lhs, rhs);
    vstd::arithmetic::mul::lemma_mul_is_distributive_sub(d, d * (qx * qx - rx * rx), 2 * ((qx - rx) * nx));
    vstd::arithmetic::mul::lemma_mul_is_distributive_sub(d, d * (qy * qy - ry * ry), 2 * ((qy - ry) * ny));
    assert(sx + sy == lhs - rhs);
    assert(big_l - big_r == d * (lhs - rhs));
    if lhs <= rhs {
        assert(d * (lhs - rhs) <= 0) by (nonlinear_arith)
            requires
                d > 0,
                lhs <= rhs,
        ;
    } else {
        assert(d * (lhs - rhs) > 0) by (nonlinear_arith)
            requires
                d > 0,
                lhs > rhs,
        ;
    }
}

/// The disk of radius zero at `a`.
pub open spec fn point_disk(a: (i64, i64)) -> RatPoint {
    RatPoint { x: a.0 as i128, y: a.1 as i128, den: 1 }
}

/// The centre of the disk with diameter `ab`.
pub open spec fn pair_center(a: (i64, i64), b: (i64, i64)) -> RatPoint {
    RatPoint { x: (a.0 + b.0) as i128, y: (a.1 + b.1) as i128, den: 2 }
}

/// Does the disk with diameter `ab` hold every point of `s`?
pub open spec fn pair_holds_all(a: (i64, i64), b: (i64, i64), s: Seq<(i64, i64)>) -> bool {
    forall|i: int| 0 <= i < s.len() ==> #[trigger] in_disk(pair_center(a, b), a, s[i])
}

fn trivial_point(a: &(i64, i64)) -> (r: Disk)
    requires
        pt_ok(*a),
    ensures
        r.wf(),
        r.spec_center() == point_disk(*a),
        r.spec_rim() == *a,
{
    Disk::new(RatPoint::from_lattice(*a), *a)
}

fn trivial_pair(a: &(i64, i64), b: &(i64, i64)) -> (r: Disk)
    requires
        pt_ok(*a),
        pt_ok(*b),
    ensures
        r.wf(),
        r.spec_center() == pair_center(*a, *b),
        r.spec_rim() == *a,
        r.has(*a),
        r.has(*b),
{
    let center = RatPoint::new(a.0 as i128 + b.0 as i128, a.1 as i128 + b.1 as i128, 2);
    proof {
        let c = pair_center(*a, *b);
        assert(scaled_sqdist(c, *b) == scaled_sqdist(c, *a)) by {
            let x = b.0 - a.0;
            let y = b.1 - a.1;
            assert(b.0 * 2 - (a.0 + b.0) == x);
            assert(a.0 * 2 - (a.0 + b.0) == -x);
            assert(b.1 * 2 - (a.1 + b.1) == y);
            assert(a.1 * 2 - (a.1 + b.1) == -y);
            assert(x * x == (-x) * (-x)) by (nonlinear_arith);
            assert(y * y == (-y) * (-y)) by (nonlinear_arith);
        }
    }
    Disk::new(center, *a)
}

/// The centre of the circle through `a`, `b` and `c`, which are not collinear.
pub open spec fn circum_center(a: (i64, i64), b: (i64, i64), c: (i64, i64)) -> RatPoint {
    let px = b.0 - a.0;
    let py = b.1 - a.1;
    let qx = c.0 - a.0;
    let qy = c.1 - a.1;
    let u = px * px + py * py;
    let v = qx * qx + qy * qy;
    let w = px * qy - py * qx;
    let zx = qy * u - py * v;
    let zy = px * v - qx * u;
    if w > 0 {
        RatPoint { x: (zx + a.0 * (2 * w)) as i128, y: (zy + a.1 * (2 * w)) as i128, den: (2 * w) as i128 }
    } else {
        RatPoint { x: (a.0 * (-2 * w) - zx) as i128, y: (a.1 * (-2 * w) - zy) as i128, den: (-2 * w) as i128 }
    }
}

/// The centre of the circumcircle solves the two bisector equations.
proof fn lemma_bisectors(px: int, py: int, qx: int, qy: int, u: int, v: int)
    ensures
        px * (qy * u - py * v) + py * (px * v - qx * u) == u * (px * qy - py * qx),
        qx * (qy * u - py * v) + qy * (px * v - qx * u) == v * (px * qy - py * qx),
{
    assert(px * (qy * u - py * v) + py * (px * v - qx * u) == u * (px * qy - py * qx))
        by (nonlinear_arith);
    assert(qx * (qy * u - py * v) + qy * (px * v - qx * u) == v * (px * qy - py * qx))
        by (nonlinear_arith);
}

/// A point `r` (relative to the rim) on the circle of centre `z / den` (relative
/// to the rim) has the rim's scaled squared distance.
proof fn lemma_on_circle(r0: int, r1: int, z0: int, z1: int, den: int)
    requires
        2 * (r0 * z0 + r1 * z1) == den * (r0 * r0 + r1 * r1),
    ensures
        (r0 * den - z0) * (r0 * den - z0) + (r1 * den - z1) * (r1 * den - z1) == z0 * z0 + z1 * z1,
{
    lemma_sq_sub(r0 * den, z0);
    lemma_sq_sub(r1 * den, z1);
    assert((r0 * den) * (r0 * den) + (r1 * den) * (r1 * den) == den * (den * (r0 * r0 + r1 * r1)))
        by (nonlinear_arith);
    assert((r0 * den) * z0 + (r1 * den) * z1 == den * (r0 * z0 + r1 * z1)) by (nonlinear_arith);
    let x = r0 * r0 + r1 * r1;
    let y = r0 * z0 + r1 * z1;
    assert(2 * (den * y) == den * (den * x)) by (nonlinear_arith)
        requires
            2 * y == den * x,
    ;
}

pub fn trivial_triple(a: &(i64, i64), b: &(i64, i64), c: &(i64, i64)) -> (r: Disk)
    requires
        pt_ok(*a),
        pt_ok(*b),
        pt_ok(*c),
        wedge(*a, *b, *c) != 0,
    ensures
        r.wf(),
        r.spec_center() == circum_center(*a, *b, *c),
        r.spec_rim() == *a,
        r.has(*a),
        r.has(*b),
        r.has(*c),
{
    let px = b.0 as i128 - a.0 as i128;
    let py = b.1 as i128 - a.1 as i128;
    let qx = c.0 as i128 - a.0 as i128;
    let qy = c.1 as i128 - a.1 as i128;
    let m: i128 = 0x20_0000;
    proof {
        lemma_mul_small(px as int, px as int, m as int, m as int);
        lemma_mul_small(py as int, py as int, m as int, m as int);
        lemma_mul_small(qx as int, qx as int, m as int, m as int);
        lemma_mul_small(qy as int, qy as int, m as int, m as int);
        lemma_mul_small(px as int, qy as int, m as int, m as int);
        lemma_mul_small(py as int, qx as int, m as int, m as int);
    }
    let u = px * px + py * py;
    let v = qx * qx + qy * qy;
    let w = px * qy - py * qx;
    proof {
        lemma_mul_small(qy as int, u as int, m as int, 2 * m * m);
        lemma_mul_small(py as int, v as int, m as int, 2 * m * m);
        lemma_mul_small(px as int, v as int, m as int, 2 * m * m);
        lemma_mul_small(qx as int, u as int, m as int, 2 * m * m);
    }
    let zx = qy * u - py * v;
    let zy = px * v - qx * u;
    let ax = a.0 as i128;
    let ay = a.1 as i128;
    let (den, sx, sy) = if w > 0 {
        (2 * w, zx, zy)
    } else {
        (-2 * w, -zx, -zy)
    };
    proof {
        lemma_mul_small(ax as int, den as int, 0x10_0000, 4 * m * m);
        lemma_mul_small(ay as int, den as int, 0x10_0000, 4 * m * m);
    }
    let center = RatPoint::new(sx + ax * den, sy + ay * den, den);
    proof {
        lemma_bisectors(px as int, py as int, qx as int, qy as int, u as int, v as int);
        let ctr = center;
        assert(ctr == circum_center(*a, *b, *c));
        // b and c lie on the circle through a
        if w > 0 {
            assert(2 * (px * sx + py * sy) == den * u) by (nonlinear_arith)
                requires px * sx + py * sy == u * w, den == 2 * w;
            assert(2 * (qx * sx + qy * sy) == den * v) by (nonlinear_arith)
                requires qx * sx + qy * sy == v * w, den == 2 * w;
        } else {
            assert(px * sx + py * sy == -(px * zx + py * zy)) by (nonlinear_arith)
                requires sx == -zx, sy == -zy;
            assert(qx * sx + qy * sy == -(qx * zx + qy * zy)) by (nonlinear_arith)
                requires sx == -zx, sy == -zy;
            assert(2 * (px * sx + py * sy) == den * u) by (nonlinear_arith)
                requires px * sx + py * sy == -(u * w), den == -2 * w;
            assert(2 * (qx * sx + qy * sy) == den * v) by (nonlinear_arith)
                requires qx * sx + qy * sy == -(v * w), den == -2 * w;
        }
        lemma_on_circle(px as int, py as int, sx as int, sy as int, den as int);
        lemma_on_circle(qx as int, qy as int, sx as int, sy as int, den as int);
        assert((-sx) * (-sx) == sx * sx) by (nonlinear_arith);
        assert((-sy) * (-sy) == sy * sy) by (nonlinear_arith);
        assert(b.0 * den - ctr.x == px * den - sx) by (nonlinear_arith)
            requires ctr.x == sx + a.0 * den, px == b.0 - a.0;
        assert(b.1 * den - ctr.y == py * den - sy) by (nonlinear_arith)
            requires ctr.y == sy + a.1 * den, py == b.1 - a.1;
        assert(c.0 * den - ctr.x == qx * den - sx) by (nonlinear_arith)
            requires ctr.x == sx + a.0 * den, qx == c.0 - a.0;
        assert(c.1 * den - ctr.y == qy * den - sy) by (nonlinear_arith)
            requires ctr.y == sy + a.1 * den, qy == c.1 - a.1;
        assert(a.0 * den - ctr.x == -sx);
        assert(a.1 * den - ctr.y == -sy);
    }
    Disk::new(center, *a)
}

/// Thales: `c` is in the disk with diameter `ab` exactly when the angle at `c`
/// is not acute.
proof fn lemma_thales(a: (i64, i64), b: (i64, i64), c: (i64, i64))
    ensures
        in_disk(pair_center(a, b), a, c) <==> (c.0 - a.0) * (c.0 - b.0) + (c.1 - a.1) * (c.1 - b.1)
            <= 0,
{
    let pc = pair_center(a, b);
    let x0 = c.0 - a.0;
    let y0 = c.0 - b.0;
    let x1 = c.1 - a.1;
    let y1 = c.1 - b.1;
    assert(c.0 * 2 - (a.0 + b.0) == x0 + y0);
    assert(c.1 * 2 - (a.1 + b.1) == x1 + y1);
    assert(a.0 * 2 - (a.0 + b.0) == y0 - x0);
    assert(a.1 * 2 - (a.1 + b.1) == y1 - x1);
    assert((x0 + y0) * (x0 + y0) - (y0 - x0) * (y0 - x0) == 4 * (x0 * y0)) by (nonlinear_arith);
    assert((x1 + y1) * (x1 + y1) - (y1 - x1) * (y1 - x1) == 4 * (x1 * y1)) by (nonlinear_arith);
}

/// Lagrange's identity in the plane.
proof fn lemma_lagrange(p0: int, p1: int, q0: int, q1: int)
    ensures
        (p0 * q0 + p1 * q1) * (p0 * q0 + p1 * q1) + (p0 * q1 - p1 * q0) * (p0 * q1 - p1 * q0) == (p0
            * p0 + p1 * p1) * (q0 * q0 + q1 * q1),
{
    let s = p0 * q0;
    let t = p1 * q1;
    let e = p0 * q1;
    let f = p1 * q0;
    assert((s + t) * (s + t) + (e - f) * (e - f) == s * s + t * t + e * e + f * f + 2 * (s * t) - 2
        * (e * f)) by (nonlinear_arith);
    assert(s * t == e * f) by (nonlinear_arith)
        requires
            s == p0 * q0,
            t == p1 * q1,
            e == p0 * q1,
            f == p1 * q0,
    ;
    lemma_expand_product(p0 * p0, p1 * p1, q0 * q0, q1 * q1);
    assert((p0 * p0) * (q0 * q0) == s * s) by (nonlinear_arith)
        requires
            s == p0 * q0,
    ;
    assert((p0 * p0) * (q1 * q1) == e * e) by (nonlinear_arith)
        requires
            e == p0 * q1,
    ;
    assert((p1 * p1) * (q0 * q0) == f * f) by (nonlinear_arith)
        requires
            f == p1 * q0,
    ;
    assert((p1 * p1) * (q1 * q1) == t * t) by (nonlinear_arith)
        requires
            t == p1 * q1,
    ;
}

proof fn lemma_expand_product(a: int, b: int, c: int, d: int)
    ensures
        (a + b) * (c + d) == a * c + a * d + b * c + b * d,
{
    assert((a + b) * (c + d) == a * c + a * d + b * c + b * d) by (nonlinear_arith);
}

/// Of three collinear points, one lies in the disk whose diameter joins the
/// other two.
proof fn lemma_collinear_pair(a: (i64, i64), b: (i64, i64), c: (i64, i64))
    requires
        wedge(a, b, c) == 0,
    ensures
        in_disk(pair_center(a, b), a, c) || in_disk(pair_center(a, c), a, b) || in_disk(
            pair_center(b, c),
            b,
            a,
        ),
{
    lemma_thales(a, b, c);
    lemma_thales(a, c, b);
    lemma_thales(b, c, a);
    let p0 = b.0 - a.0;
    let p1 = b.1 - a.1;
    let q0 = c.0 - a.0;
    let q1 = c.1 - a.1;
    lemma_lagrange(p0, p1, q0, q1);
    let pq = p0 * q0 + p1 * q1;
    let pp = p0 * p0 + p1 * p1;
    let qq = q0 * q0 + q1 * q1;
    assert((c.0 - a.0) * (c.0 - b.0) + (c.1 - a.1) * (c.1 - b.1) == qq - pq) by (nonlinear_arith)
        requires
            p0 == b.0 - a.0,
            p1 == b.1 - a.1,
            q0 == c.0 - a.0,
            q1 == c.1 - a.1,
            pq == p0 * q0 + p1 * q1,
            qq == q0 * q0 + q1 * q1,
    ;
    assert((b.0 - a.0) * (b.0 - c.0) + (b.1 - a.1) * (b.1 - c.1) == pp - pq) by (nonlinear_arith)
        requires
            p0 == b.0 - a.0,
            p1 == b.1 - a.1,
            q0 == c.0 - a.0,
            q1 == c.1 - a.1,
            pq == p0 * q0 + p1 * q1,
            pp == p0 * p0 + p1 * p1,
    ;
    assert((a.0 - b.0) * (a.0 - c.0) + (a.1 - b.1) * (a.1 - c.1) == pq) by (nonlinear_arith)
        requires
            p0 == b.0 - a.0,
            p1 == b.1 - a.1,
            q0 == c.0 - a.0,
            q1 == c.1 - a.1,
            pq == p0 * q0 + p1 * q1,
    ;
    assert(p0 * q1 - p1 * q0 == 0);
    if pq > 0 && qq - pq > 0 && pp - pq > 0 {
        assert(pp * qq > pq * pq) by (nonlinear_arith)
            requires
                pq > 0,
                qq > pq,
                pp > pq,
        ;
        assert(false);
    }
}

/// The disk `trivial_disk` chooses for at most three boundary points: one point
/// alone, the diameter disk of two, and for three the circumcircle, or, when
/// they are collinear, the first diameter disk (in the order `01`, `02`, `12`)
/// that holds all of them.
pub open spec fn trivial_choice(s: Seq<(i64, i64)>) -> (RatPoint, (i64, i64)) {
    if s.len() == 1 {
        (point_disk(s[0]), s[0])
    } else if s.len() == 2 {
        (pair_center(s[0], s[1]), s[0])
    } else if wedge(s[0], s[1], s[2]) != 0 {
        (circum_center(s[0], s[1], s[2]), s[0])
    } else if pair_holds_all(s[0], s[1], s) {
        (pair_center(s[0], s[1]), s[0])
    } else if pair_holds_all(s[0], s[2], s) {
        (pair_center(s[0], s[2]), s[0])
    } else {
        (pair_center(s[1], s[2]), s[1])
    }
}

/// Centre and rim point of a disk, if there is one.
pub open spec fn disk_model(r: Option<Disk>) -> Option<(RatPoint, (i64, i64))> {
    match r {
        Some(d) => Some((d.spec_center(), d.spec_rim())),
        None => None,
    }
}

/// The disk that `smallest_disk` returns: its centre and a point on its rim.
pub open spec fn welzl(pts: Seq<(i64, i64)>, boundary: Seq<(i64, i64)>, len: nat) -> Option<
    (RatPoint, (i64, i64)),
>
    decreases len,
{
    if len == 0 || boundary.len() >= 3 || len > pts.len() {
        if boundary.len() == 0 {
            None
        } else {
            Some(trivial_choice(boundary))
        }
    } else {
        let p = pts[len - 1];
        match welzl(pts, boundary, (len - 1) as nat) {
            Some(d) if in_disk(d.0, d.1, p) => Some(d),
            _ => welzl(pts, boundary.push(p), (len - 1) as nat),
        }
    }
}

/// Does `disk` hold every point of `boundary`?
fn is_valid(disk: &Disk, boundary: &Vec<(i64, i64)>) -> (r: bool)
    requires
        disk.wf(),
        pts_ok(boundary@),
    ensures
        r == forall|i: int| 0 <= i < boundary.len() ==> #[trigger] disk.has(boundary@[i]),
{
    for i in 0..boundary.len()
        invariant
            disk.wf(),
            pts_ok(boundary@),
            forall|k: int| 0 <= k < i ==> #[trigger] disk.has(boundary@[k]),
    {
        if !disk.contains_point(&boundary[i]) {
            return false;
        }
    }
    true
}

proof fn lemma_pair_valid(d: Disk, a: (i64, i64), b: (i64, i64), s: Seq<(i64, i64)>)
    requires
        d.spec_center() == pair_center(a, b),
        d.spec_rim() == a,
    ensures
        pair_holds_all(a, b, s) <==> forall|i: int| 0 <= i < s.len() ==> #[trigger] d.has(s[i]),
{
    if pair_holds_all(a, b, s) {
        assert forall|i: int| 0 <= i < s.len() implies #[trigger] d.has(s[i]) by {
            assert(in_disk(pair_center(a, b), a, s[i]));
        }
    }
    if forall|i: int| 0 <= i < s.len() ==> #[trigger] d.has(s[i]) {
        assert forall|i: int| 0 <= i < s.len() implies #[trigger] in_disk(pair_center(a, b), a, s[i]) by {
            assert(d.has(s[i]));
        }
    }
}

/// The smallest disk through the (at most three) points of `boundary`.
fn trivial_disk(boundary: &Vec<(i64, i64)>) -> (r: Option<Disk>)
    requires
        boundary.len() <= 3,
        pts_ok(boundary@),
    ensures
        r is None <==> boundary.len() == 0,
        r matches Some(d) ==> {
            &&& d.wf()
            &&& (d.spec_center(), d.spec_rim()) == trivial_choice(boundary@)
            &&& forall|i: int| 0 <= i < boundary.len() ==> #[trigger] d.has(boundary@[i])
        },
{
    if boundary.len() == 0 {
        return None;
    }
    if boundary.len() == 1 {
        return Some(trivial_point(&boundary[0]));
    }
    if boundary.len() == 2 {
        let d = trivial_pair(&boundary[0], &boundary[1]);
        proof {
            assert forall|i: int| 0 <= i < boundary.len() implies #[trigger] d.has(boundary@[i]) by {
                assert(i == 0 || i == 1);
            }
        }
        return Some(d);
    }
    let a = &boundary[0];
    let b = &boundary[1];
    let c = &boundary[2];
    let ghost s = boundary@;
    proof {
        assert(pt_ok(boundary@[0]) && pt_ok(boundary@[1]) && pt_ok(boundary@[2]));
    }
    if !collinear(a, b, c) {
        let d = trivial_triple(a, b, c);
        proof {
            assert forall|i: int| 0 <= i < boundary.len() implies #[trigger] d.has(boundary@[i]) by {
                assert(i == 0 || i == 1 || i == 2);
            }
        }
        return Some(d);
    }
    let d01 = trivial_pair(a, b);
    let v01 = is_valid(&d01, boundary);
    proof {
        lemma_pair_valid(d01, *a, *b, s);
    }
    if v01 {
        return Some(d01);
    }
    let d02 = trivial_pair(a, c);
    let v02 = is_valid(&d02, boundary);
    proof {
        lemma_pair_valid(d02, *a, *c, s);
    }
    if v02 {
        return Some(d02);
    }
    let d12 = trivial_pair(b, c);
    proof {
        lemma_pair_valid(d12, *b, *c, s);
        lemma_collinear_pair(*a, *b, *c);
        assert(d01.has(*a) && d01.has(*b));
        assert(d02.has(*a) && d02.has(*c));
        assert(d12.has(*b) && d12.has(*c));
        assert(!d01.has(boundary@[0]) || !d01.has(boundary@[1]) || !d01.has(boundary@[2]));
        assert(!d02.has(boundary@[0]) || !d02.has(boundary@[1]) || !d02.has(boundary@[2]));
        assert forall|i: int| 0 <= i < boundary.len() implies #[trigger] d12.has(boundary@[i]) by {
            assert(i == 0 || i == 1 || i == 2);
        }
    }
    Some(d12)
}

/// Are `a`, `b` and `c` on one line?
fn collinear(a: &(i64, i64), b: &(i64, i64), c: &(i64, i64)) -> (r: bool)
    requires
        pt_ok(*a),
        pt_ok(*b),
        pt_ok(*c),
    ensures
        r == (wedge(*a, *b, *c) == 0),
{
    let px = b.0 as i128 - a.0 as i128;
    let py = b.1 as i128 - a.1 as i128;
    let qx = c.0 as i128 - a.0 as i128;
    let qy = c.1 as i128 - a.1 as i128;
    proof {
        lemma_mul_small(px as int, qy as int, 0x20_0000, 0x20_0000);
        lemma_mul_small(py as int, qx as int, 0x20_0000, 0x20_0000);
    }
    px * qy - py * qx == 0
}

/// A copy of the points of `v`.
pub(crate) fn copy_points(v: &Vec<(i64, i64)>) -> (r: Vec<(i64, i64)>)
    ensures
        r@ == v@,
{
    let mut r: Vec<(i64, i64)> = Vec::new();
    for i in 0..v.len()
        invariant
            r@ == v@.subrange(0, i as int),
    {
        r.push(v[i]);
    }
    assert(r@ =~= v@);
    r
}

/// The smallest enclosing disk of the first `len` points of `enclosing`, whose
/// boundary passes through every point of `boundary` (Welzl's recursion; start
/// with `boundary` empty). `None` only when there is no point at all.
///
/// Each point that is not in the disk of the others joins `boundary`, and the
/// recursion stops as soon as `boundary` holds three points.
pub fn smallest_disk(enclosing: &Vec<(i64, i64)>, boundary: &mut Vec<(i64, i64)>, len: usize) -> (r:
    Option<Disk>)
    requires
        len <= enclosing.len(),
        old(boundary).len() <= 3,
        pts_ok(enclosing@),
        pts_ok(old(boundary)@),
    ensures
        r is None <==> (len == 0 && old(boundary).len() == 0),
        disk_model(r) == welzl(enclosing@, old(boundary)@, len as nat),
        r matches Some(d) ==> {
            &&& d.wf()
            &&& forall|i: int| 0 <= i < old(boundary).len() ==> #[trigger] d.has(old(boundary)@[i])
        },
        old(boundary).len() <= final(boundary).len() <= 3,
        pts_ok(final(boundary)@),
        final(boundary)@.subrange(0, old(boundary).len() as int) == old(boundary)@,
    decreases len,
{
    if len == 0 || boundary.len() == 3 {
        proof {
            assert(boundary@.subrange(0, boundary.len() as int) =~= boundary@);
        }
        return trivial_disk(boundary);
    }
    let p = enclosing[len - 1];
    let ghost b0 = boundary@;
    let mut others = copy_points(boundary);
    if let Some(d) = smallest_disk(enclosing, &mut others, len - 1) {
        if d.contains_point(&p) {
            proof {
                assert(boundary@.subrange(0, boundary.len() as int) =~= boundary@);
            }
            return Some(d);
        }
    }
    boundary.push(p);
    let r = smallest_disk(enclosing, boundary, len - 1);
    proof {
        assert forall|i: int| 0 <= i < b0.len() implies boundary@[i] == b0[i] by {
            assert(boundary@.subrange(0, b0.len() as int + 1)[i] == b0.push(p)[i]);
        }
        assert(boundary@.subrange(0, b0.len() as int) =~= b0);
        if let Some(d) = r {
            assert forall|i: int| 0 <= i < b0.len() implies #[trigger] d.has(b0[i]) by {
                assert(b0.push(p)[i] == b0[i]);
            }
        }
    }
    r
}

} // verus!
