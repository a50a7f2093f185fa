//! Faces as polygons: the even-odd containment test, the area centroid and the
//! centre of the smallest enclosing disk.
use vstd::prelude::*;
use crate::geometry::{RatPoint, pt_ok, pts_ok, lemma_mul_small, MAX_CYCLE, rep_bound, rep_den_bound};
use crate::line::{Line, lines_overlap};
use crate::disk::{smallest_disk, welzl};

verus! {

/// Direction and contact point of the line that `Line::from_points(a, b)` builds.
pub open spec fn line_through(a: (i64, i64), b: (i64, i64)) -> (int, int) {
    if a.0 <= b.0 {
        (b.0 - a.0, b.1 - a.1)
    } else {
        (a.0 - b.0, a.1 - b.1)
    }
}

/// Are `a`, `mid` and `b` on one line, as the simplification step sees it?
pub open spec fn collinear_step(a: (i64, i64), mid: (i64, i64), b: (i64, i64)) -> bool {
    let l1 = line_through(a, mid);
    let l2 = line_through(mid, b);
    lines_overlap(l1.0, l1.1, a, l2.0, l2.1, mid)
}

/// The boundary after the simplification step: walking the vertices in order,
/// a vertex that lies on the line through the two kept before it replaces the
/// second of them.
pub open spec fn simplified(s: Seq<(i64, i64)>) -> Seq<(i64, i64)>
    decreases s.len(),
{
    if s.len() == 0 {
        s
    } else {
        let r = simplified(s.drop_last());
        let v = s.last();
        if r.len() >= 2 && collinear_step(r[r.len() - 2], r[r.len() - 1], v) {
            r.drop_last().push(v)
        } else {
            r.push(v)
        }
    }
}

/// Index of the vertex after `i` along the boundary.
pub open spec fn succ(n: int, i: int) -> int {
    if i + 1 == n {
        0
    } else {
        i + 1
    }
}

/// Does the edge `ab` cross the horizontal ray from `p` toward larger x?
pub open spec fn crosses(a: (i64, i64), b: (i64, i64), p: RatPoint) -> bool {
    let a_above = a.1 * p.den > p.y;
    let b_above = b.1 * p.den > p.y;
    let lhs = (p.x - a.0 * p.den) * (b.1 - a.1);
    let rhs = (b.0 - a.0) * (p.y - a.1 * p.den);
    a_above != b_above && (if b.1 - a.1 > 0 {
        lhs < rhs
    } else {
        lhs > rhs
    })
}

/// Number of the first `k` edges of the boundary `s` that the ray from `p` crosses.
pub open spec fn crossings(s: Seq<(i64, i64)>, p: RatPoint, k: int) -> int
    decreases k,
{
    if k <= 0 {
        0
    } else {
        crossings(s, p, k - 1) + (if crosses(s[k - 1], s[succ(s.len() as int, k - 1)], p) {
            1int
        } else {
            0int
        })
    }
}

/// Even-odd rule: `p` is inside when the ray from it crosses the boundary an odd
/// number of times.
pub open spec fn inside(s: Seq<(i64, i64)>, p: RatPoint) -> bool {
    crossings(s, p, s.len() as int) % 2 == 1
}

/// Cross product of the `i`-th edge's endpoints: twice the signed area of the
/// triangle it spans with the origin.
pub open spec fn edge_cross(s: Seq<(i64, i64)>, i: int) -> int {
    let a = s[i];
    let b = s[succ(s.len() as int, i)];
    a.0 * b.1 - b.0 * a.1
}

/// Twice the signed area of the first `k` triangles of the fan from the origin.
pub open spec fn area2(s: Seq<(i64, i64)>, k: int) -> int
    decreases k,
{
    if k <= 0 {
        0
    } else {
        area2(s, k - 1) + edge_cross(s, k - 1)
    }
}

/// Six times the first moment about the y-axis of the first `k` fan triangles.
pub open spec fn moment_x(s: Seq<(i64, i64)>, k: int) -> int
    decreases k,
{
    if k <= 0 {
        0
    } else {
        moment_x(s, k - 1) + (s[k - 1].0 + s[succ(s.len() as int, k - 1)].0) * edge_cross(s, k - 1)
    }
}

/// Six times the first moment about the x-axis of the first `k` fan triangles.
pub open spec fn moment_y(s: Seq<(i64, i64)>, k: int) -> int
    decreases k,
{
    if k <= 0 {
        0
    } else {
        moment_y(s, k - 1) + (s[k - 1].1 + s[succ(s.len() as int, k - 1)].1) * edge_cross(s, k - 1)
    }
}

/// The area centroid of the boundary `s`, or `None` for fewer than three
/// vertices or a zero signed area.
pub open spec fn centroid_of(s: Seq<(i64, i64)>) -> Option<RatPoint> {
    let n = s.len() as int;
    let a = area2(s, n);
    if n < 3 || a == 0 {
        None
    } else if a > 0 {
        Some(RatPoint { x: moment_x(s, n) as i128, y: moment_y(s, n) as i128, den: (3 * a) as i128 })
    } else {
        Some(RatPoint { x: (-moment_x(s, n)) as i128, y: (-moment_y(s, n)) as i128, den: (-3 * a) as i128 })
    }
}

/// A face of the subdivision: a closed boundary through lattice points.
pub struct Polygon {
    vertices: Vec<(i64, i64)>,
}

impl View for Polygon {
    type V = Seq<(i64, i64)>;

    closed spec fn view(&self) -> Seq<(i64, i64)> {
        self.vertices@
    }
}

impl Polygon {
    /// Vertices within `COORD_MAX`, at most `MAX_CYCLE` of them.
    pub open spec fn wf(&self) -> bool {
        pts_ok(self@) && self@.len() <= MAX_CYCLE
    }

    /// The polygon with the given boundary, simplified.
    pub fn new(vertices: Vec<(i64, i64)>) -> (r: Polygon)
        requires
            pts_ok(vertices@),
            vertices.len() <= MAX_CYCLE,
        ensures
            r.wf(),
            r@ == simplified(vertices@),
    {
        let simplified = Polygon::simplify(vertices);
        Polygon { vertices: simplified }
    }

    /// Removes, along the boundary, each vertex that is collinear with its kept
    /// neighbours.
    fn simplify(vertices: Vec<(i64, i64)>) -> (r: Vec<(i64, i64)>)
        requires
            pts_ok(vertices@),
        ensures
            r@ == simplified(vertices@),
            pts_ok(r@),
            r.len() <= vertices.len(),
    {
        let mut kept: Vec<(i64, i64)> = Vec::new();
        for i in 0..vertices.len()
            invariant
                pts_ok(vertices@),
                kept@ == simplified(vertices@.subrange(0, i as int)),
                pts_ok(kept@),
                kept.len() <= i,
        {
            let ghost pre = vertices@.subrange(0, i as int);
            proof {
                let cur = vertices@.subrange(0, i + 1);
                assert(cur.drop_last() =~= pre);
                assert(cur.last() == vertices@[i as int]);
                assert(pt_ok(vertices@[i as int]));
            }
            if kept.len() < 2 {
                kept.push(vertices[i]);
            } else {
                let a = kept[kept.len() - 2];
                let mid = kept[kept.len() - 1];
                let b = vertices[i];
                let l1 = Line::from_points(&a, &mid);
                let l2 = Line::from_points(&mid, &b);
                if l1.is_overlapping_with(&l2) {
                    kept.pop();
                }
                kept.push(vertices[i]);
            }
            proof {
                assert(pts_ok(kept@)) by {
                    assert forall|k: int| 0 <= k < kept@.len() implies #[trigger] pt_ok(kept@[k]) by {
                        if k < kept@.len() - 1 {
                            assert(kept@[k] == simplified(pre)[k]);
                        }
                    }
                }
            }
        }
        proof {
            assert(vertices@.subrange(0, vertices.len() as int) =~= vertices@);
        }
        kept
    }

    /// The vertices of the boundary, in order.
    pub fn vertices(&self) -> (r: &Vec<(i64, i64)>)
        ensures
            r@ == self@,
    {
        &self.vertices
    }

    /// Does `self` contain `point` (even-odd rule)?
    pub fn contains(&self, point: &RatPoint) -> (r: bool)
        requires
            self.wf(),
            point.wf(),
        ensures
            r == inside(self@, *point),
    {
        let n = self.vertices.len();
        let mut odd = false;
        let px = point.x;
        let py = point.y;
        let d = point.den;
        for i in 0..n
            invariant
                n == self@.len(),
                self.wf(),
                point.wf(),
                px == point.x && py == point.y && d == point.den,
                odd == (crossings(self@, *point, i as int) % 2 == 1),
        {
            let j = if i + 1 == n { 0 } else { i + 1 };
            let a = self.vertices[i];
            let b = self.vertices[j];
            proof {
                assert(pt_ok(self@[i as int]) && pt_ok(self@[j as int]));
                lemma_mul_small(a.1 as int, d as int, 0x10_0000, rep_den_bound());
                lemma_mul_small(a.0 as int, d as int, 0x10_0000, rep_den_bound());
                lemma_mul_small(b.1 as int, d as int, 0x10_0000, rep_den_bound());
            }
            let ay = a.1 as i128 * d;
            let by = b.1 as i128 * d;
            let ax = a.0 as i128 * d;
            let a_above = ay > py;
            let b_above = by > py;
            let mut hit = false;
            if a_above != b_above {
                let dy = b.1 as i128 - a.1 as i128;
                let dx = b.0 as i128 - a.0 as i128;
                proof {
                    lemma_mul_small((px - ax) as int, dy as int, 4 * rep_bound(), 0x20_0000);
                    lemma_mul_small(dx as int, (py - ay) as int, 0x20_0000, 4 * rep_bound());
                }
                let lhs = (px - ax) * dy;
                let rhs = dx * (py - ay);
                hit = if dy > 0 { lhs < rhs } else { lhs > rhs };
            }
            proof {
                assert(hit == crosses(self@[i as int], self@[succ(n as int, i as int)], *point));
            }
            if hit {
                odd = !odd;
            }
        }
        odd
    }

    /// The area centroid; `None` for fewer than three vertices or a zero
    /// signed area.
    pub fn centroid(&self) -> (r: Option<RatPoint>)
        requires
            self.wf(),
        ensures
            r == centroid_of(self@),
            r matches Some(c) ==> c.wf(),
            r matches Some(c) ==> {
                let n = self@.len() as int;
                let a = area2(self@, n);
                &&& a > 0 ==> c.x == moment_x(self@, n) && c.y == moment_y(self@, n) && c.den == 3 * a
                &&& a < 0 ==> c.x == -moment_x(self@, n) && c.y == -moment_y(self@, n) && c.den == -3 * a
            },
    {
        let n = self.vertices.len();
        let mut area: i128 = 0;
        let mut mx: i128 = 0;
        let mut my: i128 = 0;
        let cb: i128 = 0x200_0000_0000;
        let mb: i128 = 0x4000_0000_0000_0000;
        for i in 0..n
            invariant
                n == self@.len(),
                self.wf(),
                cb == 0x200_0000_0000,
                mb == 0x4000_0000_0000_0000,
                area == area2(self@, i as int),
                mx == moment_x(self@, i as int),
                my == moment_y(self@, i as int),
                -(i * cb) <= area <= i * cb,
                -(i * mb) <= mx <= i * mb,
                -(i * mb) <= my <= i * mb,
        {
            let j = if i + 1 == n { 0 } else { i + 1 };
            let a = self.vertices[i];
            let b = self.vertices[j];
            proof {
                assert(pt_ok(self@[i as int]) && pt_ok(self@[j as int]));
                lemma_mul_small(a.0 as int, b.1 as int, 0x10_0000, 0x10_0000);
                lemma_mul_small(b.0 as int, a.1 as int, 0x10_0000, 0x10_0000);
            }
            let c = a.0 as i128 * b.1 as i128 - b.0 as i128 * a.1 as i128;
            proof {
                lemma_mul_small((a.0 + b.0) as int, c as int, 0x20_0000, cb as int);
                lemma_mul_small((a.1 + b.1) as int, c as int, 0x20_0000, cb as int);
                assert((i + 1) * cb == i * cb + cb) by (nonlinear_arith);
                assert((i + 1) * mb == i * mb + mb) by (nonlinear_arith);
                lemma_mul_small(i as int, cb as int, MAX_CYCLE as int, cb as int);
                lemma_mul_small(i as int, mb as int, MAX_CYCLE as int, mb as int);
            }
            area = area + c;
            mx = mx + (a.0 as i128 + b.0 as i128) * c;
            my = my + (a.1 as i128 + b.1 as i128) * c;
        }
        if n < 3 || area == 0 {
            return None;
        }
        proof {
            lemma_mul_small(n as int, cb as int, MAX_CYCLE as int, cb as int);
            lemma_mul_small(n as int, mb as int, MAX_CYCLE as int, mb as int);
        }
        if area > 0 {
            Some(RatPoint::new(mx, my, 3 * area))
        } else {
            Some(RatPoint::new(-mx, -my, -3 * area))
        }
    }

    /// The centre of the smallest disk that encloses the vertices; `None` only
    /// for a polygon without vertices.
    pub fn smallest_disk_centroid(&self) -> (r: Option<RatPoint>)
        requires
            self.wf(),
        ensures
            r is None <==> self@.len() == 0,
            r matches Some(c) ==> c.wf() && (welzl(self@, Seq::empty(), self@.len()) matches Some(d)
                && d.0 == c),
    {
        let mut boundary: Vec<(i64, i64)> = Vec::new();
        proof {
            assert(boundary@ =~= Seq::<(i64, i64)>::empty());
        }
        match smallest_disk(&self.vertices, &mut boundary, self.vertices.len()) {
            Some(disk) => Some(disk.centroid()),
            None => None,
        }
    }
}

} // verus!
