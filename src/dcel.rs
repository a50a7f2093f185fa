//! Doubly connected edge list: the planar subdivision of a straight-line graph.
use vstd::prelude::*;
use std::collections::HashMap;
use crate::geometry::{COORD_MAX, MAX_CYCLE, pts_ok};
use crate::polygon::{Polygon, simplified};
use crate::disk::copy_points;

verus! {

broadcast use vstd::std_specs::hash::group_hash_axioms;

/// Index that refers to nothing.
pub const NIL: usize = usize::MAX;

/// A coordinate of a subdivision vertex: within `COORD_MAX`.
pub open spec fn grid_ok(c: (i32, i32)) -> bool {
    -COORD_MAX <= c.0 <= COORD_MAX && -COORD_MAX <= c.1 <= COORD_MAX
}

/// The key under which the vertex at `c` is found.
pub open spec fn grid_key(c: (i32, i32)) -> u64 {
    ((c.0 + 0x8000_0000) * 0x1_0000_0000 + (c.1 + 0x8000_0000)) as u64
}

proof fn lemma_grid_key(a: (i32, i32), b: (i32, i32))
    ensures
        0 <= (a.0 + 0x8000_0000) * 0x1_0000_0000 + (a.1 + 0x8000_0000) <= u64::MAX,
        grid_key(a) == grid_key(b) ==> a == b,
{
    let xa = a.0 + 0x8000_0000;
    let ya = a.1 + 0x8000_0000;
    let xb = b.0 + 0x8000_0000;
    let yb = b.1 + 0x8000_0000;
    assert(0 <= xa * 0x1_0000_0000 + ya <= u64::MAX) by (nonlinear_arith)
        requires
            0 <= xa < 0x1_0000_0000,
            0 <= ya < 0x1_0000_0000,
    ;
    assert(0 <= xb * 0x1_0000_0000 + yb <= u64::MAX) by (nonlinear_arith)
        requires
            0 <= xb < 0x1_0000_0000,
            0 <= yb < 0x1_0000_0000,
    ;
    if xa * 0x1_0000_0000 + ya == xb * 0x1_0000_0000 + yb {
        assert(xa == xb) by (nonlinear_arith)
            requires
                xa * 0x1_0000_0000 + ya == xb * 0x1_0000_0000 + yb,
                0 <= ya < 0x1_0000_0000,
                0 <= yb < 0x1_0000_0000,
        ;
    }
}

fn key_of(c: &(i32, i32)) -> (r: u64)
    ensures
        r == grid_key(*c),
{
    proof {
        lemma_grid_key(*c, *c);
    }
    ((c.0 as i64 + 0x8000_0000) as u64) * 0x1_0000_0000 + ((c.1 as i64 + 0x8000_0000) as u64)
}

/// A vertex of a DCEL.
#[derive(Clone, Copy, Debug)]
pub struct Vertex {
    /// (x, y) coordinates
    coordinates: (i32, i32),
    /// Some halfedge having this vertex as the origin
    incident_edge: usize,
    /// False if the vertex has been deleted
    alive: bool,
}

impl Vertex {
    pub closed spec fn spec_coordinates(&self) -> (i32, i32) {
        self.coordinates
    }

    pub closed spec fn spec_incident_edge(&self) -> usize {
        self.incident_edge
    }

    pub closed spec fn spec_alive(&self) -> bool {
        self.alive
    }

    /// The coordinates of the vertex.
    pub fn coordinates(&self) -> (r: (i32, i32))
        ensures
            r == self.spec_coordinates(),
    {
        self.coordinates
    }
}

/// A halfedge of a DCEL.
#[derive(Clone, Copy, Debug)]
pub struct HalfEdge {
    /// The index of the vertex at the start of the halfedge
    pub origin: usize,
    /// The index of the twin halfedge
    pub twin: usize,
    /// The index of the next halfedge
    pub next: usize,
    /// The index of the face to the halfedge's side
    pub face: usize,
    /// The index of the previous halfedge
    pub prev: usize,
    /// False if the halfedge has been deleted
    pub alive: bool,
}

impl HalfEdge {
    /// An alive halfedge whose only link is its twin.
    pub open spec fn fresh(&self, twin: usize) -> bool {
        self.origin == NIL && self.twin == twin && self.next == NIL && self.face == NIL
            && self.prev == NIL && self.alive
    }

    /// An alive halfedge that refers to nothing yet.
    pub fn new() -> (r: Self)
        ensures
            r.origin == NIL && r.twin == NIL && r.next == NIL,
            r.face == NIL && r.prev == NIL,
            r.alive,
    {
        HalfEdge { origin: NIL, twin: NIL, next: NIL, face: NIL, prev: NIL, alive: true }
    }
}

/// A face of a DCEL.
#[derive(Clone, Copy, Debug)]
pub struct Face {
    outer_component: usize,
    alive: bool,
}

impl Face {
    pub closed spec fn spec_outer_component(&self) -> usize {
        self.outer_component
    }

    pub closed spec fn spec_alive(&self) -> bool {
        self.alive
    }

    /// The face that `new(edge)` makes.
    pub closed spec fn new_spec(edge: usize) -> Face {
        Face { outer_component: edge, alive: true }
    }

    /// An alive face bounded by the cycle through halfedge `edge`.
    pub fn new(edge: usize) -> (r: Self)
        ensures
            r == Face::new_spec(edge),
            r.spec_outer_component() == edge,
            r.spec_alive(),
    {
        Face { outer_component: edge, alive: true }
    }
}

/// Doubly connected edge list representation of a subdivision of the plane.
pub struct DCEL {
    vertices: Vec<Vertex>,
    halfedges: Vec<HalfEdge>,
    faces: Vec<Face>,
    /// The vertex at each coordinate, by `grid_key`
    map: HashMap<u64, usize>,
    /// For each vertex, the halfedges that arrive at it
    adj: Vec<Vec<usize>>,
}

impl DCEL {
    pub closed spec fn nv(&self) -> nat {
        self.vertices@.len()
    }

    pub closed spec fn nh(&self) -> nat {
        self.halfedges@.len()
    }

    pub closed spec fn nf(&self) -> nat {
        self.faces@.len()
    }

    pub closed spec fn vertex(&self, v: int) -> Vertex {
        self.vertices@[v]
    }

    pub closed spec fn he(&self, h: int) -> HalfEdge {
        self.halfedges@[h]
    }

    pub closed spec fn face(&self, f: int) -> Face {
        self.faces@[f]
    }

    /// The halfedges that arrive at vertex `v`, in the order that `build` stitches.
    pub closed spec fn incoming(&self, v: int) -> Seq<usize> {
        self.adj@[v]@
    }

    pub closed spec fn num_lists(&self) -> nat {
        self.adj@.len()
    }

    /// `self` and `other` differ at most in their halfedges.
    pub closed spec fn same_but_halfedges(&self, other: &DCEL) -> bool {
        &&& self.vertices@ == other.vertices@
        &&& self.faces@ == other.faces@
        &&& self.adj@ == other.adj@
        &&& self.map@ == other.map@
    }

    /// The halfedges of `self` begin with those of `other`.
    pub closed spec fn extends_halfedges(&self, other: &DCEL) -> bool {
        &&& self.halfedges@.len() >= other.halfedges@.len()
        &&& self.halfedges@.subrange(0, other.halfedges@.len() as int) == other.halfedges@
    }

    pub closed spec fn index_of(&self) -> Map<u64, usize> {
        self.map@
    }

    pub open spec fn twin_of(&self, h: int) -> int {
        self.he(h).twin as int
    }

    pub open spec fn origin_of(&self, h: int) -> int {
        self.he(h).origin as int
    }

    /// Twins are paired: each halfedge has a twin other than itself, whose twin
    /// it is.
    pub open spec fn twins_ok(&self) -> bool {
        forall|h: int|
            0 <= h < self.nh() ==> {
                &&& 0 <= #[trigger] self.twin_of(h) < self.nh()
                &&& self.twin_of(self.twin_of(h)) == h
                &&& self.twin_of(h) != h
            }
    }

    /// Each halfedge starts at a vertex, and its twin at another one.
    pub open spec fn origins_ok(&self) -> bool {
        forall|h: int|
            0 <= h < self.nh() ==> {
                &&& 0 <= #[trigger] self.origin_of(h) < self.nv()
                &&& self.origin_of(h) != self.origin_of(self.twin_of(h))
            }
    }

    /// The arrival lists: each lists, once, exactly the halfedges arriving at
    /// its vertex, and no vertex is isolated.
    pub open spec fn incoming_ok(&self) -> bool {
        &&& forall|v: int, k: int|
            0 <= v < self.nv() && 0 <= k < self.incoming(v).len() ==> {
                &&& #[trigger] self.incoming(v)[k] < self.nh()
                &&& self.origin_of(self.twin_of(self.incoming(v)[k] as int)) == v
            }
        &&& forall|v: int| 0 <= v < self.nv() ==> #[trigger] self.incoming(v).no_duplicates()
        &&& forall|v: int| 0 <= v < self.nv() ==> #[trigger] self.incoming(v).len() > 0
        &&& forall|h: int|
            0 <= h < self.nh() ==> #[trigger] self.incoming(self.origin_of(h)).contains(
                self.twin_of(h) as usize,
            )
    }

    /// The coordinate index finds each vertex, and only vertices.
    pub open spec fn index_ok(&self) -> bool {
        &&& forall|k: u64|
            #[trigger] self.index_of().contains_key(k) ==> {
                &&& self.index_of()[k] < self.nv()
                &&& grid_key(self.vertex(self.index_of()[k] as int).spec_coordinates()) == k
            }
        &&& forall|v: int|
            0 <= v < self.nv() ==> {
                &&& #[trigger] grid_ok(self.vertex(v).spec_coordinates())
                &&& self.index_of().contains_key(grid_key(self.vertex(v).spec_coordinates()))
                &&& self.index_of()[grid_key(self.vertex(v).spec_coordinates())] == v
            }
    }

    /// Each vertex records a halfedge that leaves it.
    pub open spec fn incident_ok(&self) -> bool {
        forall|v: int|
            0 <= v < self.nv() ==> {
                &&& (#[trigger] self.vertex(v)).spec_incident_edge() < self.nh()
                &&& self.origin_of(self.vertex(v).spec_incident_edge() as int) == v
            }
    }

    /// The invariant of every DCEL.
    pub open spec fn wf(&self) -> bool {
        &&& self.nh() <= MAX_CYCLE
        &&& self.incident_ok()
        &&& self.twins_ok()
        &&& self.origins_ok()
        &&& self.incoming_ok()
        &&& self.index_ok()
        &&& self.num_lists() == self.nv()
    }

    /// Every halfedge has a next and a previous halfedge.
    pub open spec fn linked(&self) -> bool {
        forall|h: int|
            0 <= h < self.nh() ==> (#[trigger] self.he(h)).next < self.nh() && self.he(h).prev
                < self.nh()
    }

    /// Construct an empty DCEL
    pub fn new() -> (r: Self)
        ensures
            r.wf(),
            r.nv() == 0 && r.nh() == 0 && r.nf() == 0,
    {
        DCEL {
            vertices: Vec::new(),
            halfedges: Vec::new(),
            faces: Vec::new(),
            map: HashMap::new(),
            adj: Vec::new(),
        }
    }

    /// Number of vertices.
    pub fn num_vertices(&self) -> (r: usize)
        ensures
            r == self.nv(),
    {
        self.vertices.len()
    }

    /// Number of halfedges.
    pub fn num_halfedges(&self) -> (r: usize)
        ensures
            r == self.nh(),
    {
        self.halfedges.len()
    }

    /// Number of faces.
    pub fn num_faces(&self) -> (r: usize)
        ensures
            r == self.nf(),
    {
        self.faces.len()
    }

    /// The halfedge at `edge`.
    pub fn halfedge(&self, edge: usize) -> (r: HalfEdge)
        requires
            edge < self.nh(),
        ensures
            r == self.he(edge as int),
    {
        self.halfedges[edge]
    }

    /// Add two halfedges that are twins
    pub fn add_twins(&mut self) -> (r: (usize, usize))
        requires
            old(self).nh() + 2 <= MAX_CYCLE,
        ensures
            r.0 == old(self).nh() && r.1 == old(self).nh() + 1,
            final(self).nh() == old(self).nh() + 2,
            final(self).extends_halfedges(old(self)),
            forall|h: int| 0 <= h < old(self).nh() ==> #[trigger] final(self).he(h) == old(self).he(h),
            final(self).nv() == old(self).nv(),
            final(self).nf() == old(self).nf(),
            forall|v: int| 0 <= v < old(self).nv() ==> #[trigger] final(self).vertex(v) == old(self).vertex(v),
            forall|v: int| 0 <= v < old(self).nv() ==> #[trigger] final(self).incoming(v) == old(self).incoming(v),
            final(self).he(r.0 as int).fresh(r.1),
            final(self).he(r.1 as int).fresh(r.0),
            final(self).same_but_halfedges(old(self)),
    {
        let mut he1 = HalfEdge::new();
        let mut he2 = HalfEdge::new();

        let start_index = self.halfedges.len();
        he1.twin = start_index + 1;
        he2.twin = start_index;
        self.halfedges.push(he1);
        self.halfedges.push(he2);
        proof {
            assert(self.halfedges@.subrange(0, start_index as int) =~= old(self).halfedges@);
            assert forall|h: int| 0 <= h < old(self).nh() implies #[trigger] self.he(h) == old(self).he(h) by {
                assert(self.halfedges@.subrange(0, start_index as int)[h] == old(self).halfedges@[h]);
            }
        }
        (start_index, start_index + 1)
    }

    /// `self` has the vertices, faces, coordinate index and halfedge pairing of
    /// `other`; only the links `next` and `prev`, and the arrival lists, may differ.
    pub open spec fn same_shape(&self, other: &DCEL) -> bool {
        &&& self.nh() == other.nh()
        &&& self.nv() == other.nv()
        &&& self.nf() == other.nf()
        &&& self.num_lists() == other.num_lists()
        &&& self.index_of() == other.index_of()
        &&& forall|v: int| 0 <= v < self.nv() ==> #[trigger] self.vertex(v) == other.vertex(v)
        &&& forall|f: int| 0 <= f < self.nf() ==> #[trigger] self.face(f) == other.face(f)
        &&& forall|h: int|
            0 <= h < self.nh() ==> {
                &&& (#[trigger] self.he(h)).twin == other.he(h).twin
                &&& self.he(h).origin == other.he(h).origin
                &&& self.he(h).face == other.he(h).face
                &&& self.he(h).alive == other.he(h).alive
            }
    }

    /// `self` has the vertices, coordinate index and halfedge pairing of `other`.
    pub open spec fn same_frame(&self, other: &DCEL) -> bool {
        &&& self.nh() == other.nh()
        &&& self.nv() == other.nv()
        &&& self.num_lists() == other.num_lists()
        &&& self.index_of() == other.index_of()
        &&& forall|v: int| 0 <= v < self.nv() ==> #[trigger] self.vertex(v) == other.vertex(v)
        &&& forall|h: int|
            0 <= h < self.nh() ==> {
                &&& (#[trigger] self.he(h)).twin == other.he(h).twin
                &&& self.he(h).origin == other.he(h).origin
            }
    }

    /// Direction from vertex `v` to the origin of halfedge `e`.
    pub open spec fn dir(&self, v: int, e: int) -> (int, int) {
        let c = self.vertex(v).spec_coordinates();
        let o = self.vertex(self.origin_of(e)).spec_coordinates();
        ((o.0 - c.0) as int, (o.1 - c.1) as int)
    }

    /// The arrival list of `v` is in counter-clockwise order of direction, and
    /// `next` and `prev` stitch consecutive entries (the last to the first).
    pub open spec fn stitched(&self, v: int) -> bool {
        let s = self.incoming(v);
        &&& forall|k: int| 0 <= k < s.len() - 1 ==> #[trigger] angle_le(self.dir(v, s[k] as int), self.dir(v, s[k + 1] as int))
        &&& forall|k: int|
            0 <= k < s.len() ==> {
                &&& self.he(self.twin_of(#[trigger] s[k] as int)).next == s[next_slot(s.len() as int, k)]
                &&& self.he(s[next_slot(s.len() as int, k)] as int).prev == self.twin_of(s[k] as int)
            }
    }

    /// Sorts the arrival list of `v` counter-clockwise by the direction to the
    /// other end of each halfedge (stable: equal directions keep their order).
    fn sorted_by_angle(&self, v: usize) -> (r: Vec<usize>)
        requires
            self.wf(),
            v < self.nv(),
        ensures
            same_entries(r@, self.incoming(v as int)),
            forall|k: int| 0 <= k < r.len() - 1 ==> #[trigger] angle_le(self.dir(v as int, r@[k] as int), self.dir(v as int, r@[k + 1] as int)),
    {
        let list = &self.adj[v];
        let c = self.vertices[v].coordinates;
        let mut sorted: Vec<usize> = Vec::new();
        for i in 0..list.len()
            invariant
                self.wf(),
                v < self.nv(),
                list@ == self.incoming(v as int),
                c == self.vertex(v as int).spec_coordinates(),
                same_entries(sorted@, list@.subrange(0, i as int)),
                forall|k: int| 0 <= k < sorted.len() ==> #[trigger] sorted@[k] < self.nh(),
                forall|k: int| 0 <= k < sorted.len() - 1 ==> #[trigger] angle_le(self.dir(v as int, sorted@[k] as int), self.dir(v as int, sorted@[k + 1] as int)),
        {
            let e = list[i];
            proof {
                assert(e < self.nh());
                assert(0 <= self.origin_of(e as int) < self.nv());
                assert(grid_ok(self.vertex(self.origin_of(e as int)).spec_coordinates()));
                assert(grid_ok(self.vertex(v as int).spec_coordinates()));
            }
            let o = self.vertices[self.halfedges[e].origin].coordinates;
            let de = (o.0 as i64 - c.0 as i64, o.1 as i64 - c.1 as i64);
            let mut j = sorted.len();
            while j > 0
                invariant
                    self.wf(),
                    v < self.nv(),
                    j <= sorted.len(),
                    forall|k: int| 0 <= k < sorted.len() ==> #[trigger] sorted@[k] < self.nh(),
                    e < self.nh(),
                    (de.0 as int, de.1 as int) == self.dir(v as int, e as int),
                    c == self.vertex(v as int).spec_coordinates(),
                    forall|m: int| j <= m < sorted.len() ==> !angle_le(#[trigger] self.dir(v as int, sorted@[m] as int), self.dir(v as int, e as int)),
                    -0x20_0000 <= de.0 <= 0x20_0000,
                    -0x20_0000 <= de.1 <= 0x20_0000,
                ensures
                    j > 0 ==> angle_le(self.dir(v as int, sorted@[j - 1] as int), self.dir(v as int, e as int)),
                    forall|m: int| j <= m < sorted.len() ==> !angle_le(#[trigger] self.dir(v as int, sorted@[m] as int), self.dir(v as int, e as int)),
                decreases j,
            {
                let u = sorted[j - 1];
                proof {
                    assert(0 <= self.origin_of(u as int) < self.nv());
                    assert(grid_ok(self.vertex(self.origin_of(u as int)).spec_coordinates()));
                    assert(grid_ok(self.vertex(v as int).spec_coordinates()));
                }
                let p = self.vertices[self.halfedges[u].origin].coordinates;
                let du = (p.0 as i64 - c.0 as i64, p.1 as i64 - c.1 as i64);
                if angle_le_exec(du, de) {
                    break;
                }
                j = j - 1;
            }
            let ghost before = sorted@;
            sorted.insert(j, e);
            proof {
                assert forall|k: int| 0 <= k < sorted.len() implies #[trigger] sorted@[k] < self.nh() by {
                    if k < j {
                        assert(sorted@[k] == before[k]);
                    } else if k > j {
                        assert(sorted@[k] == before[k - 1]);
                    }
                }
                lemma_insert_sorted(self, v as int, before, j as int, e);
                assert(list@.subrange(0, i + 1) == list@.subrange(0, i as int).push(e));
                lemma_same_entries_insert(before, list@.subrange(0, i as int), j as int, e);
            }
        }
        proof {
            assert(list@.subrange(0, list.len() as int) =~= list@);
        }
        sorted
    }

    /// Makes `to` the next halfedge of `from`, and `from` the previous one of `to`.
    fn set_link(&mut self, from: usize, to: usize)
        requires
            from < old(self).nh(),
            to < old(self).nh(),
        ensures
            final(self).same_shape(old(self)),
            final(self).adj@ == old(self).adj@,
            final(self).he(from as int).next == to,
            final(self).he(to as int).prev == from,
            forall|h: int| 0 <= h < old(self).nh() && h != from ==> (#[trigger] final(self).he(h)).next == old(self).he(h).next,
            forall|h: int| 0 <= h < old(self).nh() && h != to ==> (#[trigger] final(self).he(h)).prev == old(self).he(h).prev,
    {
        self.halfedges[from].next = to;
        self.halfedges[to].prev = from;
    }

    /// Stitches the face cycles: sorts each vertex's arrival list counter-clockwise
    /// and links every halfedge that leaves the vertex to the next arriving one.
    pub fn build(&mut self)
        requires
            old(self).wf(),
        ensures
            final(self).wf(),
            final(self).same_shape(old(self)),
            forall|v: int| 0 <= v < old(self).nv() ==> same_entries(#[trigger] final(self).incoming(v), old(self).incoming(v)),
            forall|v: int| 0 <= v < old(self).nv() ==> #[trigger] final(self).stitched(v),
            final(self).linked(),
    {
        let ghost pre = *self;
        let n = self.vertices.len();
        for i in 0..n
            invariant
                n == pre.nv(),
                self.wf(),
                self.same_shape(&pre),
                forall|v: int| 0 <= v < n ==> same_entries(#[trigger] self.incoming(v), pre.incoming(v)),
                forall|v: int| 0 <= v < i ==> #[trigger] self.stitched(v),
        {
            let sorted = self.sorted_by_angle(i);
            let ghost before = *self;
            let k = sorted.len();
            proof {
                assert(self.incoming(i as int).len() > 0);
                assert forall|m: int| 0 <= m < k implies #[trigger] sorted@[m] < self.nh() && self.origin_of(self.twin_of(sorted@[m] as int)) == i by {
                    assert(self.incoming(i as int).contains(sorted@[m]));
                    let q = choose|q: int| 0 <= q < self.incoming(i as int).len() && self.incoming(i as int)[q] == sorted@[m];
                    assert(self.incoming(i as int)[q] < self.nh());
                }
                assert(sorted@.no_duplicates());
            }
            for j in 0..k - 1
                invariant
                    k == sorted.len(),
                    k > 0,
                    before.wf(),
                    self.same_shape(&before),
                    self.adj@ == before.adj@,
                    forall|m: int| 0 <= m < k ==> #[trigger] sorted@[m] < self.nh() && self.origin_of(self.twin_of(sorted@[m] as int)) == i,
                    sorted@.no_duplicates(),
                    forall|h: int| 0 <= h < self.nh() && before.origin_of(h) != i ==> (#[trigger] self.he(h)).next == before.he(h).next,
                    forall|h: int| 0 <= h < self.nh() && before.origin_of(before.twin_of(h)) != i ==> (#[trigger] self.he(h)).prev == before.he(h).prev,
                    forall|m: int| 0 <= m < j ==> {
                        &&& self.he(self.twin_of(#[trigger] sorted@[m] as int)).next == sorted@[m + 1]
                        &&& self.he(sorted@[m + 1] as int).prev == self.twin_of(sorted@[m] as int)
                    },
            {
                let a = sorted[j];
                let b = sorted[j + 1];
                let e1 = self.halfedges[a].twin;
                proof {
                    assert(self.origin_of(self.twin_of(sorted@[j as int] as int)) == i);
                    assert(before.he(e1 as int) == before.he(e1 as int));
                    assert(before.he(b as int) == before.he(b as int));
                    assert(self.origin_of(self.twin_of(sorted@[j + 1] as int)) == i);
                }
                self.set_link(e1, b);
                proof {
                    assert forall|m: int| 0 <= m < j + 1 implies {
                        &&& self.he(self.twin_of(#[trigger] sorted@[m] as int)).next == sorted@[m + 1]
                        &&& self.he(sorted@[m + 1] as int).prev == self.twin_of(sorted@[m] as int)
                    } by {
                        if m < j {
                            assert(sorted@[m] != sorted@[j as int]);
                            assert(sorted@[m + 1] != sorted@[j + 1]);
                            assert(before.twin_of(before.twin_of(sorted@[m] as int)) == sorted@[m]);
                        }
                    }
                }
            }
            let last = sorted[k - 1];
            let e1 = self.halfedges[last].twin;
            let ghost mid = *self;
            proof {
                assert(self.origin_of(self.twin_of(sorted@[k - 1] as int)) == i);
                assert(self.origin_of(self.twin_of(sorted@[0] as int)) == i);
                assert(before.he(e1 as int) == before.he(e1 as int));
                assert(before.he(sorted@[0] as int) == before.he(sorted@[0] as int));
                assert(self.he(sorted@[0] as int) == self.he(sorted@[0] as int));
                assert(0 <= self.twin_of(sorted@[0] as int) < self.nh());
                assert(before.he(self.twin_of(sorted@[0] as int)) == before.he(self.twin_of(sorted@[0] as int)));
                assert(before.origin_of(e1 as int) == i);
                assert(before.origin_of(before.twin_of(sorted@[0] as int)) == i);
            }
            self.set_link(e1, sorted[0]);
            let ghost links = *self;
            proof {
                assert forall|m: int| 0 <= m < k implies {
                    &&& self.he(self.twin_of(#[trigger] sorted@[m] as int)).next == sorted@[next_slot(k as int, m)]
                    &&& self.he(sorted@[next_slot(k as int, m)] as int).prev == self.twin_of(sorted@[m] as int)
                } by {
                    if m < k - 1 {
                        assert(sorted@[m] != sorted@[k - 1]);
                        assert(sorted@[m + 1] != sorted@[0]);
                        assert(before.twin_of(before.twin_of(sorted@[m] as int)) == sorted@[m]);
                    }
                }
            }
            self.adj[i] = sorted;
            proof {
                assert(self.halfedges@ == links.halfedges@ && self.vertices@ == links.vertices@);
                assert(self.faces@ == links.faces@ && self.map@ == links.map@);
                lemma_same_shape_trans(before, links, *self);
                assert forall|v: int| 0 <= v < n implies same_entries(#[trigger] self.incoming(v), pre.incoming(v)) by {
                    if v == i {
                        lemma_same_entries_trans(sorted@, before.incoming(v), pre.incoming(v));
                    } else {
                        assert(self.incoming(v) == before.incoming(v));
                    }
                }
                lemma_rearranged_wf(before, *self, i as int);
                assert(self.incoming(i as int) == sorted@);
                assert forall|v: int| 0 <= v < i + 1 implies #[trigger] self.stitched(v) by {
                    if v < i {
                        assert forall|h: int| 0 <= h < before.nh() && before.origin_of(before.twin_of(h)) != i implies (#[trigger] self.he(h)).prev == before.he(h).prev by {
                            assert(h != sorted@[0]);
                            assert(mid.he(h).prev == before.he(h).prev);
                            assert(links.he(h).prev == mid.he(h).prev);
                        }
                        assert forall|h: int| 0 <= h < before.nh() && before.origin_of(h) != i implies (#[trigger] self.he(h)).next == before.he(h).next by {
                            assert(h != e1);
                            assert(mid.he(h).next == before.he(h).next);
                            assert(links.he(h).next == mid.he(h).next);
                        }
                        lemma_stitched_frame(before, *self, v, i as int);
                    } else {
                        assert forall|m: int| 0 <= m < k - 1 implies #[trigger] angle_le(self.dir(v, sorted@[m] as int), self.dir(v, sorted@[m + 1] as int)) by {
                            assert(angle_le(before.dir(v, sorted@[m] as int), before.dir(v, sorted@[m + 1] as int)));
                            assert(self.he(sorted@[m] as int) == self.he(sorted@[m] as int));
                            assert(self.he(sorted@[m + 1] as int) == self.he(sorted@[m + 1] as int));
                            assert(self.vertex(v) == before.vertex(v));
                            assert(0 <= before.origin_of(sorted@[m] as int) < before.nv());
                            assert(0 <= before.origin_of(sorted@[m + 1] as int) < before.nv());
                            assert(self.vertex(before.origin_of(sorted@[m] as int)) == before.vertex(before.origin_of(sorted@[m] as int)));
                            assert(self.vertex(before.origin_of(sorted@[m + 1] as int)) == before.vertex(before.origin_of(sorted@[m + 1] as int)));
                        }
                        assert forall|m: int| 0 <= m < k implies {
                            &&& self.he(self.twin_of(#[trigger] sorted@[m] as int)).next == sorted@[next_slot(k as int, m)]
                            &&& self.he(sorted@[next_slot(k as int, m)] as int).prev == self.twin_of(sorted@[m] as int)
                        } by {
                            assert(links.he(links.twin_of(sorted@[m] as int)) == self.he(self.twin_of(sorted@[m] as int)));
                        }
                    }
                }
            }
        }
        proof {
            lemma_stitched_linked(*self);
        }
    }

    /// Appends the face bounded by the cycle through `e`; returns its index.
    fn push_face(&mut self, e: usize) -> (r: usize)
        ensures
            r == old(self).nf(),
            final(self).nf() == old(self).nf() + 1,
            final(self).face(r as int) == Face::new_spec(e),
            forall|f: int| 0 <= f < old(self).nf() ==> #[trigger] final(self).face(f) == old(self).face(f),
            final(self).same_frame(old(self)),
            final(self).adj@ == old(self).adj@,
            forall|h: int| 0 <= h < old(self).nh() ==> #[trigger] final(self).he(h) == old(self).he(h),
            old(self).all_alive() ==> final(self).all_alive(),
    {
        let r = self.faces.len();
        self.faces.push(Face::new(e));
        r
    }

    /// Records that halfedge `h` bounds face `f`.
    fn set_face(&mut self, h: usize, f: usize)
        requires
            h < old(self).nh(),
        ensures
            final(self).same_frame(old(self)),
            final(self).adj@ == old(self).adj@,
            final(self).nf() == old(self).nf(),
            forall|g: int| 0 <= g < old(self).nf() ==> #[trigger] final(self).face(g) == old(self).face(g),
            final(self).he(h as int).face == f,
            forall|k: int|
                0 <= k < old(self).nh() ==> {
                    &&& (#[trigger] final(self).he(k)).next == old(self).he(k).next
                    &&& final(self).he(k).prev == old(self).he(k).prev
                    &&& final(self).he(k).alive == old(self).he(k).alive
                    &&& (k != h ==> final(self).he(k).face == old(self).he(k).face)
                },
    {
        self.halfedges[h].face = f;
    }

    /// Every halfedge is alive.
    pub open spec fn all_alive(&self) -> bool {
        forall|h: int| 0 <= h < self.nh() ==> (#[trigger] self.he(h)).alive
    }

    /// Halfedge `h` is met within `bound` steps along `next` from `e`.
    pub open spec fn on_cycle(pre: DCEL, e: int, h: int, bound: int) -> bool {
        exists|j: int| 0 <= j < bound && #[trigger] pre.step(e, j as nat) == h
    }

    /// The state of `add_faces` before or during the walk that builds face
    /// `fi` from halfedge `e`: `seen` marks the halfedges that have their face;
    /// each of them has a marked predecessor `pred` in its face and, but for the
    /// last one marked (`last`), a successor in its face; `cur` is next to mark.
    #[verifier::opaque]
    pub open spec fn walk_state(&self, pre: DCEL, seen: Seq<bool>, pred: Map<int, int>, e: int, last: int, cur: int, fi: int, k: int) -> bool {
        let n = pre.nh() as int;
        &&& 0 <= k
        &&& cur == pre.step(e, k as nat)
        &&& forall|h: int| 0 <= h < n && #[trigger] seen[h] && self.he(h).face == fi ==> DCEL::on_cycle(pre, e, h, k)
        &&& forall|h: int| 0 <= h < n && #[trigger] seen[h] && self.he(h).face < fi ==> DCEL::on_cycle(
            pre,
            self.face(self.he(h).face as int).spec_outer_component() as int,
            h,
            n,
        )
        &&& seen.len() == n
        &&& 0 <= e < n
        &&& 0 <= cur < n
        &&& self.nf() == fi + 1
        &&& self.same_frame(&pre)
        &&& self.num_lists() == pre.num_lists()
        &&& forall|v: int| 0 <= v < pre.nv() ==> #[trigger] self.incoming(v) == pre.incoming(v)
        &&& forall|h: int|
            0 <= h < n ==> {
                &&& (#[trigger] self.he(h)).next == pre.he(h).next
                &&& self.he(h).prev == pre.he(h).prev
                &&& self.he(h).alive == pre.he(h).alive
            }
        &&& (last == -1 ==> cur == e && !seen[e])
        &&& (last != -1 ==> {
            &&& 0 <= last < n
            &&& seen[last]
            &&& self.he(last).face == fi
            &&& pre.he(last).next == cur
            &&& seen[e]
            &&& self.he(e).face == fi
        })
        &&& self.face(fi) == Face::new_spec(e as usize)
        &&& forall|h: int| 0 <= h < n && #[trigger] seen[h] ==> 0 <= self.he(h).face <= fi
        &&& forall|h: int|
            0 <= h < n && #[trigger] seen[h] && h != last ==> seen[pre.he(h).next as int] && self.he(
                pre.he(h).next as int,
            ).face == self.he(h).face
        &&& forall|y: int|
            0 <= y < n && #[trigger] seen[y] && !(y == e && self.he(y).face == fi) ==> {
                &&& pred.contains_key(y)
                &&& 0 <= pred[y] < n
                &&& seen[pred[y]]
                &&& self.he(pred[y]).face == self.he(y).face
                &&& pre.he(pred[y]).next == y
                &&& (self.he(y).face == fi ==> pred[y] != last)
            }
        &&& forall|f: int|
            0 <= f < fi ==> {
                &&& (#[trigger] self.face(f)).spec_alive()
                &&& self.face(f).spec_outer_component() < n
                &&& seen[self.face(f).spec_outer_component() as int]
                &&& self.he(self.face(f).spec_outer_component() as int).face == f
            }
    }

    /// The state of `add_faces` between two walks: every marked halfedge has its
    /// face, a marked predecessor `pred` and a marked successor in that face.
    #[verifier::opaque]
    pub open spec fn faces_done(&self, pre: DCEL, seen: Seq<bool>, pred: Map<int, int>) -> bool {
        let n = pre.nh() as int;
        &&& forall|h: int| 0 <= h < n && #[trigger] seen[h] ==> DCEL::on_cycle(
            pre,
            self.face(self.he(h).face as int).spec_outer_component() as int,
            h,
            n,
        )
        &&& seen.len() == n
        &&& self.same_frame(&pre)
        &&& self.num_lists() == pre.num_lists()
        &&& forall|v: int| 0 <= v < pre.nv() ==> #[trigger] self.incoming(v) == pre.incoming(v)
        &&& forall|h: int|
            0 <= h < n ==> {
                &&& (#[trigger] self.he(h)).next == pre.he(h).next
                &&& self.he(h).prev == pre.he(h).prev
                &&& self.he(h).alive == pre.he(h).alive
            }
        &&& forall|h: int| 0 <= h < n && #[trigger] seen[h] ==> 0 <= self.he(h).face < self.nf()
        &&& forall|h: int|
            0 <= h < n && #[trigger] seen[h] ==> seen[pre.he(h).next as int] && self.he(pre.he(h).next as int).face
                == self.he(h).face
        &&& forall|y: int|
            0 <= y < n && #[trigger] seen[y] ==> {
                &&& pred.contains_key(y)
                &&& 0 <= pred[y] < n
                &&& seen[pred[y]]
                &&& self.he(pred[y]).face == self.he(y).face
                &&& pre.he(pred[y]).next == y
            }
        &&& forall|f: int|
            0 <= f < self.nf() ==> {
                &&& (#[trigger] self.face(f)).spec_alive()
                &&& self.face(f).spec_outer_component() < n
                &&& seen[self.face(f).spec_outer_component() as int]
                &&& self.he(self.face(f).spec_outer_component() as int).face == f
            }
    }

    /// Builds the faces: each `next` cycle becomes one face, recorded on each
    /// of its halfedges; the face is entered at the first halfedge of its cycle.
    pub fn add_faces(&mut self)
        requires
            old(self).wf(),
            old(self).linked(),
            old(self).all_alive(),
            forall|v: int| 0 <= v < old(self).nv() ==> #[trigger] old(self).stitched(v),
            old(self).nf() == 0,
        ensures
            final(self).wf(),
            final(self).linked(),
            final(self).all_alive(),
            final(self).same_frame(old(self)),
            forall|v: int| 0 <= v < old(self).nv() ==> #[trigger] final(self).incoming(v) == old(self).incoming(v),
            forall|h: int|
                0 <= h < old(self).nh() ==> {
                    &&& (#[trigger] final(self).he(h)).next == old(self).he(h).next
                    &&& final(self).he(h).prev == old(self).he(h).prev
                    &&& final(self).he(h).alive == old(self).he(h).alive
                },
            forall|h: int| 0 <= h < old(self).nh() ==> #[trigger] final(self).he(h).face < final(self).nf(),
            forall|h: int|
                0 <= h < old(self).nh() ==> final(self).he(#[trigger] final(self).he(h).next as int).face
                    == final(self).he(h).face,
            forall|h: int| 0 <= h < old(self).nh() ==> #[trigger] DCEL::on_cycle(
                *final(self),
                final(self).face(final(self).he(h).face as int).spec_outer_component() as int,
                h,
                final(self).nh() as int,
            ),
            forall|f: int|
                0 <= f < final(self).nf() ==> {
                    &&& (#[trigger] final(self).face(f)).spec_alive()
                    &&& final(self).face(f).spec_outer_component() < final(self).nh()
                    &&& final(self).he(final(self).face(f).spec_outer_component() as int).alive
                    &&& final(self).he(final(self).face(f).spec_outer_component() as int).face == f
                },
    {
        let ghost pre = *self;
        let n = self.halfedges.len();
        let mut seen: Vec<bool> = Vec::new();
        for i in 0..n
            invariant
                seen@.len() == i,
                forall|h: int| 0 <= h < i ==> !#[trigger] seen@[h],
        {
            seen.push(false);
        }
        let ghost mut pred: Map<int, int> = Map::empty();
        proof {
            reveal(DCEL::faces_done);
            assert(self.num_lists() == pre.num_lists());
        }
        for e in 0..n
            invariant
                n == pre.nh(),
                seen@.len() == n,
                pre.wf(),
                pre.linked(),
                pre.all_alive(),
                forall|v: int| 0 <= v < pre.nv() ==> #[trigger] pre.stitched(v),
                self.faces_done(pre, seen@, pred),
                forall|h: int| 0 <= h < e ==> #[trigger] seen@[h],
        {
            if !seen[e] {
                let ghost before = *self;
                let ghost seen0 = seen@;
                let face_index = self.push_face(e);
                proof {
                    reveal(DCEL::faces_done);
                    lemma_walk_start(before, *self, pre, seen@, pred, e as int, face_index as int);
                }
                let mut current_edge = e;
                let ghost mut last: int = -1;
                let ghost mut unseen: Set<int> = Set::new(|h: int| 0 <= h < n && !seen@[h]);
                let ghost mut steps: int = 0;
                proof {
                    vstd::set_lib::lemma_int_range(0, n as int);
                    vstd::set_lib::lemma_len_subset(unseen, vstd::set_lib::set_int_range(0, n as int));
                }
                let ghost u0 = unseen.len();
                while !seen[current_edge]
                    invariant
                        n == pre.nh(),
                        seen@.len() == n,
                        current_edge < n,
                        self.nh() == n,
                        pre.wf(),
                        pre.linked(),
                        forall|v: int| 0 <= v < pre.nv() ==> #[trigger] pre.stitched(v),
                        self.walk_state(pre, seen@, pred, e as int, last, current_edge as int, face_index as int, steps),
                        forall|h: int| 0 <= h < n && #[trigger] seen0[h] ==> seen@[h],
                        unseen.finite(),
                        forall|h: int| #[trigger] unseen.contains(h) <==> (0 <= h < n && !seen@[h]),
                        steps + unseen.len() == u0,
                        u0 <= n,
                    decreases unseen.len(),
                {
                    let ghost b = *self;
                    let ghost s0 = seen@;
                    let ghost p0 = pred;
                    seen.set(current_edge, true);
                    self.set_face(current_edge, face_index);
                    proof {
                        if last != -1 {
                            pred = pred.insert(current_edge as int, last);
                        }
                        assert(unseen.contains(current_edge as int));
                        unseen = unseen.remove(current_edge as int);
                        lemma_walk_step(b, *self, pre, s0, seen@, p0, pred, e as int, last, current_edge as int, face_index as int, steps);
                        last = current_edge as int;
                        steps = steps + 1;
                        reveal(DCEL::walk_state);
                    }
                    current_edge = self.halfedges[current_edge].next;
                }
                proof {
                    lemma_walk_close(*self, pre, seen@, pred, e as int, last, current_edge as int, face_index as int, steps);
                    pred = pred.insert(e as int, last);
                    assert forall|h: int| 0 <= h < e + 1 implies #[trigger] seen@[h] by {
                        if h < e {
                            assert(seen0[h]);
                        }
                    }
                }
            }
        }
        proof {
            lemma_faces_done_final(pre, *self, seen@, pred);
            lemma_faces_cycles(pre, *self, seen@, pred);
            lemma_cycles_transfer(pre, *self);
        }
    }

    /// The halfedge reached from `h` after `k` steps along `next`.
    pub open spec fn step(&self, h: int, k: nat) -> int
        decreases k,
    {
        if k == 0 {
            h
        } else {
            self.he(self.step(h, (k - 1) as nat)).next as int
        }
    }

    /// The first `k >= j` at which the walk from `h` is back at `h`, bounded by
    /// `nh()`.
    pub open spec fn return_from(&self, h: int, j: nat) -> nat
        decreases self.nh() - j,
    {
        if j >= self.nh() {
            self.nh()
        } else if self.step(h, j) == h {
            j
        } else {
            self.return_from(h, j + 1)
        }
    }

    /// Coordinates of the vertex that halfedge `h` starts at.
    pub open spec fn origin_point(&self, h: int) -> (i64, i64) {
        let c = self.vertex(self.origin_of(h)).spec_coordinates();
        (c.0 as i64, c.1 as i64)
    }

    /// The boundary of the cycle through `h`: the origins met in one turn.
    pub open spec fn cycle_points(&self, h: int) -> Seq<(i64, i64)> {
        Seq::new(self.return_from(h, 1), |k: int| self.origin_point(self.step(h, k as nat)))
    }

    /// The boundaries of the alive faces among the first `k`, in order.
    pub open spec fn face_boundaries(&self, k: nat) -> Seq<Seq<(i64, i64)>>
        decreases k,
    {
        if k == 0 {
            Seq::empty()
        } else {
            let b = self.face_boundaries((k - 1) as nat);
            if self.face(k - 1).spec_alive() {
                b.push(self.cycle_points(self.face(k - 1).spec_outer_component() as int))
            } else {
                b
            }
        }
    }

    /// Every face has a halfedge.
    pub open spec fn faces_ok(&self) -> bool {
        forall|f: int| 0 <= f < self.nf() ==> (#[trigger] self.face(f)).spec_outer_component() < self.nh()
    }

    /// Get the origin of a halfedge by index
    pub fn get_origin(&self, edge: usize) -> (r: (i64, i64))
        requires
            self.wf(),
            edge < self.nh(),
        ensures
            r == self.origin_point(edge as int),
            crate::geometry::pt_ok(r),
    {
        let origin_ind = self.halfedges[edge].origin;
        proof {
            assert(0 <= self.origin_of(edge as int) < self.nv());
            assert(grid_ok(self.vertex(origin_ind as int).spec_coordinates()));
        }
        let c = self.vertices[origin_ind].coordinates;
        (c.0 as i64, c.1 as i64)
    }

    /// The origins met walking `next` from `start` until back at `start`.
    fn cycle_from(&self, start: usize) -> (r: Vec<(i64, i64)>)
        requires
            self.wf(),
            self.linked(),
            start < self.nh(),
        ensures
            r@ == self.cycle_points(start as int),
            crate::geometry::pts_ok(r@),
            1 <= r.len() <= MAX_CYCLE,
    {
        let n = self.halfedges.len();
        let mut points: Vec<(i64, i64)> = Vec::new();
        let mut current_edge = start;
        let mut steps: usize = 0;
        loop
            invariant_except_break
                steps < n,
                steps >= 1 ==> current_edge != start,
            invariant
                self.wf(),
                self.linked(),
                n == self.nh(),
                start < n,
                steps <= n,
                current_edge == self.step(start as int, steps as nat),
                current_edge < n,
                points@ =~= Seq::new(steps as nat, |k: int| self.origin_point(self.step(start as int, k as nat))),
                crate::geometry::pts_ok(points@),
                steps >= 1 ==> self.return_from(start as int, 1) == self.return_from(start as int, steps as nat),
            ensures
                points@ == self.cycle_points(start as int),
                crate::geometry::pts_ok(points@),
                1 <= points.len() <= n,
            decreases n - steps,
        {
            let p = self.get_origin(current_edge);
            points.push(p);
            current_edge = self.halfedges[current_edge].next;
            steps = steps + 1;
            proof {
                if steps >= 2 {
                    assert(self.step(start as int, (steps - 1) as nat) != start);
                }
                assert(self.return_from(start as int, 1) == self.return_from(start as int, steps as nat)) by {
                    if steps >= 2 {
                        assert(self.return_from(start as int, (steps - 1) as nat) == self.return_from(start as int, steps as nat));
                    }
                }
            }
            if current_edge == start || steps >= n {
                proof {
                    assert(self.return_from(start as int, steps as nat) == steps);
                }
                break;
            }
        }
        points
    }

    /// `r` holds the boundaries of the alive faces, simplified, shortest first,
    /// without one of the longest.
    pub open spec fn faces_as_polygons(&self, r: Seq<Polygon>) -> bool {
        &&& self.face_boundaries(self.nf()).len() == 0 ==> r.len() == 0
        &&& self.face_boundaries(self.nf()).len() > 0 ==> exists|sorted: Seq<Seq<(i64, i64)>>| {
            &&& sorted.to_multiset() == self.face_boundaries(self.nf()).to_multiset()
            &&& forall|k: int| 0 <= k < sorted.len() - 1 ==> (#[trigger] sorted[k]).len() <= sorted[k + 1].len()
            &&& r.len() + 1 == sorted.len()
            &&& forall|k: int| 0 <= k < r.len() ==> (#[trigger] r[k])@ == simplified(sorted[k])
        }
    }

    /// Coordinates of the two ends of halfedge `h`, from its origin.
    pub open spec fn end_points(&self, h: int) -> ((i32, i32), (i32, i32)) {
        (self.vertex(self.origin_of(h)).spec_coordinates(), self.vertex(self.origin_of(self.twin_of(h))).spec_coordinates())
    }

    /// Constructs the polygons from the faces: the boundary of each alive face,
    /// shortest first, without the longest one (the outer face).
    pub fn make_polygons(&self) -> (r: Vec<Polygon>)
        requires
            self.wf(),
            self.linked(),
            self.faces_ok(),
        ensures
            self.faces_as_polygons(r@),
            forall|k: int| 0 <= k < r.len() ==> (#[trigger] r@[k]).wf(),
    {
        broadcast use vstd::seq_lib::group_to_multiset_ensures;

        let ghost bounds = self.face_boundaries(self.nf());
        let mut cycles: Vec<Vec<(i64, i64)>> = Vec::new();
        for f in 0..self.faces.len()
            invariant
                self.wf(),
                self.linked(),
                self.faces_ok(),
                cycles.len() == self.face_boundaries(f as nat).len(),
                forall|k: int| 0 <= k < cycles.len() ==> (#[trigger] cycles@[k])@ == self.face_boundaries(f as nat)[k],
                forall|k: int| 0 <= k < cycles.len() ==> pts_ok((#[trigger] cycles@[k])@) && cycles@[k].len() <= MAX_CYCLE,
        {
            if self.faces[f].alive {
                proof {
                    assert(self.face(f as int).spec_outer_component() < self.nh());
                }
                let c = self.cycle_from(self.faces[f].outer_component);
                cycles.push(c);
            }
        }
        let ghost mut gs: Seq<Seq<(i64, i64)>> = Seq::empty();
        let mut sorted: Vec<Vec<(i64, i64)>> = Vec::new();
        for i in 0..cycles.len()
            invariant
                cycles.len() == bounds.len(),
                forall|k: int| 0 <= k < cycles.len() ==> (#[trigger] cycles@[k])@ == bounds[k],
                forall|k: int| 0 <= k < cycles.len() ==> pts_ok((#[trigger] cycles@[k])@) && cycles@[k].len() <= MAX_CYCLE,
                sorted.len() == gs.len(),
                forall|k: int| 0 <= k < sorted.len() ==> (#[trigger] sorted@[k])@ == gs[k],
                forall|k: int| 0 <= k < sorted.len() ==> pts_ok((#[trigger] sorted@[k])@) && sorted@[k].len() <= MAX_CYCLE,
                gs.to_multiset() == bounds.subrange(0, i as int).to_multiset(),
                forall|k: int| 0 <= k < gs.len() - 1 ==> (#[trigger] gs[k]).len() <= gs[k + 1].len(),
        {
            let c = copy_points(&cycles[i]);
            let mut j = sorted.len();
            while j > 0 && sorted[j - 1].len() > c.len()
                invariant
                    j <= sorted.len(),
                    sorted.len() == gs.len(),
                    forall|k: int| 0 <= k < sorted.len() ==> (#[trigger] sorted@[k])@ == gs[k],
                    forall|m: int| j <= m < gs.len() ==> (#[trigger] gs[m]).len() > c@.len(),
                decreases j,
            {
                j = j - 1;
            }
            proof {
                let t = gs.insert(j as int, c@);
                assert forall|k: int| 0 <= k < t.len() - 1 implies (#[trigger] t[k]).len() <= t[k + 1].len() by {
                    if k < j as int - 1 {
                        assert(t[k] == gs[k] && t[k + 1] == gs[k + 1]);
                    } else if k == j as int - 1 {
                        assert(t[k] == gs[k]);
                    } else if k == j as int {
                        assert(t[k + 1] == gs[k]);
                    } else {
                        assert(t[k] == gs[k - 1] && t[k + 1] == gs[k]);
                        assert(gs[k - 1].len() <= gs[k - 1 + 1].len());
                    }
                }
                assert(bounds.subrange(0, i + 1) == bounds.subrange(0, i as int).push(bounds[i as int]));
                vstd::seq_lib::to_multiset_build(bounds.subrange(0, i as int), bounds[i as int]);
                vstd::seq_lib::to_multiset_insert(gs, j as int, c@);
                assert(c@ == bounds[i as int]);
                gs = t;
            }
            sorted.insert(j, c);
            proof {
                assert forall|k: int| 0 <= k < sorted.len() implies (#[trigger] sorted@[k])@ == gs[k] by {}
                assert forall|k: int| 0 <= k < sorted.len() implies pts_ok((#[trigger] sorted@[k])@) && sorted@[k].len() <= MAX_CYCLE by {
                    assert(sorted@[k]@ == gs[k]);
                }
            }
        }
        proof {
            assert(bounds.subrange(0, bounds.len() as int) =~= bounds);
        }
        let mut result: Vec<Polygon> = Vec::new();
        if sorted.len() == 0 {
            proof {
                vstd::seq_lib::to_multiset_len(gs);
                vstd::seq_lib::to_multiset_len(bounds);
            }
            return result;
        }
        sorted.pop();
        for i in 0..sorted.len()
            invariant
                sorted.len() + 1 == gs.len(),
                forall|k: int| 0 <= k < sorted.len() ==> (#[trigger] sorted@[k])@ == gs[k],
                forall|k: int| 0 <= k < sorted.len() ==> pts_ok((#[trigger] sorted@[k])@) && sorted@[k].len() <= MAX_CYCLE,
                result.len() == i,
                forall|k: int| 0 <= k < i ==> (#[trigger] result@[k])@ == simplified(gs[k]),
                forall|k: int| 0 <= k < i ==> (#[trigger] result@[k]).wf(),
        {
            let c = copy_points(&sorted[i]);
            result.push(Polygon::new(c));
        }
        proof {
            vstd::seq_lib::to_multiset_len(gs);
            vstd::seq_lib::to_multiset_len(bounds);
            assert(gs.to_multiset() == bounds.to_multiset());
            assert(forall|k: int| 0 <= k < result.len() ==> (#[trigger] result@[k])@ == simplified(gs[k]));
        }
        result
    }

    /// Set the previous edge of all halfedges: each halfedge becomes the
    /// previous one of its successor, so that `prev` inverts `next`.
    pub fn set_prev(&mut self)
        requires
            old(self).wf(),
            old(self).linked(),
            forall|v: int| 0 <= v < old(self).nv() ==> #[trigger] old(self).stitched(v),
        ensures
            final(self).wf(),
            final(self).linked(),
            final(self).same_frame(old(self)),
            forall|v: int| 0 <= v < old(self).nv() ==> #[trigger] final(self).incoming(v) == old(self).incoming(v),
            forall|h: int|
                0 <= h < old(self).nh() ==> {
                    &&& (#[trigger] final(self).he(h)).next == old(self).he(h).next
                    &&& final(self).he(h).face == old(self).he(h).face
                    &&& final(self).he(h).alive == old(self).he(h).alive
                    &&& final(self).he(final(self).he(h).next as int).prev == h
                },
    {
        let ghost pre = *self;
        let n = self.halfedges.len();
        for edge_ind in 0..n
            invariant
                n == pre.nh(),
                pre.wf(),
                pre.linked(),
                forall|v: int| 0 <= v < pre.nv() ==> #[trigger] pre.stitched(v),
                self.same_frame(&pre),
                self.adj@ == pre.adj@,
                forall|h: int|
                    0 <= h < n ==> {
                        &&& (#[trigger] self.he(h)).next == pre.he(h).next
                        &&& self.he(h).face == pre.he(h).face
                        &&& self.he(h).alive == pre.he(h).alive
                        &&& self.he(h).prev < n
                    },
                forall|h: int| 0 <= h < edge_ind ==> self.he(#[trigger] pre.he(h).next as int).prev == h,
        {
            let next_edge = self.halfedges[edge_ind].next;
            proof {
                assert(self.he(edge_ind as int).next == pre.he(edge_ind as int).next);
                assert(pre.he(edge_ind as int).next < n);
            }
            let ghost before = *self;
            self.set_prev_of(next_edge, edge_ind);
            proof {
                assert forall|h: int| 0 <= h < edge_ind + 1 implies self.he(#[trigger] pre.he(h).next as int).prev == h by {
                    if h < edge_ind {
                        assert(pre.he(h).next < n);
                        if pre.he(h).next == next_edge {
                            lemma_next_injective(pre, h, edge_ind as int);
                        }
                    }
                }
                assert forall|h: int| 0 <= h < n implies (#[trigger] self.he(h)).prev < n by {
                    assert(before.he(h).prev < n);
                }
            }
        }
        proof {
            lemma_same_frame_wf(pre, *self);
        }
    }

    /// Makes `p` the previous halfedge of `h`.
    fn set_prev_of(&mut self, h: usize, p: usize)
        requires
            h < old(self).nh(),
        ensures
            final(self).same_frame(old(self)),
            final(self).adj@ == old(self).adj@,
            final(self).he(h as int).prev == p,
            forall|k: int|
                0 <= k < old(self).nh() ==> {
                    &&& (#[trigger] final(self).he(k)).next == old(self).he(k).next
                    &&& final(self).he(k).face == old(self).he(k).face
                    &&& final(self).he(k).alive == old(self).he(k).alive
                    &&& (k != h ==> final(self).he(k).prev == old(self).he(k).prev)
                },
    {
        self.halfedges[h].prev = p;
    }

    /// Unlinks halfedge `edge` and its twin: the cycles on both sides are joined
    /// around them, and both are marked deleted.
    #[verifier::rlimit(40)]
    fn remove_edge(&mut self, edge: usize)
        requires
            old(self).wf(),
            old(self).linked(),
            edge < old(self).nh(),
        ensures
            final(self).wf(),
            final(self).linked(),
            final(self).same_frame(old(self)),
            forall|v: int| 0 <= v < old(self).nv() ==> #[trigger] final(self).incoming(v) == old(self).incoming(v),
            !final(self).he(edge as int).alive,
            !final(self).he(old(self).twin_of(edge as int)).alive,
            forall|h: int|
                0 <= h < old(self).nh() && h != edge && h != old(self).twin_of(edge as int) ==> (#[trigger] final(self).he(h)).alive == old(self).he(h).alive,
    {
        let ghost pre = *self;
        proof {
            assert(self.he(edge as int).next < self.nh());
            assert(self.he(self.twin_of(edge as int)).next < self.nh());
        }
        let edge_prev = self.halfedges[edge].prev;
        let edge_next = self.halfedges[edge].next;
        let twin = self.halfedges[edge].twin;
        let twin_prev = self.halfedges[twin].prev;
        let twin_next = self.halfedges[twin].next;

        self.halfedges[edge_prev].next = twin_next;
        self.halfedges[edge_next].prev = twin_prev;
        self.halfedges[twin_prev].next = edge_next;
        self.halfedges[twin_next].prev = edge_prev;

        self.halfedges[edge].alive = false;
        self.halfedges[twin].alive = false;
        proof {
            assert forall|h: int| 0 <= h < pre.nh() implies {
                &&& (#[trigger] self.he(h)).twin == pre.he(h).twin
                &&& self.he(h).origin == pre.he(h).origin
            } by {}
            lemma_same_frame_wf(pre, *self);
        }
    }

    /// The halfedges that leave `vertex`, in rotation: from its recorded
    /// halfedge, each next one is the successor of the previous one's twin.
    /// The walk ends back at the first one, or after `nh()` halfedges.
    fn get_edges_around_vertex(&self, vertex: usize) -> (r: Vec<usize>)
        requires
            self.wf(),
            self.linked(),
            vertex < self.nv(),
        ensures
            r.len() >= 1,
            r@[0] == self.vertex(vertex as int).spec_incident_edge(),
            forall|k: int| 0 <= k < r.len() ==> #[trigger] r@[k] < self.nh(),
            forall|k: int| 0 <= k < r.len() - 1 ==> r@[k + 1] == self.he(self.twin_of(#[trigger] r@[k] as int)).next,
    {
        let n = self.halfedges.len();
        let mut result: Vec<usize> = Vec::new();
        let start_edge = self.vertices[vertex].incident_edge;
        proof {
            assert(self.vertex(vertex as int).spec_incident_edge() < self.nh());
        }
        let mut current_edge = start_edge;
        let mut steps: usize = 0;
        loop
            invariant_except_break
                steps < n,
            invariant
                self.wf(),
                self.linked(),
                n == self.nh(),
                current_edge < n,
                start_edge == self.vertex(vertex as int).spec_incident_edge(),
                result.len() == steps,
                steps == 0 ==> current_edge == start_edge,
                steps > 0 ==> result@[0] == start_edge,
                steps > 0 ==> current_edge == self.he(self.twin_of(result@[steps - 1] as int)).next,
                forall|k: int| 0 <= k < result.len() ==> #[trigger] result@[k] < n,
                forall|k: int| 0 <= k < result.len() - 1 ==> result@[k + 1] == self.he(self.twin_of(#[trigger] result@[k] as int)).next,
            ensures
                result.len() >= 1,
                result@[0] == start_edge,
                forall|k: int| 0 <= k < result.len() ==> #[trigger] result@[k] < n,
                forall|k: int| 0 <= k < result.len() - 1 ==> result@[k + 1] == self.he(self.twin_of(#[trigger] result@[k] as int)).next,
            decreases n - steps,
        {
            result.push(current_edge);
            let current_twin = self.halfedges[current_edge].twin;
            proof {
                assert(0 <= self.twin_of(current_edge as int) < n);
                assert(self.he(current_twin as int).next < n);
            }
            current_edge = self.halfedges[current_twin].next;
            steps = steps + 1;
            if current_edge == start_edge || steps >= n {
                break;
            }
        }
        result
    }

    /// Remove a vertex and all attached halfedges.
    /// Does not affect faces.
    pub fn remove_vertex(&mut self, vertex: usize)
        requires
            old(self).wf(),
            old(self).linked(),
            vertex < old(self).nv(),
        ensures
            final(self).wf(),
            final(self).linked(),
            final(self).nh() == old(self).nh(),
            final(self).nv() == old(self).nv(),
            !final(self).vertex(vertex as int).spec_alive(),
            !final(self).he(old(self).vertex(vertex as int).spec_incident_edge() as int).alive,
    {
        let ghost pre = *self;
        let vertex_edges = self.get_edges_around_vertex(vertex);
        let first = vertex_edges[0];
        for i in 0..vertex_edges.len()
            invariant
                self.wf(),
                self.linked(),
                self.same_frame(&pre),
                vertex < self.nv(),
                first == vertex_edges@[0],
                first == pre.vertex(vertex as int).spec_incident_edge(),
                forall|k: int| 0 <= k < vertex_edges.len() ==> #[trigger] vertex_edges@[k] < self.nh(),
                i > 0 ==> !self.he(first as int).alive,
        {
            let ghost before = *self;
            self.remove_edge(vertex_edges[i]);
            proof {
                lemma_same_frame_trans(pre, before, *self);
                if i > 0 {
                    assert(first != vertex_edges@[i as int] && first as int != before.twin_of(vertex_edges@[i as int] as int) ==> self.he(first as int).alive == before.he(first as int).alive);
                }
            }
        }
        let ghost before = *self;
        self.vertices[vertex].alive = false;
        proof {
            assert(self.vertex(vertex as int).spec_incident_edge() == before.vertex(vertex as int).spec_incident_edge());
            assert forall|v: int| 0 <= v < self.nv() && v != vertex implies #[trigger] self.vertex(v) == before.vertex(v) by {}
            lemma_vertex_flag_wf(before, *self, vertex as int);
        }
    }

    /// Is there a vertex at `c`?
    pub open spec fn has_vertex(&self, c: (i32, i32)) -> bool {
        self.index_of().contains_key(grid_key(c))
    }

    /// The arrival list of vertex `v` before a change that may have created it.
    pub open spec fn incoming_or_empty(&self, v: int) -> Seq<usize> {
        if v < self.nv() {
            self.incoming(v)
        } else {
            Seq::empty()
        }
    }

    /// Adds the segment `ab` as a pair of twin halfedges, creating the vertices
    /// at `a` and `b` where there are none yet. The faces are not updated.
    pub fn add_edge_unchecked(&mut self, a: &(i32, i32), b: &(i32, i32))
        requires
            old(self).wf(),
            grid_ok(*a),
            grid_ok(*b),
            *a != *b,
            old(self).nh() + 2 <= MAX_CYCLE,
        ensures
            final(self).wf(),
            final(self).extends_halfedges(old(self)),
            final(self).nh() == old(self).nh() + 2,
            final(self).nf() == old(self).nf(),
            old(self).all_alive() ==> final(self).all_alive(),
            forall|h: int| 0 <= h < old(self).nh() ==> #[trigger] final(self).he(h) == old(self).he(h),
            final(self).nv() == old(self).nv() + (if old(self).has_vertex(*a) { 0int } else { 1int }) + (
            if old(self).has_vertex(*b) { 0int } else { 1int }),
            forall|v: int| 0 <= v < old(self).nv() ==> #[trigger] final(self).vertex(v) == old(self).vertex(v),
            ({
                let h0 = old(self).nh() as int;
                let h1 = h0 + 1;
                let ia = final(self).origin_of(h0);
                let ib = final(self).origin_of(h1);
                &&& final(self).vertex(ia).spec_coordinates() == *a
                &&& final(self).vertex(ib).spec_coordinates() == *b
                &&& final(self).twin_of(h0) == h1
                &&& final(self).he(h0).next == NIL && final(self).he(h1).next == NIL
                &&& final(self).incoming(ia) == old(self).incoming_or_empty(ia).push(h1 as usize)
                &&& final(self).incoming(ib) == old(self).incoming_or_empty(ib).push(h0 as usize)
                &&& forall|v: int|
                    0 <= v < old(self).nv() && v != ia && v != ib ==> #[trigger] final(self).incoming(v)
                        == old(self).incoming(v)
            }),
    {
        let ghost pre = *self;
        let twins = self.add_twins();
        let ghost mid = self.halfedges@;
        let ka = key_of(a);
        let kb = key_of(b);
        proof {
            lemma_grid_key(*a, *b);
        }
        proof {
            assert(self.vertices@ == pre.vertices@ && self.map@ == pre.map@ && self.adj@ == pre.adj@);
        }
        let i = match self.map.get(&ka) {
            Some(ix) => {
                proof {
                    assert(pre.index_of().contains_key(ka));
                }
                *ix
            },
            None => {
                let ix = self.vertices.len();
                self.map.insert(ka, ix);
                self.vertices.push(Vertex { coordinates: *a, incident_edge: twins.0, alive: true });
                self.adj.push(Vec::new());
                ix
            },
        };
        proof {
            assert(self.vertex(i as int).spec_coordinates() == *a);
            assert(self.index_of() == pre.index_of().insert(ka, i));
            assert(i < self.nv() && self.nv() == self.adj@.len());
        }
        let j = match self.map.get(&kb) {
            Some(ix) => {
                proof {
                    assert(pre.index_of().contains_key(kb));
                    assert(pre.index_of()[kb] < pre.nv());
                    lemma_grid_key(pre.vertex(*ix as int).spec_coordinates(), *a);
                }
                *ix
            },
            None => {
                let ix = self.vertices.len();
                self.map.insert(kb, ix);
                self.vertices.push(Vertex { coordinates: *b, incident_edge: twins.1, alive: true });
                self.adj.push(Vec::new());
                ix
            },
        };
        proof {
            assert(i != j);
        }
        self.adj[i].push(twins.1);
        self.adj[j].push(twins.0);
        self.halfedges[twins.0].origin = i;
        self.halfedges[twins.1].origin = j;
        proof {
            assert forall|h: int| 0 <= h < pre.nh() implies self.halfedges@[h] == pre.halfedges@[h] by {
                assert(mid.subrange(0, pre.nh() as int)[h] == pre.halfedges@[h]);
            }
            assert(self.halfedges@.subrange(0, pre.nh() as int) =~= pre.halfedges@);
            assert(self.vertices@.subrange(0, pre.nv() as int) =~= pre.vertices@);
            assert(self.index_of() =~= pre.index_of().insert(ka, i).insert(kb, j));
            lemma_add_edge_wf(pre, *self, *a, *b, i, j);
        }
    }
}

/// The invariant survives `add_edge_unchecked`.
proof fn lemma_add_edge_wf(pre: DCEL, post: DCEL, a: (i32, i32), b: (i32, i32), i: usize, j: usize)
    requires
        pre.wf(),
        a != b,
        grid_ok(a),
        grid_ok(b),
        pre.nh() + 2 <= MAX_CYCLE,
        post.nh() == pre.nh() + 2,
        post.halfedges@.subrange(0, pre.nh() as int) == pre.halfedges@,
        post.twin_of(pre.nh() as int) == pre.nh() + 1,
        post.twin_of(pre.nh() as int + 1) == pre.nh(),
        post.origin_of(pre.nh() as int) == i,
        post.origin_of(pre.nh() as int + 1) == j,
        i != j,
        0 <= i < post.nv(),
        0 <= j < post.nv(),
        post.vertex(i as int).spec_coordinates() == a,
        post.vertex(j as int).spec_coordinates() == b,
        i >= pre.nv() ==> post.vertex(i as int).spec_incident_edge() == pre.nh(),
        j >= pre.nv() ==> post.vertex(j as int).spec_incident_edge() == pre.nh() + 1,
        post.nv() >= pre.nv(),
        post.vertices@.subrange(0, pre.nv() as int) == pre.vertices@,
        post.num_lists() == post.nv(),
        post.nv() <= pre.nv() + 2,
        post.nv() >= pre.nv() + 1 ==> i == pre.nv() || j == pre.nv(),
        post.nv() == pre.nv() + 2 ==> i == pre.nv() + 1 || j == pre.nv() + 1,
        post.incoming(i as int) == pre.incoming_or_empty(i as int).push((pre.nh() + 1) as usize),
        post.incoming(j as int) == pre.incoming_or_empty(j as int).push(pre.nh() as usize),
        forall|v: int| 0 <= v < pre.nv() && v != i && v != j ==> #[trigger] post.incoming(v) == pre.incoming(v),
        post.index_of() == pre.index_of().insert(grid_key(a), i).insert(grid_key(b), j),
        pre.has_vertex(a) ==> pre.index_of()[grid_key(a)] == i,
        pre.has_vertex(b) ==> pre.index_of()[grid_key(b)] == j,
    ensures
        post.wf(),
        forall|h: int| 0 <= h < pre.nh() ==> #[trigger] post.he(h) == pre.he(h),
        forall|v: int| 0 <= v < pre.nv() ==> #[trigger] post.vertex(v) == pre.vertex(v),
{
    let h0 = pre.nh() as int;
    let h1 = h0 + 1;
    assert forall|h: int| 0 <= h < pre.nh() implies #[trigger] post.he(h) == pre.he(h) by {
        assert(post.halfedges@.subrange(0, pre.nh() as int)[h] == pre.halfedges@[h]);
    }
    assert forall|v: int| 0 <= v < pre.nv() implies #[trigger] post.vertex(v) == pre.vertex(v) by {
        assert(post.vertices@.subrange(0, pre.nv() as int)[v] == pre.vertices@[v]);
    }
    assert forall|h: int| 0 <= h < post.nh() implies {
        &&& 0 <= #[trigger] post.twin_of(h) < post.nh()
        &&& post.twin_of(post.twin_of(h)) == h
        &&& post.twin_of(h) != h
    } by {
        if h < h0 {
            assert(post.he(h) == pre.he(h));
            assert(post.he(pre.twin_of(h)) == pre.he(pre.twin_of(h)));
        }
    }
    assert forall|h: int| 0 <= h < post.nh() implies {
        &&& 0 <= #[trigger] post.origin_of(h) < post.nv()
        &&& post.origin_of(h) != post.origin_of(post.twin_of(h))
    } by {
        if h < h0 {
            assert(post.he(h) == pre.he(h));
            assert(post.he(pre.twin_of(h)) == pre.he(pre.twin_of(h)));
            assert(0 <= pre.origin_of(h) < pre.nv());
        }
    }
    lemma_add_edge_index(pre, post, a, b, i, j);
    lemma_add_edge_incoming(pre, post, i, j);
    assert forall|v: int| 0 <= v < post.nv() implies {
        &&& (#[trigger] post.vertex(v)).spec_incident_edge() < post.nh()
        &&& post.origin_of(post.vertex(v).spec_incident_edge() as int) == v
    } by {
        if v < pre.nv() {
            assert(post.vertex(v) == pre.vertex(v));
            assert(pre.vertex(v).spec_incident_edge() < pre.nh());
            assert(post.he(pre.vertex(v).spec_incident_edge() as int) == pre.he(pre.vertex(v).spec_incident_edge() as int));
        }
    }
}

proof fn lemma_add_edge_index(pre: DCEL, post: DCEL, a: (i32, i32), b: (i32, i32), i: usize, j: usize)
    requires
        pre.wf(),
        a != b,
        grid_ok(a),
        grid_ok(b),
        0 <= i < post.nv(),
        0 <= j < post.nv(),
        post.vertex(i as int).spec_coordinates() == a,
        post.vertex(j as int).spec_coordinates() == b,
        post.nv() >= pre.nv(),
        forall|v: int| 0 <= v < pre.nv() ==> #[trigger] post.vertex(v) == pre.vertex(v),
        post.nv() <= pre.nv() + 2,
        post.nv() >= pre.nv() + 1 ==> i == pre.nv() || j == pre.nv(),
        post.nv() == pre.nv() + 2 ==> i == pre.nv() + 1 || j == pre.nv() + 1,
        post.index_of() == pre.index_of().insert(grid_key(a), i).insert(grid_key(b), j),
        pre.has_vertex(a) ==> pre.index_of()[grid_key(a)] == i,
        pre.has_vertex(b) ==> pre.index_of()[grid_key(b)] == j,
    ensures
        post.index_ok(),
{
    lemma_grid_key(a, b);
    assert forall|k: u64| #[trigger] post.index_of().contains_key(k) implies {
        &&& post.index_of()[k] < post.nv()
        &&& grid_key(post.vertex(post.index_of()[k] as int).spec_coordinates()) == k
    } by {
        if k != grid_key(a) && k != grid_key(b) {
            assert(pre.index_of().contains_key(k));
            assert(post.index_of()[k] == pre.index_of()[k]);
        }
    }
    assert forall|v: int| 0 <= v < post.nv() implies {
        &&& #[trigger] grid_ok(post.vertex(v).spec_coordinates())
        &&& post.index_of().contains_key(grid_key(post.vertex(v).spec_coordinates()))
        &&& post.index_of()[grid_key(post.vertex(v).spec_coordinates())] == v
    } by {
        if v < pre.nv() {
            let c = pre.vertex(v).spec_coordinates();
            assert(grid_ok(c));
            assert(pre.index_of().contains_key(grid_key(c)));
            lemma_grid_key(c, a);
            lemma_grid_key(c, b);
        }
    }
}

proof fn lemma_add_edge_incoming(pre: DCEL, post: DCEL, i: usize, j: usize)
    requires
        pre.wf(),
        post.nh() == pre.nh() + 2,
        forall|h: int| 0 <= h < pre.nh() ==> #[trigger] post.he(h) == pre.he(h),
        post.twin_of(pre.nh() as int) == pre.nh() + 1,
        post.twin_of(pre.nh() as int + 1) == pre.nh(),
        post.origin_of(pre.nh() as int) == i,
        post.origin_of(pre.nh() as int + 1) == j,
        i != j,
        0 <= i < post.nv(),
        0 <= j < post.nv(),
        post.nv() >= pre.nv(),
        post.nv() <= pre.nv() + 2,
        post.nv() >= pre.nv() + 1 ==> i == pre.nv() || j == pre.nv(),
        post.nv() == pre.nv() + 2 ==> i == pre.nv() + 1 || j == pre.nv() + 1,
        post.incoming(i as int) == pre.incoming_or_empty(i as int).push((pre.nh() + 1) as usize),
        post.incoming(j as int) == pre.incoming_or_empty(j as int).push(pre.nh() as usize),
        forall|v: int| 0 <= v < pre.nv() && v != i && v != j ==> #[trigger] post.incoming(v) == pre.incoming(v),
    ensures
        post.incoming_ok(),
{
    let h0 = pre.nh() as int;
    let h1 = h0 + 1;
    assert forall|v: int, k: int|
        0 <= v < post.nv() && 0 <= k < post.incoming(v).len() implies {
            &&& #[trigger] post.incoming(v)[k] < post.nh()
            &&& post.origin_of(post.twin_of(post.incoming(v)[k] as int)) == v
        } by {
        assert(post.vertex(v) == post.vertex(v));
        if v != i && v != j {
            assert(post.incoming(v) == pre.incoming(v));
        } else if k < pre.incoming_or_empty(v).len() {
            assert(post.incoming(v)[k] == pre.incoming(v)[k]);
        }
    }
    assert forall|v: int| 0 <= v < post.nv() implies #[trigger] post.incoming(v).no_duplicates() by {
        assert(post.vertex(v) == post.vertex(v));
        if v != i && v != j {
            assert(post.incoming(v) == pre.incoming(v));
        } else {
            let s0 = pre.incoming_or_empty(v);
            let x = if v == i { h1 } else { h0 };
            assert(post.incoming(v) == s0.push(x as usize));
            if v < pre.nv() {
                assert(s0.no_duplicates());
                assert forall|k: int| 0 <= k < s0.len() implies s0[k] < pre.nh() by {
                    assert(pre.incoming(v)[k] < pre.nh());
                }
            }
            assert forall|p: int, q: int| 0 <= p < post.incoming(v).len() && 0 <= q < post.incoming(v).len()
                && p != q implies post.incoming(v)[p] != post.incoming(v)[q] by {
                if p < s0.len() && q < s0.len() {
                    assert(post.incoming(v)[p] == s0[p]);
                    assert(post.incoming(v)[q] == s0[q]);
                } else if p < s0.len() {
                    assert(post.incoming(v)[p] == s0[p]);
                    assert(s0[p] < pre.nh());
                } else if q < s0.len() {
                    assert(post.incoming(v)[q] == s0[q]);
                    assert(s0[q] < pre.nh());
                }
            }
        }
    }
    assert forall|v: int| 0 <= v < post.nv() implies #[trigger] post.incoming(v).len() > 0 by {
        assert(post.vertex(v) == post.vertex(v));
        if v != i && v != j {
            assert(post.incoming(v) == pre.incoming(v));
        }
    }
    assert forall|h: int| 0 <= h < post.nh() implies #[trigger] post.incoming(post.origin_of(h)).contains(
        post.twin_of(h) as usize,
    ) by {
        if h == h0 {
            assert(post.incoming(i as int).last() == h1);
        } else if h == h1 {
            assert(post.incoming(j as int).last() == h0);
        } else {
            let o = pre.origin_of(h);
            let t = pre.twin_of(h) as usize;
            assert(pre.incoming(o).contains(t));
            let k = choose|k: int| 0 <= k < pre.incoming(o).len() && pre.incoming(o)[k] == t;
            assert(post.incoming(o)[k] == t);
        }
    }
}

/// Position after `k` in a cyclic list of length `n`.
pub open spec fn next_slot(n: int, k: int) -> int {
    if k + 1 == n {
        0
    } else {
        k + 1
    }
}

/// Rank of a direction in the counter-clockwise sweep that starts straight down.
pub open spec fn dir_rank(d: (int, int)) -> int {
    if d.0 == 0 && d.1 < 0 {
        0
    } else if d.0 > 0 {
        1
    } else if d.0 == 0 {
        2
    } else {
        3
    }
}

/// Does direction `a` come no later than `b` in the counter-clockwise sweep that
/// starts straight down?
pub open spec fn angle_le(a: (int, int), b: (int, int)) -> bool {
    dir_rank(a) < dir_rank(b) || (dir_rank(a) == dir_rank(b) && a.0 * b.1 - a.1 * b.0 >= 0)
}

/// `a` and `b` hold the same entries, each once.
pub open spec fn same_entries(a: Seq<usize>, b: Seq<usize>) -> bool {
    &&& a.len() == b.len()
    &&& a.no_duplicates() == b.no_duplicates()
    &&& forall|x: usize| a.contains(x) <==> b.contains(x)
}

fn angle_le_exec(a: (i64, i64), b: (i64, i64)) -> (r: bool)
    requires
        -0x40_0000 <= a.0 <= 0x40_0000,
        -0x40_0000 <= a.1 <= 0x40_0000,
        -0x40_0000 <= b.0 <= 0x40_0000,
        -0x40_0000 <= b.1 <= 0x40_0000,
    ensures
        r == angle_le((a.0 as int, a.1 as int), (b.0 as int, b.1 as int)),
{
    let ra: i64 = if a.0 == 0 && a.1 < 0 { 0 } else if a.0 > 0 { 1 } else if a.0 == 0 { 2 } else { 3 };
    let rb: i64 = if b.0 == 0 && b.1 < 0 { 0 } else if b.0 > 0 { 1 } else if b.0 == 0 { 2 } else { 3 };
    proof {
        crate::geometry::lemma_mul_small(a.0 as int, b.1 as int, 0x40_0000, 0x40_0000);
        crate::geometry::lemma_mul_small(a.1 as int, b.0 as int, 0x40_0000, 0x40_0000);
    }
    ra < rb || (ra == rb && a.0 * b.1 - a.1 * b.0 >= 0)
}

/// Any two directions are ordered one way or the other.
proof fn lemma_angle_total(a: (int, int), b: (int, int))
    ensures
        angle_le(a, b) || angle_le(b, a),
{
    assert(a.0 * b.1 - a.1 * b.0 == -(b.0 * a.1 - b.1 * a.0)) by (nonlinear_arith);
}

proof fn lemma_insert_sorted(d: &DCEL, v: int, s: Seq<usize>, j: int, e: usize)
    requires
        0 <= j <= s.len(),
        forall|k: int| 0 <= k < s.len() - 1 ==> #[trigger] angle_le(d.dir(v, s[k] as int), d.dir(v, s[k + 1] as int)),
        j > 0 ==> angle_le(d.dir(v, s[j - 1] as int), d.dir(v, e as int)),
        forall|m: int| j <= m < s.len() ==> !angle_le(#[trigger] d.dir(v, s[m] as int), d.dir(v, e as int)),
    ensures
        forall|k: int| 0 <= k < s.insert(j, e).len() - 1 ==> #[trigger] angle_le(d.dir(v, s.insert(j, e)[k] as int), d.dir(v, s.insert(j, e)[k + 1] as int)),
{
    let t = s.insert(j, e);
    assert forall|k: int| 0 <= k < t.len() - 1 implies #[trigger] angle_le(d.dir(v, t[k] as int), d.dir(v, t[k + 1] as int)) by {
        if k < j - 1 {
            assert(t[k] == s[k] && t[k + 1] == s[k + 1]);
            assert(angle_le(d.dir(v, s[k] as int), d.dir(v, s[k + 1] as int)));
        } else if k == j - 1 {
            assert(t[k] == s[k] && t[k + 1] == e);
        } else if k == j {
            assert(t[k] == e && t[k + 1] == s[j]);
            assert(!angle_le(d.dir(v, s[j] as int), d.dir(v, e as int)));
            lemma_angle_total(d.dir(v, s[j] as int), d.dir(v, e as int));
        } else {
            assert(t[k] == s[k - 1] && t[k + 1] == s[k]);
            assert(angle_le(d.dir(v, s[k - 1] as int), d.dir(v, s[k - 1 + 1] as int)));
        }
    }
}

proof fn lemma_same_entries_insert(a: Seq<usize>, b: Seq<usize>, j: int, e: usize)
    requires
        same_entries(a, b),
        0 <= j <= a.len(),
        b.push(e).no_duplicates() ==> b.no_duplicates(),
    ensures
        same_entries(a.insert(j, e), b.push(e)),
{
    let t = a.insert(j, e);
    let u = b.push(e);
    assert forall|x: usize| t.contains(x) <==> u.contains(x) by {
        if t.contains(x) {
            let k = choose|k: int| 0 <= k < t.len() && t[k] == x;
            if x != e {
                if k < j {
                    assert(a[k] == x);
                } else {
                    assert(a[k - 1] == x);
                }
                assert(a.contains(x));
                assert(b.contains(x));
                let m = choose|m: int| 0 <= m < b.len() && b[m] == x;
                assert(u[m] == x);
            } else {
                assert(u[b.len() as int] == e);
            }
        }
        if u.contains(x) {
            let k = choose|k: int| 0 <= k < u.len() && u[k] == x;
            if x != e {
                assert(b[k] == x);
                assert(b.contains(x));
                assert(a.contains(x));
                let m = choose|m: int| 0 <= m < a.len() && a[m] == x;
                if m < j {
                    assert(t[m] == x);
                } else {
                    assert(t[m + 1] == x);
                }
            } else {
                assert(t[j] == e);
            }
        }
    }
    assert(t.no_duplicates() == u.no_duplicates()) by {
        if u.no_duplicates() {
            assert(!b.contains(e)) by {
                if b.contains(e) {
                    let m = choose|m: int| 0 <= m < b.len() && b[m] == e;
                    assert(u[m] == u[b.len() as int]);
                }
            }
            assert(!a.contains(e));
            assert forall|p: int, q: int| 0 <= p < t.len() && 0 <= q < t.len() && p != q implies t[p] != t[q] by {
                let ap = if p < j { p } else { p - 1 };
                let aq = if q < j { q } else { q - 1 };
                if p != j && q != j {
                    assert(t[p] == a[ap] && t[q] == a[aq]);
                } else if p == j {
                    assert(t[q] == a[aq]);
                } else {
                    assert(t[p] == a[ap]);
                }
            }
        }
        if t.no_duplicates() {
            assert(!a.contains(e)) by {
                if a.contains(e) {
                    let m = choose|m: int| 0 <= m < a.len() && a[m] == e;
                    if m < j {
                        assert(t[m] == t[j]);
                    } else {
                        assert(t[m + 1] == t[j]);
                    }
                }
            }
            assert(!b.contains(e));
            assert forall|p: int, q: int| 0 <= p < a.len() && 0 <= q < a.len() && p != q implies a[p] != a[q] by {
                let tp = if p < j { p } else { p + 1 };
                let tq = if q < j { q } else { q + 1 };
                assert(t[tp] == a[p] && t[tq] == a[q]);
            }
            assert(a.no_duplicates());
            assert(b.no_duplicates());
            assert forall|p: int, q: int| 0 <= p < u.len() && 0 <= q < u.len() && p != q implies u[p] != u[q] by {
                if p < b.len() && q < b.len() {
                } else if p < b.len() {
                    assert(b.contains(u[p]));
                } else if q < b.len() {
                    assert(b.contains(u[q]));
                }
            }
        }
    }
}

/// Rearranging one arrival list keeps the invariant.
proof fn lemma_rearranged_wf(a: DCEL, b: DCEL, i: int)
    requires
        a.wf(),
        b.same_frame(&a),
        0 <= i < a.nv(),
        same_entries(b.incoming(i), a.incoming(i)),
        forall|v: int| 0 <= v < a.nv() && v != i ==> #[trigger] b.incoming(v) == a.incoming(v),
    ensures
        b.wf(),
{
    assert forall|v: int, k: int| 0 <= v < b.nv() && 0 <= k < b.incoming(v).len() implies {
        &&& #[trigger] b.incoming(v)[k] < b.nh()
        &&& b.origin_of(b.twin_of(b.incoming(v)[k] as int)) == v
    } by {
        let x = b.incoming(v)[k];
        if v == i {
            assert(b.incoming(v).contains(x));
            assert(a.incoming(v).contains(x));
            let q = choose|q: int| 0 <= q < a.incoming(v).len() && a.incoming(v)[q] == x;
            assert(a.incoming(v)[q] < a.nh());
            assert(b.he(x as int) == b.he(x as int));
            assert(b.he(a.twin_of(x as int)) == b.he(a.twin_of(x as int)));
        } else {
            assert(b.incoming(v) == a.incoming(v));
            assert(a.incoming(v)[k] < a.nh());
            assert(b.he(x as int) == b.he(x as int));
            assert(b.he(a.twin_of(x as int)) == b.he(a.twin_of(x as int)));
        }
    }
    assert forall|v: int| 0 <= v < b.nv() implies #[trigger] b.incoming(v).no_duplicates() by {
        if v != i {
            assert(b.incoming(v) == a.incoming(v));
        } else {
            assert(a.incoming(v).no_duplicates());
        }
    }
    assert forall|v: int| 0 <= v < b.nv() implies #[trigger] b.incoming(v).len() > 0 by {
        if v != i {
            assert(b.incoming(v) == a.incoming(v));
        } else {
            assert(a.incoming(v).len() > 0);
        }
    }
    assert forall|h: int| 0 <= h < b.nh() implies #[trigger] b.incoming(b.origin_of(h)).contains(b.twin_of(h) as usize) by {
        assert(b.he(h) == b.he(h));
        let o = a.origin_of(h);
        assert(a.incoming(o).contains(a.twin_of(h) as usize));
        if o != i {
            assert(b.incoming(o) == a.incoming(o));
        }
    }
    assert forall|h: int| 0 <= h < b.nh() implies {
        &&& 0 <= #[trigger] b.twin_of(h) < b.nh()
        &&& b.twin_of(b.twin_of(h)) == h
        &&& b.twin_of(h) != h
    } by {
        assert(b.he(h) == b.he(h));
        assert(0 <= a.twin_of(h) < a.nh() && a.twin_of(a.twin_of(h)) == h && a.twin_of(h) != h);
        assert(b.he(a.twin_of(h)) == b.he(a.twin_of(h)));
    }
    assert forall|h: int| 0 <= h < b.nh() implies {
        &&& 0 <= #[trigger] b.origin_of(h) < b.nv()
        &&& b.origin_of(h) != b.origin_of(b.twin_of(h))
    } by {
        assert(b.he(h) == b.he(h));
        assert(0 <= a.twin_of(h) < a.nh());
        assert(b.he(a.twin_of(h)) == b.he(a.twin_of(h)));
        assert(0 <= a.origin_of(h) < a.nv() && a.origin_of(h) != a.origin_of(a.twin_of(h)));
    }
    assert forall|v: int| 0 <= v < b.nv() implies {
        &&& (#[trigger] b.vertex(v)).spec_incident_edge() < b.nh()
        &&& b.origin_of(b.vertex(v).spec_incident_edge() as int) == v
    } by {
        assert(b.vertex(v) == a.vertex(v));
        assert(a.vertex(v).spec_incident_edge() < a.nh());
        assert(b.he(a.vertex(v).spec_incident_edge() as int) == b.he(a.vertex(v).spec_incident_edge() as int));
    }
    lemma_index_frame(a, b);
}

/// Writes at the halfedges that leave or reach vertex `i` keep the stitching at
/// another vertex.
proof fn lemma_stitched_frame(a: DCEL, b: DCEL, v: int, i: int)
    requires
        a.wf(),
        b.same_frame(&a),
        0 <= v < a.nv(),
        v != i,
        a.stitched(v),
        b.incoming(v) == a.incoming(v),
        forall|h: int| 0 <= h < a.nh() && a.origin_of(h) != i ==> (#[trigger] b.he(h)).next == a.he(h).next,
        forall|h: int| 0 <= h < a.nh() && a.origin_of(a.twin_of(h)) != i ==> (#[trigger] b.he(h)).prev == a.he(h).prev,
    ensures
        b.stitched(v),
{
    let s = a.incoming(v);
    assert forall|k: int| 0 <= k < s.len() - 1 implies #[trigger] angle_le(b.dir(v, s[k] as int), b.dir(v, s[k + 1] as int)) by {
        assert(angle_le(a.dir(v, s[k] as int), a.dir(v, s[k + 1] as int)));
        assert(s[k] < a.nh() && s[k + 1] < a.nh());
        assert(b.he(s[k] as int).origin == a.he(s[k] as int).origin);
        assert(b.he(s[k + 1] as int).origin == a.he(s[k + 1] as int).origin);
        assert(b.vertex(v) == a.vertex(v));
        assert(0 <= a.origin_of(s[k] as int) < a.nv());
        assert(0 <= a.origin_of(s[k + 1] as int) < a.nv());
        assert(b.vertex(a.origin_of(s[k] as int)) == a.vertex(a.origin_of(s[k] as int)));
        assert(b.vertex(a.origin_of(s[k + 1] as int)) == a.vertex(a.origin_of(s[k + 1] as int)));
    }
    assert forall|k: int| 0 <= k < s.len() implies {
        &&& b.he(b.twin_of(#[trigger] s[k] as int)).next == s[next_slot(s.len() as int, k)]
        &&& b.he(s[next_slot(s.len() as int, k)] as int).prev == b.twin_of(s[k] as int)
    } by {
        let x = s[k] as int;
        let y = s[next_slot(s.len() as int, k)] as int;
        assert(x < a.nh() && y < a.nh());
        assert(a.origin_of(a.twin_of(x)) == v);
        assert(a.origin_of(a.twin_of(y)) == v);
        assert(b.he(x) == b.he(x));
        assert(a.he(a.twin_of(x)).next == y);
        assert(b.he(a.twin_of(x)).next == a.he(a.twin_of(x)).next);
        assert(b.he(y).prev == a.he(y).prev);
    }
}

/// Once every vertex is stitched, every halfedge has a next and a previous one.
proof fn lemma_stitched_linked(d: DCEL)
    requires
        d.wf(),
        forall|v: int| 0 <= v < d.nv() ==> #[trigger] d.stitched(v),
    ensures
        d.linked(),
{
    assert forall|h: int| 0 <= h < d.nh() implies #[trigger] d.he(h).next < d.nh() && d.he(h).prev < d.nh() by {
        let o = d.origin_of(h);
        let t = d.twin_of(h);
        assert(0 <= o < d.nv());
        let s = d.incoming(o);
        assert(s.contains(t as usize));
        let k = choose|k: int| 0 <= k < s.len() && s[k] == t as usize;
        assert(d.stitched(o));
        assert(d.twin_of(t) == h);
        assert(d.he(d.twin_of(s[k] as int)).next == s[next_slot(s.len() as int, k)]);
        assert(s[next_slot(s.len() as int, k)] < d.nh());
        let o2 = d.origin_of(t);
        assert(0 <= o2 < d.nv());
        let s2 = d.incoming(o2);
        assert(s2.contains(d.twin_of(t) as usize));
        let m = choose|m: int| 0 <= m < s2.len() && s2[m] == h as usize;
        let pm = if m == 0 { s2.len() - 1 } else { m - 1 };
        assert(next_slot(s2.len() as int, pm) == m);
        assert(d.stitched(o2));
        assert(d.he(s2[next_slot(s2.len() as int, pm)] as int).prev == d.twin_of(s2[pm] as int));
        assert(s2[pm] < d.nh());
    }
}

proof fn lemma_same_shape_trans(a: DCEL, b: DCEL, c: DCEL)
    requires
        b.same_shape(&a),
        c.halfedges@ == b.halfedges@,
        c.vertices@ == b.vertices@,
        c.faces@ == b.faces@,
        c.map@ == b.map@,
        c.adj@.len() == b.adj@.len(),
    ensures
        c.same_shape(&a),
{
    assert forall|h: int| 0 <= h < c.nh() implies {
        &&& (#[trigger] c.he(h)).twin == a.he(h).twin
        &&& c.he(h).origin == a.he(h).origin
        &&& c.he(h).face == a.he(h).face
        &&& c.he(h).alive == a.he(h).alive
    } by {
        assert(c.he(h) == b.he(h));
    }
    assert forall|v: int| 0 <= v < c.nv() implies #[trigger] c.vertex(v) == a.vertex(v) by {
        assert(c.vertex(v) == b.vertex(v));
    }
    assert forall|f: int| 0 <= f < c.nf() implies #[trigger] c.face(f) == a.face(f) by {
        assert(c.face(f) == b.face(f));
    }
}

proof fn lemma_same_entries_trans(a: Seq<usize>, b: Seq<usize>, c: Seq<usize>)
    requires
        same_entries(a, b),
        same_entries(b, c),
    ensures
        same_entries(a, c),
{
    assert forall|x: usize| a.contains(x) <==> c.contains(x) by {
        assert(a.contains(x) <==> b.contains(x));
        assert(b.contains(x) <==> c.contains(x));
    }
}

/// Changing only links and faces keeps the invariant.
proof fn lemma_same_frame_wf(a: DCEL, b: DCEL)
    requires
        a.wf(),
        b.same_frame(&a),
        forall|v: int| 0 <= v < a.nv() ==> #[trigger] b.incoming(v) == a.incoming(v),
    ensures
        b.wf(),
{
    if a.nv() > 0 {
        lemma_rearranged_wf(a, b, 0);
    } else {
        if a.nh() > 0 {
            assert(0 <= a.origin_of(0) < a.nv());
        }
        assert(b.index_ok()) by {
            assert forall|k: u64| #[trigger] b.index_of().contains_key(k) implies {
                &&& b.index_of()[k] < b.nv()
                &&& grid_key(b.vertex(b.index_of()[k] as int).spec_coordinates()) == k
            } by {
                assert(a.index_of().contains_key(k));
            }
        }
    }
}

proof fn lemma_same_frame_trans(a: DCEL, b: DCEL, c: DCEL)
    requires
        b.same_frame(&a),
        c.same_frame(&b),
    ensures
        c.same_frame(&a),
{
    assert forall|h: int| 0 <= h < c.nh() implies {
        &&& (#[trigger] c.he(h)).twin == a.he(h).twin
        &&& c.he(h).origin == a.he(h).origin
    } by {
        assert(b.he(h) == b.he(h));
    }
    assert forall|v: int| 0 <= v < c.nv() implies #[trigger] c.vertex(v) == a.vertex(v) by {
        assert(b.vertex(v) == a.vertex(v));
    }
}

/// Clearing a vertex's alive flag keeps the invariant.
proof fn lemma_vertex_flag_wf(a: DCEL, b: DCEL, v: int)
    requires
        a.wf(),
        a.linked(),
        0 <= v < a.nv(),
        b.halfedges@ == a.halfedges@,
        b.faces@ == a.faces@,
        b.adj@ == a.adj@,
        b.map@ == a.map@,
        b.nv() == a.nv(),
        forall|w: int| 0 <= w < b.nv() && w != v ==> #[trigger] b.vertex(w) == a.vertex(w),
        b.vertex(v).spec_coordinates() == a.vertex(v).spec_coordinates(),
        b.vertex(v).spec_incident_edge() == a.vertex(v).spec_incident_edge(),
    ensures
        b.wf(),
        b.linked(),
{
    assert forall|w: int| 0 <= w < b.nv() implies {
        &&& (#[trigger] b.vertex(w)).spec_incident_edge() < b.nh()
        &&& b.origin_of(b.vertex(w).spec_incident_edge() as int) == w
    } by {
        assert(a.vertex(w).spec_incident_edge() < a.nh());
    }
    lemma_index_frame(a, b);
    assert forall|h: int| 0 <= h < b.nh() implies #[trigger] b.he(h) == a.he(h) by {}
    assert forall|w: int| 0 <= w < b.nv() implies #[trigger] b.incoming(w) == a.incoming(w) by {}
    assert forall|h: int| 0 <= h < b.nh() implies {
        &&& 0 <= #[trigger] b.twin_of(h) < b.nh()
        &&& b.twin_of(b.twin_of(h)) == h
        &&& b.twin_of(h) != h
    } by {
        assert(0 <= a.twin_of(h) < a.nh() && a.twin_of(a.twin_of(h)) == h && a.twin_of(h) != h);
        assert(b.he(a.twin_of(h)) == a.he(a.twin_of(h)));
    }
    assert forall|h: int| 0 <= h < b.nh() implies {
        &&& 0 <= #[trigger] b.origin_of(h) < b.nv()
        &&& b.origin_of(h) != b.origin_of(b.twin_of(h))
    } by {
        assert(0 <= a.origin_of(h) < a.nv() && a.origin_of(h) != a.origin_of(a.twin_of(h)));
        assert(0 <= a.twin_of(h) < a.nh());
        assert(b.he(a.twin_of(h)) == a.he(a.twin_of(h)));
    }
    assert forall|w: int, k: int| 0 <= w < b.nv() && 0 <= k < b.incoming(w).len() implies {
        &&& #[trigger] b.incoming(w)[k] < b.nh()
        &&& b.origin_of(b.twin_of(b.incoming(w)[k] as int)) == w
    } by {
        assert(a.incoming(w)[k] < a.nh());
        let x = a.incoming(w)[k] as int;
        assert(b.he(x) == a.he(x));
        assert(0 <= a.twin_of(x) < a.nh());
        assert(b.he(a.twin_of(x)) == a.he(a.twin_of(x)));
    }
    assert forall|h: int| 0 <= h < b.nh() implies #[trigger] b.incoming(b.origin_of(h)).contains(b.twin_of(h) as usize) by {
        assert(b.he(h) == a.he(h));
        assert(a.incoming(a.origin_of(h)).contains(a.twin_of(h) as usize));
        assert(0 <= a.origin_of(h) < a.nv());
    }
    assert forall|w: int| 0 <= w < b.nv() implies #[trigger] b.incoming(w).no_duplicates() by {
        assert(a.incoming(w).no_duplicates());
    }
    assert forall|w: int| 0 <= w < b.nv() implies #[trigger] b.incoming(w).len() > 0 by {
        assert(a.incoming(w).len() > 0);
    }
}

/// Twin symmetry: in every DCEL the twin of a halfedge's twin is the halfedge
/// itself, and a halfedge starts at another vertex than its twin.
pub proof fn lemma_twin_symmetry(d: &DCEL, h: int)
    requires
        d.wf(),
        0 <= h < d.nh(),
    ensures
        d.twin_of(d.twin_of(h)) == h,
        d.origin_of(h) != d.origin_of(d.twin_of(h)),
{
    assert(d.twins_ok() && d.origins_ok());
    assert(0 <= d.twin_of(h) < d.nh() && d.twin_of(d.twin_of(h)) == h);
    assert(0 <= d.origin_of(h) < d.nv() && d.origin_of(h) != d.origin_of(d.twin_of(h)));
}

/// The segments drawn for the first `k` halfedges: from the origin of each alive
/// linked halfedge to the origin of its successor.
pub open spec fn line_segments(d: &DCEL, k: nat) -> Seq<((i64, i64), (i64, i64))>
    decreases k,
{
    if k == 0 {
        Seq::empty()
    } else {
        let rest = line_segments(d, (k - 1) as nat);
        let e = d.he(k - 1);
        if e.alive && e.next < d.nh() {
            rest.push((d.origin_point(k - 1), d.origin_point(e.next as int)))
        } else {
            rest
        }
    }
}

/// Constructs the line segments of the subdivision.
pub fn make_line_segments(dcel: &DCEL) -> (r: Vec<((i64, i64), (i64, i64))>)
    requires
        dcel.wf(),
    ensures
        r@ == line_segments(dcel, dcel.nh()),
{
    let mut result: Vec<((i64, i64), (i64, i64))> = Vec::new();
    let n = dcel.num_halfedges();
    for h in 0..n
        invariant
            dcel.wf(),
            n == dcel.nh(),
            result@ == line_segments(dcel, h as nat),
    {
        let e = dcel.halfedge(h);
        if e.alive && e.next < n {
            result.push((dcel.get_origin(h), dcel.get_origin(e.next)));
        }
    }
    result
}

/// The coordinate index stays valid while the vertex coordinates stay.
proof fn lemma_index_frame(a: DCEL, b: DCEL)
    requires
        a.index_ok(),
        b.index_of() == a.index_of(),
        b.nv() == a.nv(),
        forall|w: int| 0 <= w < b.nv() ==> (#[trigger] b.vertex(w)).spec_coordinates() == a.vertex(w).spec_coordinates(),
    ensures
        b.index_ok(),
{
    assert forall|k: u64| #[trigger] b.index_of().contains_key(k) implies {
        &&& b.index_of()[k] < b.nv()
        &&& grid_key(b.vertex(b.index_of()[k] as int).spec_coordinates()) == k
    } by {
        assert(a.index_of().contains_key(k));
        assert(a.index_of()[k] < a.nv());
        assert(b.vertex(a.index_of()[k] as int).spec_coordinates() == a.vertex(a.index_of()[k] as int).spec_coordinates());
    }
    assert forall|w: int| 0 <= w < b.nv() implies {
        &&& #[trigger] grid_ok(b.vertex(w).spec_coordinates())
        &&& b.index_of().contains_key(grid_key(b.vertex(w).spec_coordinates()))
        &&& b.index_of()[grid_key(b.vertex(w).spec_coordinates())] == w
    } by {
        assert(b.vertex(w).spec_coordinates() == a.vertex(w).spec_coordinates());
        assert(grid_ok(a.vertex(w).spec_coordinates()));
    }
}

/// After `build`, no two halfedges share a successor.
proof fn lemma_next_injective(d: DCEL, h1: int, h2: int)
    requires
        d.wf(),
        forall|v: int| 0 <= v < d.nv() ==> #[trigger] d.stitched(v),
        0 <= h1 < d.nh(),
        0 <= h2 < d.nh(),
        d.he(h1).next == d.he(h2).next,
    ensures
        h1 == h2,
{
    let o1 = d.origin_of(h1);
    let o2 = d.origin_of(h2);
    assert(0 <= o1 < d.nv() && 0 <= o2 < d.nv());
    let s1 = d.incoming(o1);
    let s2 = d.incoming(o2);
    assert(s1.contains(d.twin_of(h1) as usize));
    assert(s2.contains(d.twin_of(h2) as usize));
    let k1 = choose|k: int| 0 <= k < s1.len() && s1[k] == d.twin_of(h1) as usize;
    let k2 = choose|k: int| 0 <= k < s2.len() && s2[k] == d.twin_of(h2) as usize;
    assert(d.stitched(o1) && d.stitched(o2));
    assert(0 <= d.twin_of(h1) < d.nh() && d.twin_of(d.twin_of(h1)) == h1);
    assert(0 <= d.twin_of(h2) < d.nh() && d.twin_of(d.twin_of(h2)) == h2);
    assert(d.he(d.twin_of(s1[k1] as int)).next == s1[next_slot(s1.len() as int, k1)]);
    assert(d.he(d.twin_of(s2[k2] as int)).next == s2[next_slot(s2.len() as int, k2)]);
    let y = d.he(h1).next;
    let j1 = next_slot(s1.len() as int, k1);
    let j2 = next_slot(s2.len() as int, k2);
    assert(s1[j1] < d.nh() && d.origin_of(d.twin_of(s1[j1] as int)) == o1);
    assert(s2[j2] < d.nh() && d.origin_of(d.twin_of(s2[j2] as int)) == o2);
    assert(o1 == o2);
    assert(s1.no_duplicates());
    assert(j1 == j2);
    assert(k1 == k2);
}

/// Stepping back along `next`: equal positions after `i <= j` steps give equal
/// positions after `0` and `j - i` steps.
proof fn lemma_step_cancel(d: DCEL, h: int, i: nat, j: nat)
    requires
        d.wf(),
        d.linked(),
        forall|v: int| 0 <= v < d.nv() ==> #[trigger] d.stitched(v),
        0 <= h < d.nh(),
        i <= j,
        d.step(h, i) == d.step(h, j),
    ensures
        d.step(h, (j - i) as nat) == h,
    decreases i,
{
    if i > 0 {
        lemma_step_in_range(d, h, (i - 1) as nat);
        lemma_step_in_range(d, h, (j - 1) as nat);
        lemma_next_injective(d, d.step(h, (i - 1) as nat), d.step(h, (j - 1) as nat));
        lemma_step_cancel(d, h, (i - 1) as nat, (j - 1) as nat);
    }
}

proof fn lemma_step_in_range(d: DCEL, h: int, k: nat)
    requires
        d.linked(),
        0 <= h < d.nh(),
    ensures
        0 <= d.step(h, k) < d.nh(),
    decreases k,
{
    if k > 0 {
        lemma_step_in_range(d, h, (k - 1) as nat);
        assert(d.he(d.step(h, (k - 1) as nat)).next < d.nh());
    }
}

/// Cycle closure: in a built DCEL, following `next` from any halfedge comes
/// back to it within `nh()` steps.
pub proof fn lemma_next_cycle_closes(d: &DCEL, h: int)
    requires
        d.wf(),
        d.linked(),
        forall|v: int| 0 <= v < d.nv() ==> #[trigger] d.stitched(v),
        0 <= h < d.nh(),
    ensures
        exists|k: nat| 1 <= k <= d.nh() && d.step(h, k) == h,
{
    let n = d.nh();
    let s = Seq::new(n + 1, |i: int| d.step(h, i as nat));
    if s.no_duplicates() {
        s.unique_seq_to_set();
        vstd::set_lib::lemma_int_range(0, n as int);
        assert forall|x: int| s.to_set().contains(x) implies vstd::set_lib::set_int_range(0, n as int).contains(x) by {
            let i = choose|i: int| 0 <= i < s.len() && s[i] == x;
            lemma_step_in_range(*d, h, i as nat);
        }
        vstd::set_lib::lemma_len_subset(s.to_set(), vstd::set_lib::set_int_range(0, n as int));
        assert(false);
    } else {
        let (i, j) = choose|i: int, j: int| 0 <= i < s.len() && 0 <= j < s.len() && i != j && s[i] == s[j];
        if i < j {
            lemma_step_cancel(*d, h, i as nat, j as nat);
            assert(d.step(h, (j - i) as nat) == h);
        } else {
            lemma_step_cancel(*d, h, j as nat, i as nat);
            assert(d.step(h, (i - j) as nat) == h);
        }
    }
}

/// The stitching is a matter of links, arrival lists and coordinates only.
pub proof fn lemma_stitched_kept(a: &DCEL, b: &DCEL)
    requires
        a.wf(),
        b.same_frame(a),
        forall|v: int| 0 <= v < a.nv() ==> #[trigger] a.stitched(v),
        forall|v: int| 0 <= v < a.nv() ==> #[trigger] b.incoming(v) == a.incoming(v),
        forall|h: int| 0 <= h < a.nh() ==> (#[trigger] b.he(h)).next == a.he(h).next && b.he(h).prev == a.he(h).prev,
    ensures
        forall|v: int| 0 <= v < a.nv() ==> #[trigger] b.stitched(v),
{
    assert forall|v: int| 0 <= v < a.nv() implies #[trigger] b.stitched(v) by {
        lemma_stitched_frame(*a, *b, v, -1);
    }
}

proof fn lemma_walk_start(a: DCEL, b: DCEL, pre: DCEL, seen: Seq<bool>, pred: Map<int, int>, e: int, fi: int)
    requires
        pre.linked(),
        a.faces_done(pre, seen, pred),
        0 <= e < pre.nh(),
        !seen[e],
        fi == a.nf(),
        b.nf() == fi + 1,
        b.face(fi) == Face::new_spec(e as usize),
        forall|f: int| 0 <= f < a.nf() ==> #[trigger] b.face(f) == a.face(f),
        b.same_frame(&a),
        b.adj@ == a.adj@,
        forall|h: int| 0 <= h < a.nh() ==> #[trigger] b.he(h) == a.he(h),
    ensures
        b.walk_state(pre, seen, pred, e, -1, e, fi, 0),
{
    reveal(DCEL::faces_done);
    reveal(DCEL::walk_state);
    lemma_same_frame_trans(pre, a, b);
    let n = pre.nh() as int;
    assert forall|h: int| 0 <= h < n && #[trigger] seen[h] implies 0 <= b.he(h).face <= fi by {
        assert(b.he(h) == a.he(h));
    }
    assert forall|h: int| 0 <= h < n implies {
        &&& (#[trigger] b.he(h)).next == pre.he(h).next
        &&& b.he(h).prev == pre.he(h).prev
        &&& b.he(h).alive == pre.he(h).alive
    } by {
        assert(b.he(h) == a.he(h));
    }
    assert forall|v: int| 0 <= v < pre.nv() implies #[trigger] b.incoming(v) == pre.incoming(v) by {
        assert(a.incoming(v) == pre.incoming(v));
    }
    assert forall|h: int| 0 <= h < n && #[trigger] seen[h] && h != -1 implies seen[pre.he(h).next as int] && b.he(
        pre.he(h).next as int).face == b.he(h).face by {
        assert(b.he(h) == a.he(h));
        assert(pre.he(h).next < n);
        assert(b.he(pre.he(h).next as int) == a.he(pre.he(h).next as int));
    }
    assert forall|y: int| 0 <= y < n && #[trigger] seen[y] && !(y == e && b.he(y).face == fi) implies {
        &&& pred.contains_key(y)
        &&& 0 <= pred[y] < n
        &&& seen[pred[y]]
        &&& b.he(pred[y]).face == b.he(y).face
        &&& pre.he(pred[y]).next == y
        &&& (b.he(y).face == fi ==> pred[y] != -1)
    } by {
        assert(b.he(y) == a.he(y));
        assert(b.he(pred[y]) == a.he(pred[y]));
    }
    assert forall|f: int| 0 <= f < fi implies {
        &&& (#[trigger] b.face(f)).spec_alive()
        &&& b.face(f).spec_outer_component() < n
        &&& seen[b.face(f).spec_outer_component() as int]
        &&& b.he(b.face(f).spec_outer_component() as int).face == f
    } by {
        assert(b.face(f) == a.face(f));
        assert(b.he(a.face(f).spec_outer_component() as int) == a.he(a.face(f).spec_outer_component() as int));
    }
}

#[verifier::rlimit(100)]
#[verifier::spinoff_prover]
proof fn lemma_walk_step(a: DCEL, b: DCEL, pre: DCEL, s0: Seq<bool>, s1: Seq<bool>, p0: Map<int, int>, p1: Map<int, int>, e: int, last: int, cur: int, fi: int, k: int)
    requires
        pre.linked(),
        a.walk_state(pre, s0, p0, e, last, cur, fi, k),
        !s0[cur],
        s1 == s0.update(cur, true),
        b.same_frame(&a),
        b.adj@ == a.adj@,
        b.nf() == a.nf(),
        forall|g: int| 0 <= g < a.nf() ==> #[trigger] b.face(g) == a.face(g),
        b.he(cur).face == fi,
        forall|k: int|
            0 <= k < a.nh() ==> {
                &&& (#[trigger] b.he(k)).next == a.he(k).next
                &&& b.he(k).prev == a.he(k).prev
                &&& b.he(k).alive == a.he(k).alive
                &&& (k != cur ==> b.he(k).face == a.he(k).face)
            },
        p1 == (if last != -1 { p0.insert(cur, last) } else { p0 }),
    ensures
        b.walk_state(pre, s1, p1, e, cur, pre.he(cur).next as int, fi, k + 1),
{
    reveal(DCEL::walk_state);
    assert(pre.step(e, (k + 1) as nat) == pre.he(pre.step(e, k as nat)).next);
    assert forall|h: int| 0 <= h < pre.nh() && #[trigger] s1[h] && b.he(h).face == fi implies DCEL::on_cycle(pre, e, h, k + 1) by {
        if h == cur {
            assert(pre.step(e, k as nat) == h);
        } else {
            assert(s0[h] && a.he(h).face == fi);
            assert(DCEL::on_cycle(pre, e, h, k));
            let j = choose|j: int| 0 <= j < k && #[trigger] pre.step(e, j as nat) == h;
            assert(pre.step(e, j as nat) == h);
        }
    }
    assert forall|h: int| 0 <= h < pre.nh() && #[trigger] s1[h] && b.he(h).face < fi implies DCEL::on_cycle(
        pre, b.face(b.he(h).face as int).spec_outer_component() as int, h, pre.nh() as int) by {
        assert(h != cur);
        assert(s0[h]);
        assert(b.he(h).face == a.he(h).face);
        assert(b.face(a.he(h).face as int) == a.face(a.he(h).face as int));
    }
    lemma_same_frame_trans(pre, a, b);
    let n = pre.nh() as int;
    assert(pre.he(cur).next < n);
    assert forall|k: int| 0 <= k < n && k != cur implies #[trigger] b.he(k) == a.he(k) by {
        assert(b.he(k).twin == a.he(k).twin && b.he(k).origin == a.he(k).origin);
    }
    assert forall|v: int| 0 <= v < pre.nv() implies #[trigger] b.incoming(v) == pre.incoming(v) by {
        assert(a.incoming(v) == pre.incoming(v));
    }
    assert forall|h: int| 0 <= h < n implies {
        &&& (#[trigger] b.he(h)).next == pre.he(h).next
        &&& b.he(h).prev == pre.he(h).prev
        &&& b.he(h).alive == pre.he(h).alive
    } by {
        assert(a.he(h).next == pre.he(h).next);
    }
    assert forall|h: int| 0 <= h < n && #[trigger] s1[h] implies 0 <= b.he(h).face <= fi by {
        if h != cur {
            assert(s0[h]);
        }
    }
    assert forall|h: int| 0 <= h < n && #[trigger] s1[h] && h != cur implies s1[pre.he(h).next as int] && b.he(
        pre.he(h).next as int).face == b.he(h).face by {
        assert(s0[h]);
        if h != last {
            assert(s0[pre.he(h).next as int]);
        }
    }
    assert forall|y: int| 0 <= y < n && #[trigger] s1[y] && !(y == e && b.he(y).face == fi) implies {
        &&& p1.contains_key(y)
        &&& 0 <= p1[y] < n
        &&& s1[p1[y]]
        &&& b.he(p1[y]).face == b.he(y).face
        &&& pre.he(p1[y]).next == y
        &&& (b.he(y).face == fi ==> p1[y] != cur)
    } by {
        if y != cur {
            assert(s0[y]);
            assert(p0.contains_key(y));
            assert(s0[p0[y]]);
            assert(p0[y] != cur);
        } else {
            assert(last != -1);
        }
    }
    assert forall|f: int| 0 <= f < fi implies {
        &&& (#[trigger] b.face(f)).spec_alive()
        &&& b.face(f).spec_outer_component() < n
        &&& s1[b.face(f).spec_outer_component() as int]
        &&& b.he(b.face(f).spec_outer_component() as int).face == f
    } by {
        assert(b.face(f) == a.face(f));
        assert(s0[a.face(f).spec_outer_component() as int]);
    }
}

proof fn lemma_walk_close(b: DCEL, pre: DCEL, s: Seq<bool>, pred: Map<int, int>, e: int, last: int, cur: int, fi: int, k: int)
    requires
        pre.wf(),
        forall|v: int| 0 <= v < pre.nv() ==> #[trigger] pre.stitched(v),
        b.walk_state(pre, s, pred, e, last, cur, fi, k),
        k <= pre.nh(),
        s[cur],
    ensures
        cur == e,
        last != -1,
        b.faces_done(pre, s, pred.insert(e, last)),
{
    reveal(DCEL::walk_state);
    reveal(DCEL::faces_done);
    if cur != e {
        let x = pred[cur];
        if b.he(cur).face == fi {
            assert(x != last);
        } else {
            assert(b.he(last).face == fi);
        }
        lemma_next_injective(pre, x, last);
        assert(false);
    }
    let p1 = pred.insert(e, last);
    let n = pre.nh() as int;
    assert forall|y: int| 0 <= y < n && #[trigger] s[y] implies {
        &&& p1.contains_key(y)
        &&& 0 <= p1[y] < n
        &&& s[p1[y]]
        &&& b.he(p1[y]).face == b.he(y).face
        &&& pre.he(p1[y]).next == y
    } by {
        if y != e {
            assert(pred.contains_key(y));
        }
    }
    assert forall|h: int| 0 <= h < n && #[trigger] s[h] implies s[pre.he(h).next as int] && b.he(pre.he(h).next as int).face
        == b.he(h).face by {
        if h == last {
            assert(pre.he(last).next == e);
        }
    }
    assert forall|f: int| 0 <= f < b.nf() implies {
        &&& (#[trigger] b.face(f)).spec_alive()
        &&& b.face(f).spec_outer_component() < n
        &&& s[b.face(f).spec_outer_component() as int]
        &&& b.he(b.face(f).spec_outer_component() as int).face == f
    } by {
        if f == fi {
            assert(b.face(fi) == Face::new_spec(e as usize));
        }
    }
}

proof fn lemma_faces_done_final(pre: DCEL, b: DCEL, s: Seq<bool>, pred: Map<int, int>)
    requires
        pre.wf(),
        pre.linked(),
        b.faces_done(pre, s, pred),
        forall|h: int| 0 <= h < pre.nh() ==> #[trigger] s[h],
        pre.all_alive(),
    ensures
        b.wf(),
        b.linked(),
        b.all_alive(),
        b.same_frame(&pre),
        forall|v: int| 0 <= v < pre.nv() ==> #[trigger] b.incoming(v) == pre.incoming(v),
        forall|h: int|
            0 <= h < pre.nh() ==> {
                &&& (#[trigger] b.he(h)).next == pre.he(h).next
                &&& b.he(h).prev == pre.he(h).prev
                &&& b.he(h).alive == pre.he(h).alive
            },
        forall|h: int| 0 <= h < pre.nh() ==> #[trigger] b.he(h).face < b.nf(),
        forall|h: int| 0 <= h < pre.nh() ==> b.he(#[trigger] b.he(h).next as int).face == b.he(h).face,
        forall|f: int|
            0 <= f < b.nf() ==> {
                &&& (#[trigger] b.face(f)).spec_alive()
                &&& b.face(f).spec_outer_component() < b.nh()
                &&& b.he(b.face(f).spec_outer_component() as int).alive
                &&& b.he(b.face(f).spec_outer_component() as int).face == f
            },
{
    reveal(DCEL::faces_done);
    lemma_same_frame_wf(pre, b);
    assert forall|h: int| 0 <= h < pre.nh() implies #[trigger] b.he(h).face < b.nf() by {
        assert(s[h]);
    }
    assert forall|h: int| 0 <= h < pre.nh() implies b.he(#[trigger] b.he(h).next as int).face == b.he(h).face by {
        assert(s[h]);
    }
    assert forall|h: int| 0 <= h < b.nh() implies (#[trigger] b.he(h)).next < b.nh() && b.he(h).prev < b.nh() by {
        assert(pre.he(h) == pre.he(h));
    }
    assert forall|h: int| 0 <= h < b.nh() implies (#[trigger] b.he(h)).alive by {
        assert(pre.he(h).alive);
    }
    assert forall|f: int| 0 <= f < b.nf() implies {
        &&& (#[trigger] b.face(f)).spec_alive()
        &&& b.face(f).spec_outer_component() < b.nh()
        &&& b.he(b.face(f).spec_outer_component() as int).alive
        &&& b.he(b.face(f).spec_outer_component() as int).face == f
    } by {
        assert(pre.he(b.face(f).spec_outer_component() as int).alive);
    }
}

/// Walks along `next` agree in two DCELs with the same links.
proof fn lemma_step_same(a: DCEL, b: DCEL, h: int, k: nat)
    requires
        a.linked(),
        a.nh() == b.nh(),
        0 <= h < a.nh(),
        forall|x: int| 0 <= x < a.nh() ==> (#[trigger] b.he(x)).next == a.he(x).next,
    ensures
        b.step(h, k) == a.step(h, k),
        0 <= a.step(h, k) < a.nh(),
    decreases k,
{
    if k > 0 {
        lemma_step_same(a, b, h, (k - 1) as nat);
        assert(a.he(a.step(h, (k - 1) as nat)).next < a.nh());
    }
}

/// After the walks each halfedge lies on the cycle of its face's halfedge.
proof fn lemma_faces_cycles(pre: DCEL, b: DCEL, s: Seq<bool>, pred: Map<int, int>)
    requires
        b.faces_done(pre, s, pred),
        forall|h: int| 0 <= h < pre.nh() ==> #[trigger] s[h],
    ensures
        forall|h: int| 0 <= h < pre.nh() ==> #[trigger] DCEL::on_cycle(pre, b.face(b.he(h).face as int).spec_outer_component() as int, h, pre.nh() as int),
{
    reveal(DCEL::faces_done);
    assert forall|h: int| 0 <= h < pre.nh() implies #[trigger] DCEL::on_cycle(pre, b.face(b.he(h).face as int).spec_outer_component() as int, h, pre.nh() as int) by {
        assert(s[h]);
    }
}

/// The cycle walks of `pre` are those of `b`, which has the same links.
proof fn lemma_cycles_transfer(pre: DCEL, b: DCEL)
    requires
        pre.linked(),
        pre.nh() == b.nh(),
        forall|x: int| 0 <= x < pre.nh() ==> (#[trigger] b.he(x)).next == pre.he(x).next,
        forall|h: int| 0 <= h < pre.nh() ==> #[trigger] DCEL::on_cycle(pre, b.face(b.he(h).face as int).spec_outer_component() as int, h, pre.nh() as int),
        forall|h: int| 0 <= h < pre.nh() ==> 0 <= #[trigger] b.he(h).face < b.nf(),
        forall|f: int| 0 <= f < b.nf() ==> (#[trigger] b.face(f)).spec_outer_component() < b.nh(),
    ensures
        forall|h: int| 0 <= h < pre.nh() ==> #[trigger] DCEL::on_cycle(b, b.face(b.he(h).face as int).spec_outer_component() as int, h, b.nh() as int),
{
    assert forall|h: int| 0 <= h < pre.nh() implies #[trigger] DCEL::on_cycle(b, b.face(b.he(h).face as int).spec_outer_component() as int, h, b.nh() as int) by {
        let o = b.face(b.he(h).face as int).spec_outer_component() as int;
        assert(DCEL::on_cycle(pre, o, h, pre.nh() as int));
        let j = choose|j: int| 0 <= j < pre.nh() && #[trigger] pre.step(o, j as nat) == h;
        assert(0 <= b.he(h).face < b.nf());
        lemma_step_same(pre, b, o, j as nat);
        assert(b.step(o, j as nat) == h);
    }
}

} // verus!
