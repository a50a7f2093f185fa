//! The island graph: lattice vertices joined by undirected edges, whose bounded
//! faces are the islands.
use vstd::prelude::*;
use crate::dcel::{DCEL, grid_ok, lemma_stitched_kept};
use crate::polygon::Polygon;

verus! {

/// Largest number of adjacency entries (twice the number of edges) of a graph.
pub const MAX_ENTRIES: usize = 1073741824;

/// Total length of the first `k` adjacency lists.
pub open spec fn entries_of(adj: Seq<Seq<usize>>, k: int) -> int
    decreases k,
{
    if k <= 0 {
        0
    } else {
        entries_of(adj, k - 1) + adj[k - 1].len()
    }
}

/// Strictly increasing.
pub open spec fn increasing(s: Seq<usize>) -> bool {
    forall|a: int, b: int| 0 <= a < b < s.len() ==> s[a] < s[b]
}

pub struct Graph {
    vertices: Vec<(i32, i32)>,
    adj: Vec<Vec<usize>>,
}

impl Graph {
    /// The coordinates of the vertices, by index.
    pub closed spec fn points(&self) -> Seq<(i32, i32)> {
        self.vertices@
    }

    /// The neighbours of vertex `v`, in increasing order.
    pub closed spec fn neighbors(&self, v: int) -> Seq<usize> {
        self.adj@[v]@
    }

    /// The adjacency lists.
    pub closed spec fn lists(&self) -> Seq<Seq<usize>> {
        self.adj@.map_values(|l: Vec<usize>| l@)
    }

    pub open spec fn nv(&self) -> nat {
        self.points().len()
    }

    /// Number of adjacency entries.
    pub open spec fn size(&self) -> int {
        entries_of(self.lists(), self.nv() as int)
    }

    /// Is `b` a neighbour of `a`?
    pub open spec fn has_edge(&self, a: int, b: int) -> bool {
        0 <= b <= usize::MAX && self.neighbors(a).contains(b as usize)
    }

    /// Vertices within the coordinate bound; sorted adjacency lists without
    /// repeats, of valid vertices; a bounded number of entries.
    pub open spec fn wf(&self) -> bool {
        &&& self.lists().len() == self.nv()
        &&& forall|v: int| 0 <= v < self.nv() ==> #[trigger] self.lists()[v] == self.neighbors(v)
        &&& forall|v: int| 0 <= v < self.nv() ==> grid_ok(#[trigger] self.points()[v])
        &&& forall|v: int| 0 <= v < self.nv() ==> increasing(#[trigger] self.neighbors(v))
        &&& forall|v: int, k: int| 0 <= v < self.nv() && 0 <= k < self.neighbors(v).len() ==> #[trigger] self.neighbors(v)[k] < self.nv()
        &&& self.size() <= MAX_ENTRIES
    }

    /// An empty graph.
    pub fn new() -> (r: Graph)
        ensures
            r.wf(),
            r.nv() == 0,
    {
        Graph { vertices: Vec::new(), adj: Vec::new() }
    }

    /// Adds a vertex without neighbours at `vertex`.
    pub fn add_vertex(&mut self, vertex: (i32, i32))
        requires
            old(self).wf(),
            grid_ok(vertex),
        ensures
            final(self).wf(),
            final(self).points() == old(self).points().push(vertex),
            final(self).neighbors(old(self).nv() as int).len() == 0,
            forall|v: int| 0 <= v < old(self).nv() ==> #[trigger] final(self).neighbors(v) == old(self).neighbors(v),
    {
        let ghost pre = *self;
        self.vertices.push(vertex);
        self.adj.push(Vec::new());
        proof {
            assert(self.lists() =~= pre.lists().push(Seq::empty()));
            lemma_entries_prefix(self.lists(), pre.lists(), pre.nv() as int);
            assert forall|v: int, k: int| 0 <= v < self.nv() && 0 <= k < self.neighbors(v).len() implies #[trigger] self.neighbors(v)[k] < self.nv() by {
                assert(v < pre.nv());
                assert(self.neighbors(v) == pre.neighbors(v));
            }
            assert forall|v: int| 0 <= v < self.nv() implies grid_ok(#[trigger] self.points()[v]) by {
                if v < pre.nv() {
                    assert(self.points()[v] == pre.points()[v]);
                }
            }
            assert forall|v: int| 0 <= v < self.nv() implies increasing(#[trigger] self.neighbors(v)) by {
                if v < pre.nv() {
                    assert(self.neighbors(v) == pre.neighbors(v));
                }
            }
        }
    }

    /// Returns the number of vertices in the graph
    pub fn vertices(&self) -> (r: usize)
        ensures
            r == self.nv(),
    {
        self.vertices.len()
    }

    /// The neighbours of vertex `v`, in increasing order.
    pub fn adjacent(&self, v: usize) -> (r: &Vec<usize>)
        requires
            self.wf(),
            v < self.nv(),
        ensures
            r@ == self.neighbors(v as int),
    {
        proof {
            assert(self.lists()[v as int] == self.neighbors(v as int));
        }
        &self.adj[v]
    }

    /// The coordinates of vertex `v`.
    pub fn point(&self, v: usize) -> (r: (i32, i32))
        requires
            v < self.nv(),
        ensures
            r == self.points()[v as int],
    {
        self.vertices[v]
    }

    /// Inserts an undirected edge between `from` and `to` (a loop when they are
    /// equal); nothing changes if the edge is there already.
    pub fn add_edge(&mut self, from: usize, to: usize)
        requires
            old(self).wf(),
            from < old(self).nv(),
            to < old(self).nv(),
            old(self).size() + 2 <= MAX_ENTRIES,
        ensures
            final(self).wf(),
            final(self).edge_added(old(self), from as int, to as int),
            final(self).size() <= old(self).size() + 2,
    {
        let ghost pre = *self;
        proof {
            assert(increasing(self.neighbors(from as int)));
        }
        insert_sorted(&mut self.adj[from], to);
        let ghost mid = *self;
        proof {
            lemma_entries_update(pre.lists(), from as int, mid.lists()[from as int]);
            assert(mid.lists() =~= pre.lists().update(from as int, mid.lists()[from as int]));
            if to != from {
                assert(mid.neighbors(to as int) == pre.neighbors(to as int));
                assert(increasing(pre.neighbors(to as int)));
            }
        }
        insert_sorted(&mut self.adj[to], from);
        proof {
            lemma_entries_update(mid.lists(), to as int, self.lists()[to as int]);
            assert(self.lists() =~= mid.lists().update(to as int, self.lists()[to as int]));
            assert forall|v: int, k: int| 0 <= v < self.nv() && 0 <= k < self.neighbors(v).len() implies #[trigger] self.neighbors(v)[k] < self.nv() by {
                let x = self.neighbors(v)[k];
                assert(self.neighbors(v).contains(x));
                if v != to {
                    assert(mid.neighbors(v) == self.neighbors(v));
                    if v == from {
                        if x != to {
                            assert(pre.neighbors(v).contains(x));
                            let q = choose|q: int| 0 <= q < pre.neighbors(v).len() && pre.neighbors(v)[q] == x;
                        }
                    } else {
                        assert(pre.neighbors(v) == self.neighbors(v));
                    }
                } else if x != from {
                    assert(mid.neighbors(v).contains(x));
                    let q = choose|q: int| 0 <= q < mid.neighbors(v).len() && mid.neighbors(v)[q] == x;
                    if v == from {
                        if x != to {
                            assert(pre.neighbors(v).contains(x));
                            let q2 = choose|q2: int| 0 <= q2 < pre.neighbors(v).len() && pre.neighbors(v)[q2] == x;
                        }
                    } else {
                        assert(pre.neighbors(v) == mid.neighbors(v));
                    }
                }
            }
            assert forall|v: int| 0 <= v < self.nv() implies #[trigger] self.lists()[v] == self.neighbors(v) by {}
            assert(self.points() == pre.points());
            assert forall|v: int| 0 <= v < self.nv() implies increasing(#[trigger] self.neighbors(v)) by {
                if v != to && v != from {
                    assert(self.neighbors(v) == pre.neighbors(v));
                } else if v != to {
                    assert(self.neighbors(v) == mid.neighbors(v));
                }
            }
            let n = self.nv() as int;
            assert(entries_of(mid.lists(), n) == entries_of(pre.lists(), n) - pre.lists()[from as int].len() + mid.lists()[from as int].len());
            assert(entries_of(self.lists(), n) == entries_of(mid.lists(), n) - mid.lists()[to as int].len() + self.lists()[to as int].len());
            assert forall|v: int, x: int| 0 <= v < self.nv() && 0 <= x implies (#[trigger] self.has_edge(v, x) <==> (pre.has_edge(v, x) || (v == from && x == to) || (v == to && x == from))) by {
                if v != to && v != from {
                    assert(self.neighbors(v) == pre.neighbors(v));
                } else if v != to {
                    assert(self.neighbors(v) == mid.neighbors(v));
                } else if v != from {
                    assert(mid.neighbors(v) == pre.neighbors(v));
                }
            }
            assert(self.has_edge(from as int, to as int));
            assert(self.has_edge(to as int, from as int));
            if pre.has_edge(from as int, to as int) && pre.has_edge(to as int, from as int) {
                assert(mid.lists() =~= pre.lists());
                assert(self.lists() =~= mid.lists());
            }
        }
    }

    /// `self` is `old` with the undirected edge `from`-`to` inserted.
    pub open spec fn edge_added(&self, old: &Graph, from: int, to: int) -> bool {
        &&& self.points() == old.points()
        &&& self.has_edge(from, to)
        &&& self.has_edge(to, from)
        &&& forall|v: int, x: int|
            0 <= v < self.nv() && 0 <= x ==> (#[trigger] self.has_edge(v, x) <==> (old.has_edge(v, x) || (v == from
                && x == to) || (v == to && x == from)))
        &&& (old.has_edge(from, to) && old.has_edge(to, from)) ==> self.lists() == old.lists()
    }

    /// Returns the number of edges in the graph
    pub fn edges(&self) -> (r: usize)
        requires
            self.wf(),
        ensures
            r == self.size() / 2,
    {
        let mut acc: usize = 0;
        for i in 0..self.adj.len()
            invariant
                self.wf(),
                acc == entries_of(self.lists(), i as int),
        {
            proof {
                lemma_entries_monotone(self.lists(), i + 1, self.nv() as int);
                assert(self.lists()[i as int] == self.neighbors(i as int));
            }
            acc = acc + self.adj[i].len();
        }
        acc / 2
    }

    /// Is the graph without vertices and edges?
    pub fn is_empty(&self) -> (r: bool)
        requires
            self.wf(),
        ensures
            r == (self.nv() == 0 && self.size() / 2 == 0),
    {
        self.vertices() == 0 && self.edges() == 0
    }

    /// The polygons `r` are the islands of the graph: the faces of a
    /// subdivision of its edges, stitched by angle, one face per `next` cycle
    /// (every halfedge lies on the cycle of its face's first halfedge, and
    /// `next` keeps the face), without the outer one.
    pub open spec fn islands_of(&self, r: Seq<Polygon>) -> bool {
        exists|d: DCEL| {
                &&& #[trigger] self.subdivided_by(&d)
                &&& d.wf()
                &&& d.linked()
                &&& forall|v: int| 0 <= v < d.nv() ==> #[trigger] d.stitched(v)
                &&& d.faces_ok()
                &&& d.all_alive()
                &&& forall|h: int| 0 <= h < d.nh() && #[trigger] d.he(h).alive ==> d.he(h).face < d.nf()
                &&& forall|h: int| 0 <= h < d.nh() ==> d.he(#[trigger] d.he(h).next as int).face == d.he(h).face
                &&& forall|f: int| 0 <= f < d.nf() ==> d.he((#[trigger] d.face(f)).spec_outer_component() as int).face == f
                &&& forall|h: int| 0 <= h < d.nh() ==> #[trigger] DCEL::on_cycle(
                    d,
                    d.face(d.he(h).face as int).spec_outer_component() as int,
                    h,
                    d.nh() as int,
                )
                &&& d.faces_as_polygons(r)
            }
        }

    /// The islands: the DCEL of the graph is built, its faces are enumerated and
    /// turned into polygons, and the longest boundary (the outer face) is left
    /// out. An edge whose two ends lie at one point bounds nothing and is
    /// skipped.
    pub fn polygons(&self) -> (r: Vec<Polygon>)
        requires
            self.wf(),
        ensures
            forall|k: int| 0 <= k < r.len() ==> (#[trigger] r@[k]).wf(),
            self.islands_of(r@),
    {
        let mut dcel = DCEL::new();
        let n = self.adj.len();
        for i in 0..n
            invariant
                self.wf(),
                n == self.nv(),
                dcel.wf(),
                dcel.all_alive(),
                dcel.nf() == 0,
                dcel.nh() <= 2 * entries_of(self.lists(), i as int),
                self.ends_are_edges(&dcel),
                forall|a: int, k: int|
                    0 <= a < i && a < k < n && #[trigger] self.has_edge(a, k) && self.points()[a] != self.points()[k]
                        ==> self.has_pair(&dcel, a, k),
        {
            let list = &self.adj[i];
            proof {
                lemma_entries_monotone(self.lists(), i + 1, n as int);
                assert(self.lists()[i as int] == list@);
            }
            for j in 0..list.len()
                invariant
                    self.wf(),
                    n == self.nv(),
                    i < n,
                    list@ == self.neighbors(i as int),
                    dcel.wf(),
                    dcel.all_alive(),
                    dcel.nf() == 0,
                    dcel.nh() <= 2 * entries_of(self.lists(), i as int) + 2 * j,
                    entries_of(self.lists(), i + 1) <= MAX_ENTRIES,
                    entries_of(self.lists(), i + 1) == entries_of(self.lists(), i as int) + list.len(),
                    self.ends_are_edges(&dcel),
                    forall|a: int, k: int|
                        0 <= a < i && a < k < n && #[trigger] self.has_edge(a, k) && self.points()[a] != self.points()[k]
                            ==> self.has_pair(&dcel, a, k),
                    forall|q: int|
                        0 <= q < j && i < list@[q] && #[trigger] self.points()[list@[q] as int] != self.points()[i as int]
                            ==> self.has_pair(&dcel, i as int, list@[q] as int),
            {
                let k = list[j];
                if k > i {
                    proof {
                        assert(k < n);
                        assert(grid_ok(self.points()[i as int]) && grid_ok(self.points()[k as int]));
                    }
                    let from = self.vertices[i];
                    let to = self.vertices[k];
                    if from.0 != to.0 || from.1 != to.1 {
                        let ghost before = dcel;
                        dcel.add_edge_unchecked(&from, &to);
                        proof {
                            lemma_add_keeps_pairs(*self, before, dcel, i as int, k as int);
                        }
                    }
                }
            }
            proof {
                assert forall|a: int, k: int|
                    0 <= a < i + 1 && a < k < n && #[trigger] self.has_edge(a, k) && self.points()[a] != self.points()[k]
                        implies self.has_pair(&dcel, a, k) by {
                    if a == i {
                        let q = choose|q: int| 0 <= q < list@.len() && list@[q] == k as usize;
                        assert(self.points()[list@[q] as int] != self.points()[i as int]);
                    }
                }
            }
        }
        let ghost built = dcel;
        dcel.build();
        let ghost stitched = dcel;
        dcel.add_faces();
        proof {
            lemma_stitched_kept(&stitched, &dcel);
            lemma_frame_keeps_pairs(*self, built, stitched);
            lemma_frame_keeps_pairs(*self, stitched, dcel);
        }
        let r = dcel.make_polygons();
        proof {
            let d = dcel;
            assert(self.subdivided_by(&d));
            assert(d.faces_ok());
            assert(forall|v: int| 0 <= v < d.nv() ==> #[trigger] d.stitched(v));
            assert(forall|h: int| 0 <= h < d.nh() && #[trigger] d.he(h).alive ==> d.he(h).face < d.nf());
            assert(d.faces_as_polygons(r@));
        }
        r
    }

    /// An edge of the graph joins the points `a` and `b`, in one direction or
    /// the other.
    pub open spec fn joins(&self, a: (i32, i32), b: (i32, i32)) -> bool {
        exists|i: int, k: int|
            0 <= i < self.nv() && 0 <= k < self.nv() && #[trigger] self.has_edge(i, k) && ((self.points()[i] == a
                && self.points()[k] == b) || (self.points()[i] == b && self.points()[k] == a))
    }

    /// Every halfedge of `d` joins two distinct points along an edge of the graph.
    pub open spec fn ends_are_edges(&self, d: &DCEL) -> bool {
        forall|h: int|
            0 <= h < d.nh() ==> {
                &&& (#[trigger] d.end_points(h)).0 != d.end_points(h).1
                &&& self.joins(d.end_points(h).0, d.end_points(h).1)
            }
    }

    /// `d` has a halfedge from the point of vertex `i` to that of vertex `k`.
    pub open spec fn has_pair(&self, d: &DCEL, i: int, k: int) -> bool {
        exists|h: int| 0 <= h < d.nh() && #[trigger] d.end_points(h) == (self.points()[i], self.points()[k])
    }

    /// `d` is the subdivision of the graph: a pair of twin halfedges for each
    /// edge between distinct points, and no other.
    pub open spec fn subdivided_by(&self, d: &DCEL) -> bool {
        &&& self.ends_are_edges(d)
        &&& forall|i: int, k: int|
            0 <= i < k < self.nv() && #[trigger] self.has_edge(i, k) && self.points()[i] != self.points()[k]
                ==> self.has_pair(d, i, k)
    }

    /// Removes all vertices with at most one neighbour, again and again, until
    /// every vertex left has two neighbours at least. What is left is the
    /// 2-core: the graph induced on the kept vertices, in their old order, and a
    /// vertex is kept whenever it lies in some set of vertices each of which has
    /// two neighbours in the set.
    pub fn reduce(&mut self)
        requires
            old(self).wf(),
        ensures
            final(self).wf(),
            forall|v: int| 0 <= v < final(self).nv() ==> #[trigger] final(self).neighbors(v).len() >= 2,
            exists|keep: Seq<int>| #[trigger] restricts(final(self), old(self), keep) && keeps_cores(old(self), keep),
    {
        let ghost orig = *self;
        let ghost mut keep: Seq<int> = Seq::new(self.nv(), |i: int| i);
        proof {
            lemma_identity_restricts(orig);
        }
        loop
            invariant
                self.wf(),
                orig.wf(),
                restricts(self, &orig, keep),
                keeps_cores(&orig, keep),
            ensures
                self.wf(),
                restricts(self, &orig, keep),
                keeps_cores(&orig, keep),
                forall|v: int| 0 <= v < self.nv() ==> #[trigger] self.neighbors(v).len() >= 2,
            decreases self.nv(),
        {
            let n = self.vertices.len();
            let mut prefix: Vec<usize> = Vec::new();
            prefix.push(0);
            let mut count: usize = 0;
            for i in 0..n
                invariant
                    self.wf(),
                    n == self.nv(),
                    prefix.len() == i + 1,
                    prefix@[0] == 0,
                    prefix@[i as int] == count,
                    count <= i,
                    forall|k: int| 0 <= k < i ==> #[trigger] prefix@[k + 1] == prefix@[k] + (if self.neighbors(k).len() > 1 { 1int } else { 0int }),
            {
                proof {
                    assert(self.lists()[i as int] == self.neighbors(i as int));
                }
                if self.adj[i].len() > 1 {
                    count = count + 1;
                }
                prefix.push(count);
            }
            if count == n {
                proof {
                    assert forall|v: int| 0 <= v < self.nv() implies #[trigger] self.neighbors(v).len() >= 2 by {
                        lemma_prefix_mono(prefix@, *self, v + 1, n as int);
                        lemma_prefix_mono(prefix@, *self, 0, v);
                        assert(prefix@[v + 1] == prefix@[v] + (if self.neighbors(v).len() > 1 { 1int } else { 0int }));
                        assert(self.lists()[v] == self.neighbors(v));
                    }
                }
                break;
            }
            let mut verts: Vec<(i32, i32)> = Vec::new();
            let mut lists: Vec<Vec<usize>> = Vec::new();
            let ghost mut back: Seq<int> = Seq::empty();
            for i in 0..n
                invariant
                    self.wf(),
                    n == self.nv(),
                    prefix.len() == n + 1,
                    prefix@[n as int] == count,
                    count < n,
                    prefix@[0] == 0,
                    forall|k: int| 0 <= k < n ==> #[trigger] prefix@[k + 1] == prefix@[k] + (if self.neighbors(k).len() > 1 { 1int } else { 0int }),
                    verts.len() == prefix@[i as int],
                    lists.len() == verts.len(),
                    back.len() == verts.len(),
                    forall|q: int| 0 <= q < back.len() ==> 0 <= #[trigger] back[q] < i && self.neighbors(back[q]).len() > 1
                        && prefix@[back[q]] == q && verts@[q] == self.points()[back[q]],
                    forall|v: int| 0 <= v < i && self.neighbors(v).len() > 1 ==> back[#[trigger] prefix@[v] as int] == v,
                    forall|q: int, x: usize| 0 <= q < lists.len() && self.neighbors(back[q]).contains(x) && prefix@[x + 1] > prefix@[x as int]
                        ==> #[trigger] lists@[q]@.contains(prefix@[x as int]),
                    forall|q: int, k: int| 0 <= q < lists.len() && 0 <= k < lists@[q]@.len()
                        ==> renumbered_from(self.neighbors(back[q]), prefix@, n as int, #[trigger] lists@[q]@[k]),
                    forall|v: int| 0 <= v < verts.len() ==> grid_ok(#[trigger] verts@[v]),
                    forall|v: int| 0 <= v < lists.len() ==> increasing((#[trigger] lists@[v])@),
                    forall|v: int, k: int| 0 <= v < lists.len() && 0 <= k < lists@[v]@.len() ==> #[trigger] lists@[v]@[k] < count,
                    entries_of(lists@.map_values(|l: Vec<usize>| l@), lists.len() as int) <= entries_of(self.lists(), i as int),
            {
                proof {
                    lemma_prefix_mono(prefix@, *self, i as int + 1, n as int);
                    assert(self.lists()[i as int] == self.neighbors(i as int));
                }
                let ghost lists_before = lists@.map_values(|l: Vec<usize>| l@);
                if self.adj[i].len() > 1 {
                    let l = filtered(&self.adj[i], &prefix, self);
                    proof {
                        assert(grid_ok(self.points()[i as int]));
                        back = back.push(i as int);
                    }
                    verts.push(self.vertices[i]);
                    lists.push(l);
                    proof {
                        let now = lists@.map_values(|l: Vec<usize>| l@);
                        assert(now == lists_before.push(now.last()));
                        lemma_entries_prefix(now, lists_before, lists_before.len() as int);
                        lemma_entries_monotone(self.lists(), i as int, i as int + 1);
                        assert forall|v: int| 0 <= v < i + 1 && self.neighbors(v).len() > 1 implies back[#[trigger] prefix@[v] as int] == v by {
                            if v < i {
                                lemma_prefix_mono(prefix@, *self, v + 1, i as int);
                            }
                        }
                    }
                } else {
                    proof {
                        lemma_entries_monotone(self.lists(), i as int, i as int + 1);
                    }
                }
            }
            let ghost pre = *self;
            self.vertices = verts;
            self.adj = lists;
            proof {
                assert(self.lists() =~= lists@.map_values(|l: Vec<usize>| l@));
                assert forall|v: int| 0 <= v < self.nv() implies #[trigger] self.lists()[v] == self.neighbors(v) by {}
                lemma_round_restricts(pre, *self, prefix@, back);
                assert forall|v: int| 0 <= v < pre.nv() && pre.neighbors(v).len() > 1 implies back[#[trigger] prefix@[v] as int] == v
                    && prefix@[v] < back.len() by {
                    lemma_prefix_mono(prefix@, pre, v + 1, n as int);
                }
                lemma_restricts_compose(orig, pre, *self, keep, back);
                let nk = Seq::new(back.len(), |q: int| keep[back[q]]);
                lemma_next_keeps_cores(orig, pre, keep, prefix@, back);
                keep = nk;
            }
        }
        proof {
            assert(restricts(self, &orig, keep) && keeps_cores(&orig, keep));
        }
    }

}

/// Lists that agree on their first `k` entries have equal prefix totals.
proof fn lemma_entries_prefix(a: Seq<Seq<usize>>, b: Seq<Seq<usize>>, k: int)
    requires
        0 <= k <= a.len(),
        k <= b.len(),
        forall|i: int| 0 <= i < k ==> a[i] == b[i],
    ensures
        entries_of(a, k) == entries_of(b, k),
    decreases k,
{
    if k > 0 {
        lemma_entries_prefix(a, b, k - 1);
    }
}

/// Totals grow with the prefix.
proof fn lemma_entries_monotone(a: Seq<Seq<usize>>, j: int, k: int)
    requires
        0 <= j <= k <= a.len(),
    ensures
        entries_of(a, j) <= entries_of(a, k),
    decreases k - j,
{
    if j < k {
        lemma_entries_monotone(a, j, k - 1);
    }
}

/// Replacing one list changes the total by the difference of lengths.
proof fn lemma_entries_update(a: Seq<Seq<usize>>, i: int, s: Seq<usize>)
    requires
        0 <= i < a.len(),
    ensures
        forall|k: int| i < k <= a.len() ==> #[trigger] entries_of(a.update(i, s), k) == entries_of(a, k) - a[i].len() + s.len(),
        forall|k: int| 0 <= k <= i ==> #[trigger] entries_of(a.update(i, s), k) == entries_of(a, k),
{
    assert forall|k: int| 0 <= k <= i implies #[trigger] entries_of(a.update(i, s), k) == entries_of(a, k) by {
        lemma_entries_prefix(a.update(i, s), a, k);
    }
    assert forall|k: int| i < k <= a.len() implies #[trigger] entries_of(a.update(i, s), k) == entries_of(a, k) - a[i].len() + s.len() by {
        lemma_entries_update_at(a, i, s, k);
    }
}

proof fn lemma_entries_update_at(a: Seq<Seq<usize>>, i: int, s: Seq<usize>, k: int)
    requires
        0 <= i < k <= a.len(),
    ensures
        entries_of(a.update(i, s), k) == entries_of(a, k) - a[i].len() + s.len(),
    decreases k,
{
    if k == i + 1 {
        lemma_entries_prefix(a.update(i, s), a, i);
    } else {
        lemma_entries_update_at(a, i, s, k - 1);
    }
}

/// Inserts `x` into the increasing list `l` unless it is there.
fn insert_sorted(l: &mut Vec<usize>, x: usize)
    requires
        increasing(old(l)@),
    ensures
        increasing(final(l)@),
        old(l)@.contains(x) ==> final(l)@ == old(l)@,
        !old(l)@.contains(x) ==> final(l)@.len() == old(l)@.len() + 1,
        forall|y: usize| final(l)@.contains(y) <==> (old(l)@.contains(y) || y == x),
{
    let mut lo: usize = 0;
    let mut hi: usize = l.len();
    while lo < hi
        invariant
            0 <= lo <= hi <= l.len(),
            increasing(l@),
            forall|k: int| 0 <= k < lo ==> #[trigger] l@[k] < x,
            forall|k: int| hi <= k < l.len() ==> #[trigger] l@[k] >= x,
        decreases hi - lo,
    {
        let mid = lo + (hi - lo) / 2;
        if l[mid] < x {
            lo = mid + 1;
        } else {
            hi = mid;
        }
    }
    if lo < l.len() && l[lo] == x {
        return;
    }
    let ghost before = l@;
    proof {
        assert(!before.contains(x)) by {
            if before.contains(x) {
                let k = choose|k: int| 0 <= k < before.len() && before[k] == x;
                if k < lo {
                } else if k > lo {
                    assert(before[lo as int] < before[k]);
                }
            }
        }
    }
    l.insert(lo, x);
    proof {
        assert forall|a: int, b: int| 0 <= a < b < l@.len() implies l@[a] < l@[b] by {
            if b < lo {
            } else if a > lo {
                assert(l@[a] == before[a - 1] && l@[b] == before[b - 1]);
            } else if a == lo {
                assert(l@[b] == before[b - 1]);
            } else if b == lo {
            } else {
                assert(l@[b] == before[b - 1]);
                assert(before[a] < before[lo as int]);
            }
        }
        assert forall|y: usize| l@.contains(y) <==> (before.contains(y) || y == x) by {
            if l@.contains(y) && y != x {
                let k = choose|k: int| 0 <= k < l@.len() && l@[k] == y;
                if k < lo {
                    assert(before[k] == y);
                } else {
                    assert(before[k - 1] == y);
                }
            }
            if before.contains(y) {
                let k = choose|k: int| 0 <= k < before.len() && before[k] == y;
                if k < lo {
                    assert(l@[k] == y);
                } else {
                    assert(l@[k + 1] == y);
                }
            }
            if y == x {
                assert(l@[lo as int] == x);
            }
        }
    }
}

/// Adding an edge twice leaves the graph as the first addition made it.
pub proof fn lemma_add_edge_idempotent(g0: &Graph, g1: &Graph, g2: &Graph, from: int, to: int)
    requires
        g1.edge_added(g0, from, to),
        g2.edge_added(g1, from, to),
    ensures
        g2.lists() == g1.lists(),
        g2.points() == g1.points(),
{
}

/// The running count of kept vertices never decreases.
proof fn lemma_prefix_mono(prefix: Seq<usize>, g: Graph, a: int, b: int)
    requires
        0 <= a <= b,
        b < prefix.len(),
        prefix.len() == g.nv() + 1,
        forall|k: int| 0 <= k < g.nv() ==> #[trigger] prefix[k + 1] == prefix[k] + (if g.neighbors(k).len() > 1 { 1int } else { 0int }),
    ensures
        prefix[a] <= prefix[b],
        b - a >= prefix[b] - prefix[a],
    decreases b - a,
{
    if a < b {
        lemma_prefix_mono(prefix, g, a, b - 1);
        assert(prefix[b] == prefix[b - 1 + 1]);
    }
}

/// `y` is the new number `prefix[x]` of a kept vertex `x` of the list `l`.
pub open spec fn renumbered_from(l: Seq<usize>, prefix: Seq<usize>, n: int, y: usize) -> bool {
    exists|x: int| 0 <= x < n && l.contains(x as usize) && prefix[x + 1] > prefix[x] && #[trigger] prefix[x] == y
}

/// The kept neighbours of vertex `i`, renumbered: a kept vertex `j` becomes
/// `prefix[j]`, the number of kept vertices before it.
fn filtered(l: &Vec<usize>, prefix: &Vec<usize>, g: &Graph) -> (r: Vec<usize>)
    requires
        g.wf(),
        prefix.len() == g.nv() + 1,
        forall|k: int| 0 <= k < g.nv() ==> #[trigger] prefix@[k + 1] == prefix@[k] + (if g.neighbors(k).len() > 1 { 1int } else { 0int }),
        increasing(l@),
        forall|k: int| 0 <= k < l.len() ==> #[trigger] l@[k] < g.nv(),
    ensures
        increasing(r@),
        r.len() <= l.len(),
        forall|k: int| 0 <= k < r.len() ==> #[trigger] r@[k] < prefix@[g.nv() as int],
        forall|x: usize| l@.contains(x) && prefix@[x + 1] > prefix@[x as int] ==> #[trigger] r@.contains(prefix@[x as int]),
        forall|k: int| 0 <= k < r.len() ==> renumbered_from(l@, prefix@, g.nv() as int, #[trigger] r@[k]),
{
    let n = prefix.len() - 1;
    let mut r: Vec<usize> = Vec::new();
    let ghost mut last_src: int = -1;
    for j in 0..l.len()
        invariant
            g.wf(),
            n == g.nv(),
            prefix.len() == n + 1,
            forall|k: int| 0 <= k < g.nv() ==> #[trigger] prefix@[k + 1] == prefix@[k] + (if g.neighbors(k).len() > 1 { 1int } else { 0int }),
            increasing(l@),
            forall|k: int| 0 <= k < l.len() ==> #[trigger] l@[k] < g.nv(),
            increasing(r@),
            r.len() <= j,
            forall|k: int| 0 <= k < r.len() ==> #[trigger] r@[k] < prefix@[n as int],
            r.len() > 0 ==> 0 <= last_src < n && r@.last() == prefix@[last_src] && prefix@[last_src] < prefix@[last_src + 1],
            r.len() > 0 && j < l.len() ==> last_src < l@[j as int],
            forall|q: int| 0 <= q < j && #[trigger] prefix@[l@[q] + 1] > prefix@[l@[q] as int] ==> r@.contains(prefix@[l@[q] as int]),
            forall|k: int| 0 <= k < r.len() ==> renumbered_from(l@, prefix@, g.nv() as int, #[trigger] r@[k]),
    {
        let x = l[j];
        let ghost r0 = r@;
        if prefix[x + 1] > prefix[x] {
            proof {
                lemma_prefix_mono(prefix@, *g, x + 1, n as int);
                if r.len() > 0 {
                    lemma_prefix_mono(prefix@, *g, last_src + 1, x as int);
                }
                last_src = x as int;
            }
            r.push(prefix[x]);
            proof {
                assert forall|k: int| 0 <= k < r.len() implies renumbered_from(l@, prefix@, g.nv() as int, #[trigger] r@[k]) by {
                    if k < r0.len() {
                        assert(r@[k] == r0[k]);
                    } else {
                        assert(l@[j as int] == x);
                        assert(l@.contains(x));
                    }
                }
                assert forall|q: int| 0 <= q < j + 1 && #[trigger] prefix@[l@[q] + 1] > prefix@[l@[q] as int] implies r@.contains(prefix@[l@[q] as int]) by {
                    if q < j {
                        let k2 = choose|k2: int| 0 <= k2 < r0.len() && r0[k2] == prefix@[l@[q] as int];
                        assert(r@[k2] == r0[k2]);
                    } else {
                        assert(r@[r0.len() as int] == prefix@[x as int]);
                    }
                }
                assert forall|a: int, b: int| 0 <= a < b < r@.len() implies r@[a] < r@[b] by {
                    if b == r@.len() - 1 && a < b {
                        assert(r@[a] <= r@[r@.len() - 2]);
                    }
                }
            }
        }
        proof {
            if j + 1 < l.len() && r.len() > 0 {
                assert(l@[j as int] < l@[j + 1]);
            }
        }
    }
    proof {
        assert forall|x: usize| l@.contains(x) && prefix@[x + 1] > prefix@[x as int] implies #[trigger] r@.contains(prefix@[x as int]) by {
            let q = choose|q: int| 0 <= q < l.len() && l@[q] == x;
            assert(prefix@[l@[q] + 1] > prefix@[l@[q] as int]);
        }
    }
    r
}

/// Adding the edge of vertices `i` and `k` to the subdivision keeps what was
/// there and records the new pair.
proof fn lemma_add_keeps_pairs(g: Graph, a: DCEL, b: DCEL, i: int, k: int)
    requires
        g.wf(),
        a.wf(),
        0 <= i < k < g.nv(),
        g.has_edge(i, k),
        g.points()[i] != g.points()[k],
        g.ends_are_edges(&a),
        b.wf(),
        b.nh() == a.nh() + 2,
        forall|h: int| 0 <= h < a.nh() ==> #[trigger] b.he(h) == a.he(h),
        forall|v: int| 0 <= v < a.nv() ==> #[trigger] b.vertex(v) == a.vertex(v),
        b.end_points(a.nh() as int) == (g.points()[i], g.points()[k]),
        b.twin_of(a.nh() as int) == a.nh() + 1,
    ensures
        g.ends_are_edges(&b),
        g.has_pair(&b, i, k),
        forall|x: int, y: int| #[trigger] g.has_pair(&a, x, y) ==> g.has_pair(&b, x, y),
{
    assert forall|h: int| 0 <= h < b.nh() implies {
        &&& (#[trigger] b.end_points(h)).0 != b.end_points(h).1
        &&& g.joins(b.end_points(h).0, b.end_points(h).1)
    } by {
        if h < a.nh() {
            lemma_end_points_kept(a, b, h);
            assert(a.end_points(h).0 != a.end_points(h).1);
        } else if h == a.nh() {
            assert(g.has_edge(i, k));
        } else {
            let t = a.nh() as int;
            assert(h == t + 1);
            assert(0 <= b.twin_of(t) < b.nh() && b.twin_of(b.twin_of(t)) == t);
            assert(b.twin_of(t + 1) == t);
            assert(b.end_points(t + 1) == (b.end_points(t).1, b.end_points(t).0));
            assert(g.has_edge(i, k));
        }
    }
    assert(b.end_points(a.nh() as int) == (g.points()[i], g.points()[k]));
    assert forall|x: int, y: int| #[trigger] g.has_pair(&a, x, y) implies g.has_pair(&b, x, y) by {
        let h = choose|h: int| 0 <= h < a.nh() && #[trigger] a.end_points(h) == (g.points()[x], g.points()[y]);
        lemma_end_points_kept(a, b, h);
    }
}

proof fn lemma_end_points_kept(a: DCEL, b: DCEL, h: int)
    requires
        a.wf(),
        0 <= h < a.nh(),
        forall|e: int| 0 <= e < a.nh() ==> #[trigger] b.he(e) == a.he(e),
        forall|v: int| 0 <= v < a.nv() ==> #[trigger] b.vertex(v) == a.vertex(v),
    ensures
        b.end_points(h) == a.end_points(h),
{
    assert(b.he(h) == a.he(h));
    assert(0 <= a.twin_of(h) < a.nh());
    assert(b.he(a.twin_of(h)) == a.he(a.twin_of(h)));
    assert(0 <= a.origin_of(h) < a.nv());
    assert(0 <= a.origin_of(a.twin_of(h)) < a.nv());
    assert(b.vertex(a.origin_of(h)) == a.vertex(a.origin_of(h)));
    assert(b.vertex(a.origin_of(a.twin_of(h))) == a.vertex(a.origin_of(a.twin_of(h))));
}

/// Relinking keeps the subdivision.
proof fn lemma_frame_keeps_pairs(g: Graph, a: DCEL, b: DCEL)
    requires
        a.wf(),
        b.same_frame(&a),
        g.subdivided_by(&a),
    ensures
        g.subdivided_by(&b),
{
    assert forall|h: int| 0 <= h < b.nh() implies {
        &&& (#[trigger] b.end_points(h)).0 != b.end_points(h).1
        &&& g.joins(b.end_points(h).0, b.end_points(h).1)
    } by {
        lemma_frame_end_points(a, b, h);
        assert(a.end_points(h).0 != a.end_points(h).1);
    }
    assert forall|i: int, k: int|
        0 <= i < k < g.nv() && #[trigger] g.has_edge(i, k) && g.points()[i] != g.points()[k] implies g.has_pair(&b, i, k) by {
        assert(g.has_pair(&a, i, k));
        let h = choose|h: int| 0 <= h < a.nh() && #[trigger] a.end_points(h) == (g.points()[i], g.points()[k]);
        lemma_frame_end_points(a, b, h);
    }
}

proof fn lemma_frame_end_points(a: DCEL, b: DCEL, h: int)
    requires
        a.wf(),
        b.same_frame(&a),
        0 <= h < a.nh(),
    ensures
        b.end_points(h) == a.end_points(h),
{
    assert(b.he(h).twin == a.he(h).twin && b.he(h).origin == a.he(h).origin);
    assert(0 <= a.twin_of(h) < a.nh());
    assert(b.he(a.twin_of(h)).origin == a.he(a.twin_of(h)).origin);
    assert(0 <= a.origin_of(h) < a.nv());
    assert(0 <= a.origin_of(a.twin_of(h)) < a.nv());
    assert(b.vertex(a.origin_of(h)) == a.vertex(a.origin_of(h)));
    assert(b.vertex(a.origin_of(a.twin_of(h))) == a.vertex(a.origin_of(a.twin_of(h))));
}

/// Every vertex of a set in which each vertex has two neighbours is among
/// `keep`.
#[verifier::opaque]
pub open spec fn keeps_cores(g: &Graph, keep: Seq<int>) -> bool {
    forall|c: Set<int>, u: int| min_degree_two(g, c) && #[trigger] c.contains(u) ==> keep.contains(u)
}

/// `r` is `g` restricted to the vertices `keep` (indices of `g`, increasing),
/// renumbered in order, with the edges among them.
#[verifier::opaque]
pub open spec fn restricts(r: &Graph, g: &Graph, keep: Seq<int>) -> bool {
    &&& keep.len() == r.nv()
    &&& forall|i: int| 0 <= i < keep.len() ==> 0 <= #[trigger] keep[i] < g.nv() && r.points()[i] == g.points()[keep[i]]
    &&& forall|i: int, k: int| 0 <= i < k < keep.len() ==> keep[i] < keep[k]
    &&& forall|i: int, k: int|
        0 <= i < keep.len() && 0 <= k < keep.len() ==> (#[trigger] r.has_edge(i, k) <==> g.has_edge(keep[i], keep[k]))
}

/// Each vertex of `c` has two distinct neighbours in `c`.
#[verifier::opaque]
pub open spec fn min_degree_two(g: &Graph, c: Set<int>) -> bool {
    forall|v: int| #[trigger] c.contains(v) ==> 0 <= v < g.nv() && two_neighbors_in(g, c, v)
}

/// Vertex `v` has two distinct neighbours in `c`.
pub open spec fn two_neighbors_in(g: &Graph, c: Set<int>, v: int) -> bool {
    exists|x: int, y: int| #![trigger g.has_edge(v, x), g.has_edge(v, y)]
        x != y && c.contains(x) && c.contains(y) && g.has_edge(v, x) && g.has_edge(v, y)
}

/// One round of `reduce` restricts the graph to the vertices it keeps.
proof fn lemma_round_restricts(pre: Graph, post: Graph, prefix: Seq<usize>, back: Seq<int>)
    requires
        pre.wf(),
        pre.nv() <= usize::MAX,
        post.wf(),
        prefix.len() == pre.nv() + 1,
        forall|k: int| 0 <= k < pre.nv() ==> #[trigger] prefix[k + 1] == prefix[k] + (if pre.neighbors(k).len() > 1 { 1int } else { 0int }),
        back.len() == post.nv(),
        forall|q: int| 0 <= q < back.len() ==> 0 <= #[trigger] back[q] < pre.nv() && pre.neighbors(back[q]).len() > 1
            && prefix[back[q]] == q && post.points()[q] == pre.points()[back[q]],
        forall|q: int, x: usize| 0 <= q < post.nv() && pre.neighbors(back[q]).contains(x) && prefix[x + 1] > prefix[x as int]
            ==> #[trigger] post.neighbors(q).contains(prefix[x as int]),
        forall|q: int, k: int| 0 <= q < post.nv() && 0 <= k < post.neighbors(q).len()
            ==> renumbered_from(pre.neighbors(back[q]), prefix, pre.nv() as int, #[trigger] post.neighbors(q)[k]),
    ensures
        restricts(&post, &pre, back),
{
    reveal(restricts);
    assert forall|i: int, k: int| 0 <= i < k < back.len() implies back[i] < back[k] by {
        if back[i] >= back[k] {
            if back[i] > back[k] {
                lemma_prefix_mono(prefix, pre, back[k] + 1, back[i]);
            }
            assert(false);
        }
    }
    assert forall|i: int, k: int| 0 <= i < back.len() && 0 <= k < back.len() implies (#[trigger] post.has_edge(i, k) <==> pre.has_edge(back[i], back[k])) by {
        let bk = back[k];
        assert(prefix[bk] as int == k);
        if pre.has_edge(back[i], bk) {
            assert(pre.neighbors(back[i]).contains(bk as usize));
            assert(prefix[bk + 1] > prefix[bk]);
            assert(post.neighbors(i).contains(prefix[bk]));
            assert(post.has_edge(i, k));
        }
        if post.has_edge(i, k) {
            let m = choose|m: int| 0 <= m < post.neighbors(i).len() && post.neighbors(i)[m] == k as usize;
            assert(renumbered_from(pre.neighbors(back[i]), prefix, pre.nv() as int, post.neighbors(i)[m]));
            let x = choose|x: int| 0 <= x < pre.nv() && pre.neighbors(back[i]).contains(x as usize) && prefix[x + 1] > prefix[x] && #[trigger] prefix[x] == post.neighbors(i)[m];
            if x != bk {
                if x < bk {
                    lemma_prefix_mono(prefix, pre, x + 1, bk);
                } else {
                    lemma_prefix_mono(prefix, pre, bk + 1, x);
                }
                assert(false);
            }
            assert(pre.neighbors(back[i]).contains(bk as usize));
            assert(pre.has_edge(back[i], bk));
        }
    }
}

/// Restricting twice is restricting once.
proof fn lemma_restricts_compose(g0: Graph, g1: Graph, g2: Graph, k1: Seq<int>, k2: Seq<int>)
    requires
        restricts(&g1, &g0, k1),
        restricts(&g2, &g1, k2),
    ensures
        restricts(&g2, &g0, Seq::new(k2.len(), |q: int| k1[k2[q]])),
{
    reveal(restricts);
    let k = Seq::new(k2.len(), |q: int| k1[k2[q]]);
    assert forall|i: int| 0 <= i < k.len() implies 0 <= #[trigger] k[i] < g0.nv() && g2.points()[i] == g0.points()[k[i]] by {
        assert(0 <= k2[i] < g1.nv());
    }
    assert forall|i: int, j: int| 0 <= i < j < k.len() implies k[i] < k[j] by {
        assert(k2[i] < k2[j]);
        assert(0 <= k2[j] < k1.len());
    }
    assert forall|i: int, j: int| 0 <= i < k.len() && 0 <= j < k.len() implies (#[trigger] g2.has_edge(i, j) <==> g0.has_edge(k[i], k[j])) by {
        assert(0 <= k2[i] < k1.len() && 0 <= k2[j] < k1.len());
        assert(g1.has_edge(k2[i], k2[j]) <==> g0.has_edge(k1[k2[i]], k1[k2[j]]));
    }
}

/// A vertex of a set with two neighbours per vertex is kept by a round.
/// The restriction relates the edges at two kept vertices.
proof fn lemma_restricts_at(r: Graph, g: Graph, keep: Seq<int>, i: int, k: int)
    requires
        restricts(&r, &g, keep),
        0 <= i < keep.len(),
        0 <= k < keep.len(),
    ensures
        r.has_edge(i, k) <==> g.has_edge(keep[i], keep[k]),
        i != k ==> keep[i] != keep[k],
        keep.len() == r.nv(),
{
    reveal(restricts);
    if i < k {
        assert(keep[i] < keep[k]);
    } else if k < i {
        assert(keep[k] < keep[i]);
    }
}

/// A vertex with two neighbours among kept vertices is kept by a round.
proof fn lemma_core_kept(orig: Graph, pre: Graph, keep: Seq<int>, c: Set<int>, u: int)
    requires
        restricts(&pre, &orig, keep),
        two_neighbors_in(&orig, c, u),
        keep.contains(u),
        forall|x: int| #[trigger] c.contains(x) ==> keep.contains(x),
    ensures
        exists|v: int| 0 <= v < keep.len() && keep[v] == u && pre.neighbors(v).len() > 1,
{
    let v = choose|v: int| 0 <= v < keep.len() && keep[v] == u;
    let (x, y) = choose|x: int, y: int| #![trigger orig.has_edge(u, x), orig.has_edge(u, y)]
        x != y && c.contains(x) && c.contains(y) && orig.has_edge(u, x) && orig.has_edge(u, y);
    assert(keep.contains(x) && keep.contains(y));
    let ix = choose|ix: int| 0 <= ix < keep.len() && keep[ix] == x;
    let iy = choose|iy: int| 0 <= iy < keep.len() && keep[iy] == y;
    lemma_restricts_at(pre, orig, keep, v, ix);
    lemma_restricts_at(pre, orig, keep, v, iy);
    lemma_restricts_at(pre, orig, keep, ix, iy);
    assert(ix != iy);
    let l = pre.neighbors(v);
    assert(l.contains(ix as usize));
    assert(l.contains(iy as usize));
    let a = choose|a: int| 0 <= a < l.len() && l[a] == ix as usize;
    let b = choose|b: int| 0 <= b < l.len() && l[b] == iy as usize;
    assert(0 <= ix <= usize::MAX && 0 <= iy <= usize::MAX);
    assert(a != b);
    assert(l.len() > 1);
    assert(0 <= v < keep.len() && keep[v] == u && pre.neighbors(v).len() > 1);
}

proof fn lemma_min_degree_two_at(g: Graph, c: Set<int>, u: int)
    requires
        min_degree_two(&g, c),
        c.contains(u),
    ensures
        two_neighbors_in(&g, c, u),
        0 <= u < g.nv(),
{
    reveal(min_degree_two);
}

/// The vertices kept by a round still hold every set with two neighbours per
/// vertex.
/// The vertices kept by a round still hold every set with two neighbours per
/// vertex.
proof fn lemma_next_keeps_cores(orig: Graph, pre: Graph, keep: Seq<int>, prefix: Seq<usize>, back: Seq<int>)
    requires
        pre.wf(),
        restricts(&pre, &orig, keep),
        keeps_cores(&orig, keep),
        prefix.len() == pre.nv() + 1,
        forall|k: int| 0 <= k < pre.nv() ==> #[trigger] prefix[k + 1] == prefix[k] + (if pre.neighbors(k).len() > 1 { 1int } else { 0int }),
        forall|v: int| 0 <= v < pre.nv() && pre.neighbors(v).len() > 1 ==> back[#[trigger] prefix[v] as int] == v
            && prefix[v] < back.len(),
    ensures
        keeps_cores(&orig, Seq::new(back.len(), |q: int| keep[back[q]])),
{
    reveal(keeps_cores);
    let nk = Seq::new(back.len(), |q: int| keep[back[q]]);
    assert forall|c: Set<int>, u: int| min_degree_two(&orig, c) && #[trigger] c.contains(u) implies nk.contains(u) by {
        assert forall|x: int| #[trigger] c.contains(x) implies keep.contains(x) by {}
        lemma_one_core_vertex(orig, pre, keep, prefix, back, c, u);
    }
}

proof fn lemma_one_core_vertex(orig: Graph, pre: Graph, keep: Seq<int>, prefix: Seq<usize>, back: Seq<int>, c: Set<int>, u: int)
    requires
        restricts(&pre, &orig, keep),
        min_degree_two(&orig, c),
        c.contains(u),
        forall|x: int| #[trigger] c.contains(x) ==> keep.contains(x),
        forall|v: int| 0 <= v < pre.nv() && pre.neighbors(v).len() > 1 ==> back[#[trigger] prefix[v] as int] == v
            && prefix[v] < back.len(),
    ensures
        Seq::new(back.len(), |q: int| keep[back[q]]).contains(u),
{
    lemma_min_degree_two_at(orig, c, u);
    assert(keep.contains(u));
    lemma_core_kept(orig, pre, keep, c, u);
    let v = choose|v: int| 0 <= v < keep.len() && keep[v] == u && pre.neighbors(v).len() > 1;
    lemma_restricts_at(pre, orig, keep, v, v);
    let q = prefix[v] as int;
    assert(back[q] == v);
    let nk = Seq::new(back.len(), |q: int| keep[back[q]]);
    assert(nk[q] == u);
}

/// Every graph is the restriction of itself to all its vertices.
proof fn lemma_identity_restricts(g: Graph)
    ensures
        restricts(&g, &g, Seq::new(g.nv(), |i: int| i)),
        keeps_cores(&g, Seq::new(g.nv(), |i: int| i)),
{
    lemma_identity_restricts_edges(g);
    reveal(keeps_cores);
    let keep = Seq::new(g.nv(), |i: int| i);
    assert forall|c: Set<int>, u: int| min_degree_two(&g, c) && #[trigger] c.contains(u) implies keep.contains(u) by {
        lemma_min_degree_two_at(g, c, u);
        assert(keep[u] == u);
    }
}

proof fn lemma_identity_restricts_edges(g: Graph)
    ensures
        restricts(&g, &g, Seq::new(g.nv(), |i: int| i)),
{
    reveal(restricts);
}

} // verus!
