//! The Reeb graph: critical points linked layer by layer, with a horizontal
//! coordinate and in- and out-degrees for each.
use vstd::prelude::*;
use std::collections::HashMap;

verus! {

broadcast use vstd::std_specs::hash::group_hash_axioms;

/// A node of the Reeb graph: one island at one time layer.
#[derive(Clone, Copy, Debug, PartialEq, Eq, Hash, Structural)]
pub struct CriticalPoint {
    value: i32,
}

impl CriticalPoint {
    pub closed spec fn id(&self) -> i32 {
        self.value
    }

    /// The critical point with identifier `value`.
    pub fn new(value: i32) -> (r: CriticalPoint)
        ensures
            r.id() == value,
    {
        CriticalPoint { value }
    }

    /// Its identifier.
    pub fn value(&self) -> (r: i32)
        ensures
            r == self.id(),
    {
        self.value
    }
}

/// An edge of the Reeb graph: its layer, parent and child.
pub type ReebEdge = (i32, i32, i32);

/// Number of the first `k` edges whose child is `c`.
pub open spec fn in_count(edges: Seq<ReebEdge>, c: i32, k: int) -> int
    decreases k,
{
    if k <= 0 {
        0
    } else {
        in_count(edges, c, k - 1) + (if edges[k - 1].2 == c { 1int } else { 0int })
    }
}

/// Number of the first `k` edges whose parent is `c`.
pub open spec fn out_count(edges: Seq<ReebEdge>, c: i32, k: int) -> int
    decreases k,
{
    if k <= 0 {
        0
    } else {
        out_count(edges, c, k - 1) + (if edges[k - 1].1 == c { 1int } else { 0int })
    }
}

/// Does `c` occur in an edge, as parent or child?
pub open spec fn touches(edges: Seq<ReebEdge>, c: i32) -> bool {
    exists|i: int| 0 <= i < edges.len() && ((#[trigger] edges[i]).1 == c || edges[i].2 == c)
}

/// Is `c` the child of an edge?
pub open spec fn is_child(edges: Seq<ReebEdge>, c: i32) -> bool {
    exists|i: int| 0 <= i < edges.len() && (#[trigger] edges[i]).2 == c
}

pub struct ReebGraph {
    edges: Vec<ReebEdge>,
    x_coords: HashMap<i32, i128>,
    indegrees: HashMap<i32, u128>,
    outdegrees: HashMap<i32, u128>,
    root: CriticalPoint,
    root_layer: i32,
}

impl ReebGraph {
    /// The edges, in the order they were added.
    pub closed spec fn edge_list(&self) -> Seq<ReebEdge> {
        self.edges@
    }

    /// The horizontal coordinate of each critical point that has one.
    pub closed spec fn x_of(&self) -> Map<i32, i128> {
        self.x_coords@
    }

    /// In-degree of each known critical point.
    pub closed spec fn in_deg(&self) -> Map<i32, u128> {
        self.indegrees@
    }

    /// Out-degree of each known critical point (the root counts one more).
    pub closed spec fn out_deg(&self) -> Map<i32, u128> {
        self.outdegrees@
    }

    pub closed spec fn root_id(&self) -> i32 {
        self.root.value
    }

    pub closed spec fn spec_root_layer(&self) -> i32 {
        self.root_layer
    }

    /// The degree tables count the edges, the coordinates are given exactly to
    /// the root and to the children.
    pub open spec fn wf(&self) -> bool {
        let e = self.edge_list();
        let n = e.len() as int;
        &&& forall|c: i32| #[trigger] self.in_deg().contains_key(c) <==> (c == self.root_id() || touches(e, c))
        &&& forall|c: i32| #[trigger] self.out_deg().contains_key(c) <==> (c == self.root_id() || touches(e, c))
        &&& forall|c: i32| #[trigger] self.x_of().contains_key(c) <==> (c == self.root_id() || is_child(e, c))
        &&& forall|c: i32| #[trigger] self.in_deg().contains_key(c) ==> self.in_deg()[c] == in_count(e, c, n)
        &&& forall|c: i32| #[trigger] self.out_deg().contains_key(c) ==> self.out_deg()[c] == out_count(e, c, n)
            + (if c == self.root_id() { 1int } else { 0int })
        &&& n <= usize::MAX
    }

    /// Constructs a new Reeb graph given a root node
    pub fn new(root: &CriticalPoint, x: i128, layer: i32) -> (r: ReebGraph)
        ensures
            r.wf(),
            r.edge_list().len() == 0,
            r.root_id() == root.id(),
            r.spec_root_layer() == layer,
            r.x_of() == map![root.id() => x],
            r.in_deg() == map![root.id() => 0u128],
            r.out_deg() == map![root.id() => 1u128],
    {
        let mut x_map: HashMap<i32, i128> = HashMap::new();
        let mut indeg: HashMap<i32, u128> = HashMap::new();
        let mut outdeg: HashMap<i32, u128> = HashMap::new();
        x_map.insert(root.value, x);
        indeg.insert(root.value, 0);
        outdeg.insert(root.value, 1);
        proof {
            assert(x_map@ =~= map![root.id() => x]);
            assert(indeg@ =~= map![root.id() => 0u128]);
            assert(outdeg@ =~= map![root.id() => 1u128]);
        }
        ReebGraph {
            edges: Vec::new(),
            x_coords: x_map,
            indegrees: indeg,
            outdegrees: outdeg,
            root: *root,
            root_layer: layer,
        }
    }

    /// Joins `parent` to `point` at `layer`. `point` keeps the coordinate it
    /// was first given; both degree tables count the new edge, and a critical
    /// point met for the first time enters them with degree zero.
    pub fn add_point(&mut self, layer: i32, parent: &CriticalPoint, point: &CriticalPoint, point_x: i128)
        requires
            old(self).wf(),
        ensures
            final(self).wf(),
            final(self).edge_list() == old(self).edge_list().push((layer, parent.id(), point.id())),
            final(self).x_of() == (if old(self).x_of().contains_key(point.id()) {
                old(self).x_of()
            } else {
                old(self).x_of().insert(point.id(), point_x)
            }),
            final(self).root_id() == old(self).root_id(),
            final(self).spec_root_layer() == old(self).spec_root_layer(),
    {
        let ghost pre = *self;
        let p = parent.value;
        let c = point.value;
        proof {
            lemma_counts_bounded(pre.edge_list(), p, pre.edge_list().len() as int);
            lemma_counts_bounded(pre.edge_list(), c, pre.edge_list().len() as int);
        }
        self.edges.push((layer, p, c));
        match self.x_coords.get(&c) {
            Some(_) => {},
            None => {
                self.x_coords.insert(c, point_x);
            },
        }
        proof {
            if pre.in_deg().contains_key(c) {
                assert(pre.in_deg()[c] == in_count(pre.edge_list(), c, pre.edge_list().len() as int));
            }
            if pre.out_deg().contains_key(p) {
                assert(pre.out_deg()[p] == out_count(pre.edge_list(), p, pre.edge_list().len() as int) + (if p == pre.root_id() { 1int } else { 0int }));
            }
        }
        let din: u128 = match self.indegrees.get(&c) {
            Some(d) => *d + 1,
            None => 1,
        };
        self.indegrees.insert(c, din);
        if !self.indegrees.contains_key(&p) {
            self.indegrees.insert(p, 0);
        }
        let dout: u128 = match self.outdegrees.get(&p) {
            Some(d) => *d + 1,
            None => 1,
        };
        self.outdegrees.insert(p, dout);
        if !self.outdegrees.contains_key(&c) {
            self.outdegrees.insert(c, 0);
        }
        proof {
            assert(self.edges@.len() == self.edges.len());
            assert(self.in_deg().dom() =~= pre.in_deg().dom().insert(c).insert(p));
            assert(self.out_deg().dom() =~= pre.out_deg().dom().insert(p).insert(c));
            lemma_add_point_wf(pre, *self, layer, p, c, point_x);
        }
    }

    /// The edges, in the order they were added.
    pub fn edges(&self) -> (r: &Vec<ReebEdge>)
        ensures
            r@ == self.edge_list(),
    {
        &self.edges
    }

    /// The root critical point.
    pub fn root(&self) -> (r: CriticalPoint)
        ensures
            r.id() == self.root_id(),
    {
        self.root
    }

    /// The layer of the root.
    pub fn root_layer(&self) -> (r: i32)
        ensures
            r == self.spec_root_layer(),
    {
        self.root_layer
    }

    /// The horizontal coordinate of `point`, if it has one.
    pub fn x_coord(&self, point: &CriticalPoint) -> (r: Option<i128>)
        ensures
            r == (if self.x_of().contains_key(point.id()) { Some(self.x_of()[point.id()]) } else { None::<i128> }),
    {
        match self.x_coords.get(&point.value) {
            Some(x) => Some(*x),
            None => None,
        }
    }

    /// The in-degree of `point`, if it is known.
    pub fn in_degree(&self, point: &CriticalPoint) -> (r: Option<u128>)
        ensures
            r == (if self.in_deg().contains_key(point.id()) { Some(self.in_deg()[point.id()]) } else { None::<u128> }),
    {
        match self.indegrees.get(&point.value) {
            Some(d) => Some(*d),
            None => None,
        }
    }

    /// The out-degree of `point`, if it is known.
    pub fn out_degree(&self, point: &CriticalPoint) -> (r: Option<u128>)
        ensures
            r == (if self.out_deg().contains_key(point.id()) { Some(self.out_deg()[point.id()]) } else { None::<u128> }),
    {
        match self.outdegrees.get(&point.value) {
            Some(d) => Some(*d),
            None => None,
        }
    }
}

proof fn lemma_counts_bounded(e: Seq<ReebEdge>, c: i32, k: int)
    requires
        0 <= k <= e.len(),
    ensures
        0 <= in_count(e, c, k) <= k,
        0 <= out_count(e, c, k) <= k,
    decreases k,
{
    if k > 0 {
        lemma_counts_bounded(e, c, k - 1);
    }
}

proof fn lemma_counts_prefix(e: Seq<ReebEdge>, f: Seq<ReebEdge>, c: i32, k: int)
    requires
        0 <= k <= e.len(),
        k <= f.len(),
        forall|i: int| 0 <= i < k ==> e[i] == f[i],
    ensures
        in_count(e, c, k) == in_count(f, c, k),
        out_count(e, c, k) == out_count(f, c, k),
    decreases k,
{
    if k > 0 {
        lemma_counts_prefix(e, f, c, k - 1);
    }
}

/// Appending an edge adds it to the counts of its ends.
proof fn lemma_counts_push(e: Seq<ReebEdge>, x: ReebEdge)
    ensures
        forall|c: i32| #[trigger] in_count(e.push(x), c, e.len() as int + 1) == in_count(e, c, e.len() as int) + (if x.2 == c { 1int } else { 0int }),
        forall|c: i32| #[trigger] out_count(e.push(x), c, e.len() as int + 1) == out_count(e, c, e.len() as int) + (if x.1 == c { 1int } else { 0int }),
{
    assert forall|c: i32| #[trigger] in_count(e.push(x), c, e.len() as int + 1) == in_count(e, c, e.len() as int) + (if x.2 == c { 1int } else { 0int }) by {
        lemma_counts_prefix(e, e.push(x), c, e.len() as int);
    }
    assert forall|c: i32| #[trigger] out_count(e.push(x), c, e.len() as int + 1) == out_count(e, c, e.len() as int) + (if x.1 == c { 1int } else { 0int }) by {
        lemma_counts_prefix(e, e.push(x), c, e.len() as int);
    }
}

/// Every child of an edge has its coordinate and an in-degree of at least one.
pub proof fn lemma_child_recorded(g: &ReebGraph, i: int)
    requires
        g.wf(),
        0 <= i < g.edge_list().len(),
    ensures
        g.x_of().contains_key(g.edge_list()[i].2),
        g.in_deg().contains_key(g.edge_list()[i].2),
        g.in_deg()[g.edge_list()[i].2] >= 1,
{
    let e = g.edge_list();
    let c = e[i].2;
    assert(e[i].1 == c || e[i].2 == c);
    assert(is_child(e, c));
    assert(touches(e, c));
    lemma_count_positive(e, c, i, e.len() as int);
}

proof fn lemma_count_positive(e: Seq<ReebEdge>, c: i32, i: int, k: int)
    requires
        0 <= i < k <= e.len(),
        e[i].2 == c,
    ensures
        in_count(e, c, k) >= 1,
    decreases k,
{
    if k - 1 > i {
        lemma_count_positive(e, c, i, k - 1);
        lemma_counts_bounded(e, c, k - 1);
    } else {
        lemma_counts_bounded(e, c, k - 1);
    }
}

/// The root has in-degree zero as long as no edge leads into it.
pub proof fn lemma_root_in_degree(g: &ReebGraph)
    requires
        g.wf(),
        forall|i: int| 0 <= i < g.edge_list().len() ==> #[trigger] g.edge_list()[i].2 != g.root_id(),
    ensures
        g.in_deg().contains_key(g.root_id()),
        g.in_deg()[g.root_id()] == 0,
{
    lemma_no_child_count(g.edge_list(), g.root_id(), g.edge_list().len() as int);
    assert(g.in_deg().contains_key(g.root_id()));
    assert(g.in_deg()[g.root_id()] == in_count(g.edge_list(), g.root_id(), g.edge_list().len() as int));
}

proof fn lemma_no_child_count(e: Seq<ReebEdge>, c: i32, k: int)
    requires
        0 <= k <= e.len(),
        forall|i: int| 0 <= i < e.len() ==> #[trigger] e[i].2 != c,
    ensures
        in_count(e, c, k) == 0,
    decreases k,
{
    if k > 0 {
        lemma_no_child_count(e, c, k - 1);
    }
}

proof fn lemma_add_point_wf(pre: ReebGraph, post: ReebGraph, layer: i32, p: i32, c: i32, point_x: i128)
    requires
        pre.wf(),
        post.edge_list() == pre.edge_list().push((layer, p, c)),
        post.root_id() == pre.root_id(),
        post.x_of() == (if pre.x_of().contains_key(c) { pre.x_of() } else { pre.x_of().insert(c, point_x) }),
        post.in_deg().dom() == pre.in_deg().dom().insert(c).insert(p),
        post.in_deg()[c] as int == (if pre.in_deg().contains_key(c) { pre.in_deg()[c] + 1 } else { 1 }),
        p != c ==> post.in_deg()[p] == (if pre.in_deg().contains_key(p) { pre.in_deg()[p] } else { 0 }),
        forall|x: i32| x != c && x != p && pre.in_deg().contains_key(x) ==> #[trigger] post.in_deg()[x] == pre.in_deg()[x],
        post.out_deg().dom() == pre.out_deg().dom().insert(p).insert(c),
        post.out_deg()[p] as int == (if pre.out_deg().contains_key(p) { pre.out_deg()[p] + 1 } else { 1 }),
        p != c ==> post.out_deg()[c] == (if pre.out_deg().contains_key(c) { pre.out_deg()[c] } else { 0 }),
        forall|x: i32| x != c && x != p && pre.out_deg().contains_key(x) ==> #[trigger] post.out_deg()[x] == pre.out_deg()[x],
        post.edge_list().len() <= usize::MAX,
    ensures
        post.wf(),
{
    let e0 = pre.edge_list();
    let e1 = post.edge_list();
    let n = e0.len() as int;
    assert(e1 == e0.push((layer, p, c)));
    lemma_counts_push(e0, (layer, p, c));
    assert forall|x: i32| touches(e1, x) <==> (touches(e0, x) || x == p || x == c) by {
        if touches(e1, x) {
            let i = choose|i: int| 0 <= i < e1.len() && ((#[trigger] e1[i]).1 == x || e1[i].2 == x);
            if i < n {
                assert(e0[i] == e1[i]);
            }
        }
        if touches(e0, x) {
            let i = choose|i: int| 0 <= i < e0.len() && ((#[trigger] e0[i]).1 == x || e0[i].2 == x);
            assert(e0[i] == e1[i]);
        }
        if x == p || x == c {
            assert(e1[n].1 == p && e1[n].2 == c);
        }
    }
    assert forall|x: i32| is_child(e1, x) <==> (is_child(e0, x) || x == c) by {
        if is_child(e1, x) {
            let i = choose|i: int| 0 <= i < e1.len() && (#[trigger] e1[i]).2 == x;
            if i < n {
                assert(e0[i] == e1[i]);
            }
        }
        if is_child(e0, x) {
            let i = choose|i: int| 0 <= i < e0.len() && (#[trigger] e0[i]).2 == x;
            assert(e0[i] == e1[i]);
        }
        if x == c {
            assert(e1[n].2 == c);
        }
    }
    if pre.x_of().contains_key(c) {
        assert(post.x_of() == pre.x_of());
    }
    let root = pre.root_id();
    assert forall|x: i32| #[trigger] post.in_deg().contains_key(x) implies post.in_deg()[x] == in_count(e1, x, n + 1) by {
        if !pre.in_deg().contains_key(x) {
            lemma_untouched_count(e0, x, n);
        }
    }
    assert forall|x: i32| #[trigger] post.out_deg().contains_key(x) implies post.out_deg()[x] == out_count(e1, x, n + 1) + (if x == root { 1int } else { 0int }) by {
        if !pre.out_deg().contains_key(x) {
            lemma_untouched_count(e0, x, n);
        }
    }

}

proof fn lemma_untouched_count(e: Seq<ReebEdge>, c: i32, k: int)
    requires
        0 <= k <= e.len(),
        !touches(e, c),
    ensures
        in_count(e, c, k) == 0,
        out_count(e, c, k) == 0,
    decreases k,
{
    if k > 0 {
        assert(!(e[k - 1].1 == c || e[k - 1].2 == c));
        lemma_untouched_count(e, c, k - 1);
    }
}

} // verus!
