//! Tracking islands across time: a breadth-first search, layer by layer, that
//! links each island to the islands of the next layer that it overlaps.
use vstd::prelude::*;
use crate::geometry::RatPoint;
use crate::graph::Graph;
use crate::polygon::{Polygon, centroid_of, inside};
use crate::disk::welzl;
use crate::reeb_graph::{CriticalPoint, ReebGraph};

verus! {

/// Largest critical point identifier.
pub const MAX_ID: usize = 2147483647;

/// The representative point of a polygon: its area centroid (method 0) or the
/// centre of its smallest enclosing disk (any other method).
pub open spec fn representative_of(p: Seq<(i64, i64)>, method: i32) -> Option<RatPoint> {
    if method == 0 {
        centroid_of(p)
    } else {
        match welzl(p, Seq::empty(), p.len()) {
            Some(d) => Some(d.0),
            None => None,
        }
    }
}

/// The representative point of `p` by `method`.
pub fn representative(p: &Polygon, method: i32) -> (r: Option<RatPoint>)
    requires
        p.wf(),
    ensures
        r == representative_of(p@, method),
        r matches Some(c) ==> c.wf(),
{
    if method == 0 {
        p.centroid()
    } else {
        p.smallest_disk_centroid()
    }
}

/// Are the islands `a` (earlier) and `b` (later), with representatives `ra` and
/// `rb`, the same island at two times? Yes when either contains the other's
/// representative.
pub fn linked(a: &Polygon, b: &Polygon, ra: &RatPoint, rb: &RatPoint) -> (r: bool)
    requires
        a.wf(),
        b.wf(),
        ra.wf(),
        rb.wf(),
    ensures
        r == (inside(a@, *rb) || inside(b@, *ra)),
{
    let old_contains_new = a.contains(rb);
    let new_contains_old = b.contains(ra);
    old_contains_new || new_contains_old
}

/// Index of the first polygon of `islands` that contains `p`.
fn find_containing(islands: &Vec<Polygon>, p: &RatPoint) -> (r: Option<usize>)
    requires
        forall|k: int| 0 <= k < islands.len() ==> (#[trigger] islands@[k]).wf(),
        p.wf(),
    ensures
        r matches Some(j) ==> j < islands.len() && inside(islands@[j as int]@, *p) && forall|k: int|
            0 <= k < j ==> !inside(#[trigger] islands@[k]@, *p),
        r is None ==> forall|k: int| 0 <= k < islands.len() ==> !inside(#[trigger] islands@[k]@, *p),
{
    for j in 0..islands.len()
        invariant
            forall|k: int| 0 <= k < islands.len() ==> (#[trigger] islands@[k]).wf(),
            p.wf(),
            forall|k: int| 0 <= k < j ==> !inside(#[trigger] islands@[k]@, *p),
    {
        if islands[j].contains(p) {
            return Some(j);
        }
    }
    None
}

/// Does the earlier island `a` overlap the later island `b` (by `method`)?
/// Both need a representative point, and one of them contains the other's.
pub open spec fn overlaps(a: Seq<(i64, i64)>, b: Seq<(i64, i64)>, method: i32) -> bool {
    match (representative_of(a, method), representative_of(b, method)) {
        (Some(ra), Some(rb)) => inside(a, rb) || inside(b, ra),
        _ => false,
    }
}

/// Does some island of `ps` contain `p`?
pub open spec fn any_contains(ps: Seq<Polygon>, p: RatPoint) -> bool {
    exists|j: int| 0 <= j < ps.len() && inside((#[trigger] ps[j])@, p)
}

/// The first layer from `l` on with an island that contains `p`.
pub open spec fn first_hit(isl: Seq<Vec<Polygon>>, p: RatPoint, l: int) -> Option<int>
    decreases isl.len() - l,
{
    if l < 0 || l >= isl.len() {
        None
    } else if any_contains(isl[l]@, p) {
        Some(l)
    } else {
        first_hit(isl, p, l + 1)
    }
}

/// Identifier of the first island of layer `l`, for islands grown from layer
/// `s`: the islands of the layers `s` to `l - 1` come before it.
pub open spec fn offset(isl: Seq<Vec<Polygon>>, s: int, l: int) -> int
    decreases l - s,
{
    if l <= s + 1 {
        isl[s]@.len() as int
    } else {
        offset(isl, s, l - 1) + isl[l - 1]@.len()
    }
}

/// The edge `e` joins island `i` of its layer to island `j` of the next one,
/// which overlap; the root stands for island `seed` of layer `s`.
pub open spec fn edge_of_islands(isl: Seq<Vec<Polygon>>, s: int, seed: int, method: i32, e: (i32, i32, i32), i: int, j: int) -> bool {
    let l = e.0 as int;
    &&& s <= l && l + 1 < isl.len()
    &&& 0 <= i < isl[l]@.len()
    &&& 0 <= j < isl[l + 1]@.len()
    &&& ((e.1 == 0 && l == s && i == seed) || (l > s && e.1 == offset(isl, s, l) + i))
    &&& e.2 == offset(isl, s, l + 1) + j
    &&& overlaps(isl[l]@[i]@, isl[l + 1]@[j]@, method)
}

/// The edge `e` joins two overlapping islands of consecutive layers.
pub open spec fn edge_ok(isl: Seq<Vec<Polygon>>, s: int, seed: int, method: i32, e: (i32, i32, i32)) -> bool {
    exists|i: int, j: int| #[trigger] edge_of_islands(isl, s, seed, method, e, i, j)
}

/// Island `idx` of layer `l` has critical point `id`.
pub open spec fn names(isl: Seq<Vec<Polygon>>, s: int, seed: int, l: int, id: int, idx: int) -> bool {
    (id == 0 && l == s && idx == seed) || (l > s && id == offset(isl, s, l) + idx)
}

/// Critical point of island `i` of layer `l`, for islands grown from island
/// `seed` of layer `s`.
pub open spec fn name_of(isl: Seq<Vec<Polygon>>, s: int, seed: int, l: int, i: int) -> int {
    if l == s && i == seed {
        0
    } else {
        offset(isl, s, l) + i
    }
}

/// Some edge at layer `l` leads to critical point `c`.
pub open spec fn has_edge_to(edges: Seq<(i32, i32, i32)>, l: int, c: int) -> bool {
    exists|k: int| 0 <= k < edges.len() && (#[trigger] edges[k]).0 == l && edges[k].2 == c
}

/// The edge `(l, p, c)` is in `edges`.
pub open spec fn has_link(edges: Seq<(i32, i32, i32)>, l: int, p: int, c: int) -> bool {
    exists|k: int| 0 <= k < edges.len() && #[trigger] edges[k] == (l as i32, p as i32, c as i32)
}

/// Island `i` of layer `l` is reached: it is the seed, or an edge leads to it.
pub open spec fn reached(isl: Seq<Vec<Polygon>>, s: int, seed: int, edges: Seq<(i32, i32, i32)>, l: int, i: int) -> bool {
    (l == s && i == seed) || (l > s && has_edge_to(edges, l - 1, offset(isl, s, l) + i))
}

/// If island `i` of layer `l` overlaps island `j` of layer `l + 1`, and the
/// identifier fits, the edge between them is in `edges`.
pub open spec fn links_out(isl: Seq<Vec<Polygon>>, s: int, seed: int, method: i32, edges: Seq<(i32, i32, i32)>, l: int, i: int, j: int) -> bool {
    overlaps(isl[l]@[i]@, isl[l + 1]@[j]@, method) && offset(isl, s, l + 1) + j <= MAX_ID ==> has_link(
        edges,
        l,
        name_of(isl, s, seed, l, i),
        offset(isl, s, l + 1) + j,
    )
}

/// Below layer `m`, every reached island is linked to every island of the
/// next layer that it overlaps.
pub open spec fn complete_below(isl: Seq<Vec<Polygon>>, s: int, seed: int, method: i32, edges: Seq<(i32, i32, i32)>, m: int) -> bool {
    forall|l: int, i: int, j: int|
        s <= l < m && l + 1 < isl.len() && 0 <= i < isl[l]@.len() && 0 <= j < isl[l + 1]@.len() && reached(isl, s, seed, edges, l, i)
            ==> #[trigger] links_out(isl, s, seed, method, edges, l, i, j)
}

/// Island `i` is in the frontier `fr`.
pub open spec fn in_frontier(fr: Seq<(usize, usize)>, i: int) -> bool {
    exists|f: int| 0 <= f < fr.len() && (#[trigger] fr[f]).1 == i
}

/// Appending an edge keeps every edge and reaches nothing new at another layer.
proof fn lemma_push_edge(e0: Seq<(i32, i32, i32)>, x: (i32, i32, i32))
    ensures
        forall|l: int, c: int| has_edge_to(e0, l, c) ==> #[trigger] has_edge_to(e0.push(x), l, c),
        forall|l: int, c: int| #[trigger] has_edge_to(e0.push(x), l, c) && l != x.0 ==> has_edge_to(e0, l, c),
        forall|l: int, p: int, c: int| has_link(e0, l, p, c) ==> #[trigger] has_link(e0.push(x), l, p, c),
{
    let e1 = e0.push(x);
    assert forall|l: int, c: int| has_edge_to(e0, l, c) implies #[trigger] has_edge_to(e1, l, c) by {
        let k = choose|k: int| 0 <= k < e0.len() && (#[trigger] e0[k]).0 == l && e0[k].2 == c;
        assert(e1[k] == e0[k]);
    }
    assert forall|l: int, c: int| #[trigger] has_edge_to(e1, l, c) && l != x.0 implies has_edge_to(e0, l, c) by {
        let k = choose|k: int| 0 <= k < e1.len() && (#[trigger] e1[k]).0 == l && e1[k].2 == c;
        assert(k < e0.len());
        assert(e1[k] == e0[k]);
    }
    assert forall|l: int, p: int, c: int| has_link(e0, l, p, c) implies #[trigger] has_link(e1, l, p, c) by {
        let k = choose|k: int| 0 <= k < e0.len() && #[trigger] e0[k] == (l as i32, p as i32, c as i32);
        assert(e1[k] == e0[k]);
    }
}

/// Appending an edge at layer `top` keeps the links below `top`.
proof fn lemma_complete_grows(isl: Seq<Vec<Polygon>>, s: int, seed: int, method: i32, e0: Seq<(i32, i32, i32)>, x: (i32, i32, i32), m: int)
    requires
        complete_below(isl, s, seed, method, e0, m),
        x.0 >= m - 1,
    ensures
        complete_below(isl, s, seed, method, e0.push(x), m),
{
    lemma_push_edge(e0, x);
    let e1 = e0.push(x);
    assert forall|l: int, i: int, j: int|
        s <= l < m && l + 1 < isl.len() && 0 <= i < isl[l]@.len() && 0 <= j < isl[l + 1]@.len() && reached(isl, s, seed, e1, l, i)
            implies #[trigger] links_out(isl, s, seed, method, e1, l, i, j) by {
        if l > s && !(l == s && i == seed) {
            assert(has_edge_to(e1, l - 1, offset(isl, s, l) + i));
        }
        assert(reached(isl, s, seed, e0, l, i));
        assert(links_out(isl, s, seed, method, e0, l, i, j));
        if overlaps(isl[l]@[i]@, isl[l + 1]@[j]@, method) && offset(isl, s, l + 1) + j <= MAX_ID {
            assert(has_link(e0, l, name_of(isl, s, seed, l, i), offset(isl, s, l + 1) + j));
        }
    }
}

/// The graph that `track_islands` returns for a seed found at island `seed`
/// of layer `s`: rooted there, and every edge joins two overlapping islands of
/// consecutive layers.
pub open spec fn tracked_from(isl: Seq<Vec<Polygon>>, s: int, seed: int, method: i32, g: ReebGraph) -> bool {
    &&& g.wf()
    &&& g.root_id() == 0
    &&& g.spec_root_layer() == s
    &&& g.in_deg().contains_key(0)
    &&& g.in_deg()[0] == 0
    &&& forall|k: int| 0 <= k < g.edge_list().len() ==> edge_ok(isl, s, seed, method, #[trigger] g.edge_list()[k])
    &&& complete_below(isl, s, seed, method, g.edge_list(), isl.len() as int)
}

/// All islands of every layer.
pub fn all_islands(layers: &Vec<Graph>) -> (r: Vec<Vec<Polygon>>)
    requires
        forall|l: int| 0 <= l < layers.len() ==> (#[trigger] layers@[l]).wf(),
    ensures
        r.len() == layers.len(),
        forall|l: int| 0 <= l < r.len() ==> (#[trigger] layers@[l]).islands_of(r@[l]@),
        forall|l: int, k: int| 0 <= l < r.len() && 0 <= k < r@[l].len() ==> (#[trigger] r@[l]@[k]).wf(),
{
    let mut r: Vec<Vec<Polygon>> = Vec::new();
    for l in 0..layers.len()
        invariant
            forall|l: int| 0 <= l < layers.len() ==> (#[trigger] layers@[l]).wf(),
            r.len() == l,
            forall|m: int| 0 <= m < r.len() ==> (#[trigger] layers@[m]).islands_of(r@[m]@),
            forall|m: int, k: int| 0 <= m < r.len() && 0 <= k < r@[m].len() ==> (#[trigger] r@[m]@[k]).wf(),
    {
        r.push(layers[l].polygons());
    }
    r
}

/// The Reeb graph of the islands of `layers` (one island graph per time step)
/// that grow from the island containing `start_point`; see `track_islands`.
/// `None` when `start_time` is past the last layer.
pub fn compute_reeb_graph(layers: &Vec<Graph>, start_point: &RatPoint, start_time: usize, method: i32) -> (r:
    Option<ReebGraph>)
    requires
        forall|l: int| 0 <= l < layers.len() ==> (#[trigger] layers@[l]).wf(),
        start_point.wf(),
        layers.len() <= MAX_ID,
    ensures
        r is None <==> start_time >= layers.len(),
        r matches Some(g) ==> exists|isl: Seq<Vec<Polygon>>| {
            &&& isl.len() == layers.len()
            &&& forall|l: int| 0 <= l < isl.len() ==> (#[trigger] layers@[l]).islands_of(isl[l]@)
            &&& #[trigger] track_result(isl, *start_point, start_time as int, method, g)
        },
{
    if start_time >= layers.len() {
        return None;
    }
    let islands = all_islands(layers);
    let r = track_islands(&islands, start_point, start_time, method);
    proof {
        let isl = islands@;
        assert(forall|l: int| 0 <= l < isl.len() ==> (#[trigger] layers@[l]).islands_of(isl[l]@));
    }
    r
}

/// Does an island of a layer from `start_time` on contain `p`?
pub fn seed_found(islands: &Vec<Vec<Polygon>>, p: &RatPoint, start_time: usize) -> (r: bool)
    requires
        forall|l: int, k: int| 0 <= l < islands.len() && 0 <= k < islands@[l].len() ==> (#[trigger] islands@[l]@[k]).wf(),
        p.wf(),
    ensures
        r == (first_hit(islands@, *p, start_time as int) is Some),
{
    let n = islands.len();
    let mut layer = start_time;
    while layer < n
        invariant
            forall|l: int, k: int| 0 <= l < islands.len() && 0 <= k < islands@[l].len() ==> (#[trigger] islands@[l]@[k]).wf(),
            p.wf(),
            n == islands.len(),
            start_time <= layer,
            first_hit(islands@, *p, start_time as int) == first_hit(islands@, *p, layer as int),
        decreases n - layer,
    {
        let found = find_containing(&islands[layer], p);
        if found.is_some() {
            return true;
        }
        proof {
            if any_contains(islands@[layer as int]@, *p) {
                let j = choose|j: int| 0 <= j < islands@[layer as int]@.len() && inside((#[trigger] islands@[layer as int]@[j])@, *p);
                assert(!inside(islands@[layer as int]@[j]@, *p));
            }
        }
        layer = layer + 1;
    }
    false
}

/// What `track_islands` returns for the seed `p` searched from layer `t`.
pub open spec fn track_result(isl: Seq<Vec<Polygon>>, p: RatPoint, t: int, method: i32, g: ReebGraph) -> bool {
    match first_hit(isl, p, t) {
        None => g.wf() && g.root_id() == 0 && g.spec_root_layer() == t && g.edge_list().len() == 0
            && g.x_of() == map![0i32 => p.spec_x_truncated() as i128]
            && g.in_deg() == map![0i32 => 0u128] && g.out_deg() == map![0i32 => 1u128],
        Some(s) => exists|seed: int|
            0 <= seed < isl[s]@.len() && inside(isl[s]@[seed]@, p) && #[trigger] tracked_from(isl, s, seed, method, g)
                && g.x_of()[0] == p.spec_x_truncated(),
    }
}

/// The Reeb graph of `islands` (the islands of each time step) grown from the
/// island containing `start_point`.
///
/// The search for the seed starts at layer `start_time` and takes the first
/// layer, and in it the first island, that contains the seed. Its critical
/// point is 0. Then, layer by layer, each island reached is linked to every
/// island of the next layer that it overlaps (see `linked`); a linked island
/// gets the identifier of its index plus the number of islands in the layers
/// before it, from the seed's layer on, so that identifiers stay unique.
/// An island without a representative point links to nothing.
///
/// A graph with the root alone, at layer `start_time`, when no island
/// contains the seed.
pub fn track_islands(islands: &Vec<Vec<Polygon>>, start_point: &RatPoint, start_time: usize, method: i32) -> (r:
    Option<ReebGraph>)
    requires
        forall|l: int, k: int| 0 <= l < islands.len() && 0 <= k < islands@[l].len() ==> (#[trigger] islands@[l]@[k]).wf(),
        start_point.wf(),
        islands.len() <= MAX_ID,
    ensures
        r is None <==> start_time >= islands.len(),
        r matches Some(g) ==> track_result(islands@, *start_point, start_time as int, method, g),
{
    let n = islands.len();
    if start_time >= n {
        return None;
    }
    let ghost isl = islands@;
    let root = CriticalPoint::new(0);
    let x0 = start_point.x_truncated();
    let mut layer = start_time;
    let mut found: Option<usize> = None;
    while layer < n
        invariant_except_break
            found is None,
        invariant
            forall|l: int, k: int| 0 <= l < islands.len() && 0 <= k < islands@[l].len() ==> (#[trigger] islands@[l]@[k]).wf(),
            start_point.wf(),
            isl == islands@,
            n == islands.len(),
            start_time <= layer,
            first_hit(isl, *start_point, start_time as int) == first_hit(isl, *start_point, layer as int),
        ensures
            found matches Some(j) ==> layer < n && j < islands@[layer as int].len() && inside(islands@[layer as int]@[j as int]@, *start_point)
                && first_hit(isl, *start_point, start_time as int) == Some(layer as int),
            found is None ==> first_hit(isl, *start_point, start_time as int) is None,
        decreases n - layer,
    {
        found = find_containing(&islands[layer], start_point);
        proof {
            if found is None {
                if any_contains(isl[layer as int]@, *start_point) {
                    let j = choose|j: int| 0 <= j < isl[layer as int]@.len() && inside((#[trigger] isl[layer as int]@[j])@, *start_point);
                    assert(!inside(islands@[layer as int]@[j]@, *start_point));
                }
            }
        }
        if found.is_some() {
            break;
        }
        layer = layer + 1;
    }
    let index = match found {
        Some(j) => j,
        None => {
            let g = ReebGraph::new(&root, x0, start_time as i32);
            proof {
                assert(g.in_deg() == map![0i32 => 0u128]);
            }
            return Some(g);
        },
    };
    let start_layer = layer;
    let ghost s = start_layer as int;
    let mut reeb = ReebGraph::new(&root, x0, start_layer as i32);
    let mut frontier: Vec<(usize, usize)> = Vec::new();
    frontier.push((0, index));
    let mut start_ids: usize = if islands[start_layer].len() <= MAX_ID { islands[start_layer].len() } else { MAX_ID + 1 };
    proof {
        assert(offset(isl, s, s + 1) == isl[s]@.len());
        assert(frontier@[0].1 == index);
        assert(forall|i: int| 0 <= i < isl[s]@.len() && reached(isl, s, index as int, reeb.edge_list(), s, i) ==> #[trigger] in_frontier(frontier@, i));
    }
    while layer + 1 < n && frontier.len() > 0
        invariant
            forall|l: int, k: int| 0 <= l < islands.len() && 0 <= k < islands@[l].len() ==> (#[trigger] islands@[l]@[k]).wf(),
            isl == islands@,
            n == islands.len(),
            n <= MAX_ID,
            s <= layer < n,
            s == start_layer,
            index < isl[s]@.len(),
            first_hit(isl, *start_point, start_time as int) == Some(s),
            inside(isl[s]@[index as int]@, *start_point),
            1 <= start_ids <= MAX_ID + 1,
            start_ids == (if offset(isl, s, layer + 1) <= MAX_ID { offset(isl, s, layer + 1) } else { MAX_ID + 1 }),
            offset(isl, s, layer + 1) >= 1,
            reeb.wf(),
            reeb.x_of().contains_key(0) && reeb.x_of()[0] == x0,
            reeb.root_id() == 0,
            reeb.spec_root_layer() == s,
            forall|k: int| 0 <= k < frontier.len() ==> (#[trigger] frontier@[k]).1 < isl[layer as int]@.len() && frontier@[k].0 <= MAX_ID
                && names(isl, s, index as int, layer as int, frontier@[k].0 as int, frontier@[k].1 as int),
            forall|k: int| 0 <= k < reeb.edge_list().len() ==> edge_ok(isl, s, index as int, method, #[trigger] reeb.edge_list()[k]),
            forall|k: int| 0 <= k < reeb.edge_list().len() ==> (#[trigger] reeb.edge_list()[k]).2 > 0,
            complete_below(isl, s, index as int, method, reeb.edge_list(), layer as int),
            forall|i: int| 0 <= i < isl[layer as int]@.len() && reached(isl, s, index as int, reeb.edge_list(), layer as int, i)
                ==> #[trigger] in_frontier(frontier@, i),
            forall|k: int| 0 <= k < reeb.edge_list().len() ==> (#[trigger] reeb.edge_list()[k]).0 < layer,
        decreases n - layer,
    {
        let old_islands = &islands[layer];
        let new_islands = &islands[layer + 1];
        let mut seen: Vec<bool> = Vec::new();
        for j in 0..new_islands.len()
            invariant
                seen@.len() == j,
                forall|h: int| 0 <= h < j ==> !#[trigger] seen@[h],
        {
            seen.push(false);
        }
        let mut next_frontier: Vec<(usize, usize)> = Vec::new();
        proof {
            assert(offset(isl, s, layer + 2) == offset(isl, s, layer + 1) + isl[layer + 1]@.len());
        }
        for f in 0..frontier.len()
            invariant
                forall|l: int, k: int| 0 <= l < islands.len() && 0 <= k < islands@[l].len() ==> (#[trigger] islands@[l]@[k]).wf(),
                isl == islands@,
                n == islands.len(),
                n <= MAX_ID,
                s <= layer,
                layer + 1 < n,
                s == start_layer,
                old_islands == islands@[layer as int],
                new_islands == islands@[layer + 1],
                1 <= start_ids <= MAX_ID + 1,
                start_ids == (if offset(isl, s, layer + 1) <= MAX_ID { offset(isl, s, layer + 1) } else { MAX_ID + 1 }),
                offset(isl, s, layer + 1) >= 1,
                offset(isl, s, layer + 2) == offset(isl, s, layer + 1) + isl[layer + 1]@.len(),
                reeb.wf(),
                reeb.x_of().contains_key(0) && reeb.x_of()[0] == x0,
                reeb.root_id() == 0,
                reeb.spec_root_layer() == s,
                seen@.len() == new_islands.len(),
                forall|k: int| 0 <= k < frontier.len() ==> (#[trigger] frontier@[k]).1 < isl[layer as int]@.len() && frontier@[k].0 <= MAX_ID
                    && names(isl, s, index as int, layer as int, frontier@[k].0 as int, frontier@[k].1 as int),
                forall|k: int| 0 <= k < next_frontier.len() ==> (#[trigger] next_frontier@[k]).1 < isl[layer + 1]@.len() && next_frontier@[k].0 <= MAX_ID
                    && names(isl, s, index as int, layer + 1, next_frontier@[k].0 as int, next_frontier@[k].1 as int),
                forall|k: int| 0 <= k < reeb.edge_list().len() ==> edge_ok(isl, s, index as int, method, #[trigger] reeb.edge_list()[k]),
                forall|k: int| 0 <= k < reeb.edge_list().len() ==> (#[trigger] reeb.edge_list()[k]).2 > 0,
                complete_below(isl, s, index as int, method, reeb.edge_list(), layer as int),
                forall|i: int| 0 <= i < isl[layer as int]@.len() && reached(isl, s, index as int, reeb.edge_list(), layer as int, i)
                    ==> #[trigger] in_frontier(frontier@, i),
                forall|ff: int, j: int| 0 <= ff < f && 0 <= j < isl[layer + 1]@.len()
                    ==> #[trigger] links_out(isl, s, index as int, method, reeb.edge_list(), layer as int, frontier@[ff].1 as int, j),
                forall|k: int| 0 <= k < reeb.edge_list().len() ==> (#[trigger] reeb.edge_list()[k]).0 <= layer,
                forall|k: int| 0 <= k < reeb.edge_list().len() && (#[trigger] reeb.edge_list()[k]).0 == layer ==>
                    0 <= reeb.edge_list()[k].2 - offset(isl, s, layer + 1) < isl[layer + 1]@.len()
                    && seen@[reeb.edge_list()[k].2 - offset(isl, s, layer + 1)],
                forall|j: int| 0 <= j < seen@.len() && #[trigger] seen@[j] ==> in_frontier(next_frontier@, j),
        {
            let (parent_id, idx) = frontier[f];
            let old = &old_islands[idx];
            if let Some(old_rep) = representative(old, method) {
                for j in 0..new_islands.len()
                    invariant
                        isl == islands@,
                        n == islands.len(),
                        n <= MAX_ID,
                        s <= layer,
                        layer + 1 < n,
                        s == start_layer,
                        new_islands == islands@[layer + 1],
                        forall|k: int| 0 <= k < new_islands.len() ==> (#[trigger] new_islands@[k]).wf(),
                        1 <= start_ids <= MAX_ID + 1,
                        start_ids == (if offset(isl, s, layer + 1) <= MAX_ID { offset(isl, s, layer + 1) } else { MAX_ID + 1 }),
                        offset(isl, s, layer + 1) >= 1,
                        offset(isl, s, layer + 2) == offset(isl, s, layer + 1) + isl[layer + 1]@.len(),
                        parent_id <= MAX_ID,
                        idx < isl[layer as int]@.len(),
                        *old == isl[layer as int]@[idx as int],
                        names(isl, s, index as int, layer as int, parent_id as int, idx as int),
                        old.wf(),
                        old_rep.wf(),
                        representative_of(old@, method) == Some(old_rep),
                        reeb.wf(),
                        reeb.x_of().contains_key(0) && reeb.x_of()[0] == x0,
                        reeb.root_id() == 0,
                        reeb.spec_root_layer() == s,
                        seen@.len() == new_islands.len(),
                        forall|k: int| 0 <= k < next_frontier.len() ==> (#[trigger] next_frontier@[k]).1 < isl[layer + 1]@.len() && next_frontier@[k].0 <= MAX_ID
                            && names(isl, s, index as int, layer + 1, next_frontier@[k].0 as int, next_frontier@[k].1 as int),
                        forall|k: int| 0 <= k < reeb.edge_list().len() ==> edge_ok(isl, s, index as int, method, #[trigger] reeb.edge_list()[k]),
                        forall|k: int| 0 <= k < reeb.edge_list().len() ==> (#[trigger] reeb.edge_list()[k]).2 > 0,
                        f < frontier.len(),
                        frontier@[f as int] == (parent_id, idx),
                        complete_below(isl, s, index as int, method, reeb.edge_list(), layer as int),
                        forall|i: int| 0 <= i < isl[layer as int]@.len() && reached(isl, s, index as int, reeb.edge_list(), layer as int, i)
                            ==> #[trigger] in_frontier(frontier@, i),
                        forall|ff: int, j2: int| 0 <= ff < f && 0 <= j2 < isl[layer + 1]@.len()
                            ==> #[trigger] links_out(isl, s, index as int, method, reeb.edge_list(), layer as int, frontier@[ff].1 as int, j2),
                        forall|j2: int| 0 <= j2 < j ==> #[trigger] links_out(isl, s, index as int, method, reeb.edge_list(), layer as int, idx as int, j2),
                        forall|k: int| 0 <= k < reeb.edge_list().len() ==> (#[trigger] reeb.edge_list()[k]).0 <= layer,
                        forall|k: int| 0 <= k < reeb.edge_list().len() && (#[trigger] reeb.edge_list()[k]).0 == layer ==>
                            0 <= reeb.edge_list()[k].2 - offset(isl, s, layer + 1) < isl[layer + 1]@.len()
                            && seen@[reeb.edge_list()[k].2 - offset(isl, s, layer + 1)],
                        forall|j2: int| 0 <= j2 < seen@.len() && #[trigger] seen@[j2] ==> in_frontier(next_frontier@, j2),
                {
                    let poly_new = &new_islands[j];
                    let ghost e_start = reeb.edge_list();
                    let ghost seen_start = seen@;
                    let ghost nf_start = next_frontier@;
                    proof {
                        assert(isl[layer + 1]@[j as int] == *poly_new);
                        assert(name_of(isl, s, index as int, layer as int, idx as int) == parent_id as int);
                    }
                    if let Some(new_rep) = representative(poly_new, method) {
                        if start_ids <= MAX_ID && j <= MAX_ID - start_ids && linked(old, poly_new, &old_rep, &new_rep) {
                            let id = start_ids + j;
                            let ghost before = reeb.edge_list();
                            reeb.add_point(layer as i32, &CriticalPoint::new(parent_id as i32), &CriticalPoint::new(id as i32), old_rep.x_truncated());
                            proof {
                                let e = (layer as i32, parent_id as i32, id as i32);
                                assert(edge_of_islands(isl, s, index as int, method, e, idx as int, j as int));
                                assert forall|k: int| 0 <= k < reeb.edge_list().len() implies edge_ok(isl, s, index as int, method, #[trigger] reeb.edge_list()[k]) by {
                                    if k < before.len() {
                                        assert(reeb.edge_list()[k] == before[k]);
                                    } else {
                                        assert(reeb.edge_list()[k] == e);
                                    }
                                }
                                assert forall|k: int| 0 <= k < reeb.edge_list().len() implies (#[trigger] reeb.edge_list()[k]).2 > 0 by {
                                    if k < before.len() {
                                        assert(reeb.edge_list()[k] == before[k]);
                                    }
                                }
                                assert(reeb.edge_list() == before.push(e));
                                assert(id as int == offset(isl, s, layer + 1) + j);
                            }
                            if !seen[j] {
                                seen.set(j, true);
                                next_frontier.push((id, j));
                            }
                            proof {
                                assert(seen@ =~= seen_start.update(j as int, true));
                            }
                        } else {
                            proof {
                                assert(!(overlaps(isl[layer as int]@[idx as int]@, isl[layer + 1]@[j as int]@, method)
                                    && offset(isl, s, layer + 1) + j <= MAX_ID));
                            }
                        }
                    } else {
                        proof {
                            assert(!overlaps(isl[layer as int]@[idx as int]@, isl[layer + 1]@[j as int]@, method));
                        }
                    }
                    proof {
                        lemma_j_step(isl, s, index as int, method, e_start, reeb.edge_list(), layer as int, idx as int, j as int,
                            frontier@, f as int, seen_start, seen@, nf_start, next_frontier@);
                    }
                }
            } else {
                proof {
                    assert forall|j2: int| 0 <= j2 < isl[layer + 1]@.len() implies #[trigger] links_out(isl, s, index as int, method, reeb.edge_list(), layer as int, idx as int, j2) by {}
                }
            }
            proof {
                assert forall|ff: int, j2: int| 0 <= ff < f + 1 && 0 <= j2 < isl[layer + 1]@.len()
                    implies #[trigger] links_out(isl, s, index as int, method, reeb.edge_list(), layer as int, frontier@[ff].1 as int, j2) by {
                    if ff == f {
                        assert(frontier@[ff].1 == idx);
                    }
                }
            }
        }
        proof {
            lemma_layer_done(isl, s, index as int, method, reeb.edge_list(), layer as int, frontier@, seen@, next_frontier@);
        }
        start_ids = if new_islands.len() <= MAX_ID + 1 - start_ids { start_ids + new_islands.len() } else { MAX_ID + 1 };
        frontier = next_frontier;
        layer = layer + 1;
    }
    proof {
        crate::reeb_graph::lemma_root_in_degree(&reeb);
        lemma_search_done(isl, s, index as int, method, reeb.edge_list(), layer as int, frontier@);
        assert(tracked_from(isl, s, index as int, method, reeb));
        assert(first_hit(isl, *start_point, start_time as int) == Some(s));
        assert(0 <= index < isl[s]@.len() && inside(isl[s]@[index as int]@, *start_point));
        assert(exists|seed: int|
            0 <= seed < isl[s]@.len() && inside(isl[s]@[seed]@, *start_point) && #[trigger] tracked_from(isl, s, seed, method, reeb));
        assert(isl == islands@);
        let fh = first_hit(isl, *start_point, start_time as int);
        assert(fh matches Some(s2) && s2 == s);
        assert(track_result(isl, *start_point, start_time as int, method, reeb)) by {
            assert(exists|seed: int|
                0 <= seed < isl[fh->0]@.len() && inside(isl[fh->0]@[seed]@, *start_point) && #[trigger] tracked_from(isl, fh->0, seed, method, reeb));
        }
    }
    Some(reeb)
}

/// One island `j` of the next layer handled for island `idx`: the link is in
/// place if they overlap, and the bookkeeping of reached islands holds.
proof fn lemma_j_step(isl: Seq<Vec<Polygon>>, s: int, seed: int, method: i32, e0: Seq<(i32, i32, i32)>, e1: Seq<(i32, i32, i32)>, l: int, idx: int, j: int,
    fr: Seq<(usize, usize)>, f: int, seen0: Seq<bool>, seen1: Seq<bool>, nf0: Seq<(usize, usize)>, nf1: Seq<(usize, usize)>)
    requires
        0 <= s <= l,
        isl.len() <= MAX_ID,
        0 <= offset(isl, s, l + 1),
        l + 1 < isl.len(),
        0 <= idx < isl[l]@.len(),
        0 <= j < isl[l + 1]@.len(),
        0 <= f < fr.len(),
        fr[f].1 == idx,
        seen0.len() == isl[l + 1]@.len(),
        complete_below(isl, s, seed, method, e0, l),
        forall|i: int| 0 <= i < isl[l]@.len() && reached(isl, s, seed, e0, l, i) ==> #[trigger] in_frontier(fr, i),
        forall|ff: int, j2: int| 0 <= ff < f && 0 <= j2 < isl[l + 1]@.len()
            ==> #[trigger] links_out(isl, s, seed, method, e0, l, fr[ff].1 as int, j2),
        forall|j2: int| 0 <= j2 < j ==> #[trigger] links_out(isl, s, seed, method, e0, l, idx, j2),
        forall|k: int| 0 <= k < e0.len() ==> (#[trigger] e0[k]).0 <= l,
        forall|k: int| 0 <= k < e0.len() && (#[trigger] e0[k]).0 == l ==> 0 <= e0[k].2 - offset(isl, s, l + 1) < isl[l + 1]@.len()
            && seen0[e0[k].2 - offset(isl, s, l + 1)],
        forall|j2: int| 0 <= j2 < seen0.len() && #[trigger] seen0[j2] ==> in_frontier(nf0, j2),
        // what the step did
        e1 == e0 || (e1 == e0.push((l as i32, name_of(isl, s, seed, l, idx) as i32, (offset(isl, s, l + 1) + j) as i32))
            && offset(isl, s, l + 1) + j <= MAX_ID && seen1 == seen0.update(j, true)
            && (nf1 == nf0 || nf1 == nf0.push(((offset(isl, s, l + 1) + j) as usize, j as usize)))
            && (seen0[j] ==> nf1 == nf0) && (!seen0[j] ==> nf1 == nf0.push(((offset(isl, s, l + 1) + j) as usize, j as usize)))),
        e1 == e0 ==> seen1 == seen0 && nf1 == nf0 && !(overlaps(isl[l]@[idx]@, isl[l + 1]@[j]@, method) && offset(isl, s, l + 1) + j <= MAX_ID),
    ensures
        complete_below(isl, s, seed, method, e1, l),
        forall|i: int| 0 <= i < isl[l]@.len() && reached(isl, s, seed, e1, l, i) ==> #[trigger] in_frontier(fr, i),
        forall|ff: int, j2: int| 0 <= ff < f && 0 <= j2 < isl[l + 1]@.len()
            ==> #[trigger] links_out(isl, s, seed, method, e1, l, fr[ff].1 as int, j2),
        forall|j2: int| 0 <= j2 < j + 1 ==> #[trigger] links_out(isl, s, seed, method, e1, l, idx, j2),
        forall|k: int| 0 <= k < e1.len() ==> (#[trigger] e1[k]).0 <= l,
        forall|k: int| 0 <= k < e1.len() && (#[trigger] e1[k]).0 == l ==> 0 <= e1[k].2 - offset(isl, s, l + 1) < isl[l + 1]@.len()
            && seen1[e1[k].2 - offset(isl, s, l + 1)],
        forall|j2: int| 0 <= j2 < seen1.len() && #[trigger] seen1[j2] ==> in_frontier(nf1, j2),
{
    if e1 != e0 {
        let x = (l as i32, name_of(isl, s, seed, l, idx) as i32, (offset(isl, s, l + 1) + j) as i32);
        assert(offset(isl, s, l + 1) + j <= MAX_ID);
        assert(x.0 as int == l && x.2 as int == offset(isl, s, l + 1) + j);
        lemma_push_edge(e0, x);
        lemma_complete_grows(isl, s, seed, method, e0, x, l);
        assert(e1[e0.len() as int] == x);
        assert(has_link(e1, l, name_of(isl, s, seed, l, idx), offset(isl, s, l + 1) + j));
        assert forall|i: int| 0 <= i < isl[l]@.len() && reached(isl, s, seed, e1, l, i) implies #[trigger] in_frontier(fr, i) by {
            if l > s && !(l == s && i == seed) {
                assert(has_edge_to(e0, l - 1, offset(isl, s, l) + i));
            }
        }
        assert forall|j2: int| 0 <= j2 < j + 1 implies #[trigger] links_out(isl, s, seed, method, e1, l, idx, j2) by {
            if j2 < j {
                assert(links_out(isl, s, seed, method, e0, l, idx, j2));
            }
        }
        assert forall|ff: int, j2: int| 0 <= ff < f && 0 <= j2 < isl[l + 1]@.len()
            implies #[trigger] links_out(isl, s, seed, method, e1, l, fr[ff].1 as int, j2) by {
            assert(links_out(isl, s, seed, method, e0, l, fr[ff].1 as int, j2));
        }
        assert forall|k: int| 0 <= k < e1.len() && (#[trigger] e1[k]).0 == l implies 0 <= e1[k].2 - offset(isl, s, l + 1) < isl[l + 1]@.len()
            && seen1[e1[k].2 - offset(isl, s, l + 1)] by {
            if k < e0.len() {
                assert(e1[k] == e0[k]);
            }
        }
        assert forall|j2: int| 0 <= j2 < seen1.len() && #[trigger] seen1[j2] implies in_frontier(nf1, j2) by {
            if j2 == j && !seen0[j] {
                assert(nf1[nf0.len() as int].1 == j);
            } else {
                assert(seen0[j2]);
                let f2 = choose|f2: int| 0 <= f2 < nf0.len() && (#[trigger] nf0[f2]).1 == j2;
                assert(nf1[f2] == nf0[f2]);
            }
        }
        assert forall|k: int| 0 <= k < e1.len() implies (#[trigger] e1[k]).0 <= l by {
            if k < e0.len() {
                assert(e1[k] == e0[k]);
            }
        }
    }
}

/// After a layer: every reached island of it is linked, and every island of
/// the next layer reached by an edge is in the next frontier.
proof fn lemma_layer_done(isl: Seq<Vec<Polygon>>, s: int, seed: int, method: i32, e: Seq<(i32, i32, i32)>, l: int, fr: Seq<(usize, usize)>,
    seen: Seq<bool>, nf: Seq<(usize, usize)>)
    requires
        s <= l,
        l + 1 < isl.len(),
        complete_below(isl, s, seed, method, e, l),
        forall|i: int| 0 <= i < isl[l]@.len() && reached(isl, s, seed, e, l, i) ==> #[trigger] in_frontier(fr, i),
        forall|ff: int, j2: int| 0 <= ff < fr.len() && 0 <= j2 < isl[l + 1]@.len()
            ==> #[trigger] links_out(isl, s, seed, method, e, l, fr[ff].1 as int, j2),
        forall|k: int| 0 <= k < e.len() ==> (#[trigger] e[k]).0 <= l,
        forall|k: int| 0 <= k < e.len() && (#[trigger] e[k]).0 == l ==> 0 <= e[k].2 - offset(isl, s, l + 1) < isl[l + 1]@.len()
            && seen[e[k].2 - offset(isl, s, l + 1)],
        forall|j2: int| 0 <= j2 < seen.len() && #[trigger] seen[j2] ==> in_frontier(nf, j2),
        seen.len() == isl[l + 1]@.len(),
    ensures
        complete_below(isl, s, seed, method, e, l + 1),
        forall|i: int| 0 <= i < isl[l + 1]@.len() && reached(isl, s, seed, e, l + 1, i) ==> #[trigger] in_frontier(nf, i),
        forall|k: int| 0 <= k < e.len() ==> (#[trigger] e[k]).0 < l + 1,
{
    assert forall|l2: int, i: int, j: int|
        s <= l2 < l + 1 && l2 + 1 < isl.len() && 0 <= i < isl[l2]@.len() && 0 <= j < isl[l2 + 1]@.len() && reached(isl, s, seed, e, l2, i)
            implies #[trigger] links_out(isl, s, seed, method, e, l2, i, j) by {
        if l2 == l {
            assert(in_frontier(fr, i));
            let ff = choose|ff: int| 0 <= ff < fr.len() && (#[trigger] fr[ff]).1 == i;
            assert(links_out(isl, s, seed, method, e, l, fr[ff].1 as int, j));
        }
    }
    assert forall|i: int| 0 <= i < isl[l + 1]@.len() && reached(isl, s, seed, e, l + 1, i) implies #[trigger] in_frontier(nf, i) by {
        let k = choose|k: int| 0 <= k < e.len() && (#[trigger] e[k]).0 == l && e[k].2 == offset(isl, s, l + 1) + i;
        assert(seen[e[k].2 - offset(isl, s, l + 1)]);
    }
}

/// When the search stops, every reached island is linked.
proof fn lemma_search_done(isl: Seq<Vec<Polygon>>, s: int, seed: int, method: i32, e: Seq<(i32, i32, i32)>, l: int, fr: Seq<(usize, usize)>)
    requires
        s <= l < isl.len(),
        !(l + 1 < isl.len() && fr.len() > 0),
        complete_below(isl, s, seed, method, e, l),
        forall|i: int| 0 <= i < isl[l]@.len() && reached(isl, s, seed, e, l, i) ==> #[trigger] in_frontier(fr, i),
        forall|k: int| 0 <= k < e.len() ==> (#[trigger] e[k]).0 < l,
    ensures
        complete_below(isl, s, seed, method, e, isl.len() as int),
{
    assert forall|l2: int, i: int, j: int|
        s <= l2 < isl.len() && l2 + 1 < isl.len() && 0 <= i < isl[l2]@.len() && 0 <= j < isl[l2 + 1]@.len() && reached(isl, s, seed, e, l2, i)
            implies #[trigger] links_out(isl, s, seed, method, e, l2, i, j) by {
        if l2 >= l {
            if l2 == l {
                assert(in_frontier(fr, i));
            } else {
                if !(l2 == s && i == seed) {
                    let k = choose|k: int| 0 <= k < e.len() && (#[trigger] e[k]).0 == l2 - 1 && e[k].2 == offset(isl, s, l2) + i;
                }
            }
        }
    }
}

} // verus!
