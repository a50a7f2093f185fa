//! The beach line of Fortune's sweep: a binary tree whose leaves are parabolic
//! arcs and whose inner nodes are the breakpoints between them, kept in an
//! arena of nodes.
use vstd::prelude::*;
use crate::geometry::pt_ok;

verus! {

/// A site of the sweep.
pub type Site = (i64, i64);

/// Three sites, left to right.
pub type TripleSite = (Site, Site, Site);

/// Index that refers to nothing.
pub const NIL: usize = usize::MAX;

pub struct BeachLine {
    pub nodes: Vec<BeachNode>,
    pub root: usize,
}

pub struct BeachNode {
    pub parent: Option<usize>,
    pub left_child: Option<usize>,
    pub right_child: Option<usize>,
    pub item: BeachItem,
}

pub enum BeachItem {
    Leaf(Arc),
    Internal(BreakPoint),
}

pub struct Arc {
    pub site: Site,
    /// index to circle event in the event queue
    pub site_event: Option<usize>,
}

pub struct BreakPoint {
    pub left_site: Site,
    pub right_site: Site,
    /// index of halfedge
    pub halfedge: usize,
}

impl Arc {
    pub fn new(site: Site, site_event: Option<usize>) -> (r: Self)
        ensures
            r.site == site && r.site_event == site_event,
    {
        Arc { site, site_event }
    }
}

impl BreakPoint {
    pub fn new(left_site: Site, right_site: Site, halfedge: usize) -> (r: Self)
        ensures
            r.left_site == left_site && r.right_site == right_site && r.halfedge == halfedge,
    {
        BreakPoint { left_site, right_site, halfedge }
    }
}

impl BeachNode {
    fn make_root(item: BeachItem) -> (r: Self)
        ensures
            r.parent is None && r.left_child is None && r.right_child is None,
            r.item == item,
    {
        BeachNode { parent: None, left_child: None, right_child: None, item: item }
    }

    /// A leaf under `parent`; `item` must be an arc.
    pub fn make_arc(parent: Option<usize>, item: BeachItem) -> (r: Self)
        requires
            item is Leaf,
        ensures
            r.parent == parent && r.left_child is None && r.right_child is None,
            r.item == item,
    {
        BeachNode { parent: parent, left_child: None, right_child: None, item: item }
    }
}

/// An index into a tree of `n` nodes, if any.
pub open spec fn link_ok(l: Option<usize>, n: int) -> bool {
    match l {
        Some(i) => i < n,
        None => true,
    }
}

/// Is `pt.0` left of the breakpoint between the arcs of `l` (to the left) and
/// `r`, with the sweep line at height `pt.1` below both sites? The arc of a
/// site is the parabola of points as far from the site as from the sweep
/// line; left of the breakpoint the arc of `l` is the lower one.
pub open spec fn left_of_breakpoint(l: Site, r: Site, pt: Site) -> bool {
    let x = pt.0 as int;
    let dl = l.1 - pt.1;
    let dr = r.1 - pt.1;
    let g = dr * ((x - l.0) * (x - l.0)) - dl * ((x - r.0) * (x - r.0)) + dl * dr * (l.1 - r.1);
    let slope = dr * (x - l.0) - dl * (x - r.0);
    if dl == dr {
        2 * x < l.0 + r.0
    } else if dl < dr {
        g < 0 || slope < 0
    } else {
        g < 0 && slope > 0
    }
}

fn left_of_breakpoint_exec(l: Site, r: Site, pt: Site) -> (b: bool)
    requires
        pt_ok(l),
        pt_ok(r),
        pt_ok(pt),
    ensures
        b == left_of_breakpoint(l, r, pt),
{
    let x = pt.0 as i128;
    let dl = l.1 as i128 - pt.1 as i128;
    let dr = r.1 as i128 - pt.1 as i128;
    let ghost m: int = 0x20_0000;
    proof {
        crate::geometry::lemma_mul_small(x - l.0 as int, x - l.0 as int, m, m);
        crate::geometry::lemma_mul_small(x - r.0 as int, x - r.0 as int, m, m);
    }
    let a = (x - l.0 as i128) * (x - l.0 as i128);
    let c = (x - r.0 as i128) * (x - r.0 as i128);
    proof {
        crate::geometry::lemma_mul_small(dr as int, a as int, m, m * m);
        crate::geometry::lemma_mul_small(dl as int, c as int, m, m * m);
        crate::geometry::lemma_mul_small(dl as int, dr as int, m, m);
        crate::geometry::lemma_mul_small((dl * dr) as int, (l.1 - r.1) as int, m * m, m);
        crate::geometry::lemma_mul_small(dr as int, x - l.0 as int, m, m);
        crate::geometry::lemma_mul_small(dl as int, x - r.0 as int, m, m);
    }
    let g = dr * a - dl * c + dl * dr * (l.1 as i128 - r.1 as i128);
    let slope = dr * (x - l.0 as i128) - dl * (x - r.0 as i128);
    if dl == dr {
        2 * x < l.0 as i128 + r.0 as i128
    } else if dl < dr {
        g < 0 || slope < 0
    } else {
        g < 0 && slope > 0
    }
}

impl BeachLine {
    /// Links of every node stay inside the arena, and a non-empty tree has its
    /// root there.
    pub open spec fn wf(&self) -> bool {
        &&& forall|i: int|
            0 <= i < self.nodes@.len() ==> {
                &&& link_ok((#[trigger] self.nodes@[i]).parent, self.nodes@.len() as int)
                &&& link_ok(self.nodes@[i].left_child, self.nodes@.len() as int)
                &&& link_ok(self.nodes@[i].right_child, self.nodes@.len() as int)
            }
        &&& self.nodes@.len() > 0 ==> self.root < self.nodes@.len()
    }

    /// Every site in the tree is within `COORD_MAX`.
    pub open spec fn sites_ok(&self) -> bool {
        forall|i: int|
            0 <= i < self.nodes@.len() ==> match (#[trigger] self.nodes@[i]).item {
                BeachItem::Leaf(a) => pt_ok(a.site),
                BeachItem::Internal(b) => pt_ok(b.left_site) && pt_ok(b.right_site),
            }
    }

    /// An empty beach line.
    pub fn new() -> (r: Self)
        ensures
            r.wf(),
            r.nodes@.len() == 0,
            r.root == NIL,
    {
        BeachLine { nodes: Vec::new(), root: NIL }
    }

    pub fn is_empty(&self) -> (r: bool)
        ensures
            r == (self.nodes@.len() == 0),
    {
        self.nodes.len() == 0
    }

    /// Adds the arc of `pt` as a new root.
    pub fn insert_point(&mut self, pt: Site)
        requires
            old(self).wf(),
        ensures
            final(self).wf(),
            final(self).nodes@.len() == old(self).nodes@.len() + 1,
            final(self).root == old(self).nodes@.len(),
            forall|i: int| 0 <= i < old(self).nodes@.len() ==> #[trigger] final(self).nodes@[i] == old(self).nodes@[i],
            final(self).nodes@.last().parent is None,
            final(self).nodes@.last().left_child is None,
            final(self).nodes@.last().right_child is None,
            final(self).nodes@.last().item == BeachItem::Leaf(Arc { site: pt, site_event: None }),
    {
        let this_arc = Arc { site: pt, site_event: None };
        let this_item = BeachItem::Leaf(this_arc);
        let this_node = BeachNode::make_root(this_item);
        self.nodes.push(this_node);
        self.root = self.nodes.len() - 1;
        proof {
            assert forall|i: int| 0 <= i < self.nodes@.len() implies {
                &&& link_ok((#[trigger] self.nodes@[i]).parent, self.nodes@.len() as int)
                &&& link_ok(self.nodes@[i].left_child, self.nodes@.len() as int)
                &&& link_ok(self.nodes@[i].right_child, self.nodes@.len() as int)
            } by {
                if i < old(self).nodes@.len() {
                    assert(self.nodes@[i] == old(self).nodes@[i]);
                }
            }
        }
    }

    /// Every breakpoint node has both children.
    pub open spec fn inner_ok(&self) -> bool {
        forall|i: int|
            0 <= i < self.nodes@.len() && (#[trigger] self.nodes@[i]).item is Internal ==> self.nodes@[i].left_child
                is Some && self.nodes@[i].right_child is Some
    }

    /// The node reached from `i` by at most `k` steps to a left child.
    pub open spec fn follow_left(&self, i: int, k: nat) -> int
        decreases k,
    {
        if k == 0 {
            i
        } else {
            match self.nodes@[i].left_child {
                Some(l) => self.follow_left(l as int, (k - 1) as nat),
                None => i,
            }
        }
    }

    /// The node reached from `i` by at most `k` steps to a right child.
    pub open spec fn follow_right(&self, i: int, k: nat) -> int
        decreases k,
    {
        if k == 0 {
            i
        } else {
            match self.nodes@[i].right_child {
                Some(r) => self.follow_right(r as int, (k - 1) as nat),
                None => i,
            }
        }
    }

    /// Climbing from `i` while it is the right (`from_right`) or left child of
    /// its parent, at most `k` steps: the first ancestor reached the other way.
    pub open spec fn climb(&self, i: int, from_right: bool, k: nat) -> Option<usize>
        decreases k,
    {
        match self.nodes@[i].parent {
            None => None,
            Some(p) => {
                let side = if from_right { self.nodes@[p as int].right_child } else { self.nodes@[p as int].left_child };
                if side == Some(i as usize) && k > 0 {
                    self.climb(p as int, from_right, (k - 1) as nat)
                } else {
                    Some(p)
                }
            },
        }
    }

    /// The in-order successor of node `i`.
    pub open spec fn succ_of(&self, i: int) -> Option<usize> {
        let n = self.nodes@.len();
        match self.nodes@[i].right_child {
            Some(r) => Some(self.follow_left(r as int, n) as usize),
            None => self.climb(i, true, n),
        }
    }

    /// The in-order predecessor of node `i`.
    pub open spec fn pred_of(&self, i: int) -> Option<usize> {
        let n = self.nodes@.len();
        match self.nodes@[i].left_child {
            Some(l) => Some(self.follow_right(l as int, n) as usize),
            None => self.climb(i, false, n),
        }
    }

    pub open spec fn opt_succ(&self, i: Option<usize>) -> Option<usize> {
        match i {
            Some(j) => self.succ_of(j as int),
            None => None,
        }
    }

    pub open spec fn opt_pred(&self, i: Option<usize>) -> Option<usize> {
        match i {
            Some(j) => self.pred_of(j as int),
            None => None,
        }
    }

    /// The site of the arc at node `i`, if it is a leaf.
    pub open spec fn site_of(&self, i: Option<usize>) -> Option<Site> {
        match i {
            Some(j) => match self.nodes@[j as int].item {
                BeachItem::Leaf(a) => Some(a.site),
                BeachItem::Internal(_) => None,
            },
            None => None,
        }
    }

    /// The node reached from `i` going down toward the arc above `pt`, at most
    /// `k` steps.
    pub open spec fn descend(&self, i: int, pt: Site, k: nat) -> int
        decreases k,
    {
        if k == 0 {
            i
        } else {
            match self.nodes@[i].item {
                BeachItem::Leaf(_) => i,
                BeachItem::Internal(bp) => {
                    let next = if left_of_breakpoint(bp.left_site, bp.right_site, pt) {
                        self.nodes@[i].left_child
                    } else {
                        self.nodes@[i].right_child
                    };
                    match next {
                        Some(c) => self.descend(c as int, pt, (k - 1) as nat),
                        None => i,
                    }
                },
            }
        }
    }

    /// The arc above `pt`: down from the root, left of each breakpoint that
    /// lies right of `pt` and right otherwise.
    pub fn get_arc_above(&self, pt: Site) -> (r: usize)
        requires
            self.wf(),
            self.inner_ok(),
            self.sites_ok(),
            pt_ok(pt),
            self.nodes@.len() > 0,
        ensures
            r == self.descend(self.root as int, pt, self.nodes@.len()),
    {
        let n = self.nodes.len();
        let mut current_node = self.root;
        let mut steps: usize = 0;
        while steps < n
            invariant
                self.wf(),
                self.inner_ok(),
                self.sites_ok(),
                pt_ok(pt),
                n == self.nodes@.len(),
                current_node < n,
                steps <= n,
                self.descend(self.root as int, pt, n as nat) == self.descend(current_node as int, pt, (n - steps) as nat),
            decreases n - steps,
        {
            let next = self.child_toward(current_node, pt);
            if next.is_none() {
                return current_node;
            }
            current_node = next.unwrap();
            steps = steps + 1;
        }
        current_node
    }

    /// The child of node `i` on the side of `pt`; `None` at a leaf.
    fn child_toward(&self, i: usize, pt: Site) -> (r: Option<usize>)
        requires
            self.wf(),
            self.sites_ok(),
            pt_ok(pt),
            i < self.nodes@.len(),
        ensures
            r == (match self.nodes@[i as int].item {
                BeachItem::Leaf(_) => None,
                BeachItem::Internal(bp) => if left_of_breakpoint(bp.left_site, bp.right_site, pt) {
                    self.nodes@[i as int].left_child
                } else {
                    self.nodes@[i as int].right_child
                },
            }),
            link_ok(r, self.nodes@.len() as int),
    {
        let node = &self.nodes[i];
        proof {
            assert(self.nodes@[i as int] == *node);
        }
        match &node.item {
            BeachItem::Leaf(_) => None,
            BeachItem::Internal(bp) => {
                if left_of_breakpoint_exec(bp.left_site, bp.right_site, pt) {
                    node.left_child
                } else {
                    node.right_child
                }
            },
        }
    }

    /// The leftmost node below `root`.
    pub fn tree_minimum(&self, root: usize) -> (r: usize)
        requires
            self.wf(),
            root < self.nodes@.len(),
        ensures
            r == self.follow_left(root as int, self.nodes@.len()),
            r < self.nodes@.len(),
    {
        let n = self.nodes.len();
        let mut current_node = root;
        let mut steps: usize = 0;
        while steps < n
            invariant
                self.wf(),
                n == self.nodes@.len(),
                current_node < n,
                steps <= n,
                self.follow_left(root as int, n as nat) == self.follow_left(current_node as int, (n - steps) as nat),
            decreases n - steps,
        {
            match self.nodes[current_node].left_child {
                Some(left) => {
                    current_node = left;
                },
                None => {
                    return current_node;
                },
            }
            steps = steps + 1;
        }
        current_node
    }

    /// The rightmost node below `root`.
    pub fn tree_maximum(&self, root: usize) -> (r: usize)
        requires
            self.wf(),
            root < self.nodes@.len(),
        ensures
            r == self.follow_right(root as int, self.nodes@.len()),
            r < self.nodes@.len(),
    {
        let n = self.nodes.len();
        let mut current_node = root;
        let mut steps: usize = 0;
        while steps < n
            invariant
                self.wf(),
                n == self.nodes@.len(),
                current_node < n,
                steps <= n,
                self.follow_right(root as int, n as nat) == self.follow_right(current_node as int, (n - steps) as nat),
            decreases n - steps,
        {
            match self.nodes[current_node].right_child {
                Some(right) => {
                    current_node = right;
                },
                None => {
                    return current_node;
                },
            }
            steps = steps + 1;
        }
        current_node
    }

    /// First ancestor of `node` reached by climbing while coming from the right
    /// (`from_right`) or from the left.
    fn climb_exec(&self, node: usize, from_right: bool) -> (r: Option<usize>)
        requires
            self.wf(),
            node < self.nodes@.len(),
        ensures
            r == self.climb(node as int, from_right, self.nodes@.len()),
            link_ok(r, self.nodes@.len() as int),
    {
        let n = self.nodes.len();
        let mut current_node = node;
        let mut current_parent = self.nodes[node].parent;
        let mut steps: usize = 0;
        while current_parent.is_some() && steps < n && self.parent_side(current_parent.unwrap(), from_right) == Some(current_node)
            invariant
                self.wf(),
                n == self.nodes@.len(),
                current_node < n,
                steps <= n,
                current_parent == self.nodes@[current_node as int].parent,
                self.climb(node as int, from_right, n as nat) == self.climb(current_node as int, from_right, (n - steps) as nat),
            decreases n - steps,
        {
            current_node = current_parent.unwrap();
            current_parent = self.nodes[current_node].parent;
            steps = steps + 1;
        }
        current_parent
    }

    /// The right (`from_right`) or left child of node `p`.
    fn parent_side(&self, p: usize, from_right: bool) -> (r: Option<usize>)
        requires
            p < self.nodes@.len(),
        ensures
            r == (if from_right { self.nodes@[p as int].right_child } else { self.nodes@[p as int].left_child }),
    {
        if from_right {
            self.nodes[p].right_child
        } else {
            self.nodes[p].left_child
        }
    }

    /// The next node in order.
    pub fn successor(&self, node: usize) -> (r: Option<usize>)
        requires
            self.wf(),
            node < self.nodes@.len(),
        ensures
            r == self.succ_of(node as int),
            link_ok(r, self.nodes@.len() as int),
    {
        if let Some(right) = self.nodes[node].right_child {
            return Some(self.tree_minimum(right));
        }
        self.climb_exec(node, true)
    }

    /// The previous node in order.
    pub fn predecessor(&self, node: usize) -> (r: Option<usize>)
        requires
            self.wf(),
            node < self.nodes@.len(),
        ensures
            r == self.pred_of(node as int),
            link_ok(r, self.nodes@.len() as int),
    {
        if let Some(left) = self.nodes[node].left_child {
            return Some(self.tree_maximum(left));
        }
        self.climb_exec(node, false)
    }

    /// The arc two steps to the left (past the breakpoint between).
    pub fn get_left_arc(&self, node: Option<usize>) -> (r: Option<usize>)
        requires
            self.wf(),
            link_ok(node, self.nodes@.len() as int),
        ensures
            r == self.opt_pred(self.opt_pred(node)),
            link_ok(r, self.nodes@.len() as int),
    {
        match node {
            Some(i) => match self.predecessor(i) {
                Some(left) => self.predecessor(left),
                None => None,
            },
            None => None,
        }
    }

    /// The arc two steps to the right (past the breakpoint between).
    pub fn get_right_arc(&self, node: Option<usize>) -> (r: Option<usize>)
        requires
            self.wf(),
            link_ok(node, self.nodes@.len() as int),
        ensures
            r == self.opt_succ(self.opt_succ(node)),
            link_ok(r, self.nodes@.len() as int),
    {
        match node {
            Some(i) => match self.successor(i) {
                Some(right) => self.successor(right),
                None => None,
            },
            None => None,
        }
    }

    /// The site of the arc at `node`; `None` for a breakpoint or no node.
    pub fn get_site(&self, node: Option<usize>) -> (r: Option<Site>)
        requires
            link_ok(node, self.nodes@.len() as int),
        ensures
            r == self.site_of(node),
    {
        match node {
            Some(i) => match &self.nodes[i].item {
                BeachItem::Leaf(arc) => Some(arc.site),
                BeachItem::Internal(_) => None,
            },
            None => None,
        }
    }

    /// The sites of the two arcs left of `node` and of `node` itself.
    pub fn get_leftward_triple(&self, node: usize) -> (r: Option<TripleSite>)
        requires
            self.wf(),
            node < self.nodes@.len(),
        ensures
            ({
                let l = self.opt_pred(self.opt_pred(Some(node)));
                let ll = self.opt_pred(self.opt_pred(l));
                r == (match (self.site_of(ll), self.site_of(l), self.site_of(Some(node))) {
                    (Some(a), Some(b), Some(c)) => Some((a, b, c)),
                    _ => None::<TripleSite>,
                })
            }),
    {
        let left_arc = self.get_left_arc(Some(node));
        let left_left_arc = self.get_left_arc(left_arc);
        let this_site = self.get_site(Some(node));
        let left_site = self.get_site(left_arc);
        let left_left_site = self.get_site(left_left_arc);
        match (left_left_site, left_site, this_site) {
            (Some(a), Some(b), Some(c)) => Some((a, b, c)),
            _ => None,
        }
    }

    /// The sites of `node` and of the two arcs right of it.
    pub fn get_rightward_triple(&self, node: usize) -> (r: Option<TripleSite>)
        requires
            self.wf(),
            node < self.nodes@.len(),
        ensures
            ({
                let rt = self.opt_succ(self.opt_succ(Some(node)));
                let rr = self.opt_succ(self.opt_succ(rt));
                r == (match (self.site_of(Some(node)), self.site_of(rt), self.site_of(rr)) {
                    (Some(a), Some(b), Some(c)) => Some((a, b, c)),
                    _ => None::<TripleSite>,
                })
            }),
    {
        let right_arc = self.get_right_arc(Some(node));
        let right_right_arc = self.get_right_arc(right_arc);
        let this_site = self.get_site(Some(node));
        let right_site = self.get_site(right_arc);
        let right_right_site = self.get_site(right_right_arc);
        match (this_site, right_site, right_right_site) {
            (Some(a), Some(b), Some(c)) => Some((a, b, c)),
            _ => None,
        }
    }

    /// The sites of the arcs left of `node`, at `node` and right of it.
    pub fn get_centered_triple(&self, node: usize) -> (r: Option<TripleSite>)
        requires
            self.wf(),
            node < self.nodes@.len(),
        ensures
            ({
                let lt = self.opt_pred(self.opt_pred(Some(node)));
                let rt = self.opt_succ(self.opt_succ(Some(node)));
                r == (match (self.site_of(lt), self.site_of(Some(node)), self.site_of(rt)) {
                    (Some(a), Some(b), Some(c)) => Some((a, b, c)),
                    _ => None::<TripleSite>,
                })
            }),
    {
        let right_arc = self.get_right_arc(Some(node));
        let left_arc = self.get_left_arc(Some(node));
        let this_site = self.get_site(Some(node));
        let right_site = self.get_site(right_arc);
        let left_site = self.get_site(left_arc);
        match (left_site, this_site, right_site) {
            (Some(a), Some(b), Some(c)) => Some((a, b, c)),
            _ => None,
        }
    }

    /// Sets the right site of the breakpoint at `node`.
    pub fn set_right_site(&mut self, node: usize, site: Site)
        requires
            old(self).wf(),
            node < old(self).nodes@.len(),
            old(self).nodes@[node as int].item is Internal,
        ensures
            final(self).wf(),
            final(self).root == old(self).root,
            final(self).nodes@.len() == old(self).nodes@.len(),
            forall|i: int| 0 <= i < old(self).nodes@.len() && i != node ==> #[trigger] final(self).nodes@[i] == old(self).nodes@[i],
            ({
                let o = old(self).nodes@[node as int];
                let f = final(self).nodes@[node as int];
                &&& f.parent == o.parent && f.left_child == o.left_child && f.right_child == o.right_child
                &&& f.item matches BeachItem::Internal(b) && o.item matches BeachItem::Internal(a) && b.right_site == site
                    && b.left_site == a.left_site && b.halfedge == a.halfedge
            }),
    {
        if let BeachItem::Internal(bp) = &mut self.nodes[node].item {
            bp.right_site = site;
        }
        proof {
            lemma_links_kept(*old(self), *self);
        }
    }

    /// Sets the left site of the breakpoint at `node`.
    pub fn set_left_site(&mut self, node: usize, site: Site)
        requires
            old(self).wf(),
            node < old(self).nodes@.len(),
            old(self).nodes@[node as int].item is Internal,
        ensures
            final(self).wf(),
            final(self).root == old(self).root,
            final(self).nodes@.len() == old(self).nodes@.len(),
            forall|i: int| 0 <= i < old(self).nodes@.len() && i != node ==> #[trigger] final(self).nodes@[i] == old(self).nodes@[i],
            ({
                let o = old(self).nodes@[node as int];
                let f = final(self).nodes@[node as int];
                &&& f.parent == o.parent && f.left_child == o.left_child && f.right_child == o.right_child
                &&& f.item matches BeachItem::Internal(b) && o.item matches BeachItem::Internal(a) && b.left_site == site
                    && b.right_site == a.right_site && b.halfedge == a.halfedge
            }),
    {
        if let BeachItem::Internal(bp) = &mut self.nodes[node].item {
            bp.left_site = site;
        }
        proof {
            lemma_links_kept(*old(self), *self);
        }
    }

    /// The halfedge traced by the breakpoint at `node`.
    pub fn get_edge(&self, node: usize) -> (r: usize)
        requires
            node < self.nodes@.len(),
            self.nodes@[node as int].item is Internal,
        ensures
            self.nodes@[node as int].item matches BeachItem::Internal(b) && r == b.halfedge,
    {
        match &self.nodes[node].item {
            BeachItem::Internal(breakpoint) => breakpoint.halfedge,
            BeachItem::Leaf(_) => 0,
        }
    }
}

proof fn lemma_links_kept(a: BeachLine, b: BeachLine)
    requires
        a.wf(),
        a.nodes@.len() == b.nodes@.len(),
        a.root == b.root,
        forall|i: int|
            0 <= i < a.nodes@.len() ==> (#[trigger] b.nodes@[i]).parent == a.nodes@[i].parent
                && b.nodes@[i].left_child == a.nodes@[i].left_child && b.nodes@[i].right_child
                == a.nodes@[i].right_child,
    ensures
        b.wf(),
{
    assert forall|i: int| 0 <= i < b.nodes@.len() implies {
        &&& link_ok((#[trigger] b.nodes@[i]).parent, b.nodes@.len() as int)
        &&& link_ok(b.nodes@[i].left_child, b.nodes@.len() as int)
        &&& link_ok(b.nodes@[i].right_child, b.nodes@.len() as int)
    } by {
        assert(a.nodes@[i] == a.nodes@[i]);
    }
}

} // verus!
