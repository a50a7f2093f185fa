use island_reeb::beachline::{Arc, BeachItem, BeachLine, BeachNode, BreakPoint};
use island_reeb::dcel::{make_line_segments, DCEL};
use island_reeb::geometry::RatPoint;
use island_reeb::graph::Graph;
use island_reeb::reeb_graph::{CriticalPoint, ReebGraph};
use island_reeb::tracker::{all_islands, compute_reeb_graph, linked, representative, seed_found, track_islands};
use island_reeb::polygon::Polygon;

fn graph_of(vertices: &[(i32, i32)], edges: &[(usize, usize)]) -> Graph {
    let mut graph = Graph::new();
    for v in vertices {
        graph.add_vertex(*v);
    }
    for (a, b) in edges {
        graph.add_edge(*a, *b);
    }
    graph
}

fn one_square(a: i32) -> Graph {
    graph_of(&[(0, 0), (a, 0), (a, a), (0, a)], &[(0, 1), (1, 2), (2, 3), (0, 3)])
}

fn two_squares() -> Graph {
    graph_of(
        &[(0, 0), (2, 0), (4, 0), (0, 2), (2, 2), (4, 2)],
        &[(0, 1), (1, 2), (0, 3), (1, 4), (2, 5), (3, 4), (4, 5)],
    )
}

fn children_of(g: &ReebGraph, parent: i32) -> Vec<i32> {
    g.edges().iter().filter(|e| e.1 == parent).map(|e| e.2).collect()
}

#[test]
fn reeb_split() {
    let layers = vec![one_square(4), two_squares()];
    let g = compute_reeb_graph(&layers, &RatPoint::new(1, 1, 2), 0, 0).unwrap();
    let children = children_of(&g, 0);
    assert_eq!(children.len(), 2);
    assert_eq!(g.edges().len(), 2);
    assert!(children.contains(&1) && children.contains(&2));
    assert!(g.edges().iter().all(|e| e.0 == 0));
    // the root's out-degree counts its placeholder as well
    assert_eq!(g.out_degree(&CriticalPoint::new(0)), Some(3));
    assert_eq!(g.in_degree(&CriticalPoint::new(0)), Some(0));
}

#[test]
fn reeb_merge() {
    let layers = vec![one_square(4), two_squares(), one_square(4)];
    let g = compute_reeb_graph(&layers, &RatPoint::new(1, 1, 2), 0, 0).unwrap();
    let merged: Vec<i32> = g.edges().iter().filter(|e| e.0 == 1).map(|e| e.2).collect();
    assert_eq!(merged.len(), 2);
    assert_eq!(merged[0], merged[1]);
    assert_eq!(g.in_degree(&CriticalPoint::new(merged[0])), Some(2));
}

#[test]
fn reeb_disk_method() {
    let layers = vec![one_square(4), two_squares()];
    let g = compute_reeb_graph(&layers, &RatPoint::new(1, 1, 2), 0, 1).unwrap();
    assert_eq!(children_of(&g, 0).len(), 2);
}

#[test]
fn reeb_seed_miss() {
    let layers = vec![one_square(4), two_squares()];
    let g = compute_reeb_graph(&layers, &RatPoint::new(-5, -5, 1), 0, 0).unwrap();
    assert_eq!(g.edges().len(), 0);
    assert_eq!(g.root().value(), 0);
    assert_eq!(g.in_degree(&CriticalPoint::new(0)), Some(0));
    assert_eq!(g.out_degree(&CriticalPoint::new(0)), Some(1));
}

#[test]
fn reeb_start_time_too_large() {
    let layers = vec![one_square(4)];
    assert!(compute_reeb_graph(&layers, &RatPoint::new(1, 1, 2), 1, 0).is_none());
}

#[test]
fn reeb_seed_found_in_later_layer() {
    let layers = vec![one_square(1), one_square(8), one_square(8)];
    let g = compute_reeb_graph(&layers, &RatPoint::new(5, 5, 1), 0, 0).unwrap();
    assert_eq!(g.root_layer(), 1);
    assert_eq!(g.edges(), &vec![(1, 0, 1)]);
}

#[test]
fn reeb_add_point_records_child() {
    let root = CriticalPoint::new(0);
    let mut g = ReebGraph::new(&root, 7, 3);
    assert_eq!(g.x_coord(&root), Some(7));
    g.add_point(3, &root, &CriticalPoint::new(5), 11);
    g.add_point(3, &CriticalPoint::new(4), &CriticalPoint::new(5), 13);
    assert_eq!(g.x_coord(&CriticalPoint::new(5)), Some(11));
    assert_eq!(g.in_degree(&CriticalPoint::new(5)), Some(2));
    assert_eq!(g.out_degree(&CriticalPoint::new(5)), Some(0));
    assert_eq!(g.in_degree(&CriticalPoint::new(4)), Some(0));
    assert_eq!(g.out_degree(&CriticalPoint::new(4)), Some(1));
    assert_eq!(g.out_degree(&root), Some(2));
    assert_eq!(g.in_degree(&root), Some(0));
    assert_eq!(g.x_coord(&CriticalPoint::new(4)), None);
}

#[test]
fn representative_points() {
    let p = Polygon::new(vec![(0, 0), (2, 0), (1, 2)]);
    let c = representative(&p, 0).unwrap();
    assert_eq!((c.x * 3, c.y * 3), (3 * c.den, 2 * c.den));
    let d = representative(&p, 1).unwrap();
    assert_eq!((d.x * 4, d.y * 4), (4 * d.den, 3 * d.den));
    let far = Polygon::new(vec![(10, 10), (12, 10), (11, 12)]);
    let e = representative(&far, 0).unwrap();
    assert!(!linked(&p, &far, &c, &e));
    assert!(linked(&p, &p, &c, &c));
}

#[test]
fn dcel_twins_and_cycles() {
    let mut d = DCEL::new();
    let pts = [(0, 0), (2, 0), (2, 2), (0, 2)];
    for i in 0..4 {
        d.add_edge_unchecked(&pts[i], &pts[(i + 1) % 4]);
    }
    d.add_edge_unchecked(&pts[0], &pts[2]);
    d.build();
    let n = d.num_halfedges();
    assert_eq!(n, 10);
    assert_eq!(d.num_vertices(), 4);
    for h in 0..n {
        let e = d.halfedge(h);
        assert_eq!(d.halfedge(e.twin).twin, h);
        assert_ne!(e.origin, d.halfedge(e.twin).origin);
        let mut cur = e.next;
        let mut steps = 1;
        while cur != h && steps <= n {
            cur = d.halfedge(cur).next;
            steps += 1;
        }
        assert_eq!(cur, h);
    }
    d.add_faces();
    assert_eq!(d.num_faces(), 3);
    let polygons = d.make_polygons();
    assert_eq!(polygons.len(), 2);
    for p in &polygons {
        assert_eq!(p.vertices().len(), 3);
    }
    assert_eq!(make_line_segments(&d).len(), 10);
}

#[test]
fn dcel_remove_vertex() {
    let mut d = DCEL::new();
    d.add_edge_unchecked(&(0, 0), &(1, 0));
    d.add_edge_unchecked(&(1, 0), &(0, 1));
    d.add_edge_unchecked(&(0, 1), &(0, 0));
    d.build();
    d.set_prev();
    assert_eq!(d.get_origin(0), (0, 0));
    d.remove_vertex(0);
    assert!(!d.halfedge(0).alive);
    assert!(!d.halfedge(1).alive);
}

#[test]
fn beachline_navigation() {
    let mut b = BeachLine::new();
    assert!(b.is_empty());
    b.insert_point((3, 4));
    assert!(!b.is_empty());
    assert_eq!(b.root, 0);
    assert_eq!(b.get_site(Some(0)), Some((3, 4)));
    assert_eq!(b.get_site(None), None);
    assert_eq!(b.tree_minimum(0), 0);
    assert_eq!(b.tree_maximum(0), 0);
    assert_eq!(b.successor(0), None);
    assert_eq!(b.predecessor(0), None);
    assert_eq!(b.get_arc_above((3, 0)), 0);
    assert!(b.get_centered_triple(0).is_none());
    assert!(matches!(b.nodes[0].item, BeachItem::Leaf(_)));
}

#[test]
fn beachline_two_arcs() {
    let mut b = BeachLine::new();
    b.nodes.push(BeachNode {
        parent: None,
        left_child: Some(1),
        right_child: Some(2),
        item: BeachItem::Internal(BreakPoint::new((0, 10), (10, 10), 7)),
    });
    b.nodes.push(BeachNode::make_arc(Some(0), BeachItem::Leaf(Arc::new((0, 10), None))));
    b.nodes.push(BeachNode::make_arc(Some(0), BeachItem::Leaf(Arc::new((10, 10), Some(3)))));
    b.root = 0;
    assert_eq!(b.get_arc_above((2, 0)), 1);
    assert_eq!(b.get_arc_above((7, 0)), 2);
    assert_eq!(b.successor(1), Some(0));
    assert_eq!(b.successor(0), Some(2));
    assert_eq!(b.predecessor(2), Some(0));
    assert_eq!(b.predecessor(0), Some(1));
    assert_eq!(b.get_right_arc(Some(1)), Some(2));
    assert_eq!(b.get_left_arc(Some(2)), Some(1));
    assert_eq!(b.get_site(Some(0)), None);
    assert!(b.get_rightward_triple(1).is_none());
    assert!(b.get_leftward_triple(2).is_none());
    assert_eq!(b.get_edge(0), 7);
    b.set_right_site(0, (20, 10));
    b.set_left_site(0, (-4, 10));
    match &b.nodes[0].item {
        BeachItem::Internal(bp) => {
            assert_eq!(bp.left_site, (-4, 10));
            assert_eq!(bp.right_site, (20, 10));
        }
        BeachItem::Leaf(_) => panic!("the root is a breakpoint"),
    }
    assert_eq!(b.get_arc_above((7, 0)), 1);
}

#[test]
fn seed_search_over_islands() {
    let layers = vec![one_square(1), one_square(8)];
    let islands = all_islands(&layers);
    assert_eq!(islands.len(), 2);
    assert!(seed_found(&islands, &RatPoint::new(5, 5, 1), 0));
    assert!(!seed_found(&islands, &RatPoint::new(-5, -5, 1), 0));
    assert!(!seed_found(&islands, &RatPoint::new(1, 1, 2), 1) || islands[1][0].contains(&RatPoint::new(1, 1, 2)));
    let g = track_islands(&islands, &RatPoint::new(-5, -5, 1), 1, 0).unwrap();
    assert_eq!(g.root_layer(), 1);
    assert!(g.edges().is_empty());
}
