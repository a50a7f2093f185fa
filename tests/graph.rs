use island_reeb::graph::Graph;

fn graph_of(vertices: &[(i32, i32)], edges: &[(usize, usize)]) -> Graph {
    let mut graph = Graph::new();
    for v in vertices {
        graph.add_vertex(*v);
    }
    for (a, b) in edges {
        graph.add_edge(*a, *b);
    }
    graph
}

#[test]
fn insert_edge() {
    let mut graph = Graph::new();
    graph.add_vertex((0, 0));
    graph.add_vertex((1, 1));
    graph.add_edge(0, 1);
    assert_eq!(graph.vertices(), 2);
    assert_eq!(graph.edges(), 1);
}

#[test]
fn reduce_to_empty() {
    let mut graph = Graph::new();
    graph.add_vertex((0, 0));
    graph.add_vertex((1, 1));
    graph.add_edge(0, 1);
    graph.reduce();
    assert_eq!(graph.vertices(), 0);
    assert_eq!(graph.edges(), 0);
}

#[test]
fn reduce() {
    let mut graph = Graph::new();
    graph.add_vertex((0, 0));
    graph.add_vertex((0, 1));
    graph.add_vertex((1, 0));
    graph.add_vertex((1, 1));
    graph.add_edge(0, 3);
    graph.add_edge(0, 1);
    graph.add_edge(1, 2);
    graph.add_edge(0, 2);
    graph.reduce();
    assert_eq!(graph.vertices(), 3);
    assert_eq!(graph.edges(), 3);
}

#[test]
fn polygons() {
    let mut graph = Graph::new();
    graph.add_vertex((0, 0));
    graph.add_vertex((0, 1));
    graph.add_vertex((1, 0));
    graph.add_vertex((1, 1));
    graph.add_vertex((2, 0));
    graph.add_vertex((2, 1));
    graph.add_edge(0, 1);
    graph.add_edge(0, 2);
    graph.add_edge(1, 2);
    graph.add_edge(1, 4);
    graph.add_edge(2, 3);
    graph.add_edge(2, 5);
    graph.add_edge(4, 5);

    assert_eq!(graph.polygons().len(), 2);
}

#[test]
fn triangle_face() {
    let graph = graph_of(&[(0, 0), (2, 0), (1, 2)], &[(0, 1), (1, 2), (0, 2)]);
    let polygons = graph.polygons();
    assert_eq!(polygons.len(), 1);
    let p = &polygons[0];
    assert_eq!(p.vertices().len(), 3);
    let c = p.centroid().unwrap();
    assert_eq!((c.x as f64 / c.den as f64, c.y as f64 / c.den as f64), (1.0, 2.0 / 3.0));
    let d = p.smallest_disk_centroid().unwrap();
    assert_eq!((d.x as f64 / d.den as f64, d.y as f64 / d.den as f64), (1.0, 0.75));
}

#[test]
fn two_squares_sharing_an_edge() {
    let graph = graph_of(
        &[(0, 0), (0, 1), (1, 0), (1, 1), (2, 0), (2, 1)],
        &[(0, 1), (0, 2), (1, 3), (2, 3), (2, 4), (3, 5), (4, 5)],
    );
    let polygons = graph.polygons();
    assert_eq!(polygons.len(), 2);
    for p in &polygons {
        assert_eq!(p.vertices().len(), 4);
        assert!(p.contains(&p.centroid().unwrap()));
    }
}

#[test]
fn polygons_twice_agree() {
    let graph = graph_of(
        &[(0, 0), (0, 1), (1, 0), (1, 1), (2, 0), (2, 1)],
        &[(0, 1), (0, 2), (1, 3), (2, 3), (2, 4), (3, 5), (4, 5)],
    );
    let first: Vec<Vec<(i64, i64)>> = graph.polygons().iter().map(|p| p.vertices().clone()).collect();
    let second: Vec<Vec<(i64, i64)>> = graph.polygons().iter().map(|p| p.vertices().clone()).collect();
    assert_eq!(first.len(), second.len());
    for p in &first {
        assert!(second.contains(p));
    }
}

#[test]
fn add_edge_twice_is_once() {
    let mut once = graph_of(&[(0, 0), (1, 0), (0, 1)], &[(0, 1)]);
    let mut twice = graph_of(&[(0, 0), (1, 0), (0, 1)], &[(0, 1)]);
    twice.add_edge(0, 1);
    twice.add_edge(1, 0);
    assert_eq!(once.edges(), 1);
    assert_eq!(twice.edges(), 1);
    once.add_edge(1, 2);
    twice.add_edge(1, 2);
    assert_eq!(once.edges(), twice.edges());
    assert_eq!(once.vertices(), twice.vertices());
}

#[test]
fn empty_graph() {
    let mut graph = Graph::new();
    assert!(graph.is_empty());
    graph.add_vertex((3, 4));
    assert!(!graph.is_empty());
    assert_eq!(graph.point(0), (3, 4));
    assert_eq!(graph.polygons().len(), 0);
}

#[test]
fn reduce_keeps_cycle_drops_tail() {
    let mut graph = graph_of(&[(0, 0), (2, 0), (1, 2), (5, 5), (6, 6)], &[(0, 1), (1, 2), (0, 2), (2, 3), (3, 4)]);
    graph.reduce();
    assert_eq!(graph.vertices(), 3);
    assert_eq!(graph.edges(), 3);
    assert_eq!(graph.point(2), (1, 2));
}
