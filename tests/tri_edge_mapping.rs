use incremental_delaunay::tri_edge_mapping::TriangleEdgeMapping;
use incremental_delaunay::triangle::{Edge, OrderedPair, Triangle};

fn owners(mapping: &TriangleEdgeMapping, a: usize, b: usize) -> Vec<usize> {
    mapping.get_triangles(&Edge::new(a, b))
}

/// The distinct edges over all registered slots below `slots`.
fn edge_count(mapping: &TriangleEdgeMapping, slots: usize) -> usize {
    let mut edges: Vec<Edge> = Vec::new();
    for t in 0..slots {
        if mapping.is_registered(t) {
            for e in mapping.get_edges(t) {
                if !edges.contains(&e) {
                    edges.push(e);
                }
            }
        }
    }
    edges.len()
}

#[test]
fn add_triangle() {
    let mut mapping = TriangleEdgeMapping::new();
    let triangles = [Triangle::new(0, 1, 2)];
    mapping.add_triangle(0, &triangles);

    assert_eq!(mapping.registered_count(), 1);
    let edges = mapping.get_edges(0);
    assert_eq!(edges.len(), 3);
    assert!(edges.contains(&Edge::new(0, 1)));
    assert!(edges.contains(&Edge::new(1, 2)));
    assert!(edges.contains(&Edge::new(2, 0)));

    assert_eq!(edge_count(&mapping, 1), 3);
    assert_eq!(owners(&mapping, 0, 1), vec![0]);
    assert_eq!(owners(&mapping, 1, 2), vec![0]);
    assert_eq!(owners(&mapping, 2, 0), vec![0]);
}

#[test]
fn remove_triangle() {
    let mut mapping = TriangleEdgeMapping::new();
    let triangles = [Triangle::new(0, 1, 2)];
    mapping.add_triangle(0, &triangles);

    mapping.remove_triangle(0);
    assert!(owners(&mapping, 0, 1).is_empty());
    assert!(owners(&mapping, 1, 2).is_empty());
    assert!(owners(&mapping, 2, 0).is_empty());
    assert_eq!(mapping.registered_count(), 0);
    assert_eq!(edge_count(&mapping, 1), 0);
}

#[test]
fn add_two_triangles() {
    let mut mapping = TriangleEdgeMapping::new();
    let triangles = [Triangle::new(0, 1, 2), Triangle::new(0, 2, 3)];
    mapping.add_triangle(0, &triangles);
    mapping.add_triangle(1, &triangles);

    assert_eq!(mapping.registered_count(), 2);
    let e0 = mapping.get_edges(0);
    let e1 = mapping.get_edges(1);
    assert_eq!(e0.len(), 3);
    assert_eq!(e1.len(), 3);
    assert!(e0.contains(&Edge::new(0, 1)));
    assert!(e0.contains(&Edge::new(1, 2)));
    assert!(e0.contains(&Edge::new(2, 0)));
    assert!(e1.contains(&Edge::new(0, 2)));
    assert!(e1.contains(&Edge::new(2, 3)));
    assert!(e1.contains(&Edge::new(3, 0)));

    assert_eq!(edge_count(&mapping, 2), 5);
    assert_eq!(owners(&mapping, 0, 1), vec![0]);
    assert_eq!(owners(&mapping, 1, 2), vec![0]);
    assert_eq!(owners(&mapping, 2, 0), vec![0, 1]);
    assert_eq!(owners(&mapping, 2, 3), vec![1]);
    assert_eq!(owners(&mapping, 3, 0), vec![1]);

    assert_eq!(mapping.neighbouring_triangles(0), vec![1]);
    assert_eq!(mapping.neighbouring_triangles(1), vec![0]);
}

#[test]
fn add_two_remove_one_triangle() {
    let mut mapping = TriangleEdgeMapping::new();
    let triangles = [Triangle::new(0, 1, 2), Triangle::new(0, 2, 3)];
    mapping.add_triangle(0, &triangles);
    mapping.add_triangle(1, &triangles);

    mapping.remove_triangle(0);

    assert_eq!(mapping.registered_count(), 1);
    assert_eq!(edge_count(&mapping, 2), 3);
    assert!(!mapping.is_registered(0));
    let e1 = mapping.get_edges(1);
    assert!(e1.contains(&Edge::new(0, 2)));
    assert!(e1.contains(&Edge::new(2, 3)));
    assert!(e1.contains(&Edge::new(3, 0)));

    assert!(owners(&mapping, 0, 1).is_empty());
    assert!(owners(&mapping, 1, 2).is_empty());
    assert_eq!(owners(&mapping, 2, 0), vec![1]);
    assert_eq!(owners(&mapping, 2, 3), vec![1]);
    assert_eq!(owners(&mapping, 3, 0), vec![1]);
    assert!(mapping.neighbouring_triangles(1).is_empty());
}

#[test]
fn third_owner_is_refused() {
    let mut mapping = TriangleEdgeMapping::new();
    let triangles = [
        Triangle::new(0, 1, 2),
        Triangle::new(0, 1, 3),
        Triangle::new(0, 1, 4),
    ];
    mapping.add_triangle(0, &triangles);
    assert!(mapping.accepts(&triangles[1]));
    mapping.add_triangle(1, &triangles);
    assert!(!mapping.accepts(&triangles[2]));
    assert!(mapping.accepts(&Triangle::new(1, 2, 5)));
}

#[test]
fn edges_are_canonical() {
    assert_eq!(Edge::new(3, 1), Edge { index_0: 1, index_1: 3 });
    assert_eq!(Edge::new(1, 3), Edge { index_0: 1, index_1: 3 });
    assert_eq!(OrderedPair::new(7, 2), OrderedPair { a: 2, b: 7 });
    assert_eq!(OrderedPair::new(2, 7), OrderedPair { a: 2, b: 7 });
}

#[test]
fn equivalence_ignores_order_only() {
    let t = Triangle::new(4, 5, 6);
    assert!(t.equivalent(&Triangle::new(6, 4, 5)));
    assert!(!t.equivalent(&Triangle::new(4, 5, 7)));
    assert!(!Triangle::new(1, 1, 2).equivalent(&Triangle::new(1, 2, 2)));
}
