use incremental_delaunay::delaunay::{commonality, generate_triangles_from_hull, DelaunayIncremental};
use incremental_delaunay::triangle::{Edge, Triangle};
use incremental_delaunay::TriangulatorError;

#[test]
fn fan_from_first_hull_vertex() {
    let fan = generate_triangles_from_hull(&[7, 3, 5, 9, 1]);
    assert_eq!(
        fan,
        vec![Triangle::new(7, 3, 5), Triangle::new(7, 5, 9), Triangle::new(7, 9, 1)]
    );
    assert!(generate_triangles_from_hull(&[1, 2]).is_empty());
}

#[test]
fn commonality_splits_corners() {
    let a = Triangle::new(0, 1, 2);
    let b = Triangle::new(2, 3, 1);
    assert_eq!(commonality(&a, &b), Some(((0, 3), (1, 2))));
    assert_eq!(commonality(&a, &Triangle::new(0, 1, 2)), None);
    assert_eq!(commonality(&a, &Triangle::new(0, 5, 6)), None);
}

#[test]
fn flip_swaps_the_diagonal() {
    let mut engine = DelaunayIncremental::new();
    let never = |_: Triangle, _: usize| false;
    // the square 0-1-2-3 fanned from 0, with an inner point queued so that
    // no legalization runs yet
    let tris = engine.initial_triangulation(&[0, 1, 2, 3], vec![4], &never).unwrap();
    assert_eq!(tris, vec![Triangle::new(0, 1, 2), Triangle::new(0, 2, 3)]);
    assert_eq!(engine.flip(0, 1), Ok(()));
    assert_eq!(engine.triangles, vec![Triangle::new(1, 3, 0), Triangle::new(1, 3, 2)]);
    assert_eq!(engine.tri_edge_mapping.get_triangles(&Edge::new(1, 3)), vec![0, 1]);
}

#[test]
fn point_with_no_triangle_is_outside() {
    let mut engine = DelaunayIncremental::new();
    let never = |_: Triangle, _: usize| false;
    assert_eq!(engine.add_point(0, &never, &never), Err(TriangulatorError::PointOutsideOfHull));
}

#[test]
fn inserting_a_point_fills_the_cavity() {
    let mut engine = DelaunayIncremental::new();
    let never = |_: Triangle, _: usize| false;
    engine.initial_triangulation(&[0, 1, 2], vec![3], &never).unwrap();
    // point 3 lies in the only triangle and in its circle
    let inside = |_: Triangle, p: usize| p == 3;
    assert_eq!(engine.do_step(&inside, &inside), Ok(true));
    assert_eq!(engine.triangles.len(), 3);
    for t in &engine.triangles {
        assert_eq!(t.index0, 3);
    }
    assert_eq!(engine.do_step(&inside, &inside), Ok(false));
}

#[test]
fn point_no_circle_holds_is_refused() {
    let mut engine = DelaunayIncremental::new();
    let never = |_: Triangle, _: usize| false;
    engine.initial_triangulation(&[0, 1, 2], vec![3], &never).unwrap();
    assert_eq!(engine.do_step(&never, &never), Err(TriangulatorError::PointOutsideOfHull));
    assert_eq!(engine.triangles, vec![Triangle::new(0, 1, 2)]);
}

#[test]
fn two_triangle_cavity_is_filled() {
    let mut engine = DelaunayIncremental::new();
    let never = |_: Triangle, _: usize| false;
    // a fan of two triangles, both claimed by the circle test: four boundary
    // edges for two triangles is a disk, so this one is accepted
    engine.initial_triangulation(&[0, 1, 2, 3], vec![4], &never).unwrap();
    let new_point = |_: Triangle, p: usize| p == 4;
    assert_eq!(engine.do_step(&new_point, &new_point), Ok(true));
    assert_eq!(engine.triangles.len(), 4);
    for v in 0..5 {
        assert!(engine.triangles.iter().any(|t| t.index0 == v || t.index1 == v || t.index2 == v));
    }
}

#[test]
fn forced_flip_that_breaks_the_mesh_is_refused() {
    let mut engine = DelaunayIncremental::new();
    let never = |_: Triangle, _: usize| false;
    engine.initial_triangulation(&[0, 1, 2, 3], vec![4], &never).unwrap();
    // a circle test that holds everywhere asks for flips that would give an
    // edge a third triangle
    let always = |_: Triangle, _: usize| true;
    let before = engine.triangles.clone();
    assert_eq!(engine.do_step(&always, &always), Err(TriangulatorError::InconsistentMesh));
    // a failed step leaves the mesh and the queue as they were
    assert_eq!(engine.triangles, before);
    assert_eq!(engine.points_to_add, vec![4]);
    assert!(engine.tri_edge_mapping.is_registered(0) && engine.tri_edge_mapping.is_registered(1));
    assert_eq!(engine.tri_edge_mapping.registered_count(), 2);
}

#[test]
fn fill_cavity_checks_the_disk_first() {
    let mut engine = DelaunayIncremental::new();
    let never = |_: Triangle, _: usize| false;
    engine.initial_triangulation(&[0, 1, 2, 3], vec![4], &never).unwrap();
    let before = engine.triangles.clone();

    // two edges for one triangle is no disk: refused, nothing changed
    let short = vec![Edge::new(0, 1), Edge::new(1, 2)];
    assert_eq!(engine.fill_cavity(4, &vec![0], short), Err(TriangulatorError::InconsistentMesh));
    assert_eq!(engine.triangles, before);

    // a boundary that misses corner 2 of the removed triangle: refused
    let off = vec![Edge::new(0, 1), Edge::new(1, 5), Edge::new(5, 0)];
    assert_eq!(engine.fill_cavity(4, &vec![0], off), Err(TriangulatorError::InconsistentMesh));
    assert_eq!(engine.triangles, before);

    let ring = vec![Edge::new(0, 1), Edge::new(1, 2), Edge::new(2, 0)];
    assert_eq!(engine.fill_cavity(4, &vec![0], ring), Ok(vec![0, 2, 3]));
    assert_eq!(
        engine.triangles,
        vec![
            Triangle::new(4, 0, 2),
            Triangle::new(0, 2, 3),
            Triangle::new(4, 1, 2),
            Triangle::new(4, 0, 1),
        ]
    );
}
