use incremental_delaunay::convex_hull::convex_hull;
use incremental_delaunay::triangle::Triangle;
use incremental_delaunay::{check_input, triangulate, Triangulator, TriangulatorError};

#[derive(Clone, Copy)]
struct Point {
    x: f32,
    y: f32,
}

fn pt(x: f32, y: f32) -> Point {
    Point { x, y }
}

fn cross(a: &Point, b: &Point, origin: &Point) -> f32 {
    (a.x - origin.x) * (b.y - origin.y) - (a.y - origin.y) * (b.x - origin.x)
}

fn same_side_of_line(p0: &Point, p1: &Point, linestart: &Point, lineend: &Point) -> bool {
    let cp1 = cross(lineend, p0, linestart);
    let cp2 = cross(lineend, p1, linestart);
    cp1.signum() == cp2.signum()
}

fn point_in_triangle(point: &Point, a: &Point, b: &Point, c: &Point) -> bool {
    if cross(a, b, c).abs() < f32::EPSILON {
        return false;
    }
    same_side_of_line(point, a, b, c)
        && same_side_of_line(point, b, a, c)
        && same_side_of_line(point, c, a, b)
}

fn in_circumcircle(tri: &Triangle, p: &Point, points: &[Point]) -> bool {
    let a = &points[tri.index0];
    let b = &points[tri.index1];
    let c = &points[tri.index2];
    let d = 2.0 * (a.x * (b.y - c.y) + b.x * (c.y - a.y) + c.x * (a.y - b.y));
    let a_s = a.x * a.x + a.y * a.y;
    let b_s = b.x * b.x + b.y * b.y;
    let c_s = c.x * c.x + c.y * c.y;
    let cx = (a_s * (b.y - c.y) + b_s * (c.y - a.y) + c_s * (a.y - b.y)) / d;
    let cy = (a_s * (c.x - b.x) + b_s * (a.x - c.x) + c_s * (b.x - a.x)) / d;
    let r_sqr = (cx - a.x) * (cx - a.x) + (cy - a.y) * (cy - a.y);
    let dx = p.x - cx;
    let dy = p.y - cy;
    dx * dx + dy * dy <= r_sqr
}

fn strictly_in_circumcircle(tri: &Triangle, p: &Point, points: &[Point]) -> bool {
    let a = &points[tri.index0];
    let b = &points[tri.index1];
    let c = &points[tri.index2];
    let d = 2.0 * (a.x * (b.y - c.y) + b.x * (c.y - a.y) + c.x * (a.y - b.y));
    let a_s = a.x * a.x + a.y * a.y;
    let b_s = b.x * b.x + b.y * b.y;
    let c_s = c.x * c.x + c.y * c.y;
    let cx = (a_s * (b.y - c.y) + b_s * (c.y - a.y) + c_s * (a.y - b.y)) / d;
    let cy = (a_s * (c.x - b.x) + b_s * (a.x - c.x) + c_s * (b.x - a.x)) / d;
    let r_sqr = (cx - a.x) * (cx - a.x) + (cy - a.y) * (cy - a.y);
    let dx = p.x - cx;
    let dy = p.y - cy;
    dx * dx + dy * dy < r_sqr * (1.0 - 1e-4)
}

fn first_nan(points: &[Point]) -> Option<usize> {
    points.iter().position(|p| p.x.is_nan() || p.y.is_nan())
}

fn sorted_indices(points: &[Point]) -> Vec<usize> {
    let mut indices: Vec<usize> = (0..points.len()).collect();
    indices.sort_by(|a, b| {
        let pa = &points[*a];
        let pb = &points[*b];
        pa.x.partial_cmp(&pb.x)
            .unwrap()
            .then(pa.y.partial_cmp(&pb.y).unwrap())
    });
    indices
}

fn run(points: &[Point]) -> Result<Vec<Triangle>, TriangulatorError> {
    check_input(points.len(), first_nan(points))?;
    let sorted = sorted_indices(points);
    triangulate(
        &sorted,
        &|a: usize, b: usize, c: usize| cross(&points[a], &points[b], &points[c]) < 0.0,
        &|t: Triangle, p: usize| {
            point_in_triangle(
                &points[p],
                &points[t.index0],
                &points[t.index1],
                &points[t.index2],
            )
        },
        &|t: Triangle, p: usize| in_circumcircle(&t, &points[p], points),
    )
}

fn library_hull(points: &[Point]) -> Vec<usize> {
    let sorted = sorted_indices(points);
    convex_hull(&sorted, &|a: usize, b: usize, c: usize| {
        cross(&points[a], &points[b], &points[c]) < 0.0
    })
    .0
}

fn hull_size(points: &[Point]) -> usize {
    // points strictly on the boundary of the convex hull, by brute force
    let n = points.len();
    let mut count = 0;
    for i in 0..n {
        let mut on_hull = false;
        for j in 0..n {
            if j == i {
                continue;
            }
            let mut all_one_side = true;
            for k in 0..n {
                if k == i || k == j {
                    continue;
                }
                if cross(&points[j], &points[k], &points[i]) < 0.0 {
                    all_one_side = false;
                }
            }
            if all_one_side {
                on_hull = true;
            }
        }
        if on_hull {
            count += 1;
        }
    }
    count
}

fn all_permutations(items: &[Point]) -> Vec<Vec<Point>> {
    if items.len() <= 1 {
        return vec![items.to_vec()];
    }
    let mut out = Vec::new();
    for i in 0..items.len() {
        let mut rest = items.to_vec();
        let first = rest.remove(i);
        for mut tail in all_permutations(&rest) {
            tail.insert(0, first);
            out.push(tail);
        }
    }
    out
}

fn has_vertex(t: &Triangle, v: usize) -> bool {
    t.index0 == v || t.index1 == v || t.index2 == v
}

#[test]
fn returns_too_few_points() {
    let points = [pt(0.0, 0.0), pt(1.0, 1.0)];

    let res = run(&points);

    assert_eq!(res, Err(TriangulatorError::TooFewPoints));
}

#[test]
fn fails_gracefully_on_nan() {
    let points = [pt(0.0, 0.0), pt(f32::NAN, 0.0), pt(0.5, 1.0)];

    let res = run(&points);

    assert_eq!(res, Err(TriangulatorError::NANInInput(1)));
}

#[test]
fn returns_one_triangle() {
    let points = [pt(0.0, 0.0), pt(1.0, 0.0), pt(0.5, 1.0)];

    let res = run(&points);

    assert!(res.is_ok());
    assert_eq!(res.unwrap().len(), 1);
}

#[test]
fn returns_three_triangles() {
    let points = [pt(0.0, 0.0), pt(1.0, 0.0), pt(0.5, 1.0), pt(0.5, 0.5)];

    let res = run(&points);

    assert!(res.is_ok());
    assert_eq!(res.unwrap().len(), 3);
}

#[test]
fn handles_identical_values() {
    let points = [
        pt(0.0, 0.0),
        pt(1.0, 0.0),
        pt(0.5, 1.0),
        pt(0.5, 0.5),
        pt(0.5, 0.5),
    ];

    let res = run(&points);
    assert!(res.is_ok());
}

#[test]
fn avoids_obtuse_triangles() {
    let points = [pt(0.0, 0.0), pt(0.0, 4.0), pt(-1.0, 2.0), pt(1.0, 2.0)];
    let expected_0 = Triangle::new(0, 3, 2);
    let expected_1 = Triangle::new(1, 2, 3);

    let triangles = run(&points).unwrap();

    assert_eq!(triangles.len(), 2);
    assert!(triangles[0].equivalent(&expected_0));
    assert!(triangles[1].equivalent(&expected_1));
}

#[test]
fn avoids_obtuse_triangles_2() {
    let points = [pt(0.0, 0.0), pt(4.0, 0.0), pt(2.0, -1.0), pt(2.0, 1.0)];
    let expected_0 = Triangle::new(1, 2, 3);
    let expected_1 = Triangle::new(0, 2, 3);

    let triangles = run(&points).unwrap();

    assert_eq!(triangles.len(), 2);
    assert!(triangles[0].equivalent(&expected_0));
    assert!(triangles[1].equivalent(&expected_1));
}

#[test]
fn offending_points() {
    let fails = [
        pt(22., 20.),
        pt(141., 20.),
        pt(245., 169.),
        pt(268., 134.),
        pt(314., 133.),
        pt(69., 20.),
    ];

    let perms = all_permutations(&fails);
    assert_eq!(perms.len(), 720);
    for subset in perms {
        let triangles = run(&subset);
        assert!(triangles.is_ok());
    }
}

#[test]
fn triangle_count_matches_hull_formula() {
    let sets: Vec<Vec<Point>> = vec![
        vec![pt(0.0, 0.0), pt(1.0, 0.0), pt(0.5, 1.0), pt(0.5, 0.5)],
        vec![pt(0.0, 0.0), pt(4.0, 0.0), pt(4.0, 4.0), pt(0.0, 4.0), pt(1.0, 2.0), pt(3.0, 1.0)],
        vec![pt(22., 20.), pt(141., 20.), pt(245., 169.), pt(268., 134.), pt(314., 133.), pt(69., 20.)],
    ];
    for points in sets {
        let n = points.len();
        let h = hull_size(&points);
        assert_eq!(h, library_hull(&points).len());
        let triangles = run(&points).unwrap();
        assert_eq!(triangles.len(), 2 * n - h - 2);
    }
}

#[test]
fn empty_circumcircle_holds() {
    let points = [
        pt(0.0, 0.0),
        pt(4.0, 0.0),
        pt(4.0, 4.0),
        pt(0.0, 4.0),
        pt(1.0, 2.0),
        pt(3.0, 1.0),
        pt(2.5, 3.0),
    ];
    let triangles = run(&points).unwrap();
    for t in &triangles {
        for (i, p) in points.iter().enumerate() {
            if has_vertex(t, i) {
                continue;
            }
            assert!(!strictly_in_circumcircle(t, p, &points));
        }
    }
}

#[test]
fn every_edge_has_one_or_two_triangles() {
    let points = [
        pt(0.0, 0.0),
        pt(4.0, 0.0),
        pt(4.0, 4.0),
        pt(0.0, 4.0),
        pt(1.0, 2.0),
        pt(3.0, 1.0),
    ];
    let triangles = run(&points).unwrap();
    let mut edges: Vec<(usize, usize)> = Vec::new();
    for t in &triangles {
        for (a, b) in [(t.index0, t.index1), (t.index1, t.index2), (t.index2, t.index0)] {
            edges.push((a.min(b), a.max(b)));
        }
    }
    for e in &edges {
        let count = edges.iter().filter(|x| *x == e).count();
        assert!(count == 1 || count == 2);
    }
}

#[test]
fn every_point_is_a_vertex() {
    let points = [
        pt(0.0, 0.0),
        pt(1.0, 0.0),
        pt(0.5, 1.0),
        pt(0.5, 0.4),
        pt(0.3, 0.2),
    ];
    let triangles = run(&points).unwrap();
    for i in 0..points.len() {
        assert!(triangles.iter().any(|t| has_vertex(t, i)));
    }
}

#[test]
fn reruns_are_identical() {
    let points = [
        pt(22., 20.),
        pt(141., 20.),
        pt(245., 169.),
        pt(268., 134.),
        pt(314., 133.),
        pt(69., 20.),
    ];
    let first = run(&points).unwrap();
    let second = run(&points).unwrap();
    assert_eq!(first, second);
}

#[test]
fn three_points_give_one_triangle_with_all_indices() {
    let points = [pt(0.0, 0.0), pt(1.0, 0.0), pt(0.5, 1.0)];
    let triangles = run(&points).unwrap();
    assert_eq!(triangles.len(), 1);
    assert!(triangles[0].equivalent(&Triangle::new(0, 1, 2)));
}

#[test]
fn diamond_uses_the_short_diagonal() {
    let points = [pt(0.0, 0.0), pt(0.0, 4.0), pt(-1.0, 2.0), pt(1.0, 2.0)];
    let triangles = run(&points).unwrap();
    assert_eq!(triangles.len(), 2);
    let a = Triangle::new(0, 2, 3);
    let b = Triangle::new(1, 2, 3);
    assert!(triangles.iter().any(|t| t.equivalent(&a)));
    assert!(triangles.iter().any(|t| t.equivalent(&b)));
    assert!(!triangles.iter().any(|t| t.equivalent(&Triangle::new(0, 1, 2))));
    assert!(!triangles.iter().any(|t| t.equivalent(&Triangle::new(0, 1, 3))));
}

#[test]
fn two_points_are_too_few() {
    assert_eq!(check_input(2, None), Err(TriangulatorError::TooFewPoints));
    assert_eq!(check_input(2, Some(1)), Err(TriangulatorError::TooFewPoints));
    assert_eq!(check_input(3, Some(1)), Err(TriangulatorError::NANInInput(1)));
    assert_eq!(check_input(3, None), Ok(()));
    assert_eq!(run(&[pt(0.0, 0.0), pt(1.0, 0.0)]), Err(TriangulatorError::TooFewPoints));
}

#[test]
fn duplicate_point_keeps_formula() {
    let points = [
        pt(0.0, 0.0),
        pt(1.0, 0.0),
        pt(0.5, 1.0),
        pt(0.5, 0.5),
        pt(0.5, 0.5),
    ];
    let triangles = run(&points).unwrap();
    // both copies sit on the lower chain: the turn through two equal points is
    // never a wrong turn, so the hull has all 5 points
    let h = library_hull(&points).len();
    assert_eq!(h, 5);
    assert_eq!(triangles.len(), 2 * 5 - h - 2);
    for i in 0..points.len() {
        assert!(triangles.iter().any(|t| has_vertex(t, i)));
    }
}

#[test]
fn stepwise_matches_one_shot() {
    let points = [
        pt(0.0, 0.0),
        pt(4.0, 0.0),
        pt(4.0, 4.0),
        pt(0.0, 4.0),
        pt(1.0, 2.0),
        pt(3.0, 1.0),
    ];
    let sorted = sorted_indices(&points);
    let turns = |a: usize, b: usize, c: usize| cross(&points[a], &points[b], &points[c]) < 0.0;
    let inside_tri = |t: Triangle, p: usize| {
        point_in_triangle(&points[p], &points[t.index0], &points[t.index1], &points[t.index2])
    };
    let inside_circ = |t: Triangle, p: usize| in_circumcircle(&t, &points[p], &points);

    let mut stepper = Triangulator::new();
    assert!(stepper.get_triangles().is_empty());
    let initial = stepper.initial_triangulation(&sorted, &turns, &inside_circ).unwrap();
    // a square hull fans into two triangles
    assert_eq!(initial.len(), 2);
    let mut steps = 0;
    while stepper.do_step(&inside_tri, &inside_circ).unwrap() {
        steps += 1;
    }
    assert_eq!(steps, 2);
    assert_eq!(stepper.do_step(&inside_tri, &inside_circ), Ok(false));
    assert_eq!(stepper.get_triangles().to_vec(), run(&points).unwrap());
}

#[test]
fn stepwise_rejects_too_few_points() {
    let mut stepper = Triangulator::new();
    let never = |_: usize, _: usize, _: usize| false;
    let never_circle = |_: Triangle, _: usize| false;
    assert_eq!(
        stepper.initial_triangulation(&[0, 1], &never, &never_circle),
        Err(TriangulatorError::TooFewPoints)
    );
}
