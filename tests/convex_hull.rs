use incremental_delaunay::convex_hull::{convex_hull, half_hull};

#[derive(Clone, Copy)]
struct Point {
    x: f32,
    y: f32,
}

fn pt(x: f32, y: f32) -> Point {
    Point { x, y }
}

fn cross(a: &Point, b: &Point, origin: &Point) -> f32 {
    (a.x - origin.x) * (b.y - origin.y) - (a.y - origin.y) * (b.x - origin.x)
}

fn sorted_indices(points: &[Point]) -> Vec<usize> {
    let mut indices: Vec<usize> = (0..points.len()).collect();
    indices.sort_by(|a, b| {
        let pa = &points[*a];
        let pb = &points[*b];
        pa.x.partial_cmp(&pb.x)
            .unwrap()
            .then(pa.y.partial_cmp(&pb.y).unwrap())
    });
    indices
}

fn hull_of(points: &[Point]) -> (Vec<usize>, Vec<usize>) {
    let sorted = sorted_indices(points);
    convex_hull(&sorted, &|a: usize, b: usize, c: usize| {
        cross(&points[a], &points[b], &points[c]) < 0.0
    })
}

fn permutations(items: &[Point]) -> Vec<Vec<Point>> {
    if items.len() <= 1 {
        return vec![items.to_vec()];
    }
    let mut out = Vec::new();
    for i in 0..items.len() {
        let mut rest = items.to_vec();
        let first = rest.remove(i);
        for mut tail in permutations(&rest) {
            tail.insert(0, first);
            out.push(tail);
        }
    }
    out
}

#[test]
fn builds_from_triangle() {
    let points = [pt(0.0, 0.0), pt(0.5, 0.5), pt(1.0, -0.5)];

    let (hull, points_left) = hull_of(&points);

    assert_eq!(hull.len(), 3);
    assert_eq!(hull[0], 0);
    assert_eq!(hull[1], 2);
    assert_eq!(hull[2], 1);
    assert_eq!(points_left.len(), 0);
}

#[test]
fn works_with_horizontal_line() {
    let points = [pt(0.0, 0.0), pt(1.0, 0.0), pt(2.0, 0.0)];

    let (hull, points_left) = hull_of(&points);

    assert_eq!(hull.len(), 3);
    assert_eq!(hull[0], 0);
    assert_eq!(hull[1], 1);
    assert_eq!(hull[2], 2);
    assert_eq!(points_left.len(), 0);
}

#[test]
fn works_with_horizontal_line_4_points() {
    let points = [pt(0.0, 0.0), pt(1.0, 0.0), pt(2.0, 0.0), pt(3.0, 0.0)];

    for permution in permutations(&points) {
        let (hull, points_left) = hull_of(&permution);
        assert_eq!(hull.len(), 4);
        assert_eq!(points_left.len(), 0);
    }
}

#[test]
fn works_with_vertical_line() {
    let points = [pt(0.0, 0.0), pt(0.0, 1.0), pt(0.0, 2.0)];

    let (hull, points_left) = hull_of(&points);

    assert_eq!(hull.len(), 3);
    assert_eq!(hull[0], 0);
    assert_eq!(hull[1], 1);
    assert_eq!(hull[2], 2);
    assert_eq!(points_left.len(), 0);
}

#[test]
fn works_with_vertical_line_4_points() {
    let points = [pt(0.0, 0.0), pt(0.0, 1.0), pt(0.0, 2.0), pt(0.0, 3.0)];

    for permutation in permutations(&points) {
        let (hull, points_left) = hull_of(&permutation);
        assert_eq!(hull.len(), 4);
        assert_eq!(points_left.len(), 0);
    }
}

#[test]
fn works_with_diagonal_line() {
    let points = [pt(0.0, 0.0), pt(1.0, 1.0), pt(2.0, 2.0)];

    let (hull, points_left) = hull_of(&points);

    assert_eq!(hull.len(), 3);
    assert_eq!(hull[0], 0);
    assert_eq!(hull[1], 1);
    assert_eq!(hull[2], 2);
    assert_eq!(points_left.len(), 0);
}

#[test]
fn point_not_part_of_hull() {
    let points = [pt(0.0, 0.0), pt(1.0, 0.0), pt(0.5, 1.0), pt(0.5, 0.5)];

    let (hull, points_left) = hull_of(&points);

    assert_eq!(hull.len(), 3);
    assert_eq!(hull[0], 0);
    assert_eq!(hull[1], 1);
    assert_eq!(hull[2], 2);
    assert_eq!(points_left.len(), 1);
    assert_eq!(points_left[0], 3);
}

#[test]
fn half_hull_moves_wrong_turns_aside() {
    // every turn is wrong: only the ends stay on the chain
    let (hull, left) = half_hull(&[4, 2, 9, 6], &|_: usize, _: usize, _: usize| true);
    assert_eq!(hull, vec![4, 6]);
    assert_eq!(left, vec![2, 9]);
    let (hull, left) = half_hull(&[4, 2, 9, 6], &|_: usize, _: usize, _: usize| false);
    assert_eq!(hull, vec![4, 2, 9, 6]);
    assert!(left.is_empty());
}
