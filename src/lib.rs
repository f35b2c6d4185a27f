use vstd::prelude::*;

pub mod convex_hull;
pub mod delaunay;
pub mod tri_edge_mapping;
pub mod triangle;
pub mod util;

use crate::convex_hull::{convex_hull, rejected, splits, total_turn_test, turns_right};
use crate::delaunay::{fan, flip_asked, located, mesh_consistent, total_test, uses_vertex, DelaunayIncremental};
use crate::triangle::Triangle;

verus! {

/// Why a triangulation could not be produced.
#[derive(Clone, Copy, Debug, PartialEq, Eq, Structural)]
pub enum TriangulatorError {
    /// Fewer than three points were given.
    TooFewPoints,
    /// A coordinate of the point at this index is not a number.
    NANInInput(usize),
    /// A point could not be placed: there is no triangle yet, or no
    /// triangle's circle holds it.
    PointOutsideOfHull,
    /// A step would have broken the mesh: a cavity that is not a disk, an edge
    /// with a third triangle, or a triangle with a repeated corner. The step
    /// was stopped there.
    InconsistentMesh,
}

/// Input validation, before any geometry: fewer than three points fail first,
/// then the first point with a coordinate that is not a number.
pub fn check_input(point_count: usize, first_nan: Option<usize>) -> (r: Result<(), TriangulatorError>)
    ensures
        point_count < 3 ==> r == Err::<(), TriangulatorError>(TriangulatorError::TooFewPoints),
        point_count >= 3 ==> match first_nan {
            Some(i) => r == Err::<(), TriangulatorError>(TriangulatorError::NANInInput(i)),
            None => r == Ok::<(), TriangulatorError>(()),
        },
{
    if point_count < 3 {
        return Err(TriangulatorError::TooFewPoints);
    }
    match first_nan {
        Some(i) => Err(TriangulatorError::NANInInput(i)),
        None => Ok(()),
    }
}

/// Triangulates points given by index, sorted by x and then by y.
///
/// The geometry comes in as three tests on point indices: `turns_wrong(a, b, c)`
/// for the hull scan, `inside_triangle(t, p)` to locate a point, and
/// `inside_circle(t, p)` for a closed test against the circle through `t`'s
/// corners. Fewer than three points give `TooFewPoints`; otherwise the result
/// is the triangle array after every inner point has been inserted: a mesh in
/// which every point is a corner and no edge has more than two triangles.
pub fn triangulate<
    FX: Fn(usize, usize, usize) -> bool,
    FT: Fn(Triangle, usize) -> bool,
    FC: Fn(Triangle, usize) -> bool,
>(sorted: &[usize], turns_wrong: &FX, inside_triangle: &FT, inside_circle: &FC) -> (r: Result<
    Vec<Triangle>,
    TriangulatorError,
>)
    requires
        sorted@.no_duplicates(),
        total_turn_test(turns_wrong),
        total_test(inside_triangle),
        total_test(inside_circle),
    ensures
        sorted@.len() < 3 <==> r == Err::<Vec<Triangle>, TriangulatorError>(
            TriangulatorError::TooFewPoints,
        ),
        sorted@.len() >= 3 && r is Err ==> r == Err::<Vec<Triangle>, TriangulatorError>(
            TriangulatorError::InconsistentMesh,
        ) || r == Err::<Vec<Triangle>, TriangulatorError>(TriangulatorError::PointOutsideOfHull),
        r matches Ok(tris) ==> mesh_consistent(tris@),
        r matches Ok(tris) ==> forall|i: int|
            0 <= i < sorted@.len() ==> uses_vertex(tris@, #[trigger] sorted@[i]),
        r matches Ok(tris) ==> forall|v: usize| uses_vertex(tris@, v) ==> sorted@.contains(v),
        r matches Ok(tris) ==> exists|hull: Seq<usize>, inside: Seq<usize>|
            #[trigger] splits(sorted@, hull, inside) && tris@.len() + hull.len() + 2 == 2
                * sorted@.len() && (forall|i: int|
                0 <= i < inside.len() ==> rejected(turns_wrong, #[trigger] inside[i])) && exists|
                l: int,
            |
                2 <= l <= hull.len() && #[trigger] turns_right(turns_wrong, hull.take(l))
                    && turns_right(turns_wrong, hull.subrange(l - 1, hull.len() as int).push(hull[0])),
        r == Err::<Vec<Triangle>, TriangulatorError>(TriangulatorError::PointOutsideOfHull) ==> (exists|
            i: int,
        | 0 <= i < sorted@.len() && #[trigger] rejected(turns_wrong, sorted@[i])) || exists|
            tris: Seq<Triangle>,
            p: usize,
            c: int,
        |
            #[trigger] located(inside_triangle, tris, p, c) && sorted@.contains(p)
                && inside_circle.ensures((tris[c], p), false),
        r == Err::<Vec<Triangle>, TriangulatorError>(TriangulatorError::InconsistentMesh) ==> flip_asked(
            inside_circle,
        ) || exists|tris: Seq<Triangle>, p: usize, c: int|
            #[trigger] located(inside_triangle, tris, p, c) && inside_circle.ensures((tris[c], p), true),
{
    if sorted.len() < 3 {
        return Err(TriangulatorError::TooFewPoints);
    }
    let (hull, points_inside_hull) = convex_hull(sorted, turns_wrong);
    let ghost inside = points_inside_hull@;
    let mut triangulator = DelaunayIncremental::new();
    match triangulator.initial_triangulation(hull.as_slice(), points_inside_hull, inside_circle) {
        Ok(_) => {},
        Err(e) => {
            return Err(e);
        },
    }
    if triangulator.triangles.len() == 0 {
        proof {
            // fewer than three hull points leave a point inside, set aside by a turn test
            assert(inside.len() > 0);
            assert(rejected(turns_wrong, inside[0]));
            assert(sorted@.contains(inside[0]));
            let i = choose|i: int| 0 <= i < sorted@.len() && sorted@[i] == inside[0];
            assert(rejected(turns_wrong, sorted@[i]));
        }
        // a hull of two points holds no triangle to insert the others into
        return Err(TriangulatorError::PointOutsideOfHull);
    }
    proof {
        assert(fan(hull@).len() == hull@.len() - 2);
        assert(triangulator.triangles@.len() + 2 * triangulator.points_to_add@.len() + hull@.len() + 2
            == 2 * sorted@.len());
        assert forall|i: int| 0 <= i < sorted@.len() implies uses_vertex(
            triangulator.triangles@,
            #[trigger] sorted@[i],
        ) || triangulator.points_to_add@.contains(sorted@[i]) by {
            assert(sorted@.contains(sorted@[i]));
            if hull@.contains(sorted@[i]) {
                let j = choose|j: int| 0 <= j < hull@.len() && hull@[j] == sorted@[i];
                assert(uses_vertex(triangulator.triangles@, hull@[j]));
            } else {
                assert(inside.contains(sorted@[i]));
            }
        }
    }
    let mut more = true;
    while more
        invariant
            triangulator.wf(),
            triangulator.complete(),
            triangulator.triangles@.len() > 0,
            sorted@.len() >= 3,
            forall|i: int|
                0 <= i < sorted@.len() ==> uses_vertex(triangulator.triangles@, #[trigger] sorted@[i])
                    || triangulator.points_to_add@.contains(sorted@[i]),
            !more ==> triangulator.points_to_add@.len() == 0,
            forall|v: usize| uses_vertex(triangulator.triangles@, v) ==> sorted@.contains(v),
            forall|v: usize| #[trigger] triangulator.points_to_add@.contains(v) ==> sorted@.contains(v),
            triangulator.triangles@.len() + 2 * triangulator.points_to_add@.len() + hull@.len() + 2
                == 2 * sorted@.len(),
            splits(sorted@, hull@, inside),
            forall|i: int| 0 <= i < inside.len() ==> rejected(turns_wrong, #[trigger] inside[i]),
            exists|l: int|
                2 <= l <= hull@.len() && #[trigger] turns_right(turns_wrong, hull@.take(l))
                    && turns_right(turns_wrong, hull@.subrange(l - 1, hull@.len() as int).push(hull@[0])),
            total_test(inside_triangle),
            total_test(inside_circle),
        decreases triangulator.points_to_add@.len() + if more {
            1int
        } else {
            0int
        },
    {
        let ghost pending = triangulator.points_to_add@;
        let ghost tris = triangulator.triangles@;
        match triangulator.do_step(inside_triangle, inside_circle) {
            Ok(stepped) => {
                more = stepped;
                proof {
                    assert forall|i: int| 0 <= i < sorted@.len() implies uses_vertex(
                        triangulator.triangles@,
                        #[trigger] sorted@[i],
                    ) || triangulator.points_to_add@.contains(sorted@[i]) by {
                        let x = sorted@[i];
                        if pending.len() > 0 && pending.contains(x) && x != pending.last() {
                            let j = choose|j: int| 0 <= j < pending.len() && pending[j] == x;
                            assert(triangulator.points_to_add@[j] == x);
                        }
                        if uses_vertex(tris, x) {
                            assert(uses_vertex(triangulator.triangles@, x));
                        }
                    }
                    if pending.len() > 0 {
                        assert(pending.contains(pending.last()));
                        assert forall|v: usize| #[trigger]
                            triangulator.points_to_add@.contains(v) implies sorted@.contains(v) by {
                            let j = choose|j: int|
                                0 <= j < triangulator.points_to_add@.len()
                                    && triangulator.points_to_add@[j] == v;
                            assert(pending[j] == v);
                            assert(pending.contains(v));
                        }
                    }
                }
            },
            Err(e) => {
                proof {
                    if pending.len() > 0 {
                        assert(pending.contains(pending.last()));
                    }
                }
                return Err(e);
            },
        }
    }
    // the array's length is a usize, which the consistency lemma needs
    let _ = triangulator.triangles.len();
    proof {
        triangulator.lemma_complete_is_consistent();
    }
    proof {
        assert(splits(sorted@, hull@, inside));
        assert(triangulator.triangles@.len() + hull@.len() + 2 == 2 * sorted@.len());
    }
    Ok(triangulator.triangles)
}

/// A triangulation that can be advanced one point at a time.
pub struct Triangulator {
    triangulator: DelaunayIncremental,
}

impl View for Triangulator {
    type V = Seq<Triangle>;

    /// The current triangle array.
    closed spec fn view(&self) -> Seq<Triangle> {
        self.triangulator.triangles@
    }
}

impl Triangulator {
    /// The adjacency index is well formed and agrees with the triangle array.
    pub closed spec fn wf(&self) -> bool {
        self.triangulator.wf()
    }

    /// The points still to insert; the last one is inserted next.
    pub closed spec fn pending(&self) -> Seq<usize> {
        self.triangulator.points_to_add@
    }

    /// Every slot of the triangle array is registered.
    pub closed spec fn complete(&self) -> bool {
        self.triangulator.complete()
    }

    /// The queued points are distinct and none is a corner yet.
    pub open spec fn pending_fresh(&self) -> bool {
        &&& self.pending().no_duplicates()
        &&& forall|i: int|
            0 <= i < self.pending().len() ==> !uses_vertex(self@, #[trigger] self.pending()[i])
    }

    /// Once every slot is registered, every triangle has three distinct corners
    /// and no edge belongs to more than two triangles.
    pub proof fn lemma_mesh_consistent(&self)
        requires
            self.wf(),
            self.complete(),
            self@.len() <= usize::MAX,
        ensures
            mesh_consistent(self@),
    {
        self.triangulator.lemma_complete_is_consistent();
    }

    pub fn new() -> (r: Triangulator)
        ensures
            r.wf(),
            r.complete(),
            r@.len() == 0,
            r.pending().len() == 0,
    {
        Triangulator { triangulator: DelaunayIncremental::new() }
    }

    /// Builds the hull of the points (given by index in sorted order), fans it,
    /// and queues the points inside it. With no point inside, the fan is
    /// legalized at once.
    pub fn initial_triangulation<FX: Fn(usize, usize, usize) -> bool, FC: Fn(Triangle, usize) -> bool>(
        &mut self,
        sorted: &[usize],
        turns_wrong: &FX,
        inside_circle: &FC,
    ) -> (r: Result<Vec<Triangle>, TriangulatorError>)
        requires
            old(self).wf(),
            sorted@.no_duplicates(),
            total_turn_test(turns_wrong),
            total_test(inside_circle),
        ensures
            final(self).wf(),
            sorted@.len() < 3 <==> r == Err::<Vec<Triangle>, TriangulatorError>(
                TriangulatorError::TooFewPoints,
            ),
            sorted@.len() < 3 ==> final(self)@ == old(self)@ && final(self).pending() == old(
                self,
            ).pending() && final(self).complete() == old(self).complete(),
            sorted@.len() >= 3 && r is Err ==> r == Err::<Vec<Triangle>, TriangulatorError>(
                TriangulatorError::InconsistentMesh,
            ),
            r is Err ==> final(self)@ == old(self)@ && final(self).pending() == old(self).pending()
                && final(self).complete() == old(self).complete(),
            sorted@.len() >= 3 && r is Err ==> flip_asked(inside_circle),
            sorted@.len() >= 3 && r is Err ==> exists|hull: Seq<usize>|
                #[trigger] splits(sorted@, hull, Seq::<usize>::empty()) && exists|l: int|
                    2 <= l <= hull.len() && #[trigger] turns_right(turns_wrong, hull.take(l))
                        && turns_right(turns_wrong, hull.subrange(l - 1, hull.len() as int).push(hull[0])),
            r matches Ok(tris) ==> tris@ == final(self)@ && final(self).complete(),
            r is Ok ==> forall|x: usize| #[trigger]
                final(self).pending().contains(x) ==> sorted@.contains(x),
            r matches Ok(tris) ==> tris@.len() + 2 == sorted@.len() - final(self).pending().len(),
            r is Ok ==> forall|v: usize| uses_vertex(final(self)@, v) ==> sorted@.contains(v),
            r is Ok ==> final(self).pending_fresh(),
            r is Ok && final(self).pending().len() == 0 ==> forall|i: int|
                0 <= i < sorted@.len() ==> uses_vertex(final(self)@, #[trigger] sorted@[i]),
    {
        if sorted.len() < 3 {
            return Err(TriangulatorError::TooFewPoints);
        }
        let (hull, points_inside_hull) = convex_hull(sorted, turns_wrong);
        let ghost inside = points_inside_hull@;
        // built aside, so that a failure leaves the current state as it was
        let mut fresh = DelaunayIncremental::new();
        let r = fresh.initial_triangulation(hull.as_slice(), points_inside_hull, inside_circle);
        proof {
            assert(fan(hull@).len() == hull@.len() - 2);
            if inside.len() == 0 {
                // with nothing inside, the hull holds every point
                assert forall|x: usize| sorted@.to_set().contains(x) implies hull@.to_set().contains(x) by {
                    assert(sorted@.contains(x));
                    if !hull@.contains(x) {
                        assert(inside.contains(x));
                    }
                }
                sorted@.unique_seq_to_set();
                hull@.unique_seq_to_set();
                vstd::set_lib::lemma_len_subset(sorted@.to_set(), hull@.to_set());
                assert forall|i: int| 0 <= i < sorted@.len() implies hull@.contains(#[trigger] sorted@[i]) by {
                    if !hull@.contains(sorted@[i]) {
                        assert(sorted@.contains(sorted@[i]));
                        assert(inside.contains(sorted@[i]));
                    }
                }
                if r is Ok {
                    assert forall|i: int| 0 <= i < sorted@.len() implies uses_vertex(
                        fresh.triangles@,
                        #[trigger] sorted@[i],
                    ) by {
                        let j = choose|j: int| 0 <= j < hull@.len() && hull@[j] == sorted@[i];
                        assert(uses_vertex(fresh.triangles@, hull@[j]));
                    }
                }
            }
        }
        proof {
            if r is Ok {
                assert forall|i: int| 0 <= i < inside.len() implies !uses_vertex(
                    fresh.triangles@,
                    #[trigger] inside[i],
                ) by {
                    assert(inside.contains(inside[i]));
                    if uses_vertex(fresh.triangles@, inside[i]) {
                        assert(hull@.contains(inside[i]));
                    }
                }
            }
        }
        proof {
            if r is Err {
                assert(inside =~= Seq::<usize>::empty());
                assert(splits(sorted@, hull@, Seq::<usize>::empty()));
            }
        }
        if r.is_ok() {
            self.triangulator = fresh;
        }
        r
    }

    /// Inserts the next queued point, if any; `Ok(false)` once none is left.
    pub fn do_step<FT: Fn(Triangle, usize) -> bool, FC: Fn(Triangle, usize) -> bool>(
        &mut self,
        inside_triangle: &FT,
        inside_circle: &FC,
    ) -> (r: Result<bool, TriangulatorError>)
        requires
            old(self).wf(),
            total_test(inside_triangle),
            total_test(inside_circle),
        ensures
            final(self).wf(),
            old(self).pending().len() == 0 ==> r == Ok::<bool, TriangulatorError>(false)
                && final(self)@ == old(self)@ && final(self).pending() == old(self).pending(),
            r == Err::<bool, TriangulatorError>(TriangulatorError::PointOutsideOfHull) ==> old(
                self,
            ).pending().len() > 0 && final(self)@ == old(self)@ && (old(self)@.len() == 0 || exists|
                c: int,
            |
                #[trigger] located(inside_triangle, old(self)@, old(self).pending().last(), c)
                    && inside_circle.ensures((old(self)@[c], old(self).pending().last()), false)),
            r == Err::<bool, TriangulatorError>(TriangulatorError::InconsistentMesh) ==> old(
                self,
            ).pending().len() > 0 && (!old(self).complete() || exists|c: int|
                #[trigger] located(inside_triangle, old(self)@, old(self).pending().last(), c)
                    && inside_circle.ensures((old(self)@[c], old(self).pending().last()), true)),
            old(self).pending().len() > 0 && r is Ok ==> final(self).pending() == old(
                self,
            ).pending().drop_last() && r == Ok::<bool, TriangulatorError>(true),
            r is Err ==> final(self)@ == old(self)@ && final(self).pending() == old(self).pending()
                && final(self).complete() == old(self).complete(),
            r is Ok && old(self).complete() ==> final(self).complete(),
            r is Err ==> r == Err::<bool, TriangulatorError>(TriangulatorError::InconsistentMesh)
                || r == Err::<bool, TriangulatorError>(TriangulatorError::PointOutsideOfHull),
            r is Ok && old(self).pending().len() > 0 ==> uses_vertex(
                final(self)@,
                old(self).pending().last(),
            ) && final(self)@.len() == old(self)@.len() + 2,
            r is Ok ==> forall|v: usize| uses_vertex(old(self)@, v) ==> uses_vertex(final(self)@, v),
            old(self).pending_fresh() && r is Ok ==> final(self).pending_fresh(),
            r is Ok ==> forall|v: usize|
                uses_vertex(final(self)@, v) ==> uses_vertex(old(self)@, v) || (old(
                    self,
                ).pending().len() > 0 && v == old(self).pending().last()),
    {
        let ghost before = self.triangulator;
        let r = self.triangulator.do_step(inside_triangle, inside_circle);
        proof {
            assert(old(self).complete() == before.complete());
            assert(old(self)@ == before.triangles@);
            assert(old(self).pending() == before.points_to_add@);
            if old(self).pending_fresh() && r is Ok && before.points_to_add@.len() > 0 {
                let pend = before.points_to_add@;
                let last = pend.last();
                assert forall|i: int| 0 <= i < self.pending().len() implies !uses_vertex(
                    self@,
                    #[trigger] self.pending()[i],
                ) by {
                    let x = self.pending()[i];
                    assert(x == pend[i]);
                    assert(x != last) by {
                        assert(pend[i] != pend[pend.len() - 1]);
                    }
                    assert(!uses_vertex(before.triangles@, pend[i]));
                }
                assert forall|a: int, b: int| 0 <= a < b < self.pending().len() implies self.pending()[a]
                    != self.pending()[b] by {
                    assert(pend[a] != pend[b]);
                }
            }
        }
        r
    }

    /// The current triangle array, usable at any point of the run.
    pub fn get_triangles(&self) -> (r: &[Triangle])
        ensures
            r@ == self@,
    {
        self.triangulator.triangles.as_slice()
    }
}

} // verus!
