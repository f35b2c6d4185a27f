use vstd::prelude::*;

use crate::tri_edge_mapping::{takes, TriangleEdgeMapping};
use crate::triangle::{edge_between, Edge, OrderedPair, Triangle};
use crate::util::{edge_position, index_list_contains, lemma_distinct_indices, lemma_distinct_pairs, pair_list_contains};
use crate::TriangulatorError;

verus! {

/// A geometric test that can be asked about any triangle and any point.
pub open spec fn total_test<F: Fn(Triangle, usize) -> bool>(f: &F) -> bool {
    forall|t: Triangle, p: usize| #[trigger] f.requires((t, p))
}

/// The corner of `a` that is not a corner of `b` (the first such, in corner order).
pub open spec fn apart_corner(a: Triangle, b: Triangle) -> usize {
    if !b.has_vertex(a.index0) {
        a.index0
    } else if !b.has_vertex(a.index1) {
        a.index1
    } else {
        a.index2
    }
}

/// The two corners of `a` that are corners of `b` too, in the order they have in `a`.
pub open spec fn shared_corners(a: Triangle, b: Triangle) -> (usize, usize) {
    if !b.has_vertex(a.index0) {
        (a.index1, a.index2)
    } else if !b.has_vertex(a.index1) {
        (a.index0, a.index2)
    } else {
        (a.index0, a.index1)
    }
}

/// Both triangles have three distinct corners, and exactly two of them are shared.
pub open spec fn share_one_edge(a: Triangle, b: Triangle) -> bool {
    &&& a.is_proper()
    &&& b.is_proper()
    &&& {
        ||| (b.has_vertex(a.index0) && b.has_vertex(a.index1) && !b.has_vertex(a.index2))
        ||| (b.has_vertex(a.index0) && !b.has_vertex(a.index1) && b.has_vertex(a.index2))
        ||| (!b.has_vertex(a.index0) && b.has_vertex(a.index1) && b.has_vertex(a.index2))
    }
}

/// The two triangles that replace `a` and `b` when their shared diagonal is swapped:
/// both join the two corners that are not shared with one shared corner each.
pub open spec fn flipped(a: Triangle, b: Triangle) -> (Triangle, Triangle) {
    let na = apart_corner(a, b);
    let nb = apart_corner(b, a);
    let (c0, c1) = shared_corners(a, b);
    (
        Triangle { index0: na, index1: nb, index2: c0 },
        Triangle { index0: na, index1: nb, index2: c1 },
    )
}

/// The fan of triangles over a hull polygon, all from its first vertex.
pub open spec fn fan(hull: Seq<usize>) -> Seq<Triangle> {
    Seq::new(
        if hull.len() >= 2 {
            (hull.len() - 2) as nat
        } else {
            0
        },
        |i: int| Triangle { index0: hull[0], index1: hull[i + 1], index2: hull[i + 2] },
    )
}

/// Two fan triangles share an edge only when they are consecutive, and then
/// it is the diagonal from the first hull vertex.
proof fn lemma_fan_shared_edge(hull: Seq<usize>, i: int, j: int, e: Edge)
    requires
        hull.no_duplicates(),
        0 <= j < i < hull.len() - 2,
        fan(hull)[i].has_edge(e),
        fan(hull)[j].has_edge(e),
    ensures
        j == i - 1,
{
    let h0 = hull[0];
    assert(h0 != hull[i + 1] && h0 != hull[i + 2] && h0 != hull[j + 1] && h0 != hull[j + 2]);
    assert(hull[i + 1] != hull[i + 2] && hull[j + 1] != hull[j + 2]);
    if j + 1 != i + 1 && j + 2 != i + 1 {
        assert(hull[j + 1] != hull[i + 1] && hull[j + 2] != hull[i + 1]);
    }
    if j + 2 != i + 2 && j + 1 != i + 2 {
        assert(hull[j + 1] != hull[i + 2] && hull[j + 2] != hull[i + 2]);
    }
    if j + 1 != i + 1 {
        assert(hull[j + 1] != hull[i + 1]);
    }
    if j + 2 != i + 1 {
        assert(hull[j + 2] != hull[i + 1]);
    }
    if j + 1 != i + 2 {
        assert(hull[j + 1] != hull[i + 2]);
    }
    if j + 2 != i + 2 {
        assert(hull[j + 2] != hull[i + 2]);
    }
}

/// Two registered triangles taken out of a well-formed index can always be
/// put back, first one, then the other.
proof fn lemma_pair_fits_back(m: TriangleEdgeMapping, a: usize, b: usize)
    requires
        m.wf(),
        a != b,
        m@.contains_key(a),
        m@.contains_key(b),
    ensures
        takes(m@.remove(a).remove(b), m@[a]),
        takes(m@.remove(a).remove(b).insert(a, m@[a]), m@[b]),
{
    let rest = m@.remove(a).remove(b);
    assert forall|e: Edge, t1: usize, t2: usize|
        m@[a].has_edge(e) && rest.contains_key(t1) && rest[t1].has_edge(e) && rest.contains_key(t2)
            && rest[t2].has_edge(e) implies t1 == t2 by {
        assert(m.owns(t1, e) && m.owns(t2, e) && m.owns(a, e));
    }
    let back = rest.insert(a, m@[a]);
    assert forall|e: Edge, t1: usize, t2: usize|
        m@[b].has_edge(e) && back.contains_key(t1) && back[t1].has_edge(e) && back.contains_key(t2)
            && back[t2].has_edge(e) implies t1 == t2 by {
        assert(m.owns(t1, e) && m.owns(t2, e) && m.owns(b, e));
    }
}

/// Swapping the diagonal of two triangles that share one edge keeps every
/// boundary edge of a well-formed index on the boundary, and makes no new one.
pub proof fn lemma_flip_keeps_boundary(m: TriangleEdgeMapping, m2: TriangleEdgeMapping, a: usize, b: usize, e: Edge)
    requires
        m.wf(),
        m2.wf(),
        a != b,
        m@.contains_key(a),
        m@.contains_key(b),
        share_one_edge(m@[a], m@[b]),
        m2@ == m@.insert(a, flipped(m@[a], m@[b]).0).insert(b, flipped(m@[a], m@[b]).1),
    ensures
        m.is_boundary(e) == m2.is_boundary(e),
{
    let ta = m@[a];
    let tb = m@[b];
    let (fa, fb) = flipped(ta, tb);
    let na = apart_corner(ta, tb);
    let nb = apart_corner(tb, ta);
    let (c0, c1) = shared_corners(ta, tb);
    assert(ta.has_vertex(na) && ta.has_vertex(c0) && ta.has_vertex(c1));
    assert(tb.has_vertex(nb) && tb.has_vertex(c0) && tb.has_vertex(c1));
    assert(na != nb && na != c0 && na != c1 && nb != c0 && nb != c1 && c0 != c1);
    let d = edge_between(c0, c1);
    let dn = edge_between(na, nb);
    // the slots other than a and b own the same edges before and after
    assert forall|t: usize| t != a && t != b implies m.owns(t, e) == m2.owns(t, e) by {}
    assert(m2.owns(a, e) == fa.has_edge(e));
    assert(m2.owns(b, e) == fb.has_edge(e));
    assert(m.owns(a, e) == ta.has_edge(e));
    assert(m.owns(b, e) == tb.has_edge(e));
    if e == d {
        assert(ta.has_edge(e) && tb.has_edge(e));
        assert(!fa.has_edge(e) && !fb.has_edge(e));
        assert(!m.is_boundary(e)) by {
            if m.is_boundary(e) {
                let t = choose|t: usize| #[trigger] m.owns(t, e) && forall|t2: usize| #[trigger] m.owns(t2, e) ==> t2 == t;
                assert(m.owns(a, e) && m.owns(b, e));
            }
        }
        assert(!m2.is_boundary(e)) by {
            if m2.is_boundary(e) {
                let t = choose|t: usize| #[trigger] m2.owns(t, e) && forall|t2: usize| #[trigger] m2.owns(t2, e) ==> t2 == t;
                assert(m.owns(t, e) && m.owns(a, e) && m.owns(b, e));
            }
        }
    } else if e == dn {
        assert(!ta.has_edge(e) && !tb.has_edge(e));
        assert(fa.has_edge(e) && fb.has_edge(e));
        assert(!m2.is_boundary(e)) by {
            if m2.is_boundary(e) {
                let t = choose|t: usize| #[trigger] m2.owns(t, e) && forall|t2: usize| #[trigger] m2.owns(t2, e) ==> t2 == t;
                assert(m2.owns(a, e) && m2.owns(b, e));
            }
        }
        assert(!m.is_boundary(e)) by {
            if m.is_boundary(e) {
                let t = choose|t: usize| #[trigger] m.owns(t, e) && forall|t2: usize| #[trigger] m.owns(t2, e) ==> t2 == t;
                assert(m2.owns(t, e) && m2.owns(a, e) && m2.owns(b, e));
            }
        }
    } else {
        assert(!(ta.has_edge(e) && tb.has_edge(e)));
        assert(!(fa.has_edge(e) && fb.has_edge(e)));
        assert((ta.has_edge(e) || tb.has_edge(e)) == (fa.has_edge(e) || fb.has_edge(e)));
        if m.is_boundary(e) {
            let t = choose|t: usize| #[trigger] m.owns(t, e) && forall|t2: usize| #[trigger] m.owns(t2, e) ==> t2 == t;
            let w = if t != a && t != b {
                t
            } else if fa.has_edge(e) {
                a
            } else {
                b
            };
            assert(m2.owns(w, e));
            assert forall|t2: usize| #[trigger] m2.owns(t2, e) implies t2 == w by {
                if t2 != a && t2 != b {
                    assert(m.owns(t2, e));
                }
            }
        }
        if m2.is_boundary(e) {
            let t = choose|t: usize| #[trigger] m2.owns(t, e) && forall|t2: usize| #[trigger] m2.owns(t2, e) ==> t2 == t;
            let w = if t != a && t != b {
                t
            } else if ta.has_edge(e) {
                a
            } else {
                b
            };
            assert(m.owns(w, e));
            assert forall|t2: usize| #[trigger] m.owns(t2, e) implies t2 == w by {
                if t2 != a && t2 != b {
                    assert(m2.owns(t2, e));
                }
            }
        }
    }
}

/// Splits two triangles into the corners that are not shared and the two
/// corners that are, or `None` when they do not share exactly one edge.
pub fn commonality(a: &Triangle, b: &Triangle) -> (r: Option<((usize, usize), (usize, usize))>)
    ensures
        r is Some <==> share_one_edge(*a, *b),
        r is Some ==> r->Some_0 == ((apart_corner(*a, *b), apart_corner(*b, *a)), shared_corners(
            *a,
            *b,
        )),
{
    let proper = a.index0 != a.index1 && a.index1 != a.index2 && a.index2 != a.index0 && b.index0
        != b.index1 && b.index1 != b.index2 && b.index2 != b.index0;
    if !proper {
        return None;
    }
    let in_b0 = b.contains_vertex(a.index0);
    let in_b1 = b.contains_vertex(a.index1);
    let in_b2 = b.contains_vertex(a.index2);
    let (non_common_a, common) = if in_b0 && in_b1 && !in_b2 {
        (a.index2, (a.index0, a.index1))
    } else if in_b0 && !in_b1 && in_b2 {
        (a.index1, (a.index0, a.index2))
    } else if !in_b0 && in_b1 && in_b2 {
        (a.index0, (a.index1, a.index2))
    } else {
        return None;
    };
    let non_common_b = if !a.contains_vertex(b.index0) {
        b.index0
    } else if !a.contains_vertex(b.index1) {
        b.index1
    } else {
        b.index2
    };
    Some(((non_common_a, non_common_b), common))
}

/// The fan triangulation of a hull polygon, one triangle for each pair of
/// consecutive boundary edges.
pub fn generate_triangles_from_hull(hull: &[usize]) -> (r: Vec<Triangle>)
    ensures
        r@ == fan(hull@),
{
    let mut triangles: Vec<Triangle> = Vec::new();
    let mut i: usize = 2;
    while i < hull.len()
        invariant
            2 <= i,
            hull@.len() >= 2 ==> i <= hull@.len(),
            hull@.len() < 2 ==> triangles@.len() == 0,
            triangles@ == fan(hull@).take(i - 2),
        decreases hull.len() - i,
    {
        triangles.push(Triangle::new(hull[0], hull[i - 1], hull[i]));
        i = i + 1;
    }
    assert(triangles@ =~= fan(hull@));
    triangles
}

/// The triangulation under construction: the triangle array, the points still
/// to insert, and the adjacency index over the array's slots.
pub struct DelaunayIncremental {
    pub triangles: Vec<Triangle>,
    pub points_to_add: Vec<usize>,
    pub tri_edge_mapping: TriangleEdgeMapping,
}

impl DelaunayIncremental {
    /// The index is well formed and every registered slot holds the triangle
    /// it was registered with.
    pub open spec fn wf(self) -> bool {
        &&& self.tri_edge_mapping.wf()
        &&& forall|t: usize| #[trigger]
            self.tri_edge_mapping@.contains_key(t) ==> t < self.triangles@.len()
                && self.tri_edge_mapping@[t] == self.triangles@[t as int]
    }

    /// Every slot of the triangle array is registered in the index.
    pub open spec fn complete(self) -> bool {
        forall|t: usize| t < self.triangles@.len() ==> #[trigger] self.tri_edge_mapping@.contains_key(t)
    }

    /// A complete, well-formed state holds a consistent mesh.
    pub proof fn lemma_complete_is_consistent(self)
        requires
            self.wf(),
            self.complete(),
            self.triangles@.len() <= usize::MAX,
        ensures
            mesh_consistent(self.triangles@),
    {
        let tris = self.triangles@;
        let m = self.tri_edge_mapping;
        assert forall|i: int| 0 <= i < tris.len() implies #[trigger] tris[i].is_proper() by {
            assert(m@.contains_key(i as usize));
            assert(m@[i as usize] == tris[(i as usize) as int]);
        }
        assert forall|e: Edge, i: int, j: int, k: int|
            0 <= i < tris.len() && 0 <= j < tris.len() && 0 <= k < tris.len() && #[trigger] tris[i].has_edge(e)
                && #[trigger] tris[j].has_edge(e) && #[trigger] tris[k].has_edge(e) implies i == j || j == k
                || i == k by {
            assert(m@.contains_key(i as usize) && m@.contains_key(j as usize) && m@.contains_key(k as usize));
            assert(m@[i as usize] == tris[(i as usize) as int]);
            assert(m@[j as usize] == tris[(j as usize) as int]);
            assert(m@[k as usize] == tris[(k as usize) as int]);
            assert(m.owns(i as usize, e) && m.owns(j as usize, e) && m.owns(k as usize, e));
        }
    }

    pub fn new() -> (r: DelaunayIncremental)
        ensures
            r.wf(),
            r.complete(),
            r.triangles@.len() == 0,
            r.points_to_add@.len() == 0,
    {
        DelaunayIncremental {
            triangles: Vec::new(),
            points_to_add: Vec::new(),
            tri_edge_mapping: TriangleEdgeMapping::new(),
        }
    }

    /// Registers slot `t` if its triangle has distinct corners and leaves no edge
    /// with a third owner; reports whether it did.
    fn register(&mut self, t: usize) -> (r: bool)
        requires
            old(self).wf(),
            t < old(self).triangles@.len(),
            !old(self).tri_edge_mapping@.contains_key(t),
        ensures
            final(self).wf(),
            final(self).triangles == old(self).triangles,
            final(self).points_to_add == old(self).points_to_add,
            r ==> final(self).tri_edge_mapping@ == old(self).tri_edge_mapping@.insert(
                t,
                old(self).triangles@[t as int],
            ),
            !r ==> final(self).tri_edge_mapping@ == old(self).tri_edge_mapping@,
            r == (old(self).triangles@[t as int].is_proper() && old(self).tri_edge_mapping.can_take(
                old(self).triangles@[t as int],
            )),
    {
        let tri = self.triangles[t];
        let proper = tri.index0 != tri.index1 && tri.index1 != tri.index2 && tri.index2
            != tri.index0;
        if proper && self.tri_edge_mapping.accepts(&tri) {
            self.tri_edge_mapping.add_triangle(t, self.triangles.as_slice());
            true
        } else {
            false
        }
    }

    /// Puts the triangles that slots `a` and `b` held before a refused flip back
    /// in place and registers them again.
    fn restore_pair(&mut self, a: usize, b: usize, tri_a: Triangle, tri_b: Triangle)
        requires
            old(self).wf(),
            a != b,
            a < old(self).triangles@.len(),
            b < old(self).triangles@.len(),
            exists|m0: TriangleEdgeMapping|
                #![trigger m0.wf()]
                m0.wf() && m0@.contains_key(a) && m0@.contains_key(b) && m0@[a] == tri_a && m0@[b]
                    == tri_b && old(self).tri_edge_mapping@ == m0@.remove(a).remove(b),
        ensures
            final(self).wf(),
            final(self).points_to_add == old(self).points_to_add,
            final(self).triangles@ == old(self).triangles@.update(a as int, tri_a).update(
                b as int,
                tri_b,
            ),
            final(self).tri_edge_mapping@ == old(self).tri_edge_mapping@.insert(a, tri_a).insert(
                b,
                tri_b,
            ),
    {
        let ghost m0 = choose|m0: TriangleEdgeMapping|
            #![trigger m0.wf()]
            m0.wf() && m0@.contains_key(a) && m0@.contains_key(b) && m0@[a] == tri_a && m0@[b]
                == tri_b && old(self).tri_edge_mapping@ == m0@.remove(a).remove(b);
        proof {
            lemma_pair_fits_back(m0, a, b);
            self.tri_edge_mapping.lemma_can_take_view(tri_a);
            assert(tri_a.is_proper() && tri_b.is_proper());
        }
        self.triangles.set(a, tri_a);
        self.triangles.set(b, tri_b);
        let ok_a = self.register(a);
        assert(ok_a);
        proof {
            self.tri_edge_mapping.lemma_can_take_view(tri_b);
            assert(self.tri_edge_mapping@ == m0@.remove(a).remove(b).insert(a, m0@[a]));
        }
        let ok_b = self.register(b);
        assert(ok_b);
    }

    /// Swaps the shared diagonal of the triangles in slots `a` and `b`, keeping
    /// both slots.
    pub fn flip(&mut self, a: usize, b: usize) -> (r: Result<(), TriangulatorError>)
        requires
            old(self).wf(),
            a != b,
            old(self).tri_edge_mapping@.contains_key(a),
            old(self).tri_edge_mapping@.contains_key(b),
            share_one_edge(old(self).triangles@[a as int], old(self).triangles@[b as int]),
        ensures
            final(self).wf(),
            final(self).points_to_add == old(self).points_to_add,
            final(self).triangles@.len() == old(self).triangles@.len(),
            r is Err ==> r == Err::<(), TriangulatorError>(TriangulatorError::InconsistentMesh),
            r is Err ==> final(self).triangles@ == old(self).triangles@,
            r is Err ==> final(self).tri_edge_mapping@ == old(self).tri_edge_mapping@,
            forall|e: Edge|
                #[trigger] final(self).tri_edge_mapping.is_boundary(e) == old(
                    self,
                ).tri_edge_mapping.is_boundary(e),
            r is Ok ==> {
                let (new_a, new_b) = flipped(
                    old(self).triangles@[a as int],
                    old(self).triangles@[b as int],
                );
                &&& final(self).triangles@ == old(self).triangles@.update(a as int, new_a).update(
                    b as int,
                    new_b,
                )
                &&& final(self).tri_edge_mapping@ == old(self).tri_edge_mapping@.insert(
                    a,
                    new_a,
                ).insert(b, new_b)
            },
            r is Ok ==> forall|v: usize|
                uses_vertex(final(self).triangles@, v) == uses_vertex(old(self).triangles@, v),
            r is Ok <==> flip_fits(old(self).tri_edge_mapping@, a, b),
    {
        let tri_a = self.triangles[a];
        let tri_b = self.triangles[b];
        let ((non_common_a, non_common_b), (common_0, common_1)) = commonality(
            &tri_a,
            &tri_b,
        ).unwrap();

        self.tri_edge_mapping.remove_triangle(a);
        self.tri_edge_mapping.remove_triangle(b);

        let new_tri_a = Triangle::new(non_common_a, non_common_b, common_0);
        let new_tri_b = Triangle::new(non_common_a, non_common_b, common_1);

        self.triangles.set(a, new_tri_a);
        self.triangles.set(b, new_tri_b);

        let ghost m = self.tri_edge_mapping@;
        proof {
            assert(m == old(self).tri_edge_mapping@.remove(a).remove(b));
            assert(new_tri_a.is_proper() && new_tri_b.is_proper());
            self.tri_edge_mapping.lemma_can_take_view(new_tri_a);
        }
        if !self.register(a) {
            self.restore_pair(a, b, tri_a, tri_b);
            proof {
                assert(self.tri_edge_mapping@ =~= old(self).tri_edge_mapping@);
                assert forall|e: Edge|
                    #[trigger] self.tri_edge_mapping.is_boundary(e) == old(
                        self,
                    ).tri_edge_mapping.is_boundary(e) by {
                    self.tri_edge_mapping.lemma_boundary_same_view(old(self).tri_edge_mapping, e);
                }
            }
            return Err(TriangulatorError::InconsistentMesh);
        }
        proof {
            self.tri_edge_mapping.lemma_can_take_view(new_tri_b);
        }
        if !self.register(b) {
            self.tri_edge_mapping.remove_triangle(a);
            proof {
                assert(self.tri_edge_mapping@ =~= m);
            }
            self.restore_pair(a, b, tri_a, tri_b);
            proof {
                assert(self.tri_edge_mapping@ =~= old(self).tri_edge_mapping@);
                assert forall|e: Edge|
                    #[trigger] self.tri_edge_mapping.is_boundary(e) == old(
                        self,
                    ).tri_edge_mapping.is_boundary(e) by {
                    self.tri_edge_mapping.lemma_boundary_same_view(old(self).tri_edge_mapping, e);
                }
            }
            return Err(TriangulatorError::InconsistentMesh);
        }
        proof {
            assert(self.tri_edge_mapping@ =~= old(self).tri_edge_mapping@.insert(
                a,
                new_tri_a,
            ).insert(b, new_tri_b));
            let before = old(self).triangles@;
            let after = self.triangles@;
            assert forall|v: usize| uses_vertex(after, v) == uses_vertex(before, v) by {
                if uses_vertex(before, v) {
                    let t = choose|t: int| 0 <= t < before.len() && #[trigger] before[t].has_vertex(v);
                    if t == a || t == b {
                        assert(after[a as int].has_vertex(v) || after[b as int].has_vertex(v));
                    } else {
                        assert(after[t].has_vertex(v));
                    }
                }
                if uses_vertex(after, v) {
                    let t = choose|t: int| 0 <= t < after.len() && #[trigger] after[t].has_vertex(v);
                    if t == a || t == b {
                        assert(before[a as int].has_vertex(v) || before[b as int].has_vertex(v));
                    } else {
                        assert(before[t].has_vertex(v));
                    }
                }
            }
        }
        proof {
            assert forall|e: Edge|
                #[trigger] self.tri_edge_mapping.is_boundary(e) == old(
                    self,
                ).tri_edge_mapping.is_boundary(e) by {
                lemma_flip_keeps_boundary(old(self).tri_edge_mapping, self.tri_edge_mapping, a, b, e);
            }
        }
        Ok(())
    }
}

impl DelaunayIncremental {
    /// Lawson legalization: takes slots from the `to_check` stack and swaps the
    /// diagonal with a neighbour whenever `inside_circle` asks for it, each
    /// unordered pair of slots at most once. Returns the pairs that were
    /// flipped, lower slot first; every adjacent pair in which a checked or
    /// flipped slot takes part is then flipped, unflippable, or legal by the
    /// circle test on the final triangles. Boundary edges stay boundary edges.
    pub fn flip_pairs<FC: Fn(Triangle, usize) -> bool>(
        &mut self,
        to_check: Vec<usize>,
        inside_circle: &FC,
    ) -> (r: Result<Ghost<Seq<OrderedPair>>, TriangulatorError>)
        requires
            old(self).wf(),
            total_test(inside_circle),
        ensures
            final(self).wf(),
            final(self).points_to_add == old(self).points_to_add,
            final(self).triangles@.len() == old(self).triangles@.len(),
            r is Err ==> r == Err::<Ghost<Seq<OrderedPair>>, TriangulatorError>(
                TriangulatorError::InconsistentMesh,
            ),
            old(self).complete() ==> final(self).complete(),
            forall|v: usize|
                uses_vertex(final(self).triangles@, v) == uses_vertex(old(self).triangles@, v),
            to_check@.len() == 0 ==> r is Ok && final(self).triangles@ == old(self).triangles@,
            r is Err ==> flip_asked(inside_circle),
            r is Err ==> exists|t: usize, u: usize|
                #[trigger] flip_refused(inside_circle, final(self).tri_edge_mapping, t, u),
            forall|e: Edge|
                #[trigger] final(self).tri_edge_mapping.is_boundary(e) == old(
                    self,
                ).tri_edge_mapping.is_boundary(e),
            r matches Ok(flipped) ==> {
                &&& flipped@.no_duplicates()
                &&& forall|i: int|
                    0 <= i < flipped@.len() ==> #[trigger] flipped@[i].a < flipped@[i].b
                        && flipped@[i].b < old(self).triangles@.len()
                &&& flipped@.len() <= old(self).triangles@.len() * old(self).triangles@.len()
                &&& forall|t: usize, u: usize|
                    #[trigger] final(self).tri_edge_mapping.adjacent(t, u) && u != t && on_worklist(
                        to_check@,
                        flipped@,
                        t,
                    ) ==> settled(inside_circle, final(self).triangles@, flipped@, t, u)
            },
    {
        let mut check_stack = to_check;
        let mut already_checked: Vec<OrderedPair> = Vec::new();
        let ghost n = self.triangles@.len();
        while check_stack.len() > 0
            invariant
                self.wf(),
                self.points_to_add == old(self).points_to_add,
                self.triangles@.len() == n,
                n == old(self).triangles@.len(),
                forall|v: usize|
                    uses_vertex(self.triangles@, v) == uses_vertex(old(self).triangles@, v),
                forall|e: Edge|
                    #[trigger] self.tri_edge_mapping.is_boundary(e) == old(
                        self,
                    ).tri_edge_mapping.is_boundary(e),
                to_check@.len() == 0 ==> check_stack@.len() == 0 && self.triangles@ == old(
                    self,
                ).triangles@,
                total_test(inside_circle),
                old(self).complete() ==> self.complete(),
                already_checked@.no_duplicates(),
                forall|i: int|
                    0 <= i < already_checked@.len() ==> #[trigger] already_checked@[i].a < n
                        && already_checked@[i].b < n && already_checked@[i].a
                        < already_checked@[i].b,
                forall|i: int|
                    0 <= i < check_stack@.len() ==> on_worklist(
                        to_check@,
                        already_checked@,
                        #[trigger] check_stack@[i],
                    ),
                forall|t: usize, u: usize|
                    #[trigger] self.tri_edge_mapping.adjacent(t, u) && u != t && on_worklist(
                        to_check@,
                        already_checked@,
                        t,
                    ) ==> check_stack@.contains(t) || check_stack@.contains(u) || settled(
                        inside_circle,
                        self.triangles@,
                        already_checked@,
                        t,
                        u,
                    ),
            decreases n * n - already_checked@.len(), check_stack@.len(),
        {
            proof {
                lemma_distinct_pairs(already_checked@, n as int);
            }
            let ghost before_pop = check_stack@;
            let tri = check_stack.pop().unwrap();
            proof {
                assert(before_pop == check_stack@.push(tri));
                assert forall|x: usize| #[trigger] before_pop.contains(x) && x != tri implies check_stack@.contains(x) by {
                    let i = choose|i: int| 0 <= i < before_pop.len() && before_pop[i] == x;
                    assert(check_stack@[i] == x);
                }
                assert(on_worklist(to_check@, already_checked@, before_pop[before_pop.len() - 1]));
            }
            if self.tri_edge_mapping.is_registered(tri) {
                let neighbours = self.tri_edge_mapping.neighbouring_triangles(tri);
                let ghost mesh0 = self.tri_edge_mapping;
                let ghost m0 = self.tri_edge_mapping@;
                let ghost t0 = self.triangles@;
                let ghost s0 = check_stack@;
                let ghost c0 = already_checked@;
                proof {
                    assert forall|t: usize, u: usize|
                        #[trigger] mesh0.adjacent(t, u) && u != t && on_worklist(to_check@, c0, t)
                            implies s0.contains(t) || s0.contains(u) || settled(
                            inside_circle,
                            t0,
                            c0,
                            t,
                            u,
                        ) || t == tri || u == tri by {
                        assert(before_pop.contains(t) ==> (t == tri || s0.contains(t)));
                        assert(before_pop.contains(u) ==> (u == tri || s0.contains(u)));
                    }
                    assert forall|i: int| 0 <= i < s0.len() implies on_worklist(to_check@, c0, #[trigger] s0[i]) by {
                        assert(before_pop[i] == s0[i]);
                    }
                }
                let mut flipped_one = false;
                let mut j: usize = 0;
                while j < neighbours.len() && !flipped_one
                    invariant
                        j <= neighbours@.len(),
                        forall|i: int| 0 <= i < s0.len() ==> on_worklist(to_check@, c0, #[trigger] s0[i]),
                        forall|i: int|
                            0 <= i < c0.len() ==> #[trigger] c0[i].a < c0[i].b,
                        self.wf(),
                        self.points_to_add == old(self).points_to_add,
                        self.triangles@.len() == n,
                        n == old(self).triangles@.len(),
                        forall|v: usize|
                            uses_vertex(self.triangles@, v) == uses_vertex(old(self).triangles@, v),
                        forall|e: Edge|
                            #[trigger] self.tri_edge_mapping.is_boundary(e) == old(
                                self,
                            ).tri_edge_mapping.is_boundary(e),
                        to_check@.len() > 0,
                        total_test(inside_circle),
                        old(self).complete() ==> self.complete(),
                        already_checked@.no_duplicates(),
                        forall|i: int|
                            0 <= i < already_checked@.len() ==> #[trigger] already_checked@[i].a < n
                                && already_checked@[i].b < n,
                        m0.contains_key(tri),
                        m0 == mesh0@,
                        mesh0.wf(),
                        on_worklist(to_check@, c0, tri),
                        forall|i: int|
                            0 <= i < neighbours@.len() ==> #[trigger] neighbours@[i] != tri
                                && m0.contains_key(neighbours@[i]),
                        forall|u: usize|
                            u != tri && #[trigger] mesh0.adjacent(tri, u) ==> neighbours@.contains(u),
                        forall|i: int|
                            0 <= i < neighbours@.len() ==> mesh0.adjacent(tri, #[trigger] neighbours@[i]),
                        !flipped_one ==> self.tri_edge_mapping@ == m0 && self.triangles@ == t0
                            && check_stack@ == s0 && already_checked@ == c0,
                        !flipped_one ==> forall|k: int|
                            0 <= k < j ==> settled(inside_circle, t0, c0, tri, #[trigger] neighbours@[k]),
                        !flipped_one ==> forall|t: usize, u: usize|
                            #[trigger] mesh0.adjacent(t, u) && u != t && on_worklist(to_check@, c0, t)
                                ==> s0.contains(t) || s0.contains(u) || settled(
                                inside_circle,
                                t0,
                                c0,
                                t,
                                u,
                            ) || t == tri || u == tri,
                        flipped_one ==> already_checked@.len() == c0.len() + 1,
                        flipped_one ==> forall|i: int|
                            0 <= i < check_stack@.len() ==> on_worklist(
                                to_check@,
                                already_checked@,
                                #[trigger] check_stack@[i],
                            ),
                        flipped_one ==> forall|i: int|
                            0 <= i < already_checked@.len() ==> #[trigger] already_checked@[i].a
                                < already_checked@[i].b,
                        flipped_one ==> forall|t: usize, u: usize|
                            #[trigger] self.tri_edge_mapping.adjacent(t, u) && u != t && on_worklist(
                                to_check@,
                                already_checked@,
                                t,
                            ) ==> check_stack@.contains(t) || check_stack@.contains(u) || settled(
                                inside_circle,
                                self.triangles@,
                                already_checked@,
                                t,
                                u,
                            ),
                    decreases neighbours.len() - j,
                {
                    let neighbour = neighbours[j];
                    let pair = OrderedPair::new(tri, neighbour);
                    let seen = pair_list_contains(&already_checked, pair);
                    let wants = if seen {
                        false
                    } else {
                        should_flip(&self.triangles[tri], &self.triangles[neighbour], inside_circle)
                    };
                    if !wants {
                        proof {
                            assert(pair == pair_of(tri, neighbour));
                            assert(settled(inside_circle, t0, c0, tri, neighbour));
                        }
                    } else {
                        let ghost t_tri = self.triangles@[tri as int];
                        let ghost n_tri = self.triangles@[neighbour as int];
                        match self.flip(tri, neighbour) {
                            Ok(()) => {},
                            Err(e) => {
                                proof {
                                    assert(share_one_edge(t_tri, n_tri));
                                    let mm = self.tri_edge_mapping;
                                    assert(mm@ == m0);
                                    assert(mesh0.adjacent(tri, neighbour));
                                    assert(mm.adjacent(tri, neighbour));
                                    assert(mm@[tri] == t_tri && mm@[neighbour] == n_tri);
                                    assert(flip_refused(inside_circle, mm, tri, neighbour));
                                    assert(mm.wf());
                                }
                                return Err(e);
                            },
                        }
                        already_checked.push(pair);
                        check_stack.push(tri);
                        check_stack.push(neighbour);
                        flipped_one = true;
                        proof {
                            let c1 = already_checked@;
                            let st = check_stack@;
                            let last = c1.len() - 1;
                            assert(c1[last] == pair);
                            assert(st[st.len() - 2] == tri && st[st.len() - 1] == neighbour);
                            assert(st.contains(tri) && st.contains(neighbour));
                            assert forall|p: OrderedPair| #[trigger] c0.contains(p) implies c1.contains(p) by {
                                let i = choose|i: int| 0 <= i < c0.len() && c0[i] == p;
                                assert(c1[i] == p);
                            }
                            assert forall|x: usize| on_worklist(to_check@, c0, x) implies on_worklist(
                                to_check@,
                                c1,
                                x,
                            ) by {
                                if !to_check@.contains(x) {
                                    let i = choose|i: int|
                                        0 <= i < c0.len() && ((#[trigger] c0[i]).a == x || c0[i].b
                                            == x);
                                    assert(c1[i] == c0[i]);
                                }
                            }
                            assert(on_worklist(to_check@, c1, tri) && on_worklist(to_check@, c1, neighbour)) by {
                                assert(c1[last].a == tri || c1[last].b == tri);
                                assert(c1[last].a == neighbour || c1[last].b == neighbour);
                            }
                            assert forall|i: int| 0 <= i < st.len() implies on_worklist(
                                to_check@,
                                c1,
                                #[trigger] st[i],
                            ) by {
                                if i < s0.len() {
                                    assert(st[i] == s0[i]);
                                    assert(on_worklist(to_check@, c0, s0[i]));
                                }
                            }
                            assert forall|i: int| 0 <= i < c1.len() implies #[trigger] c1[i].a < c1[i].b by {
                                if i < c0.len() {
                                    assert(c1[i] == c0[i]);
                                }
                            }
                            let m1 = self.tri_edge_mapping;
                            assert forall|t: usize, u: usize|
                                #[trigger] m1.adjacent(t, u) && u != t && on_worklist(to_check@, c1, t)
                                    implies st.contains(t) || st.contains(u) || settled(
                                    inside_circle,
                                    self.triangles@,
                                    c1,
                                    t,
                                    u,
                                ) by {
                                if t != tri && t != neighbour && u != tri && u != neighbour {
                                    assert(m1@[t] == m0[t]);
                                    assert(mesh0.adjacent(t, u));
                                    if !to_check@.contains(t) {
                                        let i = choose|i: int|
                                            0 <= i < c1.len() && ((#[trigger] c1[i]).a == t || c1[i].b
                                                == t);
                                        assert(i != last);
                                        assert(c1[i] == c0[i]);
                                    }
                                    assert(on_worklist(to_check@, c0, t));
                                    if s0.contains(t) {
                                        let i = choose|i: int| 0 <= i < s0.len() && s0[i] == t;
                                        assert(st[i] == t);
                                    } else if s0.contains(u) {
                                        let i = choose|i: int| 0 <= i < s0.len() && s0[i] == u;
                                        assert(st[i] == u);
                                    } else {
                                        lemma_settled_kept(inside_circle, t0, self.triangles@, c0, c1, t, u);
                                    }
                                }
                            }
                        }
                    }
                    j = j + 1;
                }
                proof {
                    if !flipped_one {
                        assert forall|t: usize, u: usize|
                            #[trigger] self.tri_edge_mapping.adjacent(t, u) && u != t && on_worklist(
                                to_check@,
                                already_checked@,
                                t,
                            ) implies check_stack@.contains(t) || check_stack@.contains(u) || settled(
                            inside_circle,
                            self.triangles@,
                            already_checked@,
                            t,
                            u,
                        ) by {
                            assert(mesh0.adjacent(t, u));
                            if t == tri {
                                assert(neighbours@.contains(u));
                                let k = choose|k: int| 0 <= k < neighbours@.len() && neighbours@[k] == u;
                                assert(settled(inside_circle, t0, c0, tri, neighbours@[k]));
                            } else if u == tri {
                                mesh0.lemma_adjacent_symmetric(t, tri);
                                assert(neighbours@.contains(t));
                                let k = choose|k: int| 0 <= k < neighbours@.len() && neighbours@[k] == t;
                                assert(settled(inside_circle, t0, c0, tri, neighbours@[k]));
                                lemma_settled_kept(inside_circle, t0, t0, c0, c0, tri, t);
                            }
                        }
                    }
                }
            } else {
                proof {
                    assert forall|t: usize, u: usize|
                        #[trigger] self.tri_edge_mapping.adjacent(t, u) && u != t && on_worklist(
                            to_check@,
                            already_checked@,
                            t,
                        ) implies check_stack@.contains(t) || check_stack@.contains(u) || settled(
                        inside_circle,
                        self.triangles@,
                        already_checked@,
                        t,
                        u,
                    ) by {
                        assert(before_pop.contains(t) ==> (t == tri || check_stack@.contains(t)));
                        assert(before_pop.contains(u) ==> (u == tri || check_stack@.contains(u)));
                    }
                    assert forall|i: int| 0 <= i < check_stack@.len() implies on_worklist(
                        to_check@,
                        already_checked@,
                        #[trigger] check_stack@[i],
                    ) by {
                        assert(before_pop[i] == check_stack@[i]);
                    }
                }
            }
            proof {
                lemma_distinct_pairs(already_checked@, n as int);
            }
        }
        proof {
            lemma_distinct_pairs(already_checked@, n as int);
        }
        Ok(Ghost(already_checked@))
    }
}

/// The unordered pair of slots `t` and `u`, lower slot first.
pub open spec fn pair_of(t: usize, u: usize) -> OrderedPair {
    if t <= u {
        OrderedPair { a: t, b: u }
    } else {
        OrderedPair { a: u, b: t }
    }
}

/// Slots `t` and `u` need no flip: the pair was flipped during the pass, the
/// two triangles do not share exactly one edge, or the circle test answered
/// false from one side (the far corner of one is not in the other's circle).
pub open spec fn settled<FC: Fn(Triangle, usize) -> bool>(
    inside_circle: &FC,
    tris: Seq<Triangle>,
    flipped: Seq<OrderedPair>,
    t: usize,
    u: usize,
) -> bool {
    ||| flipped.contains(pair_of(t, u))
    ||| !share_one_edge(tris[t as int], tris[u as int])
    ||| !share_one_edge(tris[u as int], tris[t as int])
    ||| inside_circle.ensures((tris[t as int], apart_corner(tris[u as int], tris[t as int])), false)
    ||| inside_circle.ensures((tris[u as int], apart_corner(tris[t as int], tris[u as int])), false)
}

/// A settled pair stays settled while its two triangles stay and flips are
/// only added.
pub proof fn lemma_settled_kept<FC: Fn(Triangle, usize) -> bool>(
    inside_circle: &FC,
    tris0: Seq<Triangle>,
    tris1: Seq<Triangle>,
    flipped0: Seq<OrderedPair>,
    flipped1: Seq<OrderedPair>,
    t: usize,
    u: usize,
)
    requires
        settled(inside_circle, tris0, flipped0, t, u),
        tris1[t as int] == tris0[t as int],
        tris1[u as int] == tris0[u as int],
        forall|p: OrderedPair| #[trigger] flipped0.contains(p) ==> flipped1.contains(p),
    ensures
        settled(inside_circle, tris1, flipped1, t, u),
        settled(inside_circle, tris1, flipped1, u, t),
{
    assert(pair_of(t, u) == pair_of(u, t));
}

/// Slot `x` was on the worklist: it was given, or it took part in a flip.
pub open spec fn on_worklist(to_check: Seq<usize>, flipped: Seq<OrderedPair>, x: usize) -> bool {
    ||| to_check.contains(x)
    ||| exists|i: int| 0 <= i < flipped.len() && ((#[trigger] flipped[i]).a == x || flipped[i].b == x)
}

/// Every triangle has three distinct corners and no edge belongs to three
/// different triangles of the sequence.
pub open spec fn mesh_consistent(tris: Seq<Triangle>) -> bool {
    &&& forall|i: int| 0 <= i < tris.len() ==> #[trigger] tris[i].is_proper()
    &&& forall|e: Edge, i: int, j: int, k: int|
        0 <= i < tris.len() && 0 <= j < tris.len() && 0 <= k < tris.len() && #[trigger] tris[i].has_edge(e)
            && #[trigger] tris[j].has_edge(e) && #[trigger] tris[k].has_edge(e) ==> i == j || j == k
            || i == k
}

/// Some triangle of the sequence has `v` as a corner.
pub open spec fn uses_vertex(tris: Seq<Triangle>, v: usize) -> bool {
    exists|t: int| 0 <= t < tris.len() && #[trigger] tris[t].has_vertex(v)
}

/// Both ends of edge `e` are corners of triangles of the sequence.
pub open spec fn spans(tris: Seq<Triangle>, e: Edge) -> bool {
    uses_vertex(tris, e.index_0) && uses_vertex(tris, e.index_1)
}

/// Point `v` is an end of one of the edges.
pub open spec fn touches(edges: Seq<Edge>, v: usize) -> bool {
    exists|i: int| 0 <= i < edges.len() && ((#[trigger] edges[i]).index_0 == v || edges[i].index_1 == v)
}

/// Whether point `v` is an end of one of the edges.
fn touches_exec(edges: &Vec<Edge>, v: usize) -> (r: bool)
    ensures
        r == touches(edges@, v),
{
    let mut i: usize = 0;
    while i < edges.len()
        invariant
            i <= edges@.len(),
            forall|j: int| 0 <= j < i ==> !((#[trigger] edges@[j]).index_0 == v || edges@[j].index_1 == v),
        decreases edges.len() - i,
    {
        if edges[i].index_0 == v || edges[i].index_1 == v {
            return true;
        }
        i = i + 1;
    }
    false
}

/// Slot `c` is where point `p` is located: the first slot whose triangle
/// `inside_triangle` says holds `p`, or slot 0 when it says so of none.
pub open spec fn located<FT: Fn(Triangle, usize) -> bool>(
    inside_triangle: &FT,
    tris: Seq<Triangle>,
    p: usize,
    c: int,
) -> bool {
    &&& 0 <= c < tris.len()
    &&& forall|j: int| 0 <= j < c ==> #[trigger] inside_triangle.ensures((tris[j], p), false)
    &&& inside_triangle.ensures((tris[c], p), true) || (c == 0 && forall|j: int|
        0 <= j < tris.len() ==> #[trigger] inside_triangle.ensures((tris[j], p), false))
}

/// Swapping the diagonal of slots `a` and `b` of `m` can be registered: the
/// first new triangle fits beside the others, then the second.
pub open spec fn flip_fits(m: Map<usize, Triangle>, a: usize, b: usize) -> bool {
    let (fa, fb) = flipped(m[a], m[b]);
    let rest = m.remove(a).remove(b);
    takes(rest, fa) && takes(rest.insert(a, fa), fb)
}

/// In index `m`, slots `t` and `u` are adjacent and share one edge, the circle
/// test asked for their flip, and the flip could not be registered.
pub open spec fn flip_refused<FC: Fn(Triangle, usize) -> bool>(
    inside_circle: &FC,
    m: TriangleEdgeMapping,
    t: usize,
    u: usize,
) -> bool {
    &&& m.adjacent(t, u)
    &&& t != u
    &&& share_one_edge(m@[t], m@[u])
    &&& inside_circle.ensures((m@[t], apart_corner(m@[u], m@[t])), true)
    &&& !flip_fits(m@, t, u)
}

/// Some well-formed index had a flip that the circle test asked for and that
/// could not be registered.
pub open spec fn flip_asked<FC: Fn(Triangle, usize) -> bool>(inside_circle: &FC) -> bool {
    exists|m: TriangleEdgeMapping, t: usize, u: usize|
        #[trigger] flip_refused(inside_circle, m, t, u) && m.wf()
}

/// Every corner of every triangle in the slots `rem` is an end of one of
/// `edges`.
pub open spec fn corners_on(tris: Seq<Triangle>, rem: Seq<usize>, edges: Seq<Edge>) -> bool {
    forall|k: int|
        0 <= k < rem.len() ==> {
            let tri = #[trigger] tris[rem[k] as int];
            touches(edges, tri.index0) && touches(edges, tri.index1) && touches(edges, tri.index2)
        }
}

/// Registering `tris[0]`, `tris[1]`, ... in `slots[0]`, `slots[1]`, ... one after
/// another, starting from the registrations `m`, each triangle has three
/// distinct corners and leaves no edge with a third owner.
pub open spec fn cones_fit(m: Map<usize, Triangle>, slots: Seq<usize>, tris: Seq<Triangle>) -> bool
    decreases slots.len(),
{
    if slots.len() == 0 {
        true
    } else {
        &&& tris.len() > 0
        &&& tris[0].is_proper()
        &&& takes(m, tris[0])
        &&& cones_fit(m.insert(slots[0], tris[0]), slots.skip(1), tris.skip(1))
    }
}

/// The slots a cavity fill uses, in order: the removed ones, then two new
/// slots at the end of an array of length `n0`.
pub open spec fn cone_slots(removed: Seq<usize>, n0: usize) -> Seq<usize> {
    removed + seq![n0, (n0 + 1) as usize]
}

/// The triangles a cavity fill builds, in order: the new point joined to the
/// boundary edges taken from the back.
pub open spec fn cones(p: usize, edges: Seq<Edge>) -> Seq<Triangle> {
    Seq::new(edges.len(), |i: int| cone(p, edges[edges.len() - 1 - i]))
}

/// Edge `e` belongs to the triangle of one of the slots `rem`.
pub open spec fn edge_of_slots(m: TriangleEdgeMapping, rem: Seq<usize>, e: Edge) -> bool {
    exists|i: int| 0 <= i < rem.len() && #[trigger] m.owns(rem[i], e)
}

/// Edge `e` is owned by two different slots of `rem`: it lies inside their region.
pub open spec fn inner_edge(m: TriangleEdgeMapping, rem: Seq<usize>, e: Edge) -> bool {
    exists|t1: usize, t2: usize|
        #![trigger m.owns(t1, e), m.owns(t2, e)]
        t1 != t2 && rem.contains(t1) && rem.contains(t2) && m.owns(t1, e) && m.owns(t2, e)
}

/// Edge `e` lies on the boundary of the region covered by the slots `rem`.
pub open spec fn region_boundary(m: TriangleEdgeMapping, rem: Seq<usize>, e: Edge) -> bool {
    edge_of_slots(m, rem, e) && !inner_edge(m, rem, e)
}

/// `rem` and `edges` are the cavity the search finds from slot `c`: slots
/// whose circle holds point `p`, starting at `c`, taking in every neighbour
/// except those whose circle was found not to hold `p`, and the boundary
/// edges of the region they cover.
pub open spec fn is_cavity<FC: Fn(Triangle, usize) -> bool>(
    inside_circle: &FC,
    m: TriangleEdgeMapping,
    tris: Seq<Triangle>,
    p: usize,
    c: int,
    rem: Seq<usize>,
    edges: Seq<Edge>,
) -> bool {
    &&& rem.len() > 0
    &&& rem[0] as int == c
    &&& rem.no_duplicates()
    &&& edges.no_duplicates()
    &&& forall|i: int|
        0 <= i < rem.len() ==> m@.contains_key(#[trigger] rem[i]) && inside_circle.ensures(
            (tris[rem[i] as int], p),
            true,
        )
    &&& forall|i: int, u: usize|
        0 <= i < rem.len() && #[trigger] m.adjacent(rem[i], u) && u != rem[i] && !rem.contains(u)
            ==> inside_circle.ensures((tris[u as int], p), false)
    &&& forall|e: Edge| #[trigger] edges.contains(e) <==> region_boundary(m, rem, e)
}

/// The triangle that joins point `p` to edge `e`.
pub open spec fn cone(p: usize, e: Edge) -> Triangle {
    Triangle { index0: p, index1: e.index_0, index2: e.index_1 }
}

impl DelaunayIncremental {
    /// The first slot whose triangle `inside_triangle` says holds the point,
    /// or slot 0 when none does.
    fn locate<FT: Fn(Triangle, usize) -> bool>(&self, point_idx: usize, inside_triangle: &FT) -> (r: usize)
        requires
            total_test(inside_triangle),
            self.triangles@.len() > 0,
        ensures
            r < self.triangles@.len(),
            located(inside_triangle, self.triangles@, point_idx, r as int),
            forall|j: int|
                0 <= j < r ==> inside_triangle.ensures((#[trigger] self.triangles@[j], point_idx), false),
            inside_triangle.ensures((self.triangles@[r as int], point_idx), true) || forall|j: int|
                0 <= j < self.triangles@.len() ==> inside_triangle.ensures(
                    (#[trigger] self.triangles@[j], point_idx),
                    false,
                ),
    {
        let mut i: usize = 0;
        while i < self.triangles.len()
            invariant
                total_test(inside_triangle),
                i <= self.triangles@.len(),
                forall|j: int|
                    0 <= j < i ==> inside_triangle.ensures((#[trigger] self.triangles@[j], point_idx), false),
            decreases self.triangles.len() - i,
        {
            if inside_triangle(self.triangles[i], point_idx) {
                return i;
            }
            i = i + 1;
        }
        0
    }

    /// Collects the slots whose circle holds the point, starting from
    /// `containing` and spreading to the neighbours of every slot found to
    /// hold it, together with the boundary
    /// edges of the region they cover: an edge whose two owners are both
    /// collected lies inside the region and is dropped.
    fn find_cavity<FC: Fn(Triangle, usize) -> bool>(
        &self,
        containing: usize,
        point_idx: usize,
        inside_circle: &FC,
    ) -> (r: (Vec<usize>, Vec<Edge>))
        requires
            self.wf(),
            self.tri_edge_mapping@.contains_key(containing),
            total_test(inside_circle),
        ensures
            r.0@.no_duplicates(),
            r.1@.no_duplicates(),
            r.0@.len() == 0 ==> r.1@.len() == 0,
            r.0@.len() == 0 ==> inside_circle.ensures((self.triangles@[containing as int], point_idx), false),
            r.0@.len() > 0 ==> r.0@[0] == containing,
            forall|i: int| 0 <= i < r.1@.len() ==> spans(self.triangles@, #[trigger] r.1@[i]),
            forall|i: int| 0 <= i < r.0@.len() ==> self.tri_edge_mapping@.contains_key(#[trigger] r.0@[i]),
            forall|i: int|
                0 <= i < r.0@.len() ==> inside_circle.ensures(
                    (self.triangles@[#[trigger] r.0@[i] as int], point_idx),
                    true,
                ),
            forall|i: int, u: usize|
                0 <= i < r.0@.len() && #[trigger] self.tri_edge_mapping.adjacent(r.0@[i], u) && u
                    != r.0@[i] && !r.0@.contains(u) ==> inside_circle.ensures(
                    (self.triangles@[u as int], point_idx),
                    false,
                ),
            forall|e: Edge|
                #[trigger] r.1@.contains(e) <==> region_boundary(self.tri_edge_mapping, r.0@, e),
    {
        let ghost n = self.triangles@.len();
        let mut triangles_to_check: Vec<usize> = vec![containing];
        let mut triangles_to_remove: Vec<usize> = Vec::new();
        let mut cavity_edges: Vec<Edge> = Vec::new();
        while triangles_to_check.len() > 0
            invariant
                self.wf(),
                n == self.triangles@.len(),
                total_test(inside_circle),
                triangles_to_check@.no_duplicates(),
                triangles_to_remove@.no_duplicates(),
                cavity_edges@.no_duplicates(),
                forall|i: int| 0 <= i < cavity_edges@.len() ==> spans(self.triangles@, #[trigger] cavity_edges@[i]),
                triangles_to_remove@.len() == 0 ==> cavity_edges@.len() == 0,
                triangles_to_remove@.len() > 0 ==> triangles_to_remove@[0] == containing,
                triangles_to_remove@.len() == 0 ==> triangles_to_check@ == seq![containing] || (
                triangles_to_check@.len() == 0 && inside_circle.ensures(
                    (self.triangles@[containing as int], point_idx),
                    false,
                )),
                forall|i: int|
                    0 <= i < triangles_to_check@.len() ==> self.tri_edge_mapping@.contains_key(
                        #[trigger] triangles_to_check@[i],
                    ) && !triangles_to_remove@.contains(triangles_to_check@[i]),
                forall|i: int|
                    0 <= i < triangles_to_remove@.len() ==> self.tri_edge_mapping@.contains_key(
                        #[trigger] triangles_to_remove@[i],
                    ),
                forall|i: int|
                    0 <= i < triangles_to_remove@.len() ==> inside_circle.ensures(
                        (self.triangles@[#[trigger] triangles_to_remove@[i] as int], point_idx),
                        true,
                    ),
                forall|i: int, u: usize|
                    0 <= i < triangles_to_remove@.len() && #[trigger] self.tri_edge_mapping.adjacent(
                        triangles_to_remove@[i],
                        u,
                    ) && u != triangles_to_remove@[i] && !triangles_to_remove@.contains(u)
                        ==> triangles_to_check@.contains(u) || inside_circle.ensures(
                        (self.triangles@[u as int], point_idx),
                        false,
                    ),
                forall|e: Edge|
                    #[trigger] cavity_edges@.contains(e) <==> region_boundary(
                        self.tri_edge_mapping,
                        triangles_to_remove@,
                        e,
                    ),
            decreases n - triangles_to_remove@.len(), triangles_to_check@.len(),
        {
            proof {
                assert forall|i: int| 0 <= i < triangles_to_remove@.len() implies #[trigger] triangles_to_remove@[i] < n by {
                    assert(self.tri_edge_mapping@.contains_key(triangles_to_remove@[i]));
                }
                lemma_distinct_indices(triangles_to_remove@, n as int);
            }
            let ghost check_before = triangles_to_check@;
            let ghost remove_before = triangles_to_remove@;
            let ghost cavity_before = cavity_edges@;
            let triangle_to_check = triangles_to_check.pop().unwrap();
            proof {
                assert(check_before == triangles_to_check@.push(triangle_to_check));
                assert forall|x: usize| #[trigger] check_before.contains(x) && x != triangle_to_check implies triangles_to_check@.contains(x) by {
                    let i = choose|i: int| 0 <= i < check_before.len() && check_before[i] == x;
                    assert(triangles_to_check@[i] == x);
                }
                assert(check_before[check_before.len() - 1] == triangle_to_check);
            }
            assert(self.tri_edge_mapping@.contains_key(triangle_to_check));
            let bad = inside_circle(self.triangles[triangle_to_check], point_idx);
            if !bad {
                proof {
                    assert forall|i: int, u: usize|
                        0 <= i < triangles_to_remove@.len() && #[trigger] self.tri_edge_mapping.adjacent(
                            triangles_to_remove@[i],
                            u,
                        ) && u != triangles_to_remove@[i] && !triangles_to_remove@.contains(u)
                            implies triangles_to_check@.contains(u) || inside_circle.ensures(
                            (self.triangles@[u as int], point_idx),
                            false,
                        ) by {
                        if u != triangle_to_check && check_before.contains(u) {
                            assert(triangles_to_check@.contains(u));
                        }
                    }
                }
            } else {
                triangles_to_remove.push(triangle_to_check);
                proof {
                    let rem = triangles_to_remove@;
                    assert(rem == remove_before.push(triangle_to_check));
                    assert(rem[rem.len() - 1] == triangle_to_check);
                    assert forall|x: usize| #[trigger] remove_before.contains(x) implies rem.contains(x) by {
                        let i = choose|i: int| 0 <= i < remove_before.len() && remove_before[i] == x;
                        assert(rem[i] == x);
                    }
                }
                let edges = self.tri_edge_mapping.get_edges(triangle_to_check);
                let mut k: usize = 0;
                proof {
                    let tri = self.triangles@[triangle_to_check as int];
                    assert(tri.has_vertex(tri.index0) && tri.has_vertex(tri.index1) && tri.has_vertex(tri.index2));
                    assert(uses_vertex(self.triangles@, tri.index0));
                    assert(uses_vertex(self.triangles@, tri.index1));
                    assert(uses_vertex(self.triangles@, tri.index2));
                }
                let ghost t_tri = self.triangles@[triangle_to_check as int];
                while k < 3
                    invariant
                        k <= 3,
                        self.wf(),
                        self.tri_edge_mapping@.contains_key(triangle_to_check),
                        self.tri_edge_mapping@[triangle_to_check] == t_tri,
                        triangles_to_remove@ == remove_before.push(triangle_to_check),
                        forall|e: Edge|
                            #[trigger] cavity_before.contains(e) <==> region_boundary(
                                self.tri_edge_mapping,
                                remove_before,
                                e,
                            ),
                        forall|e: Edge|
                            edges@.take(k as int).contains(e) ==> (#[trigger] cavity_edges@.contains(e)
                                <==> !inner_edge(self.tri_edge_mapping, triangles_to_remove@, e)),
                        forall|e: Edge|
                            !edges@.take(k as int).contains(e) ==> (#[trigger] cavity_edges@.contains(e)
                                <==> cavity_before.contains(e)),
                        edges@.len() == 3,
                        edges@ == self.triangles@[triangle_to_check as int].edges(),
                        forall|j: int| 0 <= j < 3 ==> spans(self.triangles@, #[trigger] edges@[j]),
                        cavity_edges@.no_duplicates(),
                        forall|i: int| 0 <= i < cavity_edges@.len() ==> spans(self.triangles@, #[trigger] cavity_edges@[i]),
                    decreases 3 - k,
                {
                    let edge = edges[k];
                    let ghost cav_k = cavity_edges@;
                    let tris_of_edge = self.tri_edge_mapping.get_triangles(&edge);
                    let inside = tris_of_edge.len() == 2 && index_list_contains(
                        &triangles_to_remove,
                        tris_of_edge[0],
                    ) && index_list_contains(&triangles_to_remove, tris_of_edge[1]);
                    proof {
                        let mm = self.tri_edge_mapping;
                        let rem = triangles_to_remove@;
                        let o = tris_of_edge@;
                        if inside {
                            assert(o[0] != o[1]);
                            assert(mm.owns(o[0], edge) && mm.owns(o[1], edge));
                        }
                        if inner_edge(mm, rem, edge) {
                            let (t1, t2) = choose|t1: usize, t2: usize|
                                #![trigger mm.owns(t1, edge), mm.owns(t2, edge)]
                                t1 != t2 && rem.contains(t1) && rem.contains(t2) && mm.owns(t1, edge)
                                    && mm.owns(t2, edge);
                            assert(o.contains(t1) && o.contains(t2));
                            let i1 = choose|i: int| 0 <= i < o.len() && o[i] == t1;
                            let i2 = choose|i: int| 0 <= i < o.len() && o[i] == t2;
                            assert(o.len() >= 2);
                            if o.len() > 2 {
                                assert(o[0] != o[1] && o[1] != o[2] && o[0] != o[2]);
                                assert(mm.owns(o[0], edge) && mm.owns(o[1], edge) && mm.owns(o[2], edge));
                            }
                            assert((o[0] == t1 && o[1] == t2) || (o[0] == t2 && o[1] == t1));
                        }
                        assert(inside == inner_edge(mm, rem, edge));
                    }
                    if inside {
                        // the edge now lies inside the cavity
                        match edge_position(&cavity_edges, edge) {
                            Some(pos) => {
                                let ghost before = cavity_edges@;
                                cavity_edges.remove(pos);
                                assert forall|a: int, b: int|
                                    0 <= a < b < cavity_edges@.len() implies cavity_edges@[a]
                                    != cavity_edges@[b] by {
                                    let a0 = if a < pos { a } else { a + 1 };
                                    let b0 = if b < pos { b } else { b + 1 };
                                    assert(cavity_edges@[a] == before[a0]);
                                    assert(cavity_edges@[b] == before[b0]);
                                }
                                assert forall|i: int| 0 <= i < cavity_edges@.len() implies spans(
                                    self.triangles@,
                                    #[trigger] cavity_edges@[i],
                                ) by {
                                    let i0 = if i < pos { i } else { i + 1 };
                                    assert(cavity_edges@[i] == before[i0]);
                                }
                            },
                            None => {},
                        }
                    } else if edge_position(&cavity_edges, edge).is_none() {
                        cavity_edges.push(edge);
                    }
                    proof {
                        broadcast use vstd::seq_lib::lemma_seq_contains_after_push;

                        assert(edges@.take(k + 1) =~= edges@.take(k as int).push(edge));
                        if inside {
                            assert(!cavity_edges@.contains(edge));
                            assert forall|e: Edge| e != edge implies (cavity_edges@.contains(e) <==> cav_k.contains(e)) by {
                                if cav_k.contains(e) {
                                    let i = choose|i: int| 0 <= i < cav_k.len() && cav_k[i] == e;
                                    if cavity_edges@.len() < cav_k.len() {
                                        let pos = choose|pos: int| 0 <= pos < cav_k.len() && cav_k[pos] == edge;
                                        assert(i != pos);
                                        let i1 = if i < pos { i } else { i - 1 };
                                        assert(cavity_edges@[i1] == e);
                                    } else {
                                        assert(cavity_edges@[i] == e);
                                    }
                                }
                                if cavity_edges@.contains(e) {
                                    let i = choose|i: int| 0 <= i < cavity_edges@.len() && cavity_edges@[i] == e;
                                    if cavity_edges@.len() < cav_k.len() {
                                        let pos = choose|pos: int| 0 <= pos < cav_k.len() && cav_k[pos] == edge;
                                        let i0 = if i < pos { i } else { i + 1 };
                                        assert(cav_k[i0] == e);
                                    }
                                }
                            }
                        } else {
                            assert(cavity_edges@.contains(edge));
                            assert forall|e: Edge| e != edge implies (cavity_edges@.contains(e) <==> cav_k.contains(e)) by {
                                if cav_k.contains(e) {
                                    let i = choose|i: int| 0 <= i < cav_k.len() && cav_k[i] == e;
                                    assert(cavity_edges@[i] == e);
                                }
                            }
                        }
                    }
                    proof {
                        let mm = self.tri_edge_mapping;
                        let rem = triangles_to_remove@;
                        assert(inside == inner_edge(mm, rem, edge));
                        assert forall|e: Edge| edges@.take(k + 1).contains(e) implies (
                        #[trigger] cavity_edges@.contains(e) <==> !inner_edge(mm, rem, e)) by {
                            if e != edge {
                                assert(edges@.take(k as int).contains(e));
                                assert(cav_k.contains(e) <==> !inner_edge(mm, rem, e));
                            }
                        }
                        assert forall|e: Edge| !edges@.take(k + 1).contains(e) implies (
                        #[trigger] cavity_edges@.contains(e) <==> cavity_before.contains(e)) by {
                            assert(edges@.take(k + 1)[k as int] == edge);
                            assert(e != edge);
                            if edges@.take(k as int).contains(e) {
                                let j = choose|j: int| 0 <= j < k && edges@.take(k as int)[j] == e;
                                assert(edges@.take(k + 1)[j] == e);
                            }
                            assert(cav_k.contains(e) <==> cavity_before.contains(e));
                        }
                    }
                    k = k + 1;
                }
                proof {
                    assert(edges@.take(3) =~= edges@);
                    let mm = self.tri_edge_mapping;
                    let rem = triangles_to_remove@;
                    assert forall|e: Edge| #[trigger] cavity_edges@.contains(e) <==> region_boundary(mm, rem, e) by {
                        if edges@.contains(e) {
                            assert(mm.owns(triangle_to_check, e));
                            assert(rem[rem.len() - 1] == triangle_to_check);
                            assert(edge_of_slots(mm, rem, e));
                        } else {
                            assert(!t_tri.has_edge(e));
                            assert(!mm.owns(triangle_to_check, e));
                            if edge_of_slots(mm, rem, e) {
                                let i = choose|i: int| 0 <= i < rem.len() && #[trigger] mm.owns(rem[i], e);
                                assert(i < remove_before.len());
                                assert(remove_before[i] == rem[i]);
                            }
                            if edge_of_slots(mm, remove_before, e) {
                                let i = choose|i: int| 0 <= i < remove_before.len() && #[trigger] mm.owns(remove_before[i], e);
                                assert(rem[i] == remove_before[i]);
                            }
                            if inner_edge(mm, rem, e) {
                                let (t1, t2) = choose|t1: usize, t2: usize|
                                    #![trigger mm.owns(t1, e), mm.owns(t2, e)]
                                    t1 != t2 && rem.contains(t1) && rem.contains(t2) && mm.owns(t1, e)
                                        && mm.owns(t2, e);
                                assert(t1 != triangle_to_check && t2 != triangle_to_check);
                                assert(remove_before.contains(t1) && remove_before.contains(t2));
                            }
                            if inner_edge(mm, remove_before, e) {
                                let (t1, t2) = choose|t1: usize, t2: usize|
                                    #![trigger mm.owns(t1, e), mm.owns(t2, e)]
                                    t1 != t2 && remove_before.contains(t1) && remove_before.contains(t2) && mm.owns(t1, e)
                                        && mm.owns(t2, e);
                                assert(rem.contains(t1) && rem.contains(t2));
                            }
                        }
                    }
                }
                // the cavity grows from every triangle found to be bad
                let neighbours = self.tri_edge_mapping.neighbouring_triangles(triangle_to_check);
                let ghost check_mid = triangles_to_check@;
                let mut m: usize = 0;
                while m < neighbours.len()
                    invariant
                        m <= neighbours@.len(),
                        forall|x: usize| #[trigger] check_mid.contains(x) ==> triangles_to_check@.contains(x),
                        forall|j: int|
                            0 <= j < m ==> triangles_to_remove@.contains(#[trigger] neighbours@[j])
                                || triangles_to_check@.contains(neighbours@[j]),
                        forall|i: int|
                            0 <= i < neighbours@.len() ==> self.tri_edge_mapping@.contains_key(
                                #[trigger] neighbours@[i],
                            ),
                        triangles_to_check@.no_duplicates(),
                        forall|i: int|
                            0 <= i < triangles_to_check@.len() ==> self.tri_edge_mapping@.contains_key(
                                #[trigger] triangles_to_check@[i],
                            ) && !triangles_to_remove@.contains(triangles_to_check@[i]),
                    decreases neighbours.len() - m,
                {
                    let tri_idx = neighbours[m];
                    let ghost tc = triangles_to_check@;
                    if !index_list_contains(&triangles_to_remove, tri_idx) && !index_list_contains(
                        &triangles_to_check,
                        tri_idx,
                    ) {
                        triangles_to_check.push(tri_idx);
                    }
                    proof {
                        broadcast use vstd::seq_lib::lemma_seq_contains_after_push;

                        assert forall|x: usize| #[trigger] tc.contains(x) implies triangles_to_check@.contains(x) by {}
                    }
                    m = m + 1;
                }
                proof {
                    let mm = self.tri_edge_mapping;
                    let rem = triangles_to_remove@;
                    assert forall|i: int, u: usize|
                        0 <= i < rem.len() && #[trigger] mm.adjacent(rem[i], u) && u != rem[i] && !rem.contains(u)
                            implies triangles_to_check@.contains(u) || inside_circle.ensures(
                            (self.triangles@[u as int], point_idx),
                            false,
                        ) by {
                        if i == rem.len() - 1 {
                            assert(neighbours@.contains(u));
                            let j = choose|j: int| 0 <= j < neighbours@.len() && neighbours@[j] == u;
                            assert(triangles_to_remove@.contains(neighbours@[j]) || triangles_to_check@.contains(neighbours@[j]));
                        } else {
                            assert(rem[i] == remove_before[i]);
                            assert(!remove_before.contains(u));
                            if check_before.contains(u) {
                                assert(u != triangle_to_check);
                                assert(check_mid.contains(u));
                            }
                        }
                    }
                }
            }
            proof {
                assert forall|i: int| 0 <= i < triangles_to_remove@.len() implies #[trigger] triangles_to_remove@[i] < n by {
                    assert(self.tri_edge_mapping@.contains_key(triangles_to_remove@[i]));
                }
                lemma_distinct_indices(triangles_to_remove@, n as int);
            }
        }
        proof {
            assert forall|x: usize| !triangles_to_check@.contains(x) by {}
        }
        (triangles_to_remove, cavity_edges)
    }
}

impl DelaunayIncremental {
    /// Checks that the cavity is a disk (two more boundary edges than removed
    /// triangles, every corner of a removed triangle on the boundary) and, if
    /// so, replaces the removed slots with one triangle from the new point to
    /// each boundary edge: the removed slots are refilled first, in their order,
    /// with the edges taken from the back of `new_edges`; the remaining
    /// edges are appended as new slots. Returns the slots that now hold the
    /// new triangles.
    pub fn fill_cavity(
        &mut self,
        point_idx: usize,
        triangles_to_remove: &Vec<usize>,
        new_edges: Vec<Edge>,
    ) -> (r: Result<Vec<usize>, TriangulatorError>)
        requires
            old(self).wf(),
            triangles_to_remove@.no_duplicates(),
            forall|i: int|
                0 <= i < triangles_to_remove@.len() ==> old(self).tri_edge_mapping@.contains_key(
                    #[trigger] triangles_to_remove@[i],
                ),
        ensures
            final(self).wf(),
            final(self).points_to_add == old(self).points_to_add,
            final(self).triangles@.len() >= old(self).triangles@.len(),
            !(new_edges@.len() == triangles_to_remove@.len() + 2 && corners_on(
                old(self).triangles@,
                triangles_to_remove@,
                new_edges@,
            )) ==> r == Err::<Vec<usize>, TriangulatorError>(TriangulatorError::InconsistentMesh)
                && final(self).triangles == old(self).triangles && final(self).tri_edge_mapping@
                == old(self).tri_edge_mapping@,
            new_edges@.len() == triangles_to_remove@.len() + 2 && corners_on(
                old(self).triangles@,
                triangles_to_remove@,
                new_edges@,
            ) ==> (r is Ok <==> cones_fit(
                old(self).tri_edge_mapping@.remove_keys(triangles_to_remove@.to_set()),
                cone_slots(triangles_to_remove@, old(self).triangles@.len() as usize),
                cones(point_idx, new_edges@),
            )),
            r is Ok ==> new_edges@.len() == triangles_to_remove@.len() + 2 && corners_on(
                old(self).triangles@,
                triangles_to_remove@,
                new_edges@,
            ),
            r is Err ==> r == Err::<Vec<usize>, TriangulatorError>(
                TriangulatorError::InconsistentMesh,
            ),
            r matches Ok(changed) ==> {
                let nr = triangles_to_remove@.len();
                let nc = new_edges@.len();
                &&& final(self).triangles@.len() == old(self).triangles@.len() + nc - nr
                &&& changed@.len() == nc
                &&& forall|i: int|
                    0 <= i < nr ==> #[trigger] changed@[i] == triangles_to_remove@[i]
                        && final(self).triangles@[changed@[i] as int] == cone(
                        point_idx,
                        new_edges@[nc - 1 - i],
                    )
                &&& forall|i: int|
                    nr <= i < nc ==> #[trigger] changed@[i] == old(self).triangles@.len() + i - nr
                        && final(self).triangles@[changed@[i] as int] == cone(
                        point_idx,
                        new_edges@[nc - 1 - i],
                    )
                &&& forall|t: int|
                    0 <= t < old(self).triangles@.len() && !triangles_to_remove@.contains(t as usize)
                        ==> #[trigger] final(self).triangles@[t] == old(self).triangles@[t]
                &&& old(self).complete() ==> final(self).complete()
            },
    {
        // a cavity is a disk: two more boundary edges than triangles, with
        // every corner on the boundary
        if new_edges.len() < 2 || new_edges.len() - 2 != triangles_to_remove.len() {
            return Err(TriangulatorError::InconsistentMesh);
        }
        proof {
            assert forall|k: int|
                0 <= k < triangles_to_remove@.len() implies #[trigger] triangles_to_remove@[k]
                    < self.triangles@.len() by {
                assert(self.tri_edge_mapping@.contains_key(triangles_to_remove@[k]));
            }
        }
        if !self.corners_on_boundary(triangles_to_remove, &new_edges) {
            return Err(TriangulatorError::InconsistentMesh);
        }
        let ghost nr = triangles_to_remove@.len();
        let ghost nc = new_edges@.len();
        let ghost n0 = self.triangles@.len();
        let ghost edges0 = new_edges@;
        let mut cavity_edges = new_edges;

        // remove old triangles
        let mut i: usize = 0;
        while i < triangles_to_remove.len()
            invariant
                self.wf(),
                self.points_to_add == old(self).points_to_add,
                self.triangles == old(self).triangles,
                i <= triangles_to_remove@.len(),
                self.tri_edge_mapping@ == old(self).tri_edge_mapping@.remove_keys(
                    triangles_to_remove@.take(i as int).to_set(),
                ),
                triangles_to_remove@.no_duplicates(),
                forall|j: int|
                    i <= j < triangles_to_remove@.len() ==> self.tri_edge_mapping@.contains_key(
                        #[trigger] triangles_to_remove@[j],
                    ),
                forall|j: int|
                    0 <= j < i ==> !self.tri_edge_mapping@.contains_key(
                        #[trigger] triangles_to_remove@[j],
                    ),
                old(self).complete() ==> forall|t: usize|
                    t < self.triangles@.len() ==> #[trigger] self.tri_edge_mapping@.contains_key(t)
                        || exists|j: int| 0 <= j < i && triangles_to_remove@[j] == t,
            decreases triangles_to_remove.len() - i,
        {
            let t = triangles_to_remove[i];
            self.tri_edge_mapping.remove_triangle(t);
            proof {
                let tk = triangles_to_remove@.take(i as int);
                assert(triangles_to_remove@.take(i + 1) =~= tk.push(t));
                tk.lemma_push_to_set_commute(t);
                assert(self.tri_edge_mapping@ =~= old(self).tri_edge_mapping@.remove_keys(
                    triangles_to_remove@.take(i + 1).to_set(),
                ));
                assert forall|j: int|
                    i + 1 <= j < triangles_to_remove@.len() implies self.tri_edge_mapping@.contains_key(
                    #[trigger] triangles_to_remove@[j],
                ) by {
                    assert(triangles_to_remove@[j] != triangles_to_remove@[i as int]);
                }
                if old(self).complete() {
                    assert forall|u: usize| u < self.triangles@.len() implies #[trigger] self.tri_edge_mapping@.contains_key(u)
                        || exists|j: int| 0 <= j < i + 1 && triangles_to_remove@[j] == u by {
                        if u == t {
                            assert(triangles_to_remove@[i as int] == u);
                        }
                    }
                }
            }
            i = i + 1;
        }

        // refill the removed slots
        let ghost m_rest = self.tri_edge_mapping@;
        let ghost slots_all = cone_slots(triangles_to_remove@, n0 as usize);
        let ghost cones_all = cones(point_idx, edges0);
        proof {
            assert(triangles_to_remove@.take(nr as int) =~= triangles_to_remove@);
            assert(slots_all.skip(0) =~= slots_all);
            assert(cones_all.skip(0) =~= cones_all);
        }
        let mut changed: Vec<usize> = Vec::new();
        let mut i: usize = 0;
        while i < triangles_to_remove.len()
            invariant
                self.wf(),
                self.points_to_add == old(self).points_to_add,
                self.triangles@.len() == n0,
                nr == triangles_to_remove@.len(),
                nr <= nc,
                nc == nr + 2,
                corners_on(old(self).triangles@, triangles_to_remove@, new_edges@),
                nc == edges0.len(),
                edges0 == new_edges@,
                n0 == old(self).triangles@.len(),
                i <= nr,
                m_rest == old(self).tri_edge_mapping@.remove_keys(triangles_to_remove@.to_set()),
                slots_all == cone_slots(triangles_to_remove@, n0 as usize),
                cones_all == cones(point_idx, edges0),
                cones_fit(m_rest, slots_all, cones_all) == cones_fit(
                    self.tri_edge_mapping@,
                    slots_all.skip(i as int),
                    cones_all.skip(i as int),
                ),
                cavity_edges@ == edges0.take(nc - i),
                triangles_to_remove@.no_duplicates(),
                forall|j: int|
                    0 <= j < triangles_to_remove@.len() ==> #[trigger] triangles_to_remove@[j] < n0,
                forall|j: int|
                    i <= j < triangles_to_remove@.len() ==> !self.tri_edge_mapping@.contains_key(
                        #[trigger] triangles_to_remove@[j],
                    ),
                changed@ == triangles_to_remove@.take(i as int),
                forall|j: int|
                    0 <= j < i ==> self.triangles@[#[trigger] triangles_to_remove@[j] as int] == cone(
                        point_idx,
                        edges0[nc - 1 - j],
                    ),
                forall|t: int|
                    0 <= t < n0 && !triangles_to_remove@.contains(t as usize)
                        ==> #[trigger] self.triangles@[t] == old(self).triangles@[t],
                old(self).complete() ==> forall|t: usize|
                    t < self.triangles@.len() ==> #[trigger] self.tri_edge_mapping@.contains_key(t)
                        || exists|j: int| i <= j < nr && triangles_to_remove@[j] == t,
            decreases triangles_to_remove.len() - i,
        {
            let t = triangles_to_remove[i];
            let cavity_edge = cavity_edges.pop().unwrap();
            let new_tri = Triangle::new(point_idx, cavity_edge.index_0, cavity_edge.index_1);
            self.triangles.set(t, new_tri);
            proof {
                self.tri_edge_mapping.lemma_can_take_view(new_tri);
                assert(cavity_edge == edges0[nc - 1 - i]);
                assert(slots_all.skip(i as int)[0] == t);
                assert(cones_all.skip(i as int)[0] == new_tri);
                assert(slots_all.skip(i as int).skip(1) =~= slots_all.skip(i + 1));
                assert(cones_all.skip(i as int).skip(1) =~= cones_all.skip(i + 1));
            }
            if !self.register(t) {
                return Err(TriangulatorError::InconsistentMesh);
            }
            changed.push(t);
            proof {
                assert(changed@ =~= triangles_to_remove@.take(i + 1));
                assert(cavity_edges@ =~= edges0.take(nc - (i + 1)));
                assert forall|j: int|
                    i + 1 <= j < triangles_to_remove@.len() implies !self.tri_edge_mapping@.contains_key(
                    #[trigger] triangles_to_remove@[j],
                ) by {
                    assert(triangles_to_remove@[j] != triangles_to_remove@[i as int]);
                }
                assert forall|j: int|
                    0 <= j < i + 1 implies self.triangles@[#[trigger] triangles_to_remove@[j] as int] == cone(
                        point_idx,
                        edges0[nc - 1 - j],
                    ) by {
                    if j < i {
                        assert(triangles_to_remove@[j] != triangles_to_remove@[i as int]);
                    }
                }
                assert forall|u: int|
                    0 <= u < n0 && !triangles_to_remove@.contains(u as usize)
                        implies #[trigger] self.triangles@[u] == old(self).triangles@[u] by {
                    assert(triangles_to_remove@[i as int] == t);
                }
                if old(self).complete() {
                    assert forall|u: usize| u < self.triangles@.len() implies #[trigger] self.tri_edge_mapping@.contains_key(u)
                        || exists|j: int| i + 1 <= j < nr && triangles_to_remove@[j] == u by {
                        if !self.tri_edge_mapping@.contains_key(u) {
                            let j = choose|j: int| i <= j < nr && triangles_to_remove@[j] == u;
                            assert(j != i);
                        }
                    }
                }
            }
            i = i + 1;
        }

        // append any remaining new triangles
        while cavity_edges.len() > 0
            invariant
                self.wf(),
                self.points_to_add == old(self).points_to_add,
                nr == triangles_to_remove@.len(),
                nr <= nc,
                nc == nr + 2,
                corners_on(old(self).triangles@, triangles_to_remove@, new_edges@),
                nc == edges0.len(),
                edges0 == new_edges@,
                n0 == old(self).triangles@.len(),
                cavity_edges@.len() <= nc - nr,
                cavity_edges@ == edges0.take(cavity_edges@.len() as int),
                m_rest == old(self).tri_edge_mapping@.remove_keys(triangles_to_remove@.to_set()),
                slots_all == cone_slots(triangles_to_remove@, n0 as usize),
                cones_all == cones(point_idx, edges0),
                cones_fit(m_rest, slots_all, cones_all) == cones_fit(
                    self.tri_edge_mapping@,
                    slots_all.skip(changed@.len() as int),
                    cones_all.skip(changed@.len() as int),
                ),
                self.triangles@.len() == n0 + (nc - nr) - cavity_edges@.len(),
                changed@.len() == self.triangles@.len() - n0 + nr,
                forall|j: int| 0 <= j < nr ==> #[trigger] changed@[j] == triangles_to_remove@[j],
                forall|j: int|
                    nr <= j < changed@.len() ==> #[trigger] changed@[j] == n0 + j - nr,
                forall|j: int|
                    0 <= j < changed@.len() ==> self.triangles@[#[trigger] changed@[j] as int] == cone(
                        point_idx,
                        edges0[nc - 1 - j],
                    ),
                forall|j: int| 0 <= j < nr ==> #[trigger] triangles_to_remove@[j] < n0,
                forall|t: int|
                    0 <= t < n0 && !triangles_to_remove@.contains(t as usize)
                        ==> #[trigger] self.triangles@[t] == old(self).triangles@[t],
                old(self).complete() ==> self.complete(),
            decreases cavity_edges@.len(),
        {
            let cavity_edge = cavity_edges.pop().unwrap();
            let new_tri = Triangle::new(point_idx, cavity_edge.index_0, cavity_edge.index_1);
            let ghost before = self.triangles@;
            self.triangles.push(new_tri);
            let tri_idx = self.triangles.len() - 1;
            proof {
                let k = changed@.len() as int;
                self.tri_edge_mapping.lemma_can_take_view(new_tri);
                assert(cavity_edge == edges0[nc - 1 - k]);
                assert(slots_all[k] == tri_idx);
                assert(slots_all.skip(k)[0] == tri_idx);
                assert(cones_all.skip(k)[0] == new_tri);
                assert(slots_all.skip(k).skip(1) =~= slots_all.skip(k + 1));
                assert(cones_all.skip(k).skip(1) =~= cones_all.skip(k + 1));
            }
            if !self.register(tri_idx) {
                return Err(TriangulatorError::InconsistentMesh);
            }
            changed.push(tri_idx);
            proof {
                assert(cavity_edges@ =~= edges0.take(cavity_edges@.len() as int));
                assert forall|j: int|
                    0 <= j < changed@.len() implies self.triangles@[#[trigger] changed@[j] as int] == cone(
                        point_idx,
                        edges0[nc - 1 - j],
                    ) by {
                    if j < changed@.len() - 1 {
                        assert(changed@[j] < tri_idx);
                        assert(self.triangles@[changed@[j] as int] == before[changed@[j] as int]);
                    }
                }
            }
        }
        proof {
            assert(slots_all.skip(nc as int).len() == 0);
        }
        Ok(changed)
    }

    /// Whether every corner of every triangle about to be removed is an end of
    /// a boundary edge, so that the new triangles keep it.
    fn corners_on_boundary(&self, triangles_to_remove: &Vec<usize>, cavity_edges: &Vec<Edge>) -> (r: bool)
        requires
            forall|k: int|
                0 <= k < triangles_to_remove@.len() ==> #[trigger] triangles_to_remove@[k]
                    < self.triangles@.len(),
        ensures
            r == corners_on(self.triangles@, triangles_to_remove@, cavity_edges@),
    {
        let mut k: usize = 0;
        while k < triangles_to_remove.len()
            invariant
                k <= triangles_to_remove@.len(),
                forall|k: int|
                    0 <= k < triangles_to_remove@.len() ==> #[trigger] triangles_to_remove@[k]
                        < self.triangles@.len(),
                forall|j: int|
                    0 <= j < k ==> {
                        let tri = #[trigger] self.triangles@[triangles_to_remove@[j] as int];
                        touches(cavity_edges@, tri.index0) && touches(cavity_edges@, tri.index1)
                            && touches(cavity_edges@, tri.index2)
                    },
            decreases triangles_to_remove.len() - k,
        {
            let tri = self.triangles[triangles_to_remove[k]];
            if !(touches_exec(cavity_edges, tri.index0) && touches_exec(cavity_edges, tri.index1)
                && touches_exec(cavity_edges, tri.index2)) {
                return false;
            }
            k = k + 1;
        }
        true
    }

    /// Inserts one point: finds the triangle that holds it, removes it and
    /// every triangle reached from it through neighbours whose circle holds
    /// the point, fills the cavity
    /// with triangles to the new point and legalizes them. A point outside the
    /// circle of the triangle it was located in is refused (there is no
    /// cavity to place it in), and so is a cavity that is not a disk with
    /// every corner on its boundary; a successful step adds two triangles and
    /// keeps every corner.
    pub fn add_point<FT: Fn(Triangle, usize) -> bool, FC: Fn(Triangle, usize) -> bool>(
        &mut self,
        point_idx: usize,
        inside_triangle: &FT,
        inside_circle: &FC,
    ) -> (r: Result<(), TriangulatorError>)
        requires
            old(self).wf(),
            total_test(inside_triangle),
            total_test(inside_circle),
        ensures
            final(self).wf(),
            final(self).points_to_add == old(self).points_to_add,
            final(self).triangles@.len() >= old(self).triangles@.len(),
            old(self).triangles@.len() == 0 ==> r == Err::<(), TriangulatorError>(
                TriangulatorError::PointOutsideOfHull,
            ),
            r is Err ==> r == Err::<(), TriangulatorError>(TriangulatorError::InconsistentMesh) || r
                == Err::<(), TriangulatorError>(TriangulatorError::PointOutsideOfHull),
            r is Ok && old(self).complete() ==> final(self).complete(),
            r is Ok ==> final(self).triangles@.len() == old(self).triangles@.len() + 2,
            r is Ok ==> uses_vertex(final(self).triangles@, point_idx),
            r is Ok ==> forall|v: usize|
                uses_vertex(old(self).triangles@, v) ==> uses_vertex(final(self).triangles@, v),
            r is Ok ==> forall|v: usize|
                uses_vertex(final(self).triangles@, v) ==> uses_vertex(old(self).triangles@, v) || v
                    == point_idx,
            r == Err::<(), TriangulatorError>(TriangulatorError::PointOutsideOfHull) ==> final(self).triangles@
                == old(self).triangles@ && (old(self).triangles@.len() == 0 || exists|c: int|
                #[trigger] located(inside_triangle, old(self).triangles@, point_idx, c)
                    && inside_circle.ensures((old(self).triangles@[c], point_idx), false)),
            r == Err::<(), TriangulatorError>(TriangulatorError::InconsistentMesh) ==> !old(
                self,
            ).complete() || exists|c: int|
                #[trigger] located(inside_triangle, old(self).triangles@, point_idx, c)
                    && inside_circle.ensures((old(self).triangles@[c], point_idx), true),
            r == Err::<(), TriangulatorError>(TriangulatorError::InconsistentMesh) ==> !old(
                self,
            ).complete() || exists|c: int, rem: Seq<usize>, edges: Seq<Edge>|
                #[trigger] is_cavity(
                    inside_circle,
                    old(self).tri_edge_mapping,
                    old(self).triangles@,
                    point_idx,
                    c,
                    rem,
                    edges,
                ) && located(inside_triangle, old(self).triangles@, point_idx, c) && (!(edges.len()
                    == rem.len() + 2 && corners_on(old(self).triangles@, rem, edges)) || !cones_fit(
                    old(self).tri_edge_mapping@.remove_keys(rem.to_set()),
                    cone_slots(rem, old(self).triangles@.len() as usize),
                    cones(point_idx, edges),
                ) || flip_asked(inside_circle)),
    {
        if self.triangles.len() == 0 {
            return Err(TriangulatorError::PointOutsideOfHull);
        }
        let containing_triangle_idx = self.locate(point_idx, inside_triangle);
        if !self.tri_edge_mapping.is_registered(containing_triangle_idx) {
            return Err(TriangulatorError::InconsistentMesh);
        }
        let (triangles_to_remove, cavity_edges) = self.find_cavity(
            containing_triangle_idx,
            point_idx,
            inside_circle,
        );
        proof {
            let c = containing_triangle_idx as int;
            assert(located(inside_triangle, self.triangles@, point_idx, c));
            if triangles_to_remove@.len() > 0 {
                assert(inside_circle.ensures((self.triangles@[triangles_to_remove@[0] as int], point_idx), true));
            }
        }
        proof {
            assert forall|k: int|
                0 <= k < triangles_to_remove@.len() implies #[trigger] triangles_to_remove@[k]
                    < self.triangles@.len() by {
                assert(self.tri_edge_mapping@.contains_key(triangles_to_remove@[k]));
            }
        }
        if triangles_to_remove.len() == 0 {
            // no circle holds the point, so there is no cavity to place it in
            return Err(TriangulatorError::PointOutsideOfHull);
        }
        let ghost before = self.triangles@;
        let ghost boundary = cavity_edges@;
        let ghost cavity_found = is_cavity(
            inside_circle,
            self.tri_edge_mapping,
            self.triangles@,
            point_idx,
            containing_triangle_idx as int,
            triangles_to_remove@,
            cavity_edges@,
        );
        proof {
            assert(cavity_found);
        }
        let changed_triangles = match self.fill_cavity(point_idx, &triangles_to_remove, cavity_edges) {
            Ok(changed) => changed,
            Err(e) => {
                return Err(e);
            },
        };
        let ghost refilled = self.triangles@;
        proof {
            let slot = changed_triangles@[0] as int;
            assert(refilled[slot] == cone(point_idx, boundary[boundary.len() - 1]));
            assert(refilled[slot].has_vertex(point_idx));
            let nr = triangles_to_remove@.len();
            let nc = boundary.len();
            assert forall|v: usize| uses_vertex(before, v) implies uses_vertex(refilled, v) by {
                let t = choose|t: int| 0 <= t < before.len() && #[trigger] before[t].has_vertex(v);
                if triangles_to_remove@.contains(t as usize) {
                    let k = choose|k: int| 0 <= k < nr && triangles_to_remove@[k] == t as usize;
                    assert(touches(boundary, v)) by {
                        let tri = before[triangles_to_remove@[k] as int];
                        assert(touches(boundary, tri.index0) && touches(boundary, tri.index1)
                            && touches(boundary, tri.index2));
                    }
                    let m = choose|m: int|
                        0 <= m < boundary.len() && ((#[trigger] boundary[m]).index_0 == v
                            || boundary[m].index_1 == v);
                    let i = nc - 1 - m;
                    assert(0 <= i < changed_triangles@.len());
                    assert(nc - 1 - i == m);
                    assert(refilled[changed_triangles@[i] as int] == cone(point_idx, boundary[m]));
                    assert(refilled[changed_triangles@[i] as int].has_vertex(v));
                } else {
                    assert(refilled[t] == before[t]);
                }
            }
            assert forall|v: usize| uses_vertex(refilled, v) implies uses_vertex(before, v) || v
                == point_idx by {
                let t = choose|t: int| 0 <= t < refilled.len() && #[trigger] refilled[t].has_vertex(v);
                let i = if t < before.len() && triangles_to_remove@.contains(t as usize) {
                    choose|k: int| 0 <= k < nr && triangles_to_remove@[k] == t as usize
                } else {
                    t - before.len() + nr
                };
                if t < before.len() && !triangles_to_remove@.contains(t as usize) {
                    assert(refilled[t] == before[t]);
                } else {
                    assert(changed_triangles@[i] == t);
                    let e = boundary[nc - 1 - i];
                    assert(refilled[t] == cone(point_idx, e));
                    assert(spans(before, e));
                }
            }
        }
        match self.flip_pairs(changed_triangles, inside_circle) {
            Ok(_) => Ok(()),
            Err(e) => {
                proof {
                    assert(is_cavity(
                        inside_circle,
                        old(self).tri_edge_mapping,
                        old(self).triangles@,
                        point_idx,
                        containing_triangle_idx as int,
                        triangles_to_remove@,
                        boundary,
                    ));
                }
                Err(e)
            },
        }
    }

    /// Inserts the last of the points still waiting, if there is one, and
    /// reports whether there was.
    pub fn do_step<FT: Fn(Triangle, usize) -> bool, FC: Fn(Triangle, usize) -> bool>(
        &mut self,
        inside_triangle: &FT,
        inside_circle: &FC,
    ) -> (r: Result<bool, TriangulatorError>)
        requires
            old(self).wf(),
            total_test(inside_triangle),
            total_test(inside_circle),
        ensures
            final(self).wf(),
            old(self).points_to_add@.len() == 0 ==> r == Ok::<bool, TriangulatorError>(false)
                && final(self).triangles == old(self).triangles && final(self).points_to_add@
                == old(self).points_to_add@,
            old(self).points_to_add@.len() > 0 && r is Ok ==> final(self).points_to_add@
                == old(self).points_to_add@.drop_last() && r == Ok::<bool, TriangulatorError>(true),
            r is Err ==> final(self).triangles@ == old(self).triangles@,
            r is Err ==> final(self).tri_edge_mapping@ == old(self).tri_edge_mapping@,
            r is Err ==> final(self).points_to_add@ == old(self).points_to_add@,
            final(self).triangles@.len() >= old(self).triangles@.len(),
            r is Ok && old(self).complete() ==> final(self).complete(),
            r is Err ==> r == Err::<bool, TriangulatorError>(TriangulatorError::InconsistentMesh)
                || r == Err::<bool, TriangulatorError>(TriangulatorError::PointOutsideOfHull),
            r is Ok && old(self).points_to_add@.len() > 0 ==> uses_vertex(
                final(self).triangles@,
                old(self).points_to_add@.last(),
            ) && final(self).triangles@.len() == old(self).triangles@.len() + 2,
            r is Ok ==> forall|v: usize|
                uses_vertex(old(self).triangles@, v) ==> uses_vertex(final(self).triangles@, v),
            r is Ok ==> forall|v: usize|
                uses_vertex(final(self).triangles@, v) ==> uses_vertex(old(self).triangles@, v) || (
                old(self).points_to_add@.len() > 0 && v == old(self).points_to_add@.last()),
            r == Err::<bool, TriangulatorError>(TriangulatorError::PointOutsideOfHull) ==> old(
                self,
            ).points_to_add@.len() > 0 && final(self).triangles@ == old(self).triangles@ && (old(
                self,
            ).triangles@.len() == 0 || exists|c: int|
                #[trigger] located(
                    inside_triangle,
                    old(self).triangles@,
                    old(self).points_to_add@.last(),
                    c,
                ) && inside_circle.ensures(
                    (old(self).triangles@[c], old(self).points_to_add@.last()),
                    false,
                )),
            r == Err::<bool, TriangulatorError>(TriangulatorError::InconsistentMesh) ==> old(
                self,
            ).points_to_add@.len() > 0 && (!old(self).complete() || exists|c: int|
                #[trigger] located(
                    inside_triangle,
                    old(self).triangles@,
                    old(self).points_to_add@.last(),
                    c,
                ) && inside_circle.ensures(
                    (old(self).triangles@[c], old(self).points_to_add@.last()),
                    true,
                )),
    {
        match self.points_to_add.pop() {
            Some(point_idx) => {
                proof {
                    assert(point_idx == old(self).points_to_add@.last());
                    assert(self.tri_edge_mapping@ == old(self).tri_edge_mapping@);
                    assert(self.triangles@ == old(self).triangles@);
                    if old(self).complete() {
                        assert forall|t: usize| t < self.triangles@.len() implies #[trigger] self.tri_edge_mapping@.contains_key(t) by {
                            assert(old(self).tri_edge_mapping@.contains_key(t));
                        }
                    }
                    if self.complete() {
                        assert forall|t: usize| t < old(self).triangles@.len() implies #[trigger] old(self).tri_edge_mapping@.contains_key(t) by {
                            assert(self.tri_edge_mapping@.contains_key(t));
                        }
                    }
                }
                // kept aside, so that a failed step leaves everything as it was
                let saved_triangles = self.triangles.clone();
                let saved_mapping = self.tri_edge_mapping.duplicate();
                match self.add_point(point_idx, inside_triangle, inside_circle) {
                    Ok(()) => Ok(true),
                    Err(e) => {
                        self.triangles = saved_triangles;
                        self.tri_edge_mapping = saved_mapping;
                        self.points_to_add.push(point_idx);
                        proof {
                            assert(self.points_to_add@ =~= old(self).points_to_add@);
                            let m0 = old(self).tri_edge_mapping;
                            let m1 = self.tri_edge_mapping;
                            assert(m1@ == m0@);
                            assert forall|e: Edge, t1: usize, t2: usize, t3: usize|
                                m1.owns(t1, e) && m1.owns(t2, e) && m1.owns(t3, e) implies t1 == t2
                                || t2 == t3 || t1 == t3 by {
                                assert(m0.owns(t1, e) && m0.owns(t2, e) && m0.owns(t3, e));
                            }
                            assert forall|t: usize| #[trigger] m1@.contains_key(t) implies m1@[t].is_proper() by {
                                assert(m0@.contains_key(t));
                            }
                            assert forall|t: usize| #[trigger]
                                m1@.contains_key(t) implies t < self.triangles@.len()
                                && m1@[t] == self.triangles@[t as int] by {
                                assert(m0@.contains_key(t));
                            }
                        }
                        Err(e)
                    },
                }
            },
            None => Ok(false),
        }
    }

    /// Starts a triangulation from a hull polygon and the points inside it:
    /// fans the hull from its first vertex, registers every triangle and, when
    /// no point is left to insert, legalizes the whole fan at once.
    pub fn initial_triangulation<FC: Fn(Triangle, usize) -> bool>(
        &mut self,
        hull: &[usize],
        points_inside_hull: Vec<usize>,
        inside_circle: &FC,
    ) -> (r: Result<Vec<Triangle>, TriangulatorError>)
        requires
            total_test(inside_circle),
        ensures
            final(self).wf(),
            final(self).points_to_add@ == points_inside_hull@,
            final(self).triangles@.len() == fan(hull@).len(),
            r is Err ==> r == Err::<Vec<Triangle>, TriangulatorError>(
                TriangulatorError::InconsistentMesh,
            ),
            r matches Ok(tris) ==> {
                &&& tris@ == final(self).triangles@
                &&& final(self).complete()
                &&& points_inside_hull@.len() > 0 ==> tris@ == fan(hull@)
            },
            hull@.no_duplicates() && points_inside_hull@.len() > 0 ==> r is Ok,
            hull@.no_duplicates() && r is Err ==> flip_asked(inside_circle),
            r is Ok && hull@.len() >= 3 ==> forall|i: int|
                0 <= i < hull@.len() ==> uses_vertex(final(self).triangles@, #[trigger] hull@[i]),
            r is Ok ==> forall|v: usize| uses_vertex(final(self).triangles@, v) ==> hull@.contains(v),
    {
        self.points_to_add = points_inside_hull;
        self.triangles = generate_triangles_from_hull(hull);
        self.tri_edge_mapping = TriangleEdgeMapping::new();
        let mut i: usize = 0;
        while i < self.triangles.len()
            invariant
                self.wf(),
                self.points_to_add@ == points_inside_hull@,
                self.triangles@ == fan(hull@),
                i <= self.triangles@.len(),
                forall|t: usize| t < i ==> #[trigger] self.tri_edge_mapping@.contains_key(t),
                forall|t: usize| #[trigger] self.tri_edge_mapping@.contains_key(t) ==> t < i,
            decreases self.triangles.len() - i,
        {
            proof {
                if hull@.no_duplicates() {
                    let tris = self.triangles@;
                    let m = self.tri_edge_mapping;
                    assert(tris[i as int].is_proper()) by {
                        assert(hull@[0] != hull@[i + 1] && hull@[0] != hull@[i + 2]);
                        assert(hull@[i + 1] != hull@[i + 2]);
                    }
                    assert forall|e: Edge, t1: usize, t2: usize|
                        tris[i as int].has_edge(e) && m.owns(t1, e) && m.owns(t2, e) implies t1 == t2 by {
                        lemma_fan_shared_edge(hull@, i as int, t1 as int, e);
                        lemma_fan_shared_edge(hull@, i as int, t2 as int, e);
                    }
                }
            }
            if !self.register(i) {
                return Err(TriangulatorError::InconsistentMesh);
            }
            i = i + 1;
        }
        proof {
            let tris = self.triangles@;
            if hull@.len() >= 3 {
                assert forall|i: int| 0 <= i < hull@.len() implies uses_vertex(tris, #[trigger] hull@[i]) by {
                    if i == 0 {
                        assert(tris[0].has_vertex(hull@[0]));
                    } else if i <= hull@.len() - 2 {
                        assert(tris[i - 1].has_vertex(hull@[i]));
                    } else {
                        assert(tris[i - 2].has_vertex(hull@[i]));
                    }
                }
            }
        }
        let ghost fanned = self.triangles@;
        proof {
            assert forall|v: usize| uses_vertex(fanned, v) implies hull@.contains(v) by {
                let t = choose|t: int| 0 <= t < fanned.len() && #[trigger] fanned[t].has_vertex(v);
                assert(hull@[0] == fanned[t].index0 && hull@[t + 1] == fanned[t].index1 && hull@[t
                    + 2] == fanned[t].index2);
            }
        }
        if self.points_to_add.len() == 0 {
            let mut check_stack: Vec<usize> = Vec::new();
            let mut k: usize = 0;
            while k < self.triangles.len()
                decreases self.triangles.len() - k,
            {
                check_stack.push(k);
                k = k + 1;
            }
            match self.flip_pairs(check_stack, inside_circle) {
                Ok(_) => {},
                Err(e) => {
                    return Err(e);
                },
            }
            proof {
                assert forall|v: usize| uses_vertex(fanned, v) implies uses_vertex(self.triangles@, v) by {}
                assert forall|v: usize| uses_vertex(self.triangles@, v) implies hull@.contains(v) by {
                    assert(uses_vertex(fanned, v));
                }
            }
        }
        Ok(self.triangles.clone())
    }
}

/// Whether the corner of `b` that `a` lacks lies inside or on the circle
/// through `a`'s corners, as `inside_circle` judges it.
pub fn should_flip<FC: Fn(Triangle, usize) -> bool>(
    a: &Triangle,
    b: &Triangle,
    inside_circle: &FC,
) -> (r: bool)
    requires
        total_test(inside_circle),
    ensures
        r ==> share_one_edge(*a, *b),
        r ==> inside_circle.ensures((*a, apart_corner(*b, *a)), true),
        !r && share_one_edge(*a, *b) ==> inside_circle.ensures((*a, apart_corner(*b, *a)), false),
{
    match commonality(a, b) {
        Some(((_, point_b), _)) => inside_circle(*a, point_b),
        None => false,
    }
}

} // verus!
