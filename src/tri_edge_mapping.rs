use vstd::prelude::*;
use vstd::set_lib::lemma_len_subset;

use crate::triangle::{edge_between, Edge, Triangle};
use crate::util::index_list_contains;

verus! {

/// The index between triangle slots and their edges.
///
/// Each registered slot remembers the triangle it was registered with; the
/// owners of an edge are the registered slots whose triangle has that edge.
pub struct TriangleEdgeMapping {
    slots: Vec<Option<Triangle>>,
}

impl View for TriangleEdgeMapping {
    type V = Map<usize, Triangle>;

    closed spec fn view(&self) -> Map<usize, Triangle> {
        Map::new(
            |t: usize| t < self.slots@.len() && self.slots@[t as int] is Some,
            |t: usize| self.slots@[t as int]->Some_0,
        )
    }
}

/// The slot numbers below `n` form a finite set.
proof fn lemma_indices_below_finite(n: nat)
    requires
        n <= usize::MAX,
    ensures
        Set::new(|t: usize| t < n).finite(),
    decreases n,
{
    if n == 0 {
        assert(Set::new(|t: usize| t < n) =~= Set::<usize>::empty());
    } else {
        lemma_indices_below_finite((n - 1) as nat);
        assert(Set::new(|t: usize| t < n) =~= Set::new(|t: usize| t < (n - 1) as nat).insert(
            (n - 1) as usize,
        ));
    }
}

/// Registering `tri` beside the triangles of `m` leaves none of its edges with
/// a third owner: each edge of `tri` has at most one owner in `m`.
pub open spec fn takes(m: Map<usize, Triangle>, tri: Triangle) -> bool {
    forall|e: Edge, t1: usize, t2: usize|
        #![trigger m[t1].has_edge(e), m[t2].has_edge(e), tri.has_edge(e)]
        tri.has_edge(e) && m.contains_key(t1) && m[t1].has_edge(e) && m.contains_key(t2)
            && m[t2].has_edge(e) ==> t1 == t2
}

/// Whether `tri` has `e` among its three edges.
pub fn triangle_has_edge(tri: &Triangle, e: &Edge) -> (r: bool)
    ensures
        r == tri.has_edge(*e),
{
    Edge::new(tri.index0, tri.index1) == *e || Edge::new(tri.index1, tri.index2) == *e
        || Edge::new(tri.index2, tri.index0) == *e
}

impl TriangleEdgeMapping {
    /// Slot `t` is registered and its triangle has edge `e`.
    pub open spec fn owns(self, t: usize, e: Edge) -> bool {
        self@.contains_key(t) && self@[t].has_edge(e)
    }

    /// The registered slots that own edge `e`.
    pub open spec fn owners(self, e: Edge) -> Set<usize> {
        Set::new(|t: usize| self.owns(t, e))
    }

    /// The edges that at least one registered slot owns.
    pub open spec fn edge_set(self) -> Set<Edge> {
        Set::new(|e: Edge| exists|t: usize| self.owns(t, e))
    }

    /// Edge `e` lies on the boundary: exactly one registered slot owns it.
    pub open spec fn is_boundary(self, e: Edge) -> bool {
        exists|t: usize| #[trigger] self.owns(t, e) && forall|t2: usize| #[trigger] self.owns(t2, e) ==> t2 == t
    }

    /// Registered slot `u` shares an edge with registered slot `t`.
    pub open spec fn adjacent(self, t: usize, u: usize) -> bool {
        &&& self@.contains_key(t)
        &&& {
            let es = self@[t].edges();
            self.owns(u, es[0]) || self.owns(u, es[1]) || self.owns(u, es[2])
        }
    }

    /// Two indices with the same registrations have the same boundary.
    pub proof fn lemma_boundary_same_view(self, other: TriangleEdgeMapping, e: Edge)
        requires
            self@ == other@,
        ensures
            self.is_boundary(e) == other.is_boundary(e),
    {
        if self.is_boundary(e) {
            let t = choose|t: usize| #[trigger] self.owns(t, e) && forall|t2: usize| #[trigger] self.owns(t2, e) ==> t2 == t;
            assert(other.owns(t, e));
            assert forall|t2: usize| #[trigger] other.owns(t2, e) implies t2 == t by {
                assert(self.owns(t2, e));
            }
        }
        if other.is_boundary(e) {
            let t = choose|t: usize| #[trigger] other.owns(t, e) && forall|t2: usize| #[trigger] other.owns(t2, e) ==> t2 == t;
            assert(self.owns(t, e));
            assert forall|t2: usize| #[trigger] self.owns(t2, e) implies t2 == t by {
                assert(other.owns(t2, e));
            }
        }
    }

    /// Sharing an edge goes both ways.
    pub proof fn lemma_adjacent_symmetric(self, t: usize, u: usize)
        requires
            self.adjacent(t, u),
        ensures
            self.adjacent(u, t),
    {
        let es = self@[t].edges();
        let e = if self.owns(u, es[0]) {
            es[0]
        } else if self.owns(u, es[1]) {
            es[1]
        } else {
            es[2]
        };
        assert(self.owns(t, e));
        let f = self@[u].edges();
        assert(e == f[0] || e == f[1] || e == f[2]);
    }

    /// No edge has three different owners.
    pub open spec fn at_most_two_owners(self) -> bool {
        forall|e: Edge, t1: usize, t2: usize, t3: usize|
            #![trigger self.owns(t1, e), self.owns(t2, e), self.owns(t3, e)]
            self.owns(t1, e) && self.owns(t2, e) && self.owns(t3, e) ==> t1 == t2 || t2 == t3
                || t1 == t3
    }

    /// Well-formedness: finitely many slots, each registered triangle has three
    /// distinct corners, and no edge has more than two owners.
    pub open spec fn wf(self) -> bool {
        &&& self@.dom().finite()
        &&& forall|t: usize| #[trigger] self@.contains_key(t) ==> self@[t].is_proper()
        &&& self.at_most_two_owners()
    }

    /// Registering `tri` would leave every one of its edges with at most two owners.
    pub open spec fn can_take(self, tri: Triangle) -> bool {
        forall|e: Edge, t1: usize, t2: usize|
            #![trigger self.owns(t1, e), self.owns(t2, e), tri.has_edge(e)]
            tri.has_edge(e) && self.owns(t1, e) && self.owns(t2, e) ==> t1 == t2
    }

    /// `can_take` depends on the registered triangles alone.
    pub proof fn lemma_can_take_view(self, tri: Triangle)
        ensures
            self.can_take(tri) == takes(self@, tri),
    {
        if self.can_take(tri) {
            assert forall|e: Edge, t1: usize, t2: usize|
                tri.has_edge(e) && self@.contains_key(t1) && self@[t1].has_edge(e) && self@.contains_key(t2)
                    && self@[t2].has_edge(e) implies t1 == t2 by {
                assert(self.owns(t1, e) && self.owns(t2, e));
            }
        }
        if takes(self@, tri) {
            assert forall|e: Edge, t1: usize, t2: usize|
                tri.has_edge(e) && self.owns(t1, e) && self.owns(t2, e) implies t1 == t2 by {
                assert(self@[t1].has_edge(e) && self@[t2].has_edge(e));
            }
        }
    }

    spec fn slots_bounded(self) -> bool {
        forall|t: usize| #[trigger] self@.contains_key(t) ==> t < self.slots@.len()
    }

    proof fn lemma_view_bounded(self)
        requires
            self.slots@.len() <= usize::MAX,
        ensures
            self@.dom().finite(),
            self.slots_bounded(),
    {
        lemma_indices_below_finite(self.slots@.len());
        lemma_len_subset(self@.dom(), Set::new(|t: usize| t < self.slots@.len()));
    }

    /// Every edge in a well-formed index is owned by exactly one triangle (a
    /// boundary edge) or two (an inner edge).
    pub proof fn lemma_edge_owner_count(self, e: Edge)
        requires
            self.wf(),
            self.edge_set().contains(e),
        ensures
            self.owners(e).finite(),
            1 <= self.owners(e).len() <= 2,
    {
        let s = self.owners(e);
        lemma_len_subset(s, self@.dom());
        let t1 = choose|t: usize| self.owns(t, e);
        assert(s.contains(t1));
        if s.len() > 2 {
            let s1 = s.remove(t1);
            assert(s1.len() > 1);
            let t2 = s1.choose();
            assert(s1.contains(t2)) by {
                assert(s1.len() != 0);
            }
            let s2 = s1.remove(t2);
            assert(s2.len() > 0);
            let t3 = s2.choose();
            assert(s2.contains(t3)) by {
                assert(s2.len() != 0);
            }
            assert(self.owns(t1, e) && self.owns(t2, e) && self.owns(t3, e));
        }
    }

    pub fn new() -> (r: TriangleEdgeMapping)
        ensures
            r@ == Map::<usize, Triangle>::empty(),
            r.wf(),
    {
        let r = TriangleEdgeMapping { slots: Vec::new() };
        assert(r@ =~= Map::<usize, Triangle>::empty());
        r
    }

    /// Registers slot `triangle_index` with the triangle stored there.
    pub fn add_triangle(&mut self, triangle_index: usize, triangles: &[Triangle])
        requires
            old(self).wf(),
            triangle_index < triangles@.len(),
            !old(self)@.contains_key(triangle_index),
            triangles@[triangle_index as int].is_proper(),
            old(self).can_take(triangles@[triangle_index as int]),
        ensures
            final(self)@ == old(self)@.insert(triangle_index, triangles@[triangle_index as int]),
            final(self).wf(),
    {
        let tri = triangles[triangle_index];
        let _ = self.slots.len();
        proof {
            self.lemma_view_bounded();
        }
        while self.slots.len() <= triangle_index
            invariant
                self@ == old(self)@,
                triangle_index < triangles@.len(),
            decreases triangle_index + 1 - self.slots.len(),
        {
            let ghost before = self@;
            self.slots.push(None);
            assert(self@ =~= before);
        }
        self.slots.set(triangle_index, Some(tri));
        assert(self@ =~= old(self)@.insert(triangle_index, tri));
        assert forall|e: Edge, t1: usize, t2: usize, t3: usize|
            self.owns(t1, e) && self.owns(t2, e) && self.owns(t3, e) implies t1 == t2 || t2 == t3
            || t1 == t3 by {
            if t1 != triangle_index && t2 != triangle_index && t3 != triangle_index {
                assert(old(self).owns(t1, e) && old(self).owns(t2, e) && old(self).owns(t3, e));
            } else if t1 == triangle_index {
                assert(tri.has_edge(e));
                if t2 != triangle_index && t3 != triangle_index {
                    assert(old(self).owns(t2, e) && old(self).owns(t3, e));
                }
            } else if t2 == triangle_index {
                assert(tri.has_edge(e));
                if t3 != triangle_index {
                    assert(old(self).owns(t1, e) && old(self).owns(t3, e));
                }
            } else {
                assert(tri.has_edge(e));
                assert(old(self).owns(t1, e) && old(self).owns(t2, e));
            }
        }
    }

    /// Drops the registration of slot `triangle_index`.
    pub fn remove_triangle(&mut self, triangle_index: usize)
        requires
            old(self).wf(),
            old(self)@.contains_key(triangle_index),
        ensures
            final(self)@ == old(self)@.remove(triangle_index),
            final(self).wf(),
    {
        let _ = self.slots.len();
        proof {
            self.lemma_view_bounded();
        }
        self.slots.set(triangle_index, None);
        assert(self@ =~= old(self)@.remove(triangle_index));
        assert forall|e: Edge, t1: usize, t2: usize, t3: usize|
            self.owns(t1, e) && self.owns(t2, e) && self.owns(t3, e) implies t1 == t2 || t2 == t3
            || t1 == t3 by {
            assert(old(self).owns(t1, e) && old(self).owns(t2, e) && old(self).owns(t3, e));
        }
    }

    /// A copy with the same registrations.
    pub fn duplicate(&self) -> (r: TriangleEdgeMapping)
        ensures
            r@ == self@,
    {
        let mut slots: Vec<Option<Triangle>> = Vec::new();
        let mut i: usize = 0;
        while i < self.slots.len()
            invariant
                i <= self.slots@.len(),
                slots@ == self.slots@.take(i as int),
            decreases self.slots.len() - i,
        {
            slots.push(self.slots[i]);
            i = i + 1;
            assert(slots@ =~= self.slots@.take(i as int));
        }
        assert(self.slots@.take(i as int) =~= self.slots@);
        let r = TriangleEdgeMapping { slots };
        assert(r@ =~= self@);
        r
    }

    /// How many slots are registered.
    pub fn registered_count(&self) -> (r: usize)
        ensures
            r == self@.dom().len(),
    {
        let _ = self.slots.len();
        proof {
            self.lemma_view_bounded();
        }
        let mut count: usize = 0;
        let mut i: usize = 0;
        assert(self@.dom().filter(|t: usize| t < 0) =~= Set::<usize>::empty());
        while i < self.slots.len()
            invariant
                i <= self.slots@.len(),
                count <= i,
                count == self@.dom().filter(|t: usize| t < i).len(),
                self@.dom().finite(),
            decreases self.slots.len() - i,
        {
            let ghost before = self@.dom().filter(|t: usize| t < i);
            if self.slots[i].is_some() {
                count = count + 1;
                assert(self@.dom().filter(|t: usize| t < i + 1) =~= before.insert(i));
            } else {
                assert(self@.dom().filter(|t: usize| t < i + 1) =~= before);
            }
            i = i + 1;
        }
        proof {
            self.lemma_view_bounded();
            assert(self@.dom().filter(|t: usize| t < i) =~= self@.dom());
        }
        count
    }

    /// Whether slot `triangle_index` is registered.
    pub fn is_registered(&self, triangle_index: usize) -> (r: bool)
        ensures
            r == self@.contains_key(triangle_index),
    {
        triangle_index < self.slots.len() && self.slots[triangle_index].is_some()
    }

    /// The three edges of the triangle registered at `triangle_index`.
    pub fn get_edges(&self, triangle_index: usize) -> (r: Vec<Edge>)
        requires
            self@.contains_key(triangle_index),
        ensures
            r@ == self@[triangle_index].edges(),
    {
        let tri = self.slots[triangle_index].unwrap();
        let r = vec![
            Edge::new(tri.index0, tri.index1),
            Edge::new(tri.index1, tri.index2),
            Edge::new(tri.index2, tri.index0),
        ];
        assert(r@ =~= tri.edges());
        r
    }

    /// The slots that own edge `edge`, each once, in increasing order.
    pub fn get_triangles(&self, edge: &Edge) -> (r: Vec<usize>)
        ensures
            r@.no_duplicates(),
            forall|a: int, b: int| 0 <= a < b < r@.len() ==> r@[a] < r@[b],
            forall|i: int| 0 <= i < r@.len() ==> self.owns(#[trigger] r@[i], *edge),
            forall|t: usize| self.owns(t, *edge) ==> r@.contains(t),
    {
        let _ = self.slots.len();
        proof {
            self.lemma_view_bounded();
        }
        let mut r: Vec<usize> = Vec::new();
        let mut i: usize = 0;
        while i < self.slots.len()
            invariant
                i <= self.slots@.len(),
                self.slots_bounded(),
                forall|j: int| 0 <= j < r@.len() ==> r@[j] < i,
                forall|a: int, b: int| 0 <= a < b < r@.len() ==> r@[a] < r@[b],
                r@.no_duplicates(),
                forall|j: int| 0 <= j < r@.len() ==> self.owns(#[trigger] r@[j], *edge),
                forall|t: usize| t < i && self.owns(t, *edge) ==> r@.contains(t),
            decreases self.slots.len() - i,
        {
            let ghost before = r@;
            let owned = match &self.slots[i] {
                Some(tri) => triangle_has_edge(tri, edge),
                None => false,
            };
            assert(owned == self.owns(i, *edge));
            if owned {
                r.push(i);
                assert(r@[r@.len() - 1] == i);
            }
            assert forall|t: usize| t < i + 1 && self.owns(t, *edge) implies r@.contains(t) by {
                if t == i {
                    assert(r@[r@.len() - 1] == i);
                } else {
                    assert(before.contains(t));
                    let j = choose|j: int| 0 <= j < before.len() && before[j] == t;
                    assert(r@[j] == t);
                }
            }
            i = i + 1;
        }
        r
    }

    /// Whether registering `tri` would leave each of its edges with at most two owners.
    pub fn accepts(&self, tri: &Triangle) -> (r: bool)
        ensures
            r == self.can_take(*tri),
    {
        let e0 = Edge::new(tri.index0, tri.index1);
        let e1 = Edge::new(tri.index1, tri.index2);
        let e2 = Edge::new(tri.index2, tri.index0);
        let o0 = self.get_triangles(&e0);
        let o1 = self.get_triangles(&e1);
        let o2 = self.get_triangles(&e2);
        let r = o0.len() <= 1 && o1.len() <= 1 && o2.len() <= 1;
        proof {
            if r {
                assert forall|e: Edge, t1: usize, t2: usize|
                    tri.has_edge(e) && self.owns(t1, e) && self.owns(t2, e) implies t1 == t2 by {
                    if e == e0 {
                        assert(o0@.contains(t1) && o0@.contains(t2));
                    } else if e == e1 {
                        assert(o1@.contains(t1) && o1@.contains(t2));
                    } else {
                        assert(o2@.contains(t1) && o2@.contains(t2));
                    }
                }
            } else if o0.len() > 1 {
                assert(self.owns(o0@[0], e0) && self.owns(o0@[1], e0) && tri.has_edge(e0));
            } else if o1.len() > 1 {
                assert(self.owns(o1@[0], e1) && self.owns(o1@[1], e1) && tri.has_edge(e1));
            } else {
                assert(self.owns(o2@[0], e2) && self.owns(o2@[1], e2) && tri.has_edge(e2));
            }
        }
        r
    }

    /// The other slots that share an edge with slot `triangle_index`.
    pub fn neighbouring_triangles(&self, triangle_index: usize) -> (r: Vec<usize>)
        requires
            self@.contains_key(triangle_index),
        ensures
            r@.no_duplicates(),
            self.wf() ==> r@.len() <= 3,
            forall|i: int|
                0 <= i < r@.len() ==> #[trigger] r@[i] != triangle_index && self.adjacent(
                    triangle_index,
                    r@[i],
                ),
            forall|u: usize|
                u != triangle_index && #[trigger] self.adjacent(triangle_index, u) ==> r@.contains(
                    u,
                ),
    {
        let edges = self.get_edges(triangle_index);
        let mut r: Vec<usize> = Vec::new();
        let mut k: usize = 0;
        while k < 3
            invariant
                k <= 3,
                self@.contains_key(triangle_index),
                edges@ == self@[triangle_index].edges(),
                r@.no_duplicates(),
                self.wf() ==> r@.len() <= k,
                forall|i: int|
                    0 <= i < r@.len() ==> #[trigger] r@[i] != triangle_index && self.adjacent(
                        triangle_index,
                        r@[i],
                    ),
                forall|u: usize, j: int|
                    0 <= j < k && u != triangle_index && #[trigger] self.owns(u, edges@[j])
                        ==> r@.contains(u),
            decreases 3 - k,
        {
            let owners = self.get_triangles(&edges[k]);
            let mut m: usize = 0;
            let ghost r0 = r@;
            let ghost mut other: int = -1;
            while m < owners.len()
                invariant
                    k < 3,
                    m <= owners@.len(),
                    r@.no_duplicates(),
                    owners@.no_duplicates(),
                    self.wf() ==> r0.len() <= k,
                    self.wf() && other == -1 ==> r@.len() == r0.len(),
                    self.wf() && other != -1 ==> r@.len() == r0.len() + 1 && 0 <= other < m
                        && owners@[other] != triangle_index,
                    self@.contains_key(triangle_index),
                    edges@ == self@[triangle_index].edges(),
                    forall|i: int| 0 <= i < owners@.len() ==> self.owns(#[trigger] owners@[i], edges@[k as int]),
                    forall|i: int|
                        0 <= i < r@.len() ==> #[trigger] r@[i] != triangle_index && self.adjacent(
                            triangle_index,
                            r@[i],
                        ),
                    forall|u: usize| #[trigger] r0.contains(u) ==> r@.contains(u),
                    forall|i: int|
                        0 <= i < m && owners@[i] != triangle_index ==> r@.contains(#[trigger] owners@[i]),
                decreases owners.len() - m,
            {
                let t = owners[m];
                if t != triangle_index && !index_list_contains(&r, t) {
                    proof {
                        if other != -1 && self.wf() {
                            let e = edges@[k as int];
                            assert(self.owns(owners@[other], e) && self.owns(t, e));
                            assert(self.owns(triangle_index, e));
                            assert(owners@[other] != t);
                        }
                        other = m as int;
                    }
                    let ghost before = r@;
                    r.push(t);
                    assert(r@[r@.len() - 1] == t);
                    assert forall|a: int, b: int| 0 <= a < b < r@.len() implies r@[a] != r@[b] by {
                        if b == r@.len() - 1 {
                            assert(before.contains(before[a]));
                        } else {
                            assert(before[a] != before[b]);
                        }
                    }
                    assert forall|u: usize| before.contains(u) implies r@.contains(u) by {
                        let j = choose|j: int| 0 <= j < before.len() && before[j] == u;
                        assert(r@[j] == u);
                    }
                    assert(self.owns(t, edges@[k as int]));
                    assert(self.adjacent(triangle_index, t));
                }
                m = m + 1;
            }
            assert forall|u: usize, j: int|
                0 <= j < k + 1 && u != triangle_index && #[trigger] self.owns(u, edges@[j])
                    implies r@.contains(u) by {
                if j == k {
                    assert(owners@.contains(u));
                    let i = choose|i: int| 0 <= i < owners@.len() && owners@[i] == u;
                    assert(r@.contains(owners@[i]));
                } else {
                    assert(r0.contains(u));
                }
            }
            k = k + 1;
        }
        assert forall|u: usize|
            u != triangle_index && #[trigger] self.adjacent(triangle_index, u) implies r@.contains(
                u,
            ) by {
            if self.owns(u, edges@[0]) {
            } else if self.owns(u, edges@[1]) {
            } else {
                assert(self.owns(u, edges@[2]));
            }
        }
        r
    }
}

} // verus!
