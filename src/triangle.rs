use vstd::prelude::*;

verus! {

/// A triangle given by the indices of its three corner points.
///
/// The order of the corners decides which pairs form the three edges, but two
/// triangles with the same set of corners stand for the same shape.
#[derive(Clone, Copy, Debug, PartialEq, Eq, Structural)]
pub struct Triangle {
    pub index0: usize,
    pub index1: usize,
    pub index2: usize,
}

/// An undirected edge between two points, stored with the lower index first
/// so that both directions of discovery give the same key.
#[derive(Clone, Copy, Debug, PartialEq, Eq, Structural, Hash, PartialOrd, Ord)]
pub struct Edge {
    pub index_0: usize,
    pub index_1: usize,
}

/// An unordered pair of triangle slots, stored with the lower slot first.
#[derive(Clone, Copy, Debug, PartialEq, Eq, Structural, Hash)]
pub struct OrderedPair {
    pub a: usize,
    pub b: usize,
}

/// The canonical edge between points `a` and `b`.
pub open spec fn edge_between(a: usize, b: usize) -> Edge {
    if a < b {
        Edge { index_0: a, index_1: b }
    } else {
        Edge { index_0: b, index_1: a }
    }
}

impl Edge {
    pub fn new(index_0: usize, index_1: usize) -> (r: Edge)
        ensures
            r == edge_between(index_0, index_1),
    {
        if index_0 < index_1 {
            Edge { index_0, index_1 }
        } else {
            Edge { index_0: index_1, index_1: index_0 }
        }
    }
}

impl OrderedPair {
    pub fn new(first: usize, second: usize) -> (r: OrderedPair)
        ensures
            first <= second ==> r == (OrderedPair { a: first, b: second }),
            first > second ==> r == (OrderedPair { a: second, b: first }),
    {
        if first > second {
            OrderedPair { a: second, b: first }
        } else {
            OrderedPair { a: first, b: second }
        }
    }
}

impl Triangle {
    /// The three corners are three different points.
    pub open spec fn is_proper(self) -> bool {
        &&& self.index0 != self.index1
        &&& self.index1 != self.index2
        &&& self.index2 != self.index0
    }

    pub open spec fn has_vertex(self, v: usize) -> bool {
        v == self.index0 || v == self.index1 || v == self.index2
    }

    /// The edge from the first to the second corner, from the second to the
    /// third, and from the third back to the first.
    pub open spec fn edges(self) -> Seq<Edge> {
        seq![
            edge_between(self.index0, self.index1),
            edge_between(self.index1, self.index2),
            edge_between(self.index2, self.index0),
        ]
    }

    pub open spec fn has_edge(self, e: Edge) -> bool {
        e == edge_between(self.index0, self.index1) || e == edge_between(self.index1, self.index2)
            || e == edge_between(self.index2, self.index0)
    }

    /// Both triangles have the same three distinct corners, in any order.
    pub open spec fn same_corners(self, other: Triangle) -> bool {
        &&& self.is_proper()
        &&& other.is_proper()
        &&& forall|v: usize| self.has_vertex(v) <==> other.has_vertex(v)
    }

    pub fn new(index0: usize, index1: usize, index2: usize) -> (r: Triangle)
        ensures
            r.index0 == index0,
            r.index1 == index1,
            r.index2 == index2,
    {
        Triangle { index0, index1, index2 }
    }

    pub fn contains_vertex(&self, v: usize) -> (r: bool)
        ensures
            r == self.has_vertex(v),
    {
        v == self.index0 || v == self.index1 || v == self.index2
    }

    /// Whether the two triangles index the same three distinct points,
    /// not necessarily in the same order.
    pub fn equivalent(&self, other: &Triangle) -> (r: bool)
        ensures
            r == self.same_corners(*other),
    {
        let proper = self.index0 != self.index1 && self.index1 != self.index2 && self.index2
            != self.index0;
        let r = proper && other.contains_vertex(self.index0) && other.contains_vertex(self.index1)
            && other.contains_vertex(self.index2);
        if r {
            assert(other.is_proper());
            assert forall|v: usize| self.has_vertex(v) <==> other.has_vertex(v) by {}
        }
        r
    }
}

} // verus!
