use vstd::prelude::*;
use vstd::set_lib::{lemma_int_range, lemma_len_subset, set_int_range};

use crate::triangle::{Edge, OrderedPair};

verus! {

/// Whether `x` occurs in `v`.
pub fn index_list_contains(v: &Vec<usize>, x: usize) -> (r: bool)
    ensures
        r == v@.contains(x),
{
    let mut i: usize = 0;
    while i < v.len()
        invariant
            i <= v@.len(),
            forall|j: int| 0 <= j < i ==> v@[j] != x,
        decreases v.len() - i,
    {
        if v[i] == x {
            return true;
        }
        i = i + 1;
    }
    false
}

/// Where `x` first occurs in `v`, if it does.
pub fn index_position(v: &Vec<usize>, x: usize) -> (r: Option<usize>)
    ensures
        r is None ==> !v@.contains(x),
        r matches Some(i) ==> i < v@.len() && v@[i as int] == x,
{
    let mut i: usize = 0;
    while i < v.len()
        invariant
            i <= v@.len(),
            forall|j: int| 0 <= j < i ==> v@[j] != x,
        decreases v.len() - i,
    {
        if v[i] == x {
            return Some(i);
        }
        i = i + 1;
    }
    None
}

/// Whether `p` occurs in `v`.
pub fn pair_list_contains(v: &Vec<OrderedPair>, p: OrderedPair) -> (r: bool)
    ensures
        r == v@.contains(p),
{
    let mut i: usize = 0;
    while i < v.len()
        invariant
            i <= v@.len(),
            forall|j: int| 0 <= j < i ==> v@[j] != p,
        decreases v.len() - i,
    {
        if v[i] == p {
            return true;
        }
        i = i + 1;
    }
    false
}

/// Where `e` occurs in `v`, if it does.
pub fn edge_position(v: &Vec<Edge>, e: Edge) -> (r: Option<usize>)
    ensures
        r is None ==> !v@.contains(e),
        r matches Some(i) ==> i < v@.len() && v@[i as int] == e,
{
    let mut i: usize = 0;
    while i < v.len()
        invariant
            i <= v@.len(),
            forall|j: int| 0 <= j < i ==> v@[j] != e,
        decreases v.len() - i,
    {
        if v[i] == e {
            return Some(i);
        }
        i = i + 1;
    }
    None
}

/// A sequence of distinct integers in `[0, n)` has at most `n` items.
pub proof fn lemma_distinct_in_range(s: Seq<int>, n: int)
    requires
        0 <= n,
        s.no_duplicates(),
        forall|i: int| 0 <= i < s.len() ==> 0 <= #[trigger] s[i] < n,
    ensures
        s.len() <= n,
{
    s.unique_seq_to_set();
    lemma_int_range(0, n);
    assert(s.to_set().subset_of(set_int_range(0, n)));
    lemma_len_subset(s.to_set(), set_int_range(0, n));
}

/// A sequence of distinct slot numbers below `n` has at most `n` items.
pub proof fn lemma_distinct_indices(s: Seq<usize>, n: int)
    requires
        0 <= n,
        s.no_duplicates(),
        forall|i: int| 0 <= i < s.len() ==> #[trigger] s[i] < n,
    ensures
        s.len() <= n,
{
    let keys = s.map_values(|x: usize| x as int);
    assert forall|i: int, j: int| 0 <= i < keys.len() && 0 <= j < keys.len() && i != j implies keys[i]
        != keys[j] by {
        assert(s[i] != s[j]);
    }
    lemma_distinct_in_range(keys, n);
}

proof fn lemma_pair_key(a: int, b: int, c: int, d: int, n: int)
    requires
        0 <= a < n,
        0 <= b < n,
        0 <= c < n,
        0 <= d < n,
        a * n + b == c * n + d,
    ensures
        a == c && b == d,
{
    if a < c {
        assert(a * n + n <= c * n) by (nonlinear_arith)
            requires
                a < c,
                0 <= n,
        ;
    } else if c < a {
        assert(c * n + n <= a * n) by (nonlinear_arith)
            requires
                c < a,
                0 <= n,
        ;
    }
}

/// A sequence of distinct pairs of slot numbers below `n` has at most `n * n` items.
pub proof fn lemma_distinct_pairs(s: Seq<OrderedPair>, n: int)
    requires
        0 <= n,
        s.no_duplicates(),
        forall|i: int| 0 <= i < s.len() ==> #[trigger] s[i].a < n && s[i].b < n,
    ensures
        s.len() <= n * n,
{
    let keys = s.map_values(|p: OrderedPair| p.a * n + p.b);
    assert forall|i: int, j: int| 0 <= i < keys.len() && 0 <= j < keys.len() && i != j implies keys[i]
        != keys[j] by {
        assert(s[i] != s[j]);
        if keys[i] == keys[j] {
            lemma_pair_key(s[i].a as int, s[i].b as int, s[j].a as int, s[j].b as int, n);
        }
    }
    assert forall|i: int| 0 <= i < keys.len() implies 0 <= #[trigger] keys[i] < n * n by {
        let a = s[i].a as int;
        let b = s[i].b as int;
        assert(0 <= a * n + b < n * n) by (nonlinear_arith)
            requires
                0 <= a < n,
                0 <= b < n,
        ;
    }
    lemma_distinct_in_range(keys, n * n);
}

} // verus!
