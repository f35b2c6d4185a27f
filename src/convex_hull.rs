use vstd::prelude::*;

use crate::util::{index_list_contains, index_position};

verus! {

/// An orientation test that can be asked about any three points.
pub open spec fn total_turn_test<F: Fn(usize, usize, usize) -> bool>(f: &F) -> bool {
    forall|a: usize, b: usize, c: usize| #[trigger] f.requires((a, b, c))
}

/// `hull` and `left` are free of repeats, have nothing in common, and
/// together hold exactly the items of `input`.
pub open spec fn splits(input: Seq<usize>, hull: Seq<usize>, left: Seq<usize>) -> bool {
    &&& hull.no_duplicates()
    &&& left.no_duplicates()
    &&& forall|x: usize| !(#[trigger] hull.contains(x) && left.contains(x))
    &&& forall|x: usize| #[trigger] input.contains(x) <==> hull.contains(x) || left.contains(x)
}

/// Every three consecutive points of `chain` passed the turn test.
pub open spec fn turns_right<F: Fn(usize, usize, usize) -> bool>(f: &F, chain: Seq<usize>) -> bool {
    forall|k: int|
        0 <= k && k + 2 < chain.len() ==> #[trigger] f.ensures((chain[k], chain[k + 1], chain[k + 2]), false)
}

/// Point `x` was set aside after a wrong turn with it in the middle.
pub open spec fn rejected<F: Fn(usize, usize, usize) -> bool>(f: &F, x: usize) -> bool {
    exists|a: usize, c: usize| #[trigger] f.ensures((a, x, c), true)
}

/// `sub` is `full` with some items left out, the rest kept in order: `pos`
/// gives, increasing, where each item of `sub` stands in `full`.
pub open spec fn placed_in_order(sub: Seq<usize>, full: Seq<usize>, pos: Seq<int>) -> bool {
    &&& pos.len() == sub.len()
    &&& forall|k: int| 0 <= k < sub.len() ==> 0 <= #[trigger] pos[k] < full.len() && full[pos[k]] == sub[k]
    &&& forall|k: int, l: int| 0 <= k < l < sub.len() ==> pos[k] < pos[l]
}

/// When `input` has no repeats, the two parts of a split add up to its length.
pub proof fn lemma_split_lengths(input: Seq<usize>, hull: Seq<usize>, left: Seq<usize>)
    requires
        input.no_duplicates(),
        splits(input, hull, left),
    ensures
        hull.len() + left.len() == input.len(),
{
    assert(input.to_set() =~= hull.to_set() + left.to_set());
    assert(hull.to_set().disjoint(left.to_set()));
    input.unique_seq_to_set();
    hull.unique_seq_to_set();
    left.unique_seq_to_set();
    vstd::set_lib::lemma_set_disjoint_lens(hull.to_set(), left.to_set());
}

/// One monotone-chain pass over `point_indices` in the given order. While the
/// last two chain points and the next point fail to turn the right way
/// (`turns_wrong(second_last, last, next)`), the chain top is moved to the
/// left-over list; then the next point is pushed.
pub fn half_hull<FX: Fn(usize, usize, usize) -> bool>(point_indices: &[usize], turns_wrong: &FX) -> (r: (
    Vec<usize>,
    Vec<usize>,
))
    requires
        point_indices@.no_duplicates(),
        total_turn_test(turns_wrong),
    ensures
        splits(point_indices@, r.0@, r.1@),
        point_indices@.len() > 0 ==> r.0@.len() > 0 && r.0@[0] == point_indices@[0] && r.0@.last()
            == point_indices@.last(),
        turns_right(turns_wrong, r.0@),
        forall|i: int| 0 <= i < r.1@.len() ==> rejected(turns_wrong, #[trigger] r.1@[i]),
        exists|pos: Seq<int>| #[trigger] placed_in_order(r.0@, point_indices@, pos),
{
    let ghost mut pos: Seq<int> = Seq::empty();
    let mut hull: Vec<usize> = Vec::new();
    let mut points_left: Vec<usize> = Vec::new();
    let mut i: usize = 0;
    while i < point_indices.len()
        invariant
            i <= point_indices@.len(),
            point_indices@.no_duplicates(),
            total_turn_test(turns_wrong),
            splits(point_indices@.take(i as int), hull@, points_left@),
            i == 0 ==> hull@.len() == 0,
            i > 0 ==> hull@.len() > 0 && hull@[0] == point_indices@[0] && hull@.last()
                == point_indices@[i - 1],
            turns_right(turns_wrong, hull@),
            forall|j: int| 0 <= j < points_left@.len() ==> rejected(turns_wrong, #[trigger] points_left@[j]),
            placed_in_order(hull@, point_indices@, pos),
            forall|k: int| 0 <= k < pos.len() ==> #[trigger] pos[k] < i,
        decreases point_indices.len() - i,
    {
        let point_index = point_indices[i];
        let ghost prefix = point_indices@.take(i as int);
        assert(!prefix.contains(point_index)) by {
            if prefix.contains(point_index) {
                let j = choose|j: int| 0 <= j < prefix.len() && prefix[j] == point_index;
                assert(point_indices@[j] == point_indices@[i as int]);
            }
        }
        let mut wrong = if hull.len() >= 2 {
            turns_wrong(hull[hull.len() - 2], hull[hull.len() - 1], point_index)
        } else {
            false
        };
        while wrong
            invariant
                total_turn_test(turns_wrong),
                splits(prefix, hull@, points_left@),
                !prefix.contains(point_index),
                i == 0 ==> hull@.len() == 0,
                i > 0 ==> hull@.len() > 0 && hull@[0] == point_indices@[0],
                turns_right(turns_wrong, hull@),
                forall|j: int| 0 <= j < points_left@.len() ==> rejected(turns_wrong, #[trigger] points_left@[j]),
                placed_in_order(hull@, point_indices@, pos),
                forall|k: int| 0 <= k < pos.len() ==> #[trigger] pos[k] < i,
                wrong ==> hull@.len() >= 2 && turns_wrong.ensures(
                    (hull@[hull@.len() - 2], hull@[hull@.len() - 1], point_index),
                    true,
                ),
                !wrong ==> hull@.len() < 2 || turns_wrong.ensures(
                    (hull@[hull@.len() - 2], hull@[hull@.len() - 1], point_index),
                    false,
                ),
            decreases hull@.len(),
        {
            let ghost h = hull@;
            let ghost l = points_left@;
            let top = hull.pop().unwrap();
            points_left.push(top);
            proof {
                pos = pos.drop_last();
                assert forall|k: int| 0 <= k < hull@.len() implies 0 <= #[trigger] pos[k] < point_indices@.len()
                    && point_indices@[pos[k]] == hull@[k] by {
                    assert(hull@[k] == h[k]);
                }
                assert(turns_wrong.ensures((h[h.len() - 2], top, point_index), true));
                assert(rejected(turns_wrong, top));
                assert forall|j: int| 0 <= j < points_left@.len() implies rejected(
                    turns_wrong,
                    #[trigger] points_left@[j],
                ) by {
                    if j < l.len() {
                        assert(points_left@[j] == l[j]);
                    }
                }
                assert forall|k: int| 0 <= k && k + 2 < hull@.len() implies #[trigger] turns_wrong.ensures(
                    (hull@[k], hull@[k + 1], hull@[k + 2]),
                    false,
                ) by {
                    assert(hull@[k] == h[k] && hull@[k + 1] == h[k + 1] && hull@[k + 2] == h[k + 2]);
                }
                broadcast use vstd::seq_lib::lemma_seq_contains_after_push;

                assert(h == hull@.push(top));
                assert(points_left@ == l.push(top));
                assert(!hull@.contains(top)) by {
                    if hull@.contains(top) {
                        let j = choose|j: int| 0 <= j < hull@.len() && hull@[j] == top;
                        assert(h[j] == h[h.len() - 1]);
                    }
                }
                assert(h.contains(top)) by {
                    assert(h[h.len() - 1] == top);
                }
                assert forall|a: int, b: int| 0 <= a < b < hull@.len() implies hull@[a] != hull@[b] by {
                    assert(h[a] == hull@[a] && h[b] == hull@[b]);
                }
                assert forall|a: int, b: int|
                    0 <= a < b < points_left@.len() implies points_left@[a] != points_left@[b] by {
                    assert(l.contains(l[a]));
                    if b < l.len() {
                        assert(l[a] != l[b]);
                    }
                }
                assert forall|x: usize| !(#[trigger] hull@.contains(x) && points_left@.contains(x)) by {
                    if hull@.contains(x) {
                        let j = choose|j: int| 0 <= j < hull@.len() && hull@[j] == x;
                        assert(h[j] == x);
                        assert(h.contains(x));
                    }
                }
                assert forall|x: usize| #[trigger] prefix.contains(x) <==> hull@.contains(x) || points_left@.contains(x) by {
                    if hull@.contains(x) {
                        let j = choose|j: int| 0 <= j < hull@.len() && hull@[j] == x;
                        assert(h[j] == x);
                        assert(h.contains(x));
                    }
                    if h.contains(x) && x != top {
                        let j = choose|j: int| 0 <= j < h.len() && h[j] == x;
                        assert(j < hull@.len());
                        assert(hull@[j] == x);
                    }
                }
            }
            wrong = if hull.len() >= 2 {
                turns_wrong(hull[hull.len() - 2], hull[hull.len() - 1], point_index)
            } else {
                false
            };
        }
        let ghost h = hull@;
        let ghost l = points_left@;
        hull.push(point_index);
        proof {
            let p0 = pos;
            pos = pos.push(i as int);
            assert forall|k: int| 0 <= k < hull@.len() implies 0 <= #[trigger] pos[k] < point_indices@.len()
                && point_indices@[pos[k]] == hull@[k] by {
                if k < p0.len() {
                    assert(pos[k] == p0[k]);
                    assert(hull@[k] == h[k]);
                }
            }
            assert forall|k: int, l: int| 0 <= k < l < hull@.len() implies pos[k] < pos[l] by {
                if l < p0.len() {
                    assert(pos[k] == p0[k] && pos[l] == p0[l]);
                } else {
                    assert(pos[k] == p0[k]);
                }
            }
            assert forall|k: int| 0 <= k < pos.len() implies #[trigger] pos[k] < i + 1 by {
                if k < p0.len() {
                    assert(pos[k] == p0[k]);
                }
            }
        }
        // a point pushed again leaves the left-over list
        match index_position(&points_left, point_index) {
            Some(pos) => {
                points_left.swap_remove(pos);
            },
            None => {},
        }
        proof {
            broadcast use vstd::seq_lib::lemma_seq_contains_after_push;

            let next = point_indices@.take(i + 1);
            assert(next =~= prefix.push(point_index));
            assert(!l.contains(point_index));
            assert(points_left@ == l);
            assert(hull@ == h.push(point_index));
            assert forall|a: int, b: int| 0 <= a < b < hull@.len() implies hull@[a] != hull@[b] by {
                if b == hull@.len() - 1 {
                    assert(h[a] == hull@[a]);
                    assert(h.contains(h[a]));
                } else {
                    assert(h[a] != h[b]);
                }
            }
            assert forall|x: usize| !(#[trigger] hull@.contains(x) && points_left@.contains(x)) by {
                if hull@.contains(x) && x != point_index {
                    assert(h.contains(x));
                }
            }
            assert forall|x: usize| #[trigger] next.contains(x) <==> hull@.contains(x) || points_left@.contains(x) by {
                if hull@.contains(x) && x != point_index {
                    assert(h.contains(x));
                }
            }
            assert forall|k: int| 0 <= k && k + 2 < hull@.len() implies #[trigger] turns_wrong.ensures(
                (hull@[k], hull@[k + 1], hull@[k + 2]),
                false,
            ) by {
                if k + 2 < h.len() {
                    assert(hull@[k] == h[k] && hull@[k + 1] == h[k + 1] && hull@[k + 2] == h[k + 2]);
                }
            }
        }
        i = i + 1;
    }
    assert(point_indices@.take(point_indices@.len() as int) =~= point_indices@);
    assert(placed_in_order(hull@, point_indices@, pos));
    (hull, points_left)
}

/// The items of `sorted` that occur in `members`, in the order of `sorted`.
fn keep_in_order(sorted: &[usize], members: &Vec<usize>) -> (r: Vec<usize>)
    requires
        sorted@.no_duplicates(),
    ensures
        r@.no_duplicates(),
        forall|x: usize| #[trigger] r@.contains(x) <==> sorted@.contains(x) && members@.contains(x),
        sorted@.len() > 0 && members@.contains(sorted@[0]) ==> r@.len() > 0 && r@[0] == sorted@[0],
        sorted@.len() > 0 && members@.contains(sorted@.last()) ==> r@.len() > 0 && r@.last()
            == sorted@.last(),
{
    let mut r: Vec<usize> = Vec::new();
    let mut i: usize = 0;
    while i < sorted.len()
        invariant
            i <= sorted@.len(),
            sorted@.no_duplicates(),
            r@.no_duplicates(),
            forall|x: usize| #[trigger]
                r@.contains(x) <==> sorted@.take(i as int).contains(x) && members@.contains(x),
            i > 0 && members@.contains(sorted@[0]) ==> r@.len() > 0 && r@[0] == sorted@[0],
            i > 0 && members@.contains(sorted@[i - 1]) ==> r@.len() > 0 && r@.last() == sorted@[i
                - 1],
        decreases sorted.len() - i,
    {
        let x = sorted[i];
        let ghost before = r@;
        let ghost prefix = sorted@.take(i as int);
        if index_list_contains(members, x) {
            r.push(x);
        }
        proof {
            broadcast use vstd::seq_lib::lemma_seq_contains_after_push;

            assert(sorted@.take(i + 1) =~= prefix.push(x));
            assert(!prefix.contains(x)) by {
                if prefix.contains(x) {
                    let j = choose|j: int| 0 <= j < prefix.len() && prefix[j] == x;
                    assert(sorted@[j] == sorted@[i as int]);
                }
            }
            if members@.contains(x) {
                assert(r@ == before.push(x));
                assert forall|a: int, b: int| 0 <= a < b < r@.len() implies r@[a] != r@[b] by {
                    if b == r@.len() - 1 {
                        assert(before.contains(before[a]));
                    } else {
                        assert(before[a] != before[b]);
                    }
                }
                if i == 0 {
                    assert(before.len() == 0) by {
                        if before.len() > 0 {
                            assert(before.contains(before[0]));
                        }
                    }
                }
            }
        }
        i = i + 1;
    }
    assert(sorted@.take(sorted@.len() as int) =~= sorted@);
    r
}

/// The items of `v` in the opposite order.
fn reversed(v: &Vec<usize>) -> (r: Vec<usize>)
    ensures
        r@.len() == v@.len(),
        forall|i: int| 0 <= i < v@.len() ==> #[trigger] r@[i] == v@[v@.len() - 1 - i],
{
    let mut r: Vec<usize> = Vec::new();
    let mut i: usize = v.len();
    while i > 0
        invariant
            i <= v@.len(),
            r@.len() == v@.len() - i,
            forall|j: int| 0 <= j < r@.len() ==> #[trigger] r@[j] == v@[v@.len() - 1 - j],
        decreases i,
    {
        i = i - 1;
        r.push(v[i]);
    }
    r
}

/// The convex hull of points given by index in sorted order (by x, then y):
/// a lower chain over the sorted order, then an upper chain over the points
/// left over together with the two ends of the lower chain, walked backwards.
/// Returns the hull in winding order and the points inside it.
pub fn convex_hull<FX: Fn(usize, usize, usize) -> bool>(sorted: &[usize], turns_wrong: &FX) -> (r: (
    Vec<usize>,
    Vec<usize>,
))
    requires
        sorted@.no_duplicates(),
        total_turn_test(turns_wrong),
    ensures
        splits(sorted@, r.0@, r.1@),
        sorted@.len() > 0 ==> r.0@.len() > 0 && r.0@[0] == sorted@[0],
        sorted@.len() >= 2 ==> r.0@.len() >= 2,
        r.0@.len() + r.1@.len() == sorted@.len(),
        forall|i: int| 0 <= i < r.1@.len() ==> rejected(turns_wrong, #[trigger] r.1@[i]),
        r.0@.len() >= 2 ==> exists|l: int|
            2 <= l <= r.0@.len() && #[trigger] turns_right(turns_wrong, r.0@.take(l)) && turns_right(
                turns_wrong,
                r.0@.subrange(l - 1, r.0@.len() as int).push(r.0@[0]),
            ),
{
    let (mut lower, mut points_left) = half_hull(sorted, turns_wrong);
    if lower.len() < 2 {
        proof {
            lemma_split_lengths(sorted@, lower@, points_left@);
            if sorted@.len() >= 2 {
                assert(sorted@[0] != sorted@[sorted@.len() - 1]);
                assert(lower@[0] != lower@.last());
            }
        }
        return (lower, points_left);
    }
    let ghost left1 = points_left@;
    let first = lower[0];
    let last = lower[lower.len() - 1];
    proof {
        assert(sorted@.len() > 0) by {
            assert(sorted@.contains(lower@[0]));
        }
        assert(first != last);
        assert(lower@.contains(first) && lower@.contains(last));
    }

    // add the ends of the lower chain so that the upper chain closes the hull
    points_left.push(last);
    points_left.push(first);

    let ghost pl = points_left@;
    proof {
        broadcast use vstd::seq_lib::lemma_seq_contains_after_push;

        assert(pl == left1.push(last).push(first));
        assert(pl.contains(first) && pl.contains(last));
        assert(sorted@.contains(first) && sorted@.contains(last));
    }
    let kept = keep_in_order(sorted, &points_left);
    let upper_order = reversed(&kept);
    let ghost rev = upper_order@;
    proof {
        broadcast use vstd::seq_lib::lemma_seq_contains_after_push;

        let k = kept@;
        assert forall|x: usize| #[trigger] rev.contains(x) <==> k.contains(x) by {
            if rev.contains(x) {
                let j = choose|j: int| 0 <= j < rev.len() && rev[j] == x;
                assert(k[k.len() - 1 - j] == x);
            }
            if k.contains(x) {
                let j = choose|j: int| 0 <= j < k.len() && k[j] == x;
                assert(rev[k.len() - 1 - j] == x);
            }
        }
        assert forall|a: int, b: int| 0 <= a < b < rev.len() implies rev[a] != rev[b] by {
            assert(k[k.len() - 1 - a] != k[k.len() - 1 - b]);
        }
        assert(k.contains(first) && k.contains(last));
        assert(rev[0] == last);
        assert(rev[rev.len() - 1] == first);
        assert(rev.len() >= 2);
    }
    let (mut upper, left_over) = half_hull(upper_order.as_slice(), turns_wrong);
    let ghost up = upper@;
    proof {
        assert(up[0] == last);
        assert(up.last() == first);
        assert(up.len() >= 2) by {
            if up.len() < 2 {
                assert(up[0] == up.last());
            }
        }
    }

    // remove the duplicated ends
    upper.pop();
    upper.remove(0);
    let ghost trimmed = upper@;
    let ghost low = lower@;
    lower.append(&mut upper);
    proof {
        broadcast use vstd::seq_lib::lemma_seq_contains_after_push;

        assert(trimmed =~= up.subrange(1, up.len() - 1));
        assert(lower@ =~= low + trimmed);
        assert forall|x: usize| #[trigger] trimmed.contains(x) implies up.contains(x) && x != first
            && x != last && left1.contains(x) by {
            let j = choose|j: int| 0 <= j < trimmed.len() && trimmed[j] == x;
            assert(up[j + 1] == x);
            assert(up[0] != up[j + 1]);
            assert(up[up.len() - 1] != up[j + 1]);
            assert(up.contains(x));
            assert(rev.contains(x));
            assert(pl.contains(x));
        }
        assert forall|x: usize| #[trigger] left_over@.contains(x) implies left1.contains(x) by {
            assert(rev.contains(x));
            assert(pl.contains(x));
            assert(up.contains(first)) by {
                assert(up[up.len() - 1] == first);
            }
            assert(up.contains(last)) by {
                assert(up[0] == last);
            }
        }
        assert forall|a: int, b: int| 0 <= a < b < lower@.len() implies lower@[a] != lower@[b] by {
            if b < low.len() {
                assert(low[a] != low[b]);
            } else if a >= low.len() {
                assert(trimmed[a - low.len()] == up[a - low.len() + 1]);
                assert(trimmed[b - low.len()] == up[b - low.len() + 1]);
            } else {
                assert(low.contains(low[a]));
                assert(trimmed.contains(trimmed[b - low.len()]));
            }
        }
        assert forall|x: usize| !(#[trigger] lower@.contains(x) && left_over@.contains(x)) by {
            if lower@.contains(x) && left_over@.contains(x) {
                let j = choose|j: int| 0 <= j < lower@.len() && lower@[j] == x;
                if j < low.len() {
                    assert(low.contains(x));
                } else {
                    assert(trimmed[j - low.len()] == x);
                    assert(trimmed.contains(x));
                }
            }
        }
        assert forall|x: usize| #[trigger] sorted@.contains(x) <==> lower@.contains(x) || left_over@.contains(x) by {
            if lower@.contains(x) {
                let j = choose|j: int| 0 <= j < lower@.len() && lower@[j] == x;
                if j < low.len() {
                    assert(low.contains(x));
                } else {
                    assert(trimmed[j - low.len()] == x);
                    assert(trimmed.contains(x));
                }
            }
            if sorted@.contains(x) && !low.contains(x) {
                assert(left1.contains(x));
                assert(pl.contains(x));
                assert(rev.contains(x));
                if up.contains(x) {
                    let j = choose|j: int| 0 <= j < up.len() && up[j] == x;
                    assert(j != 0 && j != up.len() - 1) by {
                        assert(low.contains(first) && low.contains(last));
                    }
                    assert(trimmed[j - 1] == x);
                    assert(lower@[low.len() + j - 1] == x);
                }
            }
            if low.contains(x) {
                let j = choose|j: int| 0 <= j < low.len() && low[j] == x;
                assert(lower@[j] == x);
            }
        }
        lemma_split_lengths(sorted@, lower@, left_over@);
        let l = low.len() as int;
        let hull = lower@;
        assert(hull.take(l) =~= low);
        let closed = hull.subrange(l - 1, hull.len() as int).push(hull[0]);
        assert(closed.len() == up.len());
        assert forall|j: int| 0 <= j < up.len() implies closed[j] == up[j] by {
            if j == 0 {
                assert(closed[0] == hull[l - 1]);
            } else if j < up.len() - 1 {
                assert(closed[j] == hull[l - 1 + j]);
                assert(hull[l - 1 + j] == trimmed[j - 1]);
            } else {
                assert(closed[j] == hull[0]);
            }
        }
        assert(closed =~= up);
        assert(turns_right(turns_wrong, hull.take(l)));
    }
    (lower, left_over)
}

} // verus!
