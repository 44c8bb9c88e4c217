use crate::algorithms::min_sum_spanning_tree::kruskal::{
    edge_leq, lemma_precedes_total, precedes, sorted_edges, CalculationType,
};
use crate::datastructures::graph::edge::Edge;
use rand::Rng;
use vstd::prelude::*;
use vstd::relations::total_ordering;
use vstd::seq_lib::{lemma_multiset_commutative, lemma_sorted_unique};

verus! {

/// The order of whole numbers, as a relation.
pub open spec fn number_leq() -> spec_fn(i64, i64) -> bool {
    |a: i64, b: i64| a <= b
}

/// The position of the median: the lower one of the two middle positions where the
/// length is even.
pub open spec fn median_position(len: nat) -> int {
    (len - 1) / 2
}

/// The median of a list of numbers that is not empty: the number in the median position
/// of the list in ascending order.
pub open spec fn median_of(xs: Seq<i64>) -> i64 {
    xs.sort_by(number_leq())[median_position(xs.len())]
}

/// The median of a list of edges that is not empty: the edge in the median position of
/// the list in the order by weight, in which ties are broken by the ends and then by the
/// fields that are left.
pub open spec fn median_edge(es: Seq<Edge>) -> Edge {
    sorted_edges(es, CalculationType::Weight)[median_position(es.len())]
}

/// `x` occurs in `s` between the positions `lo` and `hi`.
pub open spec fn occurs_between<A>(s: Seq<A>, x: A, lo: int, hi: int) -> bool {
    exists|m: int| lo <= m <= hi && 0 <= m < s.len() && #[trigger] s[m] == x
}

/// What a round of partitioning leaves: the same elements, those outside the range
/// where they were, those inside the range still inside it.
pub open spec fn rearranged_within<A>(before: Seq<A>, after: Seq<A>, left: int, right: int) -> bool {
    &&& after.len() == before.len()
    &&& after.to_multiset() == before.to_multiset()
    &&& forall|k: int| 0 <= k < after.len() && !(left <= k <= right) ==> #[trigger] after[k] == before[k]
    &&& forall|k: int|
        left <= k <= right && 0 <= k < after.len() ==> occurs_between(
            before,
            #[trigger] after[k],
            left,
            right,
        )
}

/// The element at `k` has nothing greater before it and nothing smaller after it.
pub open spec fn in_place<A>(s: Seq<A>, k: int, leq: spec_fn(A, A) -> bool) -> bool {
    &&& forall|i: int| 0 <= i < k ==> leq(#[trigger] s[i], s[k])
    &&& forall|i: int| k < i < s.len() ==> leq(s[k], #[trigger] s[i])
}

pub proof fn lemma_number_leq_total()
    ensures
        total_ordering(number_leq()),
{
    let r = number_leq();
    assert forall|x: i64, y: i64| #[trigger] r(x, y) && #[trigger] r(y, x) implies x == y by {}
    assert forall|x: i64, y: i64, z: i64| #[trigger] r(x, y) && #[trigger] r(y, z) implies r(
        x,
        z,
    ) by {}
    assert forall|x: i64, y: i64| #[trigger] r(x, y) || #[trigger] r(y, x) by {}
    assert forall|x: i64| #[trigger] r(x, x) by {}
}

/// Exchanging two elements keeps the elements.
pub proof fn lemma_swap_keeps<A>(s: Seq<A>, i: int, j: int)
    requires
        0 <= i < s.len(),
        0 <= j < s.len(),
    ensures
        s.update(i, s[j]).update(j, s[i]).to_multiset() == s.to_multiset(),
{
    broadcast use vstd::seq_lib::group_to_multiset_ensures;
    broadcast use vstd::multiset::group_multiset_axioms;

    let t = s.update(i, s[j]);
    let u = t.update(j, s[i]);
    assert(t.to_multiset() =~= s.to_multiset().insert(s[j]).remove(s[i]));
    assert(u.to_multiset() =~= t.to_multiset().insert(s[i]).remove(t[j]));
    assert(u.to_multiset() =~= s.to_multiset());
}

/// An element that has nothing greater before it and nothing smaller after it stands
/// where it stands in the sorted list.
pub proof fn lemma_in_place_is_sorted_position<A>(s: Seq<A>, k: int, leq: spec_fn(A, A) -> bool)
    requires
        total_ordering(leq),
        0 <= k < s.len(),
        in_place(s, k, leq),
    ensures
        s.sort_by(leq)[k] == s[k],
        s.sort_by(leq).len() == s.len(),
{
    broadcast use vstd::seq_lib::group_to_multiset_ensures;
    broadcast use vstd::multiset::group_multiset_axioms;

    let x = s[k];
    let l = s.take(k);
    let r = s.skip(k + 1);
    let ls = l.sort_by(leq);
    let rs = r.sort_by(leq);
    l.lemma_sort_by_ensures(leq);
    r.lemma_sort_by_ensures(leq);
    s.lemma_sort_by_ensures(leq);
    assert(ls.to_multiset().len() == l.to_multiset().len());
    assert(rs.to_multiset().len() == r.to_multiset().len());
    assert(s.sort_by(leq).to_multiset().len() == s.to_multiset().len());
    let c = ls.push(x) + rs;
    assert(s =~= l.push(x) + r);
    lemma_multiset_commutative(l.push(x), r);
    lemma_multiset_commutative(ls.push(x), rs);
    assert(c.to_multiset() =~= s.to_multiset());
    assert forall|i: int, j: int| 0 <= i < j < c.len() implies #[trigger] leq(c[i], c[j]) by {
        if j < k {
            assert(c[i] == ls[i] && c[j] == ls[j]);
        } else if j == k {
            assert(c[i] == ls[i] && c[j] == x);
            assert(ls.contains(ls[i]));
            assert(l.contains(ls[i]));
            let m = choose|m: int| 0 <= m < l.len() && l[m] == ls[i];
            assert(s[m] == ls[i]);
        } else {
            assert(c[j] == rs[j - k - 1]);
            assert(rs.contains(rs[j - k - 1]));
            assert(r.contains(rs[j - k - 1]));
            let m = choose|m: int| 0 <= m < r.len() && r[m] == rs[j - k - 1];
            assert(s[m + k + 1] == c[j]);
            assert(leq(x, c[j]));
            if i < k {
                assert(c[i] == ls[i]);
                assert(ls.contains(ls[i]));
                assert(l.contains(ls[i]));
                let m2 = choose|m2: int| 0 <= m2 < l.len() && l[m2] == ls[i];
                assert(s[m2] == ls[i]);
                assert(leq(c[i], x));
            } else if i == k {
                assert(c[i] == x);
            } else {
                assert(c[i] == rs[i - k - 1]);
            }
        }
    }
    lemma_sorted_unique(c, s.sort_by(leq), leq);
    assert(c[k] == x);
}

/// Lists of the same elements have the same sorted list.
pub proof fn lemma_sort_of_same_elements<A>(a: Seq<A>, b: Seq<A>, leq: spec_fn(A, A) -> bool)
    requires
        total_ordering(leq),
        a.to_multiset() == b.to_multiset(),
    ensures
        a.sort_by(leq) == b.sort_by(leq),
{
    a.lemma_sort_by_ensures(leq);
    b.lemma_sort_by_ensures(leq);
    lemma_sorted_unique(a.sort_by(leq), b.sort_by(leq), leq);
}

/// The median of a list does not depend on the order of the list: a second search for
/// it, in the list as the first search has left it, finds the same number.
pub proof fn lemma_median_of_rearranged(xs: Seq<i64>, ys: Seq<i64>)
    requires
        xs.to_multiset() == ys.to_multiset(),
    ensures
        median_of(xs) == median_of(ys),
{
    broadcast use vstd::seq_lib::group_to_multiset_ensures;

    lemma_number_leq_total();
    lemma_sort_of_same_elements(xs, ys, number_leq());
    vstd::seq_lib::to_multiset_len(xs);
    vstd::seq_lib::to_multiset_len(ys);
    assert(xs.len() == ys.len());
}

/// The median edge of a list does not depend on the order of the list.
pub proof fn lemma_median_edge_of_rearranged(xs: Seq<Edge>, ys: Seq<Edge>)
    requires
        xs.to_multiset() == ys.to_multiset(),
    ensures
        median_edge(xs) == median_edge(ys),
{
    broadcast use vstd::seq_lib::group_to_multiset_ensures;

    lemma_precedes_total(CalculationType::Weight);
    lemma_sort_of_same_elements(xs, ys, precedes(CalculationType::Weight));
    vstd::seq_lib::to_multiset_len(xs);
    vstd::seq_lib::to_multiset_len(ys);
    assert(xs.len() == ys.len());
}

/// `gen_range` of the thread's random number generator, on an inclusive range that is
/// not empty. Trusted: the number is in the range. Which one it is, is left open.
#[verifier::external_body]
fn random_index(left: usize, right: usize) -> (r: usize)
    requires
        left <= right,
    ensures
        left <= r <= right,
{
    rand::thread_rng().gen_range(left..=right)
}

/// Selection of the median in expected linear time.
pub struct QuickSelect();

impl QuickSelect {
    /// Whether `a` comes strictly before `b` in the order by weight.
    pub fn edge_before(a: &Edge, b: &Edge) -> (r: bool)
        ensures
            r == !edge_leq(*b, *a, CalculationType::Weight),
    {
        if a.weight != b.weight {
            a.weight < b.weight
        } else if a.either != b.either {
            a.either < b.either
        } else if a.other != b.other {
            a.other < b.other
        } else if a.upgraded_weight != b.upgraded_weight {
            a.upgraded_weight < b.upgraded_weight
        } else if a.cost != b.cost {
            a.cost < b.cost
        } else if a.or_either != b.or_either {
            a.or_either < b.or_either
        } else if a.or_other != b.or_other {
            a.or_other < b.or_other
        } else if a.or_weight != b.or_weight {
            a.or_weight < b.or_weight
        } else {
            !a.upgraded && b.upgraded
        }
    }

    /// The median edge by weight. The list is rearranged.
    pub fn find_median_edges(array: &mut Vec<Edge>) -> (r: Edge)
        requires
            old(array)@.len() > 0,
        ensures
            r == median_edge(old(array)@),
            final(array)@.to_multiset() == old(array)@.to_multiset(),
            final(array)@.len() == old(array)@.len(),
    {
        Self::find_median_edges_mut(array)
    }

    /// The median edge by weight. The list is rearranged.
    pub fn find_median_edges_mut(array: &mut Vec<Edge>) -> (r: Edge)
        requires
            old(array)@.len() > 0,
        ensures
            r == median_edge(old(array)@),
            final(array)@.to_multiset() == old(array)@.to_multiset(),
            final(array)@.len() == old(array)@.len(),
    {
        let mut left: usize = 0;
        let mut right: usize = array.len() - 1;
        let median = (left + right) / 2;
        let ghost leq = precedes(CalculationType::Weight);
        proof {
            lemma_precedes_total(CalculationType::Weight);
        }
        while left < right
            invariant
                left <= median <= right < array@.len(),
                array@.len() == old(array)@.len(),
                median == median_position(array@.len()),
                leq == precedes(CalculationType::Weight),
                total_ordering(leq),
                array@.to_multiset() == old(array)@.to_multiset(),
                forall|k: int, m: int|
                    0 <= k < left && left <= m < array@.len() ==> leq(
                        #[trigger] array@[k],
                        #[trigger] array@[m],
                    ),
                forall|k: int, m: int|
                    right < k < array@.len() && 0 <= m <= right ==> leq(
                        #[trigger] array@[m],
                        #[trigger] array@[k],
                    ),
            decreases right - left,
        {
            let ghost before = array@;
            let pivot_index = Self::partition_edges_mut(array, left, right);
            proof {
                let after = array@;
                assert forall|k: int, m: int|
                    0 <= k < left && left <= m < after.len() implies leq(
                    #[trigger] after[k],
                    #[trigger] after[m],
                ) by {
                    if m <= right {
                        assert(occurs_between(before, after[m], left as int, right as int));
                        let m2 = choose|m2: int|
                            left <= m2 <= right && 0 <= m2 < before.len() && #[trigger] before[m2]
                                == after[m];
                        assert(leq(before[k], before[m2]));
                    } else {
                        assert(leq(before[k], before[m]));
                    }
                }
                assert forall|k: int, m: int|
                    right < k < after.len() && 0 <= m <= right implies leq(
                    #[trigger] after[m],
                    #[trigger] after[k],
                ) by {
                    if left <= m {
                        assert(occurs_between(before, after[m], left as int, right as int));
                        let m2 = choose|m2: int|
                            left <= m2 <= right && 0 <= m2 < before.len() && #[trigger] before[m2]
                                == after[m];
                        assert(leq(before[m2], before[k]));
                    } else {
                        assert(leq(before[m], before[k]));
                    }
                }
            }
            if pivot_index < median {
                left = pivot_index + 1;
            } else if pivot_index > median {
                right = pivot_index - 1;
            } else {
                proof {
                    lemma_in_place_is_sorted_position(array@, median as int, leq);
                    lemma_sort_of_same_elements(array@, old(array)@, leq);
                }
                return array[median];
            }
        }
        proof {
            lemma_in_place_is_sorted_position(array@, median as int, leq);
            lemma_sort_of_same_elements(array@, old(array)@, leq);
        }
        array[median]
    }

    /// The median of the numbers. The list is rearranged.
    pub fn find_median_f64(array: &mut Vec<i64>) -> (r: i64)
        requires
            old(array)@.len() > 0,
        ensures
            r == median_of(old(array)@),
            final(array)@.to_multiset() == old(array)@.to_multiset(),
            final(array)@.len() == old(array)@.len(),
    {
        let mut left: usize = 0;
        let mut right: usize = array.len() - 1;
        let median = (left + right) / 2;
        proof {
            lemma_number_leq_total();
        }
        while left < right
            invariant
                left <= median <= right < array@.len(),
                array@.len() == old(array)@.len(),
                median == median_position(array@.len()),
                total_ordering(number_leq()),
                array@.to_multiset() == old(array)@.to_multiset(),
                forall|k: int, m: int|
                    0 <= k < left && left <= m < array@.len() ==> #[trigger] array@[k]
                        <= #[trigger] array@[m],
                forall|k: int, m: int|
                    right < k < array@.len() && 0 <= m <= right ==> #[trigger] array@[m]
                        <= #[trigger] array@[k],
            decreases right - left,
        {
            let ghost before = array@;
            let pivot_index = Self::partition_f64(array, left, right);
            proof {
                let after = array@;
                assert forall|k: int, m: int|
                    0 <= k < left && left <= m < after.len() implies #[trigger] after[k]
                    <= #[trigger] after[m] by {
                    if m <= right {
                        assert(occurs_between(before, after[m], left as int, right as int));
                        let m2 = choose|m2: int|
                            left <= m2 <= right && 0 <= m2 < before.len() && #[trigger] before[m2]
                                == after[m];
                        assert(before[k] <= before[m2]);
                    } else {
                        assert(before[k] <= before[m]);
                    }
                }
                assert forall|k: int, m: int|
                    right < k < after.len() && 0 <= m <= right implies #[trigger] after[m]
                    <= #[trigger] after[k] by {
                    if left <= m {
                        assert(occurs_between(before, after[m], left as int, right as int));
                        let m2 = choose|m2: int|
                            left <= m2 <= right && 0 <= m2 < before.len() && #[trigger] before[m2]
                                == after[m];
                        assert(before[m2] <= before[k]);
                    } else {
                        assert(before[m] <= before[k]);
                    }
                }
            }
            if pivot_index < median {
                left = pivot_index + 1;
            } else if pivot_index > median {
                right = pivot_index - 1;
            } else {
                proof {
                    lemma_in_place_is_sorted_position(array@, median as int, number_leq());
                    lemma_sort_of_same_elements(array@, old(array)@, number_leq());
                }
                return array[median];
            }
        }
        proof {
            lemma_in_place_is_sorted_position(array@, median as int, number_leq());
            lemma_sort_of_same_elements(array@, old(array)@, number_leq());
        }
        array[median]
    }

    /// Moves the number at `right` to its place between `left` and `right`: smaller
    /// numbers end up before it, the others after it. Returns its place.
    fn partition_f64(array: &mut Vec<i64>, left: usize, right: usize) -> (i: usize)
        requires
            left <= right < old(array)@.len(),
        ensures
            left <= i <= right,
            rearranged_within(old(array)@, final(array)@, left as int, right as int),
            forall|k: int| left <= k < i ==> #[trigger] final(array)@[k] < final(array)@[i as int],
            forall|k: int| i < k <= right ==> final(array)@[i as int] <= #[trigger] final(array)@[k],
    {
        let pivot = array[right];
        let mut i: usize = left;
        let mut j: usize = left;
        proof {
            assert forall|k: int|
                left <= k <= right && 0 <= k < array@.len() implies occurs_between(
                old(array)@,
                #[trigger] array@[k],
                left as int,
                right as int,
            ) by {}
        }
        while j < right
            invariant
                left <= i <= j <= right < array@.len(),
                array@[right as int] == pivot,
                rearranged_within(old(array)@, array@, left as int, right as int),
                forall|k: int| left <= k < i ==> #[trigger] array@[k] < pivot,
                forall|k: int| i <= k < j ==> pivot <= #[trigger] array@[k],
            decreases right - j,
        {
            if array[j] < pivot {
                Self::swap_at(array, i, j, Ghost(left as int), Ghost(right as int));
                i = i + 1;
            }
            j = j + 1;
        }
        Self::swap_at(array, i, right, Ghost(left as int), Ghost(right as int));
        i
    }

    /// Moves a pivot picked at random to its place between `left` and `right`: edges
    /// before it end up before it, the others after it. Returns the pivot's place.
    fn partition_edges_mut(array: &mut Vec<Edge>, left: usize, right: usize) -> (i: usize)
        requires
            left <= right < old(array)@.len(),
        ensures
            left <= i <= right,
            rearranged_within(old(array)@, final(array)@, left as int, right as int),
            forall|k: int|
                left <= k < i ==> !edge_leq(
                    final(array)@[i as int],
                    #[trigger] final(array)@[k],
                    CalculationType::Weight,
                ),
            forall|k: int|
                i < k <= right ==> edge_leq(
                    final(array)@[i as int],
                    #[trigger] final(array)@[k],
                    CalculationType::Weight,
                ),
    {
        let pivot_index = random_index(left, right);
        proof {
            assert forall|k: int|
                left <= k <= right && 0 <= k < array@.len() implies occurs_between(
                old(array)@,
                #[trigger] array@[k],
                left as int,
                right as int,
            ) by {}
        }
        Self::swap_at(array, pivot_index, right, Ghost(left as int), Ghost(right as int));
        let pivot = array[right];
        let mut i: usize = left;
        let mut j: usize = left;
        while j < right
            invariant
                left <= i <= j <= right < array@.len(),
                array@[right as int] == pivot,
                rearranged_within(old(array)@, array@, left as int, right as int),
                forall|k: int|
                    left <= k < i ==> !edge_leq(pivot, #[trigger] array@[k], CalculationType::Weight),
                forall|k: int|
                    i <= k < j ==> edge_leq(pivot, #[trigger] array@[k], CalculationType::Weight),
            decreases right - j,
        {
            let e = array[j];
            if Self::edge_before(&e, &pivot) {
                Self::swap_at(array, i, j, Ghost(left as int), Ghost(right as int));
                i = i + 1;
            }
            j = j + 1;
        }
        Self::swap_at(array, i, right, Ghost(left as int), Ghost(right as int));
        proof {
            lemma_precedes_total(CalculationType::Weight);
            assert(edge_leq(pivot, pivot, CalculationType::Weight));
        }
        i
    }

    /// Exchanges the elements at `i` and `j`, which are between `left` and `right`.
    fn swap_at<A: Copy>(array: &mut Vec<A>, i: usize, j: usize, Ghost(left): Ghost<int>, Ghost(right): Ghost<int>)
        requires
            left <= i <= right,
            left <= j <= right,
            right < old(array)@.len(),
        ensures
            final(array)@ == old(array)@.update(i as int, old(array)@[j as int]).update(
                j as int,
                old(array)@[i as int],
            ),
            forall|before: Seq<A>|
                rearranged_within(before, old(array)@, left, right) ==> #[trigger] rearranged_within(
                    before,
                    final(array)@,
                    left,
                    right,
                ),
    {
        let a = array[i];
        let b = array[j];
        array[i] = b;
        array[j] = a;
        proof {
            lemma_swap_keeps(old(array)@, i as int, j as int);
            let s0 = old(array)@;
            let s1 = array@;
            assert forall|before: Seq<A>|
                rearranged_within(before, s0, left, right) implies #[trigger] rearranged_within(
                before,
                s1,
                left,
                right,
            ) by {
                assert forall|k: int| left <= k <= right && 0 <= k < s1.len() implies occurs_between(
                    before,
                    #[trigger] s1[k],
                    left,
                    right,
                ) by {
                    if k == i {
                        assert(occurs_between(before, s0[j as int], left, right));
                    } else if k == j {
                        assert(occurs_between(before, s0[i as int], left, right));
                    } else {
                        assert(occurs_between(before, s0[k], left, right));
                    }
                }
            }
        }
    }
}

} // verus!
