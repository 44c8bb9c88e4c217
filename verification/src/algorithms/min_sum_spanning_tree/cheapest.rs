use crate::algorithms::min_sum_spanning_tree::kruskal::{
    forest_sum, greedy_forest, key, key_sum, lemma_bottleneck_push, lemma_ends_contained,
    lemma_greedy_forest, lemma_sorted_keeps_graph, lemma_sorted_same_edges, precedes, sorted_edges,
    CalculationType, Kruskal,
};
use crate::algorithms::util::edges_within;
use crate::datastructures::graph::connectivity::{
    absorbed, acyclic, connected, contained, is_spanning_tree, labelling_of, lemma_absorbed_reach,
    lemma_acyclic_count, lemma_connected_mono, lemma_edge_connects, lemma_labelling,
    lemma_same_reach_spans, lemma_tree_size, spans, within,
};
use crate::datastructures::graph::edge::{ends_of, Edge};
use crate::datastructures::uf::union_find::{lemma_class_bounded, representatives};
use vstd::prelude::*;
use vstd::relations::sorted_by;
use vstd::seq_lib::{commutative_foldl, lemma_fold_left_permutation};
use vstd::set_lib::{lemma_len_subset, lemma_map_size_bound};

verus! {

/// Adds the key of an edge to a sum.
pub open spec fn adder(c: CalculationType) -> spec_fn(int, Edge) -> int {
    |sum: int, e: Edge| sum + key(e, c)
}

/// The sum of the keys is the keys added up one after the other.
pub proof fn lemma_sum_as_fold(es: Seq<Edge>, c: CalculationType)
    ensures
        key_sum(es, c) == es.fold_left(0int, adder(c)),
    decreases es.len(),
{
    if es.len() > 0 {
        lemma_sum_as_fold(es.drop_last(), c);
    }
}

/// The sum of the keys does not depend on the order of the edges.
pub proof fn lemma_sum_of_same_edges(a: Seq<Edge>, b: Seq<Edge>, c: CalculationType)
    requires
        a.to_multiset() == b.to_multiset(),
    ensures
        key_sum(a, c) == key_sum(b, c),
{
    lemma_sum_as_fold(a, c);
    lemma_sum_as_fold(b, c);
    let f = adder(c);
    assert(commutative_foldl(f)) by {
        assert forall|x: Edge, y: Edge, v: int| #[trigger] f(f(v, x), y) == f(f(v, y), x) by {}
    }
    lemma_fold_left_permutation(a, b, f, 0int);
}

/// Two lists without repeats that hold the same edges are rearrangements of each other.
pub proof fn lemma_same_values_same_edges(a: Seq<Edge>, b: Seq<Edge>)
    requires
        a.no_duplicates(),
        b.no_duplicates(),
        forall|x: Edge| a.contains(x) <==> b.contains(x),
    ensures
        a.to_multiset() == b.to_multiset(),
        a.len() == b.len(),
{
    broadcast use vstd::seq_lib::group_to_multiset_ensures;
    broadcast use vstd::multiset::group_multiset_axioms;

    a.lemma_multiset_has_no_duplicates();
    b.lemma_multiset_has_no_duplicates();
    assert forall|x: Edge| a.to_multiset().count(x) == b.to_multiset().count(x) by {
        assert(a.contains(x) <==> a.to_multiset().count(x) > 0);
        assert(b.contains(x) <==> b.to_multiset().count(x) > 0);
        if a.contains(x) {
            assert(a.to_multiset().contains(x));
            assert(b.to_multiset().contains(x));
        }
    }
    assert(a.to_multiset() =~= b.to_multiset());
    vstd::seq_lib::to_multiset_len(a);
    vstd::seq_lib::to_multiset_len(b);
}

/// A set of edges without a cycle holds no edge twice.
pub proof fn lemma_acyclic_distinct(t: Seq<Edge>)
    requires
        acyclic(ends_of(t)),
    ensures
        t.no_duplicates(),
{
    assert forall|i: int, j: int| 0 <= i < t.len() && 0 <= j < t.len() && i != j implies t[i]
        != t[j] by {
        if t[i] == t[j] {
            let ends = ends_of(t);
            let rest = ends.remove(i);
            let at = if j < i {
                j
            } else {
                j - 1
            };
            assert(rest[at] == ends[j]);
            assert(ends[j] == ends[i]);
            lemma_edge_connects(rest, at);
            assert(!connected(rest, ends[i].0, ends[i].1));
        }
    }
}

/// Edges picked from a set without a cycle, none twice, have no cycle.
pub proof fn lemma_part_acyclic(b: Seq<Edge>, t: Seq<Edge>)
    requires
        b.no_duplicates(),
        edges_within(b, t),
        acyclic(ends_of(t)),
    ensures
        acyclic(ends_of(b)),
{
    let eb = ends_of(b);
    let et = ends_of(t);
    assert forall|i: int| 0 <= i < eb.len() implies !connected(
        eb.remove(i),
        (#[trigger] eb[i]).0,
        eb[i].1,
    ) by {
        assert(t.contains(b[i]));
        let j = choose|j: int| 0 <= j < t.len() && t[j] == b[i];
        assert(et[j] == eb[i]);
        assert(!connected(et.remove(j), et[j].0, et[j].1));
        if connected(eb.remove(i), eb[i].0, eb[i].1) {
            assert(contained(eb.remove(i), et.remove(j))) by {
                assert forall|x: int| 0 <= x < eb.remove(i).len() implies et.remove(j).contains(
                    #[trigger] eb.remove(i)[x],
                ) by {
                    let m = if x < i {
                        x
                    } else {
                        x + 1
                    };
                    assert(eb.remove(i)[x] == eb[m]);
                    assert(b[m] != b[i]);
                    assert(t.contains(b[m]));
                    let y = choose|y: int| 0 <= y < t.len() && t[y] == b[m];
                    assert(y != j);
                    let z = if y < j {
                        y
                    } else {
                        y - 1
                    };
                    assert(et.remove(j)[z] == et[y]);
                    assert(et[y] == eb[m]);
                }
            }
            lemma_connected_mono(eb.remove(i), et.remove(j), eb[i].0, eb[i].1);
        }
    }
}

/// Of two sets of edges without a cycle, the one that connects the ends of the
/// other's edges has as many edges at least.
pub proof fn lemma_rank(a: Seq<(int, int)>, b: Seq<(int, int)>, n: nat)
    requires
        within(a, n),
        within(b, n),
        acyclic(a),
        acyclic(b),
        absorbed(b, a),
    ensures
        b.len() <= a.len(),
{
    let la = labelling_of(a, n);
    let lb = labelling_of(b, n);
    lemma_labelling(a, n);
    lemma_labelling(b, n);
    lemma_acyclic_count(a, n);
    lemma_acyclic_count(b, n);
    lemma_class_bounded(la, 0);
    lemma_class_bounded(lb, 0);
    let f = |r: int| la[r];
    let image = representatives(lb).map(f);
    lemma_map_size_bound(representatives(lb), image, f);
    assert(representatives(la).subset_of(image)) by {
        assert forall|ra: int| representatives(la).contains(ra) implies image.contains(ra) by {
            let rb = lb[ra];
            assert(0 <= lb[ra] < n && lb[lb[ra]] == lb[ra]);
            assert(representatives(lb).contains(rb));
            assert(connected(b, rb, ra));
            lemma_absorbed_reach(b, a, rb, ra);
            assert(la[rb] == la[ra]);
            assert(f(rb) == ra);
        }
    }
    lemma_len_subset(representatives(la), image);
}

/// The edges of `t` among the first `k` edges of `s`, each where it stands first.
pub open spec fn chosen(s: Seq<Edge>, t: Seq<Edge>, k: int) -> Seq<Edge>
    decreases k,
{
    if k <= 0 || k > s.len() {
        Seq::empty()
    } else if t.contains(s[k - 1]) && !s.take(k - 1).contains(s[k - 1]) {
        chosen(s, t, k - 1).push(s[k - 1])
    } else {
        chosen(s, t, k - 1)
    }
}

/// What `chosen` holds: edges of `t` from the first `k` edges of `s`, none twice, and
/// every edge of `t` that is among those.
pub proof fn lemma_chosen(s: Seq<Edge>, t: Seq<Edge>, k: int)
    requires
        0 <= k <= s.len(),
    ensures
        chosen(s, t, k).no_duplicates(),
        edges_within(chosen(s, t, k), t),
        edges_within(chosen(s, t, k), s.take(k)),
        forall|x: Edge| t.contains(x) && s.take(k).contains(x) ==> chosen(s, t, k).contains(x),
    decreases k,
{
    if k > 0 {
        lemma_chosen(s, t, k - 1);
        let before = chosen(s, t, k - 1);
        let now = chosen(s, t, k);
        let e = s[k - 1];
        let shorter = s.take(k - 1);
        let longer = s.take(k);
        assert(longer =~= shorter.push(e));
        assert forall|i: int| 0 <= i < now.len() implies t.contains(#[trigger] now[i]) && s.take(
            k,
        ).contains(now[i]) by {
            if i < before.len() {
                assert(shorter.contains(before[i]));
                let j = choose|j: int| 0 <= j < shorter.len() && shorter[j] == before[i];
                assert(longer[j] == before[i]);
            } else {
                assert(longer[k - 1] == e);
            }
        }
        assert forall|i: int, j: int|
            0 <= i < now.len() && 0 <= j < now.len() && i != j implies now[i] != now[j] by {
            if i < before.len() && j < before.len() {
            } else {
                let other = if i < before.len() {
                    i
                } else {
                    j
                };
                assert(shorter.contains(before[other]));
            }
        }
        assert forall|x: Edge| t.contains(x) && s.take(k).contains(x) implies now.contains(x) by {
            if shorter.contains(x) {
                assert(before.contains(x));
                let i = choose|i: int| 0 <= i < before.len() && before[i] == x;
                assert(now[i] == x);
            } else {
                let j = choose|j: int| 0 <= j < longer.len() && longer[j] == x;
                if j < k - 1 {
                    assert(shorter[j] == x);
                }
                assert(x == e);
                assert(now[now.len() - 1] == e);
            }
        }
    }
}

/// The key of the edge before place `k`, and 0 at the start.
pub open spec fn last_key(s: Seq<Edge>, c: CalculationType, k: int) -> int {
    if 0 < k <= s.len() {
        key(s[k - 1], c)
    } else {
        0
    }
}

/// The scan is never behind: among the first `k` edges in scanning order it has
/// collected as many edges as a set without a cycle holds of them, and what its edges
/// cost more, the edges that the other set has yet to take make up for.
pub proof fn lemma_scan_leads(s: Seq<Edge>, t: Seq<Edge>, c: CalculationType, n: nat, k: int)
    requires
        sorted_by(s, precedes(c)),
        forall|i: int| 0 <= i < s.len() ==> (#[trigger] s[i]).fits(n),
        acyclic(ends_of(t)),
        0 <= k <= s.len(),
    ensures
        chosen(s, t, k).len() <= greedy_forest(s.take(k)).len(),
        key_sum(greedy_forest(s.take(k)), c) <= key_sum(chosen(s, t, k), c) + (greedy_forest(
            s.take(k),
        ).len() - chosen(s, t, k).len()) * last_key(s, c, k),
    decreases k,
{
    let forest = greedy_forest(s.take(k));
    let part = chosen(s, t, k);
    let scanned = s.take(k);
    // the scan has as many edges at least
    lemma_chosen(s, t, k);
    lemma_part_acyclic(part, t);
    lemma_greedy_forest(s.take(k));
    assert forall|i: int| 0 <= i < s.take(k).len() implies (#[trigger] s.take(k)[i]).fits(n) by {
        assert(s.take(k)[i] == s[i]);
    }
    Kruskal::lemma_forest_fits(s.take(k), n);
    assert(within(ends_of(part), n)) by {
        assert forall|i: int| 0 <= i < ends_of(part).len() implies 0 <= (#[trigger] ends_of(
            part,
        )[i]).0 < n && 0 <= ends_of(part)[i].1 < n by {
            assert(s.take(k).contains(part[i]));
        }
    }
    assert(absorbed(ends_of(part), ends_of(forest))) by {
        assert forall|i: int| 0 <= i < ends_of(part).len() implies connected(
            ends_of(forest),
            (#[trigger] ends_of(part)[i]).0,
            ends_of(part)[i].1,
        ) by {
            assert(scanned.contains(part[i]));
            let j = choose|j: int| 0 <= j < scanned.len() && scanned[j] == part[i];
            assert(ends_of(scanned)[j] == ends_of(part)[i]);
            lemma_edge_connects(ends_of(scanned), j);
        }
    }
    lemma_rank(ends_of(forest), ends_of(part), n);
    if k > 0 {
        lemma_scan_leads(s, t, c, n, k - 1);
        let e = s[k - 1];
        let forest0 = greedy_forest(s.take(k - 1));
        let part0 = chosen(s, t, k - 1);
        let d0 = forest0.len() - part0.len();
        let old_key = last_key(s, c, k - 1);
        let new_key = key(e, c);
        assert(s.take(k).drop_last() =~= s.take(k - 1));
        assert(s.take(k).last() == e);
        lemma_bottleneck_push(forest0, e, true);
        lemma_bottleneck_push(part0, e, true);
        // keys grow along the scan
        if k > 1 {
            assert(precedes(c)(s[k - 2], s[k - 1]));
            assert(old_key <= new_key);
        }
        assert(d0 * old_key <= d0 * new_key) by (nonlinear_arith)
            requires
                d0 >= 0,
                old_key <= new_key || d0 == 0,
        {}
        assert((d0 + 1) * new_key == d0 * new_key + new_key) by (nonlinear_arith);
        assert((d0 - 1) * new_key == d0 * new_key - new_key) by (nonlinear_arith);
    }
}

/// The forest that the scan collects is the cheapest spanning tree: no spanning tree of
/// edges of the graph has a smaller sum of keys.
pub proof fn lemma_forest_is_cheapest(es: Seq<Edge>, t: Seq<Edge>, c: CalculationType, n: nat)
    requires
        forall|i: int| 0 <= i < es.len() ==> (#[trigger] es[i]).fits(n),
        edges_within(t, es),
        is_spanning_tree(ends_of(t), n),
    ensures
        forest_sum(es, c) <= key_sum(t, c),
        spans(ends_of(es), n),
{
    let s = sorted_edges(es, c);
    let forest = greedy_forest(s);
    let k = s.len() as int;
    lemma_sorted_same_edges(es, c);
    lemma_sorted_keeps_graph(es, c, n);
    assert(s.take(k) =~= s);
    lemma_scan_leads(s, t, c, n, k);
    lemma_chosen(s, t, k);
    // the graph spans, as its part `t` does
    lemma_ends_contained(t, es);
    assert(spans(ends_of(es), n)) by {
        assert forall|a: int, b: int| 0 <= a < n && 0 <= b < n implies #[trigger] connected(
            ends_of(es),
            a,
            b,
        ) by {
            assert(connected(ends_of(t), a, b));
            lemma_connected_mono(ends_of(t), ends_of(es), a, b);
        }
    }
    // so the forest spans, and has as many edges as `t`
    lemma_greedy_forest(s);
    lemma_same_reach_spans(ends_of(forest), ends_of(s), n);
    Kruskal::lemma_forest_fits(s, n);
    lemma_tree_size(ends_of(forest), n);
    // the chosen edges are the edges of `t`
    lemma_acyclic_distinct(t);
    let part = chosen(s, t, k);
    assert forall|x: Edge| part.contains(x) <==> t.contains(x) by {
        if part.contains(x) {
            let i = choose|i: int| 0 <= i < part.len() && part[i] == x;
            assert(t.contains(part[i]));
        }
        if t.contains(x) {
            let i = choose|i: int| 0 <= i < t.len() && t[i] == x;
            assert(es.contains(t[i]));
            let j = choose|j: int| 0 <= j < es.len() && es[j] == x;
            assert(s.contains(es[j]));
        }
    }
    lemma_same_values_same_edges(part, t);
    lemma_sum_of_same_edges(part, t, c);
    assert((forest.len() - part.len()) * last_key(s, c, k) == 0) by (nonlinear_arith)
        requires
            forest.len() - part.len() == 0,
    {}
}

} // verus!
