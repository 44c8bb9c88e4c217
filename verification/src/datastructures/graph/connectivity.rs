use crate::datastructures::uf::union_find::{
    is_partition, lemma_single_class, lemma_united_count, merged, representatives, singletons,
    united,
};
use vstd::prelude::*;

verus! {

/// The edge `e` has `a` and `b` as its two ends, in either order.
pub open spec fn joins(e: (int, int), a: int, b: int) -> bool {
    (e.0 == a && e.1 == b) || (e.0 == b && e.1 == a)
}

/// Some edge of `es` joins `a` and `b`.
pub open spec fn adjacent(es: Seq<(int, int)>, a: int, b: int) -> bool {
    exists|i: int| 0 <= i < es.len() && joins(#[trigger] es[i], a, b)
}

/// `p` lists the nodes of a walk along edges of `es`.
pub open spec fn is_walk(es: Seq<(int, int)>, p: Seq<int>) -> bool {
    &&& p.len() >= 1
    &&& forall|k: int| 0 <= k < p.len() - 1 ==> adjacent(es, #[trigger] p[k], p[k + 1])
}

/// A walk along edges of `es` leads from `a` to `b`.
pub open spec fn connected(es: Seq<(int, int)>, a: int, b: int) -> bool {
    exists|p: Seq<int>| #[trigger] is_walk(es, p) && p[0] == a && p.last() == b
}

/// Any two of the nodes `0..n` are connected.
pub open spec fn spans(es: Seq<(int, int)>, n: nat) -> bool {
    forall|a: int, b: int| 0 <= a < n && 0 <= b < n ==> #[trigger] connected(es, a, b)
}

/// No edge closes a cycle: without it, its ends are not connected.
pub open spec fn acyclic(es: Seq<(int, int)>) -> bool {
    forall|i: int| 0 <= i < es.len() ==> !connected(es.remove(i), (#[trigger] es[i]).0, es[i].1)
}

/// Every edge has both ends among the nodes `0..n`.
pub open spec fn within(es: Seq<(int, int)>, n: nat) -> bool {
    forall|i: int| 0 <= i < es.len() ==> 0 <= (#[trigger] es[i]).0 < n && 0 <= es[i].1 < n
}

/// `es` is a spanning tree of the nodes `0..n`.
pub open spec fn is_spanning_tree(es: Seq<(int, int)>, n: nat) -> bool {
    &&& es.len() + 1 == n
    &&& within(es, n)
    &&& acyclic(es)
    &&& spans(es, n)
}

/// Every edge of `es` occurs in `es2`.
pub open spec fn contained(es: Seq<(int, int)>, es2: Seq<(int, int)>) -> bool {
    forall|i: int| 0 <= i < es.len() ==> es2.contains(#[trigger] es[i])
}

/// The two sets of edges connect the same nodes.
pub open spec fn same_reach(es: Seq<(int, int)>, es2: Seq<(int, int)>) -> bool {
    forall|a: int, b: int|
        #![trigger connected(es, a, b)]
        #![trigger connected(es2, a, b)]
        connected(es, a, b) <==> connected(es2, a, b)
}

pub proof fn lemma_connected_refl(es: Seq<(int, int)>, a: int)
    ensures
        connected(es, a, a),
{
    let p = seq![a];
    assert(is_walk(es, p));
    assert(p[0] == a && p.last() == a);
}

pub proof fn lemma_connected_trans(es: Seq<(int, int)>, a: int, b: int, c: int)
    requires
        connected(es, a, b),
        connected(es, b, c),
    ensures
        connected(es, a, c),
{
    let p = choose|p: Seq<int>| #[trigger] is_walk(es, p) && p[0] == a && p.last() == b;
    let q = choose|q: Seq<int>| #[trigger] is_walk(es, q) && q[0] == b && q.last() == c;
    let r = p.drop_last() + q;
    assert forall|k: int| 0 <= k < r.len() - 1 implies adjacent(es, #[trigger] r[k], r[k + 1]) by {
        if k < p.len() - 2 {
            assert(r[k] == p[k] && r[k + 1] == p[k + 1]);
        } else if k == p.len() - 2 {
            assert(r[k] == p[k]);
            assert(r[k + 1] == q[0]);
            assert(adjacent(es, p[k], p[k + 1]));
        } else {
            let j = k - (p.len() - 1);
            assert(r[k] == q[j] && r[k + 1] == q[j + 1]);
            assert(adjacent(es, q[j], q[j + 1]));
        }
    }
    assert(is_walk(es, r));
    assert(r[0] == a) by {
        if p.len() == 1 {
            assert(r[0] == q[0]);
        } else {
            assert(r[0] == p[0]);
        }
    }
    assert(r.last() == c);
}

pub proof fn lemma_adjacent_connected(es: Seq<(int, int)>, a: int, b: int)
    requires
        adjacent(es, a, b),
    ensures
        connected(es, a, b),
        connected(es, b, a),
{
    let i = choose|i: int| 0 <= i < es.len() && joins(#[trigger] es[i], a, b);
    assert(joins(es[i], b, a));
    let p = seq![a, b];
    assert(is_walk(es, p));
    assert(p[0] == a && p.last() == b);
    let q = seq![b, a];
    assert(is_walk(es, q));
    assert(q[0] == b && q.last() == a);
}

/// The edge at position `i` connects its own ends.
pub proof fn lemma_edge_connects(es: Seq<(int, int)>, i: int)
    requires
        0 <= i < es.len(),
    ensures
        connected(es, es[i].0, es[i].1),
        connected(es, es[i].1, es[i].0),
{
    assert(joins(es[i], es[i].0, es[i].1));
    lemma_adjacent_connected(es, es[i].0, es[i].1);
}

proof fn lemma_walk_back(es: Seq<(int, int)>, p: Seq<int>)
    requires
        is_walk(es, p),
    ensures
        connected(es, p.last(), p[0]),
    decreases p.len(),
{
    if p.len() == 1 {
        lemma_connected_refl(es, p[0]);
    } else {
        let q = p.drop_last();
        assert(is_walk(es, q)) by {
            assert forall|k: int| 0 <= k < q.len() - 1 implies adjacent(
                es,
                #[trigger] q[k],
                q[k + 1],
            ) by {
                assert(q[k] == p[k] && q[k + 1] == p[k + 1]);
            }
        }
        lemma_walk_back(es, q);
        let k = p.len() - 2;
        assert(adjacent(es, p[k], p[k + 1]));
        lemma_adjacent_connected(es, p[k], p[k + 1]);
        lemma_connected_trans(es, p.last(), q.last(), p[0]);
    }
}

pub proof fn lemma_connected_sym(es: Seq<(int, int)>, a: int, b: int)
    requires
        connected(es, a, b),
    ensures
        connected(es, b, a),
{
    let p = choose|p: Seq<int>| #[trigger] is_walk(es, p) && p[0] == a && p.last() == b;
    lemma_walk_back(es, p);
}

/// More edges connect at least as much.
pub proof fn lemma_connected_mono(es: Seq<(int, int)>, es2: Seq<(int, int)>, a: int, b: int)
    requires
        contained(es, es2),
        connected(es, a, b),
    ensures
        connected(es2, a, b),
{
    let p = choose|p: Seq<int>| #[trigger] is_walk(es, p) && p[0] == a && p.last() == b;
    assert forall|k: int| 0 <= k < p.len() - 1 implies adjacent(es2, #[trigger] p[k], p[k + 1]) by {
        assert(adjacent(es, p[k], p[k + 1]));
        let i = choose|i: int| 0 <= i < es.len() && joins(#[trigger] es[i], p[k], p[k + 1]);
        assert(es2.contains(es[i]));
        let j = choose|j: int| 0 <= j < es2.len() && es2[j] == es[i];
        assert(joins(es2[j], p[k], p[k + 1]));
    }
    assert(is_walk(es2, p));
}

/// What one more edge can connect, said of a single walk.
proof fn lemma_walk_split(es: Seq<(int, int)>, e: (int, int), p: Seq<int>)
    requires
        is_walk(es.push(e), p),
    ensures
        connected(es, p[0], p.last()) || (connected(es, p[0], e.0) && connected(es, e.1, p.last()))
            || (connected(es, p[0], e.1) && connected(es, e.0, p.last())),
    decreases p.len(),
{
    let a = p[0];
    let b = p.last();
    if p.len() == 1 {
        lemma_connected_refl(es, a);
    } else {
        let q = p.drop_last();
        let c = q.last();
        assert(is_walk(es.push(e), q)) by {
            assert forall|k: int| 0 <= k < q.len() - 1 implies adjacent(
                es.push(e),
                #[trigger] q[k],
                q[k + 1],
            ) by {
                assert(q[k] == p[k] && q[k + 1] == p[k + 1]);
            }
        }
        lemma_walk_split(es, e, q);
        let k = p.len() - 2;
        assert(p[k] == c && p[k + 1] == b);
        assert(adjacent(es.push(e), p[k], p[k + 1]));
        let j = choose|j: int| 0 <= j < es.push(e).len() && joins(#[trigger] es.push(e)[j], c, b);
        lemma_connected_refl(es, e.0);
        lemma_connected_refl(es, e.1);
        if j < es.len() {
            assert(es.push(e)[j] == es[j]);
            assert(joins(es[j], c, b));
            lemma_adjacent_connected(es, c, b);
            if connected(es, a, c) {
                lemma_connected_trans(es, a, c, b);
            } else if connected(es, a, e.0) && connected(es, e.1, c) {
                lemma_connected_trans(es, e.1, c, b);
            } else {
                lemma_connected_trans(es, e.0, c, b);
            }
        } else {
            assert(es.push(e)[j] == e);
            if connected(es, a, c) {
            } else if connected(es, a, e.0) && connected(es, e.1, c) {
                if c == e.0 {
                } else {
                    lemma_connected_trans(es, a, e.0, e.0);
                    // c == e.1 and b == e.0: a reaches e.0 already
                }
            } else {
                if c == e.1 {
                } else {
                    lemma_connected_trans(es, a, e.1, e.1);
                }
            }
        }
    }
}

/// What one more edge connects: what was connected before, and what its two ends bring
/// together.
pub proof fn lemma_push_connects(es: Seq<(int, int)>, e: (int, int), a: int, b: int)
    ensures
        connected(es.push(e), a, b) <==> (connected(es, a, b) || (connected(es, a, e.0)
            && connected(es, e.1, b)) || (connected(es, a, e.1) && connected(es, e.0, b))),
{
    let es2 = es.push(e);
    if connected(es2, a, b) {
        let p = choose|p: Seq<int>| #[trigger] is_walk(es2, p) && p[0] == a && p.last() == b;
        lemma_walk_split(es, e, p);
    }
    assert(contained(es, es2)) by {
        assert forall|i: int| 0 <= i < es.len() implies es2.contains(#[trigger] es[i]) by {
            assert(es2[i] == es[i]);
        }
    }
    assert(es2[es.len() as int] == e);
    lemma_edge_connects(es2, es.len() as int);
    if connected(es, a, b) {
        lemma_connected_mono(es, es2, a, b);
    }
    if connected(es, a, e.0) && connected(es, e.1, b) {
        lemma_connected_mono(es, es2, a, e.0);
        lemma_connected_mono(es, es2, e.1, b);
        lemma_connected_trans(es2, a, e.0, e.1);
        lemma_connected_trans(es2, a, e.1, b);
    }
    if connected(es, a, e.1) && connected(es, e.0, b) {
        lemma_connected_mono(es, es2, a, e.1);
        lemma_connected_mono(es, es2, e.0, b);
        lemma_connected_trans(es2, a, e.1, e.0);
        lemma_connected_trans(es2, a, e.0, b);
    }
}

/// An edge between nodes that are connected already connects nothing new.
pub proof fn lemma_push_redundant(es: Seq<(int, int)>, e: (int, int))
    requires
        connected(es, e.0, e.1),
    ensures
        same_reach(es.push(e), es),
{
    assert forall|a: int, b: int|
        #![trigger connected(es.push(e), a, b)]
        #![trigger connected(es, a, b)]
        connected(es.push(e), a, b) <==> connected(es, a, b) by {
        lemma_push_connects(es, e, a, b);
        lemma_connected_sym(es, e.0, e.1);
        if connected(es, a, e.0) && connected(es, e.1, b) {
            lemma_connected_trans(es, a, e.0, e.1);
            lemma_connected_trans(es, a, e.1, b);
        }
        if connected(es, a, e.1) && connected(es, e.0, b) {
            lemma_connected_trans(es, a, e.1, e.0);
            lemma_connected_trans(es, a, e.0, b);
        }
    }
}

/// An edge between nodes that were not connected leaves a cycle-free set cycle-free.
pub proof fn lemma_push_keeps_acyclic(es: Seq<(int, int)>, e: (int, int))
    requires
        acyclic(es),
        !connected(es, e.0, e.1),
    ensures
        acyclic(es.push(e)),
{
    let es2 = es.push(e);
    assert forall|i: int| 0 <= i < es2.len() implies !connected(
        es2.remove(i),
        (#[trigger] es2[i]).0,
        es2[i].1,
    ) by {
        if i == es.len() {
            assert(es2.remove(i) =~= es);
        } else {
            let rest = es.remove(i);
            let x = es[i].0;
            let y = es[i].1;
            assert(es2.remove(i) =~= rest.push(e));
            assert(!connected(rest, x, y));
            if connected(rest.push(e), x, y) {
                lemma_push_connects(rest, e, x, y);
                assert(contained(rest, es)) by {
                    assert forall|k: int| 0 <= k < rest.len() implies es.contains(
                        #[trigger] rest[k],
                    ) by {
                        if k < i {
                            assert(es[k] == rest[k]);
                        } else {
                            assert(es[k + 1] == rest[k]);
                        }
                    }
                }
                lemma_edge_connects(es, i);
                if connected(rest, x, e.0) && connected(rest, e.1, y) {
                    lemma_connected_mono(rest, es, x, e.0);
                    lemma_connected_mono(rest, es, e.1, y);
                    lemma_connected_sym(es, x, e.0);
                    lemma_connected_sym(es, e.1, y);
                    lemma_connected_trans(es, e.0, x, y);
                    lemma_connected_trans(es, e.0, y, e.1);
                } else {
                    lemma_connected_mono(rest, es, x, e.1);
                    lemma_connected_mono(rest, es, e.0, y);
                    lemma_connected_sym(es, x, e.1);
                    lemma_connected_trans(es, e.0, y, x);
                    lemma_connected_trans(es, e.0, x, e.1);
                }
                assert(false);
            }
        }
    }
}

/// Sets of edges that hold each other's edges connect the same nodes.
pub proof fn lemma_same_edges_same_reach(es: Seq<(int, int)>, es2: Seq<(int, int)>)
    requires
        contained(es, es2),
        contained(es2, es),
    ensures
        same_reach(es, es2),
{
    assert forall|a: int, b: int|
        #![trigger connected(es, a, b)]
        #![trigger connected(es2, a, b)]
        connected(es, a, b) <==> connected(es2, a, b) by {
        if connected(es, a, b) {
            lemma_connected_mono(es, es2, a, b);
        }
        if connected(es2, a, b) {
            lemma_connected_mono(es2, es, a, b);
        }
    }
}

/// Sets of edges that connect the same nodes span the same ranges of nodes.
pub proof fn lemma_same_reach_spans(es: Seq<(int, int)>, es2: Seq<(int, int)>, n: nat)
    requires
        same_reach(es, es2),
    ensures
        spans(es, n) <==> spans(es2, n),
{
    if spans(es, n) {
        assert forall|a: int, b: int| 0 <= a < n && 0 <= b < n implies #[trigger] connected(
            es2,
            a,
            b,
        ) by {
            assert(connected(es, a, b));
        }
    }
    if spans(es2, n) {
        assert forall|a: int, b: int| 0 <= a < n && 0 <= b < n implies #[trigger] connected(
            es,
            a,
            b,
        ) by {
            assert(connected(es2, a, b));
        }
    }
}

/// The labelling gives two of the nodes `0..n` one label exactly when `es` connects them.
pub open spec fn agrees(roots: Seq<int>, es: Seq<(int, int)>) -> bool {
    forall|a: int, b: int|
        0 <= a < roots.len() && 0 <= b < roots.len() ==> (roots[a] == roots[b] <==> #[trigger] connected(
            es,
            a,
            b,
        ))
}

/// Uniting the classes of the two ends of an edge keeps the labelling in step with the
/// edges.
pub proof fn lemma_union_agrees(roots: Seq<int>, es: Seq<(int, int)>, e: (int, int))
    requires
        is_partition(roots),
        agrees(roots, es),
        0 <= e.0 < roots.len(),
        0 <= e.1 < roots.len(),
    ensures
        agrees(united(roots, e.0, e.1), es.push(e)),
{
    let after = united(roots, e.0, e.1);
    assert forall|a: int, b: int| 0 <= a < after.len() && 0 <= b < after.len() implies (after[a]
        == after[b] <==> #[trigger] connected(es.push(e), a, b)) by {
        lemma_push_connects(es, e, a, b);
        assert(roots[a] == roots[b] <==> connected(es, a, b));
        assert(roots[a] == roots[e.0] <==> connected(es, a, e.0));
        assert(roots[a] == roots[e.1] <==> connected(es, a, e.1));
        assert(roots[e.1] == roots[b] <==> connected(es, e.1, b));
        assert(roots[e.0] == roots[b] <==> connected(es, e.0, b));
        assert(roots[e.0] == roots[e.1] <==> connected(es, e.0, e.1));
    }
}

/// A labelling in step with the edges has one class at most exactly when the edges span.
pub proof fn lemma_agrees_spans(roots: Seq<int>, es: Seq<(int, int)>)
    requires
        is_partition(roots),
        agrees(roots, es),
    ensures
        representatives(roots).len() <= 1 <==> spans(es, roots.len()),
{
    lemma_single_class(roots);
    if spans(es, roots.len()) {
        assert forall|a: int, b: int|
            0 <= a < roots.len() && 0 <= b < roots.len() implies roots[a] == roots[b] by {
            assert(connected(es, a, b));
        }
    }
}

/// Joining the label of one end of an edge to the label of the other keeps any
/// labelling in step with the edges.
pub proof fn lemma_merge_agrees(
    lab: Seq<int>,
    es: Seq<(int, int)>,
    e: (int, int),
    from: int,
    to: int,
)
    requires
        agrees(lab, es),
        0 <= e.0 < lab.len(),
        0 <= e.1 < lab.len(),
        (from == lab[e.0] && to == lab[e.1]) || (from == lab[e.1] && to == lab[e.0]),
    ensures
        agrees(merged(lab, from, to), es.push(e)),
{
    let after = merged(lab, from, to);
    assert forall|a: int, b: int| 0 <= a < after.len() && 0 <= b < after.len() implies (after[a]
        == after[b] <==> #[trigger] connected(es.push(e), a, b)) by {
        lemma_push_connects(es, e, a, b);
        assert(lab[a] == lab[b] <==> connected(es, a, b));
        assert(lab[a] == lab[e.0] <==> connected(es, a, e.0));
        assert(lab[a] == lab[e.1] <==> connected(es, a, e.1));
        assert(lab[e.1] == lab[b] <==> connected(es, e.1, b));
        assert(lab[e.0] == lab[b] <==> connected(es, e.0, b));
    }
}

/// `es2` connects the ends of every edge of `es`.
pub open spec fn absorbed(es: Seq<(int, int)>, es2: Seq<(int, int)>) -> bool {
    forall|i: int| 0 <= i < es.len() ==> connected(es2, (#[trigger] es[i]).0, es[i].1)
}

proof fn lemma_walk_absorbed(es: Seq<(int, int)>, es2: Seq<(int, int)>, p: Seq<int>)
    requires
        absorbed(es, es2),
        is_walk(es, p),
    ensures
        connected(es2, p[0], p.last()),
    decreases p.len(),
{
    if p.len() == 1 {
        lemma_connected_refl(es2, p[0]);
    } else {
        let q = p.drop_last();
        assert(is_walk(es, q)) by {
            assert forall|k: int| 0 <= k < q.len() - 1 implies adjacent(
                es,
                #[trigger] q[k],
                q[k + 1],
            ) by {
                assert(q[k] == p[k] && q[k + 1] == p[k + 1]);
            }
        }
        lemma_walk_absorbed(es, es2, q);
        let k = p.len() - 2;
        assert(adjacent(es, p[k], p[k + 1]));
        let i = choose|i: int| 0 <= i < es.len() && joins(#[trigger] es[i], p[k], p[k + 1]);
        assert(connected(es2, es[i].0, es[i].1));
        if es[i].0 != p[k] {
            lemma_connected_sym(es2, es[i].0, es[i].1);
        }
        lemma_connected_trans(es2, p[0], p[k], p[k + 1]);
    }
}

/// Edges whose ends are connected already connect nothing more.
pub proof fn lemma_absorbed_reach(es: Seq<(int, int)>, es2: Seq<(int, int)>, a: int, b: int)
    requires
        absorbed(es, es2),
        connected(es, a, b),
    ensures
        connected(es2, a, b),
{
    let p = choose|p: Seq<int>| #[trigger] is_walk(es, p) && p[0] == a && p.last() == b;
    lemma_walk_absorbed(es, es2, p);
}

/// Where every edge of a spanning set has its ends connected by `es`, `es` spans too.
pub proof fn lemma_absorbed_spans_any(t: Seq<(int, int)>, es: Seq<(int, int)>, n: nat)
    requires
        absorbed(t, es),
        spans(t, n),
    ensures
        spans(es, n),
{
    assert forall|a: int, b: int| 0 <= a < n && 0 <= b < n implies #[trigger] connected(es, a, b) by {
        assert(connected(t, a, b));
        lemma_absorbed_reach(t, es, a, b);
    }
}

/// A set of edges that holds a spanning set spans.
pub proof fn lemma_contained_spans(es: Seq<(int, int)>, es2: Seq<(int, int)>, n: nat)
    requires
        contained(es, es2),
        spans(es, n),
    ensures
        spans(es2, n),
{
    assert forall|a: int, b: int| 0 <= a < n && 0 <= b < n implies #[trigger] connected(es2, a, b) by {
        assert(connected(es, a, b));
        lemma_connected_mono(es, es2, a, b);
    }
}

/// The labelling that uniting the ends of each edge in turn leaves.
pub open spec fn labelling_of(es: Seq<(int, int)>, n: nat) -> Seq<int>
    decreases es.len(),
{
    if es.len() == 0 {
        singletons(n)
    } else {
        united(labelling_of(es.drop_last(), n), es.last().0, es.last().1)
    }
}

/// Without edges a node is connected to itself only.
pub proof fn lemma_no_edges(a: int, b: int)
    ensures
        connected(Seq::<(int, int)>::empty(), a, b) <==> a == b,
{
    let es = Seq::<(int, int)>::empty();
    lemma_connected_refl(es, a);
    if connected(es, a, b) && a != b {
        let p = choose|p: Seq<int>| #[trigger] is_walk(es, p) && p[0] == a && p.last() == b;
        assert(adjacent(es, p[0], p[1]));
    }
}

/// The labelling of a set of edges is a partition in step with the edges.
pub proof fn lemma_labelling(es: Seq<(int, int)>, n: nat)
    requires
        within(es, n),
    ensures
        is_partition(labelling_of(es, n)),
        labelling_of(es, n).len() == n,
        agrees(labelling_of(es, n), es),
    decreases es.len(),
{
    if es.len() == 0 {
        let l = singletons(n);
        assert forall|a: int, b: int| 0 <= a < l.len() && 0 <= b < l.len() implies (l[a] == l[b]
            <==> #[trigger] connected(es, a, b)) by {
            assert(es =~= Seq::<(int, int)>::empty());
            lemma_no_edges(a, b);
        }
    } else {
        let rest = es.drop_last();
        let e = es.last();
        assert(within(rest, n)) by {
            assert forall|i: int| 0 <= i < rest.len() implies 0 <= (#[trigger] rest[i]).0 < n && 0
                <= rest[i].1 < n by {
                assert(rest[i] == es[i]);
            }
        }
        lemma_labelling(rest, n);
        lemma_united_count(labelling_of(rest, n), e.0, e.1);
        lemma_union_agrees(labelling_of(rest, n), rest, e);
        assert(rest.push(e) =~= es);
    }
}

/// The edges before an edge of a cycle-free set do not connect its ends.
pub proof fn lemma_acyclic_prefix(es: Seq<(int, int)>)
    requires
        acyclic(es),
        es.len() > 0,
    ensures
        acyclic(es.drop_last()),
        !connected(es.drop_last(), es.last().0, es.last().1),
{
    let rest = es.drop_last();
    let last = es.len() - 1;
    assert(es.remove(last) =~= rest);
    assert(!connected(es.remove(last), es[last].0, es[last].1));
    assert forall|i: int| 0 <= i < rest.len() implies !connected(
        rest.remove(i),
        (#[trigger] rest[i]).0,
        rest[i].1,
    ) by {
        assert(rest[i] == es[i]);
        assert(!connected(es.remove(i), es[i].0, es[i].1));
        if connected(rest.remove(i), rest[i].0, rest[i].1) {
            assert(contained(rest.remove(i), es.remove(i))) by {
                assert forall|k: int| 0 <= k < rest.remove(i).len() implies es.remove(i).contains(
                    #[trigger] rest.remove(i)[k],
                ) by {
                    assert(es.remove(i)[k] == rest.remove(i)[k]);
                }
            }
            lemma_connected_mono(rest.remove(i), es.remove(i), es[i].0, es[i].1);
        }
    }
}

/// Each edge of a cycle-free set takes one class away.
pub proof fn lemma_acyclic_count(es: Seq<(int, int)>, n: nat)
    requires
        within(es, n),
        acyclic(es),
    ensures
        representatives(labelling_of(es, n)).len() + es.len() == n,
    decreases es.len(),
{
    if es.len() == 0 {
        vstd::set_lib::lemma_int_range(0, n as int);
        assert(representatives(singletons(n)) =~= vstd::set_lib::set_int_range(0, n as int));
    } else {
        let rest = es.drop_last();
        let e = es.last();
        lemma_acyclic_prefix(es);
        assert(within(rest, n)) by {
            assert forall|i: int| 0 <= i < rest.len() implies 0 <= (#[trigger] rest[i]).0 < n && 0
                <= rest[i].1 < n by {
                assert(rest[i] == es[i]);
            }
        }
        lemma_acyclic_count(rest, n);
        lemma_labelling(rest, n);
        lemma_united_count(labelling_of(rest, n), e.0, e.1);
        assert(connected(rest, e.0, e.1) <==> labelling_of(rest, n)[e.0] == labelling_of(rest, n)[e.1]);
    }
}

/// A cycle-free set of edges that spans `n` nodes has `n - 1` edges.
pub proof fn lemma_tree_size(es: Seq<(int, int)>, n: nat)
    requires
        within(es, n),
        acyclic(es),
        spans(es, n),
        n >= 1,
    ensures
        es.len() + 1 == n,
{
    lemma_acyclic_count(es, n);
    lemma_labelling(es, n);
    lemma_agrees_spans(labelling_of(es, n), es);
    lemma_single_class(labelling_of(es, n));
}

} // verus!
