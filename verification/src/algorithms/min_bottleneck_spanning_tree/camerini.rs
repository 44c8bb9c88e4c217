use crate::algorithms::bottleneck::{
    all_lower_bounds, has_least_bottleneck, is_lower_bound, lemma_absorbed_spans,
    lemma_least_bottleneck, reaches,
};
use crate::algorithms::min_sum_spanning_tree::kruskal::{
    bottleneck_of, inverse_regime, lemma_bottleneck_push, lemma_ends_push, lemma_sorted_same_edges,
    CalculationType,
};
use crate::algorithms::quick_select::QuickSelect;
use crate::algorithms::util::{edges_within, Util};
use crate::datastructures::graph::connectivity::{
    absorbed, acyclic, agrees, connected, contained, is_spanning_tree, lemma_absorbed_reach,
    lemma_acyclic_count, lemma_agrees_spans, lemma_connected_mono, lemma_edge_connects,
    lemma_labelling, lemma_merge_agrees, lemma_push_keeps_acyclic, lemma_tree_size, same_reach,
    spans, within,
};
use crate::datastructures::graph::edge::{ends_of, max_weight, Edge, INFINITY, NEG_INFINITY};
use crate::datastructures::graph::mutable_graph::MutableGraph;
use crate::datastructures::uf::union_find::{
    is_partition, lemma_single_class, lemma_united_count, merged, singletons, UF,
};
use vstd::pervasive::unreached;
use vstd::prelude::*;
use vstd::set_lib::{lemma_int_range, lemma_len_subset, set_int_range};

verus! {

/// An edge of the graph as the search sees it: its place among the edges of the graph,
/// and the super-nodes that its two ends have become.
#[derive(Clone, Copy)]
pub struct Working {
    pub source: usize,
    pub either: usize,
    pub other: usize,
}

/// The ends that the working edges have in the graph.
pub open spec fn true_ends(arena: Seq<Edge>, ws: Seq<Working>) -> Seq<(int, int)> {
    Seq::new(ws.len(), |i: int| arena[ws[i].source as int].ends())
}

/// The labels of the nodes after the super-nodes `0..roots.len()` are relabelled by
/// `roots`.
pub open spec fn lifted(comp: Seq<int>, roots: Seq<int>) -> Seq<int> {
    Seq::new(
        comp.len(),
        |a: int|
            if 0 <= comp[a] < roots.len() {
                roots[comp[a]]
            } else {
                comp[a]
            },
    )
}

/// Each working edge stands for an edge of the graph and carries the labels of that
/// edge's ends, which are super-nodes `0..k`.
pub open spec fn labelled(arena: Seq<Edge>, n: nat, comp: Seq<int>, k: nat, ws: Seq<Working>) -> bool {
    forall|i: int|
        0 <= i < ws.len() ==> {
            let w = #[trigger] ws[i];
            &&& w.source < arena.len()
            &&& arena[w.source as int].either < n
            &&& arena[w.source as int].other < n
            &&& w.either == comp[arena[w.source as int].either as int]
            &&& w.other == comp[arena[w.source as int].other as int]
            &&& w.either < k
            &&& w.other < k
        }
}

/// Some working edge has the super-node `id` as an end.
pub open spec fn is_used(ws: Seq<Working>, id: int) -> bool {
    exists|j: int| 0 <= j < ws.len() && ((#[trigger] ws[j]).either == id || ws[j].other == id)
}

/// The working edge `w` is `old` with its ends relabelled by the numbers that the
/// classes of its ends have got.
pub open spec fn is_relabelled(w: Working, old: Working, roots: Seq<int>, keys: Seq<(bool, usize)>) -> bool {
    &&& w.source == old.source
    &&& keys[roots[old.either as int]].0
    &&& keys[roots[old.other as int]].0
    &&& w.either == keys[roots[old.either as int]].1
    &&& w.other == keys[roots[old.other as int]].1
}

/// `e` is the edge of the graph that some working edge stands for.
pub open spec fn is_working(arena: Seq<Edge>, ws: Seq<Working>, e: Edge) -> bool {
    exists|j: int| 0 <= j < ws.len() && arena[(#[trigger] ws[j]).source as int] == e
}

/// The labelling `lab` with its labels renamed: a class that has got a number carries
/// that number, and the other labels are moved out of the way of the numbers.
pub open spec fn renamed(lab: Seq<int>, numbers: Seq<int>, ids: int) -> Seq<int> {
    Seq::new(
        lab.len(),
        |a: int|
            if 0 <= lab[a] < numbers.len() && numbers[lab[a]] >= 0 {
                numbers[lab[a]]
            } else if lab[a] >= 0 {
                ids + lab[a]
            } else {
                lab[a]
            },
    )
}

/// Whether a working edge weighs `t` at most.
pub open spec fn is_light(arena: Seq<Edge>, t: int) -> spec_fn(Working) -> bool {
    |w: Working| arena[w.source as int].weight <= t
}

/// Whether a working edge weighs more than `t`.
pub open spec fn is_heavy(arena: Seq<Edge>, t: int) -> spec_fn(Working) -> bool {
    |w: Working| arena[w.source as int].weight > t
}

/// The ends of two lists of edges, one after the other.
pub proof fn lemma_ends_concat(a: Seq<Edge>, b: Seq<Edge>)
    ensures
        ends_of(a + b) == ends_of(a) + ends_of(b),
{
    assert(ends_of(a + b) =~= ends_of(a) + ends_of(b));
}

/// What is connected stays connected when edges are added at the end.
pub proof fn lemma_grow_right(es: Seq<(int, int)>, more: Seq<(int, int)>, a: int, b: int)
    requires
        connected(es, a, b),
    ensures
        connected(es + more, a, b),
{
    assert(contained(es, es + more)) by {
        assert forall|i: int| 0 <= i < es.len() implies (es + more).contains(#[trigger] es[i]) by {
            assert((es + more)[i] == es[i]);
        }
    }
    lemma_connected_mono(es, es + more, a, b);
}

/// Two extensions of one set of edges connect the same nodes where each connects the
/// ends of the edges that the other adds.
pub proof fn lemma_same_reach_by_absorption(
    base: Seq<(int, int)>,
    x: Seq<(int, int)>,
    y: Seq<(int, int)>,
)
    requires
        absorbed(x, base + y),
        absorbed(y, base + x),
    ensures
        same_reach(base + x, base + y),
{
    assert(absorbed(base + x, base + y)) by {
        assert forall|i: int| 0 <= i < (base + x).len() implies connected(
            base + y,
            (#[trigger] (base + x)[i]).0,
            (base + x)[i].1,
        ) by {
            if i < base.len() {
                assert((base + y)[i] == (base + x)[i]);
                lemma_edge_connects(base + y, i);
            } else {
                assert((base + x)[i] == x[i - base.len()]);
            }
        }
    }
    assert(absorbed(base + y, base + x)) by {
        assert forall|i: int| 0 <= i < (base + y).len() implies connected(
            base + x,
            (#[trigger] (base + y)[i]).0,
            (base + y)[i].1,
        ) by {
            if i < base.len() {
                assert((base + x)[i] == (base + y)[i]);
                lemma_edge_connects(base + x, i);
            } else {
                assert((base + y)[i] == y[i - base.len()]);
            }
        }
    }
    assert forall|a: int, b: int|
        #![trigger connected(base + x, a, b)]
        #![trigger connected(base + y, a, b)]
        connected(base + x, a, b) <==> connected(base + y, a, b) by {
        if connected(base + x, a, b) {
            lemma_absorbed_reach(base + x, base + y, a, b);
        }
        if connected(base + y, a, b) {
            lemma_absorbed_reach(base + y, base + x, a, b);
        }
    }
}

/// Some working edge stands for the edge at `x`.
pub open spec fn is_source(ws: Seq<Working>, x: int) -> bool {
    exists|j: int| 0 <= j < ws.len() && (#[trigger] ws[j]).source == x
}

/// Every super-node `0..k` is the label of a node.
pub open spec fn covers(comp: Seq<int>, k: nat) -> bool {
    forall|c: int| 0 <= c < k ==> #[trigger] is_label(comp, c)
}

/// `c` is the label of a node.
pub open spec fn is_label(comp: Seq<int>, c: int) -> bool {
    exists|a: int| 0 <= a < comp.len() && #[trigger] comp[a] == c
}

/// Every edge of the graph is a working edge still, or has its ends connected by the
/// edges found so far, or weighs `hi` at least; and no working edge weighs more than
/// `hi`.
pub open spec fn accounted(
    arena: Seq<Edge>,
    n: nat,
    ws: Seq<Working>,
    base: Seq<(int, int)>,
    hi: int,
) -> bool {
    &&& forall|x: int|
        0 <= x < arena.len() ==> is_source(ws, x) || connected(
            base,
            (#[trigger] arena[x]).either as int,
            arena[x].other as int,
        ) || arena[x].weight >= hi
    &&& forall|j: int| 0 <= j < ws.len() ==> arena[(#[trigger] ws[j]).source as int].weight <= hi
    &&& forall|x: int| 0 <= x < arena.len() ==> (#[trigger] arena[x]).either < n && arena[x].other < n
}

/// In a cycle-free set of edges no edge has its ends connected by the edges before a
/// mark that stands before it.
pub proof fn lemma_acyclic_tail(base: Seq<(int, int)>, more: Seq<(int, int)>, i: int)
    requires
        acyclic(base + more),
        0 <= i < more.len(),
    ensures
        !connected(base, more[i].0, more[i].1),
{
    let all = base + more;
    let p = base.len() + i;
    assert(all[p] == more[i]);
    assert(!connected(all.remove(p), all[p].0, all[p].1));
    if connected(base, more[i].0, more[i].1) {
        assert(contained(base, all.remove(p))) by {
            assert forall|k: int| 0 <= k < base.len() implies all.remove(p).contains(
                #[trigger] base[k],
            ) by {
                assert(all.remove(p)[k] == base[k]);
            }
        }
        lemma_connected_mono(base, all.remove(p), more[i].0, more[i].1);
    }
}

/// What the search works on: working edges that carry the labels of their ends, labels
/// that tell which nodes the edges found so far connect, and every edge of the graph
/// accounted for.
pub open spec fn is_state(
    arena: Seq<Edge>,
    n: nat,
    comp: Seq<int>,
    k: nat,
    active: Seq<Working>,
    base: Seq<(int, int)>,
    hi: int,
) -> bool {
    &&& comp.len() == n
    &&& labelled(arena, n, comp, k, active)
    &&& agrees(comp, base)
    &&& acyclic(base)
    &&& covers(comp, k)
    &&& accounted(arena, n, active, base, hi)
}

/// What the search hands back: edges of the graph that, added to the edges found so
/// far, leave no cycle, connect what the working edges would connect, and weigh no more
/// than some edge of every spanning set must weigh.
pub open spec fn is_found(
    arena: Seq<Edge>,
    n: nat,
    active: Seq<Working>,
    base: Seq<(int, int)>,
    out: Seq<Edge>,
) -> bool {
    &&& edges_within(out, arena)
    &&& within(ends_of(out), n)
    &&& acyclic(base + ends_of(out))
    &&& same_reach(base + ends_of(out), base + true_ends(arena, active))
    &&& all_lower_bounds(arena, n, out)
}

/// What a scan of the working edges leaves: the collected edges `skel`, which are light
/// working edges and leave no cycle, and the classes `roots` of super-nodes, which tell
/// what the collected edges connect and hold the ends of every light edge together.
pub open spec fn is_scan(
    arena: Seq<Edge>,
    n: nat,
    comp: Seq<int>,
    k: nat,
    active: Seq<Working>,
    base: Seq<(int, int)>,
    t: int,
    skel: Seq<Edge>,
    roots: Seq<int>,
) -> bool {
    &&& roots.len() == k
    &&& is_partition(roots)
    &&& agrees(lifted(comp, roots), base + ends_of(skel))
    &&& acyclic(base + ends_of(skel))
    &&& edges_within(skel, arena)
    &&& within(ends_of(skel), n)
    &&& forall|j: int|
        0 <= j < active.len() && arena[(#[trigger] active[j]).source as int].weight <= t
            ==> roots[active[j].either as int] == roots[active[j].other as int]
    &&& forall|i: int|
        0 <= i < skel.len() ==> is_working(arena, active, #[trigger] skel[i]) && skel[i].weight <= t
}

/// The collected edges connect the ends of every light working edge.
pub open spec fn light_connected(
    arena: Seq<Edge>,
    active: Seq<Working>,
    t: int,
    grown: Seq<(int, int)>,
) -> bool {
    forall|j: int|
        0 <= j < active.len() && arena[(#[trigger] active[j]).source as int].weight <= t
            ==> connected(
            grown,
            arena[active[j].source as int].either as int,
            arena[active[j].source as int].other as int,
        )
}

/// A single working edge: it is taken where its ends differ, and then no spanning set
/// does without an edge of its weight.
pub proof fn lemma_single(
    arena: Seq<Edge>,
    n: nat,
    comp: Seq<int>,
    k: nat,
    active: Seq<Working>,
    base: Seq<(int, int)>,
    hi: int,
)
    requires
        is_state(arena, n, comp, k, active, base, hi),
        active.len() == 1,
    ensures
        active[0].either != active[0].other ==> is_found(
            arena,
            n,
            active,
            base,
            seq![arena[active[0].source as int]],
        ),
        active[0].either == active[0].other ==> is_found(arena, n, active, base, Seq::<Edge>::empty()),
{
    let w = active[0];
    let edge = arena[w.source as int];
    let all = true_ends(arena, active);
    assert(all =~= seq![edge.ends()]);
    assert(base + all =~= base.push(edge.ends()));
    assert(base + ends_of(Seq::<Edge>::empty()) =~= base);
    if w.either != w.other {
        let out = seq![edge];
        assert(ends_of(out) =~= seq![edge.ends()]);
        assert(base + ends_of(out) =~= base.push(edge.ends()));
        assert(!connected(base, edge.either as int, edge.other as int));
        lemma_push_keeps_acyclic(base, edge.ends());
        assert(arena.contains(edge));
        assert forall|t: Seq<Edge>| #[trigger]
            edges_within(t, arena) && spans(ends_of(t), n) implies reaches(t, edge.weight as int) by {
            if !reaches(t, edge.weight as int) {
                assert(absorbed(ends_of(t), base)) by {
                    assert forall|i: int| 0 <= i < ends_of(t).len() implies connected(
                        base,
                        (#[trigger] ends_of(t)[i]).0,
                        ends_of(t)[i].1,
                    ) by {
                        assert(arena.contains(t[i]));
                        let x = choose|x: int| 0 <= x < arena.len() && arena[x] == t[i];
                        assert(t[i].weight < edge.weight);
                        if is_source(active, x) {
                            let j = choose|j: int|
                                0 <= j < active.len() && (#[trigger] active[j]).source == x;
                        }
                        assert(arena[x].weight < hi);
                    }
                }
                lemma_absorbed_spans(ends_of(t), base, n);
                assert(connected(base, edge.either as int, edge.other as int));
            }
        }
        assert(is_lower_bound(arena, n, out[0].weight as int));
        assert(within(ends_of(out), n)) by {
            assert(ends_of(out)[0] == edge.ends());
        }
    } else {
        assert(connected(base, edge.either as int, edge.other as int));
        crate::datastructures::graph::connectivity::lemma_push_redundant(base, edge.ends());
    }
}

/// After a scan the collected edges connect the ends of every light working edge, and
/// the working edges connect the ends of every collected edge.
pub proof fn lemma_scan_connects(
    arena: Seq<Edge>,
    n: nat,
    comp: Seq<int>,
    k: nat,
    active: Seq<Working>,
    base: Seq<(int, int)>,
    t: int,
    skel: Seq<Edge>,
    roots: Seq<int>,
)
    requires
        comp.len() == n,
        labelled(arena, n, comp, k, active),
        is_scan(arena, n, comp, k, active, base, t, skel, roots),
    ensures
        light_connected(arena, active, t, base + ends_of(skel)),
        absorbed(ends_of(skel), base + true_ends(arena, active)),
{
    let lab = lifted(comp, roots);
    let grown = base + ends_of(skel);
    let all = true_ends(arena, active);
    assert forall|j: int|
        0 <= j < active.len() && arena[(#[trigger] active[j]).source as int].weight
            <= t implies connected(
        grown,
        arena[active[j].source as int].either as int,
        arena[active[j].source as int].other as int,
    ) by {
        let w = active[j];
        let tu = arena[w.source as int].either as int;
        let tv = arena[w.source as int].other as int;
        assert(lab[tu] == roots[w.either as int]);
        assert(lab[tv] == roots[w.other as int]);
    }
    assert forall|i: int| 0 <= i < ends_of(skel).len() implies connected(
        base + all,
        (#[trigger] ends_of(skel)[i]).0,
        ends_of(skel)[i].1,
    ) by {
        assert(is_working(arena, active, skel[i]));
        let j = choose|j: int|
            0 <= j < active.len() && arena[(#[trigger] active[j]).source as int] == skel[i];
        assert((base + all)[base.len() + j] == all[j]);
        lemma_edge_connects(base + all, base.len() + j);
    }
}

/// Where no working edge is heavy, all weigh the same, and the collected edges are what
/// the search hands back.
pub proof fn lemma_all_light(
    arena: Seq<Edge>,
    n: nat,
    comp: Seq<int>,
    k: nat,
    active: Seq<Working>,
    base: Seq<(int, int)>,
    hi: int,
    t: int,
    skel: Seq<Edge>,
    roots: Seq<int>,
)
    requires
        is_state(arena, n, comp, k, active, base, hi),
        is_scan(arena, n, comp, k, active, base, t, skel, roots),
        light_connected(arena, active, t, base + ends_of(skel)),
        absorbed(ends_of(skel), base + true_ends(arena, active)),
        active.filter(is_heavy(arena, t)).len() == 0,
        (forall|j: int| 0 <= j < active.len() ==> arena[(#[trigger] active[j]).source as int].weight <= t)
            ==> (forall|j: int|
            0 <= j < active.len() ==> arena[(#[trigger] active[j]).source as int].weight == t),
    ensures
        is_found(arena, n, active, base, skel),
{
    let all = true_ends(arena, active);
    let grown = base + ends_of(skel);
    assert forall|j: int| 0 <= j < active.len() implies arena[(#[trigger] active[j]).source as int].weight
        <= t by {
        if arena[active[j].source as int].weight > t {
            active.lemma_filter_contains(is_heavy(arena, t), j);
        }
    }
    assert(absorbed(all, grown)) by {
        assert forall|j: int| 0 <= j < all.len() implies connected(
            grown,
            (#[trigger] all[j]).0,
            all[j].1,
        ) by {
            assert(arena[active[j].source as int].weight <= t);
        }
    }
    lemma_same_reach_by_absorption(base, ends_of(skel), all);
    // all working edges weigh the same: a lighter spanning set would lie within what
    // was connected before
    assert forall|i: int| 0 <= i < skel.len() implies is_lower_bound(
        arena,
        n,
        (#[trigger] skel[i]).weight as int,
    ) by {
        let s = skel[i];
        lemma_acyclic_tail(base, ends_of(skel), i);
        assert forall|tree: Seq<Edge>| #[trigger]
            edges_within(tree, arena) && spans(ends_of(tree), n) implies reaches(tree, s.weight as int) by {
            if !reaches(tree, s.weight as int) {
                assert(absorbed(ends_of(tree), base)) by {
                    assert forall|m: int| 0 <= m < ends_of(tree).len() implies connected(
                        base,
                        (#[trigger] ends_of(tree)[m]).0,
                        ends_of(tree)[m].1,
                    ) by {
                        assert(arena.contains(tree[m]));
                        let x = choose|x: int| 0 <= x < arena.len() && arena[x] == tree[m];
                        assert(tree[m].weight < s.weight);
                        if is_source(active, x) {
                            let j = choose|j: int|
                                0 <= j < active.len() && (#[trigger] active[j]).source == x;
                            assert(arena[active[j].source as int].weight == t);
                        }
                        assert(is_working(arena, active, s));
                        let j0 = choose|j: int|
                            0 <= j < active.len() && arena[(#[trigger] active[j]).source as int] == s;
                        assert(arena[x].weight < hi);
                    }
                }
                lemma_absorbed_spans(ends_of(tree), base, n);
                assert(s.either < n && s.other < n) by {
                    assert(ends_of(skel)[i] == s.ends());
                }
                assert(connected(base, s.either as int, s.other as int));
            }
        }
    }
}

/// Where the light working edges connect all super-nodes, the search goes on with them
/// alone: they connect what all working edges connect, and the heavy ones, which weigh
/// more than the threshold, are accounted for.
pub proof fn lemma_light_spans(
    arena: Seq<Edge>,
    n: nat,
    comp: Seq<int>,
    k: nat,
    active: Seq<Working>,
    base: Seq<(int, int)>,
    hi: int,
    t: int,
    skel: Seq<Edge>,
    roots: Seq<int>,
)
    requires
        is_state(arena, n, comp, k, active, base, hi),
        is_scan(arena, n, comp, k, active, base, t, skel, roots),
        light_connected(arena, active, t, base + ends_of(skel)),
        active.filter(is_heavy(arena, t)).len() > 0,
        forall|a: int, b: int| 0 <= a < k && 0 <= b < k ==> roots[a] == roots[b],
    ensures
        is_state(arena, n, comp, k, active.filter(is_light(arena, t)), base, t + 1),
        same_reach(
            base + true_ends(arena, active.filter(is_light(arena, t))),
            base + true_ends(arena, active),
        ),
{
    let small = active.filter(is_light(arena, t));
    let big = active.filter(is_heavy(arena, t));
    let all = true_ends(arena, active);
    let light = true_ends(arena, small);
    let grown = base + ends_of(skel);
    let lab = lifted(comp, roots);
    MBST::lemma_filtered_working(arena, n, comp, k, active, is_light(arena, t));
    // the heavy working edges are connected by the light ones
    assert(absorbed(ends_of(skel), base + light)) by {
        assert forall|i: int| 0 <= i < ends_of(skel).len() implies connected(
            base + light,
            (#[trigger] ends_of(skel)[i]).0,
            ends_of(skel)[i].1,
        ) by {
            assert(is_working(arena, active, skel[i]));
            let j = choose|j: int|
                0 <= j < active.len() && arena[(#[trigger] active[j]).source as int] == skel[i];
            active.lemma_filter_contains(is_light(arena, t), j);
            let m = choose|m: int| 0 <= m < small.len() && small[m] == active[j];
            assert((base + light)[base.len() + m] == light[m]);
            lemma_edge_connects(base + light, base.len() + m);
        }
    }
    assert(absorbed(grown, base + light)) by {
        assert forall|i: int| 0 <= i < grown.len() implies connected(
            base + light,
            (#[trigger] grown[i]).0,
            grown[i].1,
        ) by {
            if i < base.len() {
                assert((base + light)[i] == grown[i]);
                lemma_edge_connects(base + light, i);
            } else {
                assert(grown[i] == ends_of(skel)[i - base.len()]);
            }
        }
    }
    assert(absorbed(all, base + light)) by {
        assert forall|j: int| 0 <= j < all.len() implies connected(
            base + light,
            (#[trigger] all[j]).0,
            all[j].1,
        ) by {
            let w = active[j];
            if arena[w.source as int].weight <= t {
                active.lemma_filter_contains(is_light(arena, t), j);
                let m = choose|m: int| 0 <= m < small.len() && small[m] == w;
                assert((base + light)[base.len() + m] == light[m]);
                lemma_edge_connects(base + light, base.len() + m);
            } else {
                let tu = arena[w.source as int].either as int;
                let tv = arena[w.source as int].other as int;
                assert(lab[tu] == roots[w.either as int]);
                assert(lab[tv] == roots[w.other as int]);
                assert(connected(grown, tu, tv));
                lemma_absorbed_reach(grown, base + light, tu, tv);
            }
        }
    }
    assert(absorbed(light, base + all)) by {
        assert forall|m: int| 0 <= m < light.len() implies connected(
            base + all,
            (#[trigger] light[m]).0,
            light[m].1,
        ) by {
            assert(small.contains(small[m]));
            active.lemma_filter_contains_rev(is_light(arena, t), small[m]);
            let j = choose|j: int| 0 <= j < active.len() && active[j] == small[m];
            assert((base + all)[base.len() + j] == all[j]);
            lemma_edge_connects(base + all, base.len() + j);
        }
    }
    lemma_same_reach_by_absorption(base, light, all);
    // the heavy working edges weigh more than the threshold
    assert(accounted(arena, n, small, base, t + 1)) by {
        assert(big.contains(big[0]));
        active.lemma_filter_contains_rev(is_heavy(arena, t), big[0]);
        let jh = choose|j: int| 0 <= j < active.len() && active[j] == big[0];
        active.lemma_filter_pred(is_heavy(arena, t), 0);
        assert(arena[active[jh].source as int].weight > t);
        assert(t + 1 <= hi);
        assert forall|x: int| 0 <= x < arena.len() implies is_source(small, x) || connected(
            base,
            (#[trigger] arena[x]).either as int,
            arena[x].other as int,
        ) || arena[x].weight >= t + 1 by {
            if is_source(active, x) {
                let j = choose|j: int| 0 <= j < active.len() && (#[trigger] active[j]).source == x;
                if arena[x].weight <= t {
                    active.lemma_filter_contains(is_light(arena, t), j);
                    let m = choose|m: int| 0 <= m < small.len() && small[m] == active[j];
                    assert(small[m].source == x);
                }
            }
        }
        assert forall|m: int| 0 <= m < small.len() implies arena[(#[trigger] small[m]).source as int].weight
            <= t + 1 by {
            active.lemma_filter_pred(is_light(arena, t), m);
        }
    }
}

/// What is found for a part of the working edges that connects what all of them
/// connect is found for all of them.
pub proof fn lemma_found_in_part(
    arena: Seq<Edge>,
    n: nat,
    base: Seq<(int, int)>,
    active: Seq<Working>,
    part: Seq<Working>,
    out: Seq<Edge>,
)
    requires
        is_found(arena, n, part, base, out),
        same_reach(base + true_ends(arena, part), base + true_ends(arena, active)),
    ensures
        is_found(arena, n, active, base, out),
{
    assert forall|a: int, b: int|
        #![trigger connected(base + ends_of(out), a, b)]
        #![trigger connected(base + true_ends(arena, active), a, b)]
        connected(base + ends_of(out), a, b) <==> connected(base + true_ends(arena, active), a, b) by {
        assert(connected(base + ends_of(out), a, b) <==> connected(
            base + true_ends(arena, part),
            a,
            b,
        ));
    }
}

/// Where the light working edges leave super-nodes apart, the search goes on with the
/// heavy ones between the classes that are left: their new labels tell what the edges
/// found so far and the collected edges connect, every edge of the graph is accounted
/// for, and no spanning set does without an edge of the weight of a collected edge.
pub proof fn lemma_contracted(
    arena: Seq<Edge>,
    n: nat,
    comp: Seq<int>,
    k: nat,
    active: Seq<Working>,
    base: Seq<(int, int)>,
    hi: int,
    t: int,
    skel: Seq<Edge>,
    roots: Seq<int>,
    supers: Seq<Working>,
    ids: nat,
    numbers: Seq<int>,
)
    requires
        is_state(arena, n, comp, k, active, base, hi),
        is_scan(arena, n, comp, k, active, base, t, skel, roots),
        light_connected(arena, active, t, base + ends_of(skel)),
        exists|j: int| 0 <= j < active.len() && arena[(#[trigger] active[j]).source as int].weight <= t,
        !(forall|a: int, b: int| 0 <= a < k && 0 <= b < k ==> roots[a] == roots[b]),
        supers.len() == active.filter(is_heavy(arena, t)).len(),
        ids <= k,
        numbers.len() == k,
        forall|c: int| 0 <= c < k ==> -1 <= #[trigger] numbers[c] < ids,
        forall|c: int, d: int|
            0 <= c < k && 0 <= d < k && numbers[c] >= 0 && numbers[c] == numbers[d] ==> c == d,
        forall|i: int|
            0 <= i < supers.len() ==> {
                let w = #[trigger] supers[i];
                &&& w.source == active.filter(is_heavy(arena, t))[i].source
                &&& w.either == numbers[roots[active.filter(is_heavy(arena, t))[i].either as int]]
                &&& w.other == numbers[roots[active.filter(is_heavy(arena, t))[i].other as int]]
            },
        forall|id: int| 0 <= id < ids ==> #[trigger] is_used(supers, id),
    ensures
        is_state(
            arena,
            n,
            renamed(lifted(comp, roots), numbers, ids as int),
            ids,
            supers,
            base + ends_of(skel),
            hi,
        ),
        true_ends(arena, supers) == true_ends(arena, active.filter(is_heavy(arena, t))),
        all_lower_bounds(arena, n, skel),
        supers.len() < active.len(),
{
    let big = active.filter(is_heavy(arena, t));
    let small = active.filter(is_light(arena, t));
    let lab = lifted(comp, roots);
    let grown = base + ends_of(skel);
    let comp2 = renamed(lab, numbers, ids as int);
    let heavy = true_ends(arena, big);
    let all = true_ends(arena, active);
    MBST::lemma_filtered_working(arena, n, comp, k, active, is_heavy(arena, t));
    assert(true_ends(arena, supers) =~= heavy) by {
        assert forall|i: int| 0 <= i < heavy.len() implies true_ends(arena, supers)[i] == heavy[i] by {
            assert(supers[i].source == big[i].source);
        }
    }
    // renaming keeps the classes
    assert(agrees(comp2, grown)) by {
        assert forall|a: int, b: int| 0 <= a < comp2.len() && 0 <= b < comp2.len() implies (comp2[a]
            == comp2[b] <==> #[trigger] connected(grown, a, b)) by {
            assert(lab[a] == lab[b] <==> connected(grown, a, b));
            if 0 <= lab[a] < k {
                assert(-1 <= numbers[lab[a]] < ids);
            }
            if 0 <= lab[b] < k {
                assert(-1 <= numbers[lab[b]] < ids);
            }
        }
    }
    assert(labelled(arena, n, comp2, ids, supers)) by {
        assert forall|i: int| 0 <= i < supers.len() implies {
            let w = #[trigger] supers[i];
            &&& w.source < arena.len()
            &&& arena[w.source as int].either < n
            &&& arena[w.source as int].other < n
            &&& w.either == comp2[arena[w.source as int].either as int]
            &&& w.other == comp2[arena[w.source as int].other as int]
            &&& w.either < ids
            &&& w.other < ids
        } by {
            let old = big[i];
            let w = supers[i];
            assert(w.source == old.source);
            let tu = arena[old.source as int].either as int;
            let tv = arena[old.source as int].other as int;
            assert(lab[tu] == roots[old.either as int]);
            assert(lab[tv] == roots[old.other as int]);
            assert(0 <= roots[old.either as int] < k);
            assert(0 <= roots[old.other as int] < k);
            assert(-1 <= numbers[roots[old.either as int]] < ids);
            assert(-1 <= numbers[roots[old.other as int]] < ids);
        }
    }
    // a light working edge exists, so the heavy ones are fewer
    let j0 = choose|j: int| 0 <= j < active.len() && arena[(#[trigger] active[j]).source as int].weight <= t;
    active.lemma_filter_contains(is_light(arena, t), j0);
    assert(small.len() > 0);
    lemma_halves(arena, active, t);
    // every number that was given out labels a node
    assert(covers(comp2, ids)) by {
        assert forall|c: int| 0 <= c < ids implies #[trigger] is_label(comp2, c) by {
            assert(is_used(supers, c));
            let i = choose|i: int|
                0 <= i < supers.len() && ((#[trigger] supers[i]).either == c || supers[i].other == c);
            let w = supers[i];
            if w.either == c {
                assert(comp2[arena[w.source as int].either as int] == c);
            } else {
                assert(comp2[arena[w.source as int].other as int] == c);
            }
        }
    }
    assert(accounted(arena, n, supers, grown, hi)) by {
        assert forall|x: int| 0 <= x < arena.len() implies is_source(supers, x) || connected(
            grown,
            (#[trigger] arena[x]).either as int,
            arena[x].other as int,
        ) || arena[x].weight >= hi by {
            if is_source(active, x) {
                let j = choose|j: int| 0 <= j < active.len() && (#[trigger] active[j]).source == x;
                if arena[x].weight <= t {
                    assert(connected(grown, all[j].0, all[j].1));
                } else {
                    active.lemma_filter_contains(is_heavy(arena, t), j);
                    let m = choose|m: int| 0 <= m < big.len() && big[m] == active[j];
                    assert(supers[m].source == x);
                }
            } else if connected(base, arena[x].either as int, arena[x].other as int) {
                lemma_grow_right(base, ends_of(skel), arena[x].either as int, arena[x].other as int);
            }
        }
        assert forall|m: int| 0 <= m < supers.len() implies arena[(#[trigger] supers[m]).source as int].weight
            <= hi by {
            assert(supers[m].source == big[m].source);
            assert(big.contains(big[m]));
            active.lemma_filter_contains_rev(is_heavy(arena, t), big[m]);
            let j = choose|j: int| 0 <= j < active.len() && active[j] == big[m];
        }
    }
    // the light working edges do not connect all super-nodes: a spanning set needs an
    // edge above the threshold
    let (c, d) = choose|c: int, d: int| 0 <= c < k && 0 <= d < k && roots[c] != roots[d];
    assert(is_label(comp, c));
    assert(is_label(comp, d));
    let a = choose|a: int| 0 <= a < comp.len() && #[trigger] comp[a] == c;
    let b = choose|b: int| 0 <= b < comp.len() && #[trigger] comp[b] == d;
    assert(lab[a] != lab[b]);
    assert(!connected(grown, a, b));
    assert forall|i: int| 0 <= i < skel.len() implies is_lower_bound(
        arena,
        n,
        (#[trigger] skel[i]).weight as int,
    ) by {
        let s = skel[i];
        assert forall|tree: Seq<Edge>| #[trigger]
            edges_within(tree, arena) && spans(ends_of(tree), n) implies reaches(tree, s.weight as int) by {
            if !reaches(tree, s.weight as int) {
                assert(absorbed(ends_of(tree), grown)) by {
                    assert forall|m: int| 0 <= m < ends_of(tree).len() implies connected(
                        grown,
                        (#[trigger] ends_of(tree)[m]).0,
                        ends_of(tree)[m].1,
                    ) by {
                        assert(arena.contains(tree[m]));
                        let x = choose|x: int| 0 <= x < arena.len() && arena[x] == tree[m];
                        assert(tree[m].weight < s.weight);
                        assert(is_working(arena, active, s));
                        let js = choose|j: int|
                            0 <= j < active.len() && arena[(#[trigger] active[j]).source as int] == s;
                        assert(arena[x].weight < hi);
                        if is_source(active, x) {
                            let j = choose|j: int|
                                0 <= j < active.len() && (#[trigger] active[j]).source == x;
                            assert(connected(grown, all[j].0, all[j].1));
                        } else {
                            lemma_grow_right(
                                base,
                                ends_of(skel),
                                arena[x].either as int,
                                arena[x].other as int,
                            );
                        }
                    }
                }
                lemma_absorbed_spans(ends_of(tree), grown, n);
                assert(connected(grown, a, b));
            }
        }
    }
}

/// The light and the heavy working edges are all the working edges.
pub proof fn lemma_halves(arena: Seq<Edge>, active: Seq<Working>, t: int)
    ensures
        active.filter(is_light(arena, t)).len() + active.filter(is_heavy(arena, t)).len()
            == active.len(),
    decreases active.len(),
{
    reveal(Seq::filter);
    if active.len() > 0 {
        lemma_halves(arena, active.drop_last(), t);
    }
}

/// The collected edges and what is found among the heavy working edges are what the
/// search hands back.
pub proof fn lemma_joined(
    arena: Seq<Edge>,
    n: nat,
    comp: Seq<int>,
    k: nat,
    active: Seq<Working>,
    base: Seq<(int, int)>,
    hi: int,
    t: int,
    skel: Seq<Edge>,
    roots: Seq<int>,
    rest: Seq<Edge>,
)
    requires
        is_state(arena, n, comp, k, active, base, hi),
        is_scan(arena, n, comp, k, active, base, t, skel, roots),
        light_connected(arena, active, t, base + ends_of(skel)),
        absorbed(ends_of(skel), base + true_ends(arena, active)),
        all_lower_bounds(arena, n, skel),
        edges_within(rest, arena),
        within(ends_of(rest), n),
        acyclic(base + ends_of(skel) + ends_of(rest)),
        same_reach(
            base + ends_of(skel) + ends_of(rest),
            base + ends_of(skel) + true_ends(arena, active.filter(is_heavy(arena, t))),
        ),
        all_lower_bounds(arena, n, rest),
    ensures
        is_found(arena, n, active, base, skel + rest),
{
    let out = skel + rest;
    let big = active.filter(is_heavy(arena, t));
    let heavy = true_ends(arena, big);
    let all = true_ends(arena, active);
    let grown = base + ends_of(skel);
    let rest_ends = ends_of(rest);
    lemma_ends_concat(skel, rest);
    assert(base + ends_of(out) =~= grown + rest_ends);
    crate::algorithms::util::lemma_concat_within(skel, rest, arena);
    assert(within(ends_of(out), n)) by {
        assert forall|i: int| 0 <= i < ends_of(out).len() implies 0 <= (#[trigger] ends_of(out)[i]).0
            < n && 0 <= ends_of(out)[i].1 < n by {
            if i < skel.len() {
                assert(ends_of(out)[i] == ends_of(skel)[i]);
            } else {
                assert(ends_of(out)[i] == rest_ends[i - skel.len()]);
            }
        }
    }
    // grown + heavy connects what base + all connects
    let x = ends_of(skel) + heavy;
    assert(base + x =~= grown + heavy);
    assert(absorbed(x, base + all)) by {
        assert forall|i: int| 0 <= i < x.len() implies connected(
            base + all,
            (#[trigger] x[i]).0,
            x[i].1,
        ) by {
            if i < ends_of(skel).len() {
                assert(x[i] == ends_of(skel)[i]);
            } else {
                let m = i - ends_of(skel).len();
                assert(x[i] == heavy[m]);
                assert(big.contains(big[m]));
                active.lemma_filter_contains_rev(is_heavy(arena, t), big[m]);
                let j = choose|j: int| 0 <= j < active.len() && active[j] == big[m];
                assert((base + all)[base.len() + j] == all[j]);
                lemma_edge_connects(base + all, base.len() + j);
            }
        }
    }
    assert(absorbed(all, base + x)) by {
        assert forall|j: int| 0 <= j < all.len() implies connected(
            base + x,
            (#[trigger] all[j]).0,
            all[j].1,
        ) by {
            let w = active[j];
            if arena[w.source as int].weight <= t {
                lemma_grow_right(grown, heavy, all[j].0, all[j].1);
            } else {
                active.lemma_filter_contains(is_heavy(arena, t), j);
                let m = choose|m: int| 0 <= m < big.len() && big[m] == w;
                assert((grown + heavy)[grown.len() + m] == heavy[m]);
                lemma_edge_connects(grown + heavy, grown.len() + m);
            }
        }
    }
    lemma_same_reach_by_absorption(base, x, all);
    assert forall|a: int, b: int|
        #![trigger connected(base + ends_of(out), a, b)]
        #![trigger connected(base + all, a, b)]
        connected(base + ends_of(out), a, b) <==> connected(base + all, a, b) by {
        assert(connected(grown + rest_ends, a, b) <==> connected(grown + heavy, a, b));
        assert(connected(base + x, a, b) <==> connected(base + all, a, b));
    }
    assert forall|i: int| 0 <= i < out.len() implies is_lower_bound(
        arena,
        n,
        (#[trigger] out[i]).weight as int,
    ) by {
        if i < skel.len() {
            assert(out[i] == skel[i]);
        } else {
            assert(out[i] == rest[i - skel.len()]);
        }
    }
}

/// What the search for a spanning tree of least bottleneck hands back: a spanning forest
/// made of edges of the graph, which is a spanning tree where the graph is connected and
/// has fewer edges where it is not, with its bottleneck.
pub open spec fn is_mbst_result(graph: MutableGraph, r: (Option<MutableGraph>, i64)) -> bool {
    &&& r.0 matches Some(t)
    &&& t.wf()
    &&& t.nodes@ == graph.nodes@
    &&& edges_within(t.edges@, graph.edges@)
    &&& acyclic(ends_of(t.edges@))
    &&& same_reach(ends_of(t.edges@), ends_of(graph.edges@))
    &&& graph.order() >= 1 && spans(ends_of(graph.edges@), graph.order()) ==> is_spanning_tree(
        ends_of(t.edges@),
        graph.order(),
    )
    &&& !spans(ends_of(graph.edges@), graph.order()) ==> t.edges@.len() + 1 < graph.order()
    &&& r.1 == bottleneck_of(t.edges@, inverse_regime(t.edges@))
    &&& has_least_bottleneck(graph.edges@, graph.order(), t.edges@)
}

/// On a connected graph of two nodes or more whose weights are all below zero, the
/// search for a spanning tree of least bottleneck and the search for a spanning tree of
/// least weight find the same bottleneck.
pub proof fn lemma_mbst_matches_kruskal(graph: MutableGraph, r: (Option<MutableGraph>, i64))
    requires
        graph.wf(),
        graph.order() >= 2,
        spans(ends_of(graph.edges@), graph.order()),
        crate::algorithms::util::all_negative(graph.edges@),
        is_mbst_result(graph, r),
    ensures
        r.1 == crate::algorithms::min_sum_spanning_tree::kruskal::forest_bottleneck(
            graph.edges@,
            CalculationType::Weight,
        ),
{
    let es = graph.edges@;
    let n = graph.order();
    let c = CalculationType::Weight;
    let t = r.0->0.edges@;
    let sorted = crate::algorithms::min_sum_spanning_tree::kruskal::sorted_edges(es, c);
    let forest = crate::algorithms::min_sum_spanning_tree::kruskal::forest_of(es, c);
    crate::algorithms::min_sum_spanning_tree::kruskal::lemma_weight_forest_least_bottleneck(es, n);
    crate::algorithms::min_sum_spanning_tree::kruskal::lemma_greedy_forest(sorted);
    crate::algorithms::min_sum_spanning_tree::kruskal::lemma_sorted_keeps_graph(es, c, n);
    lemma_sorted_same_edges(es, c);
    crate::algorithms::min_sum_spanning_tree::kruskal::Kruskal::lemma_forest_fits(sorted, n);
    crate::datastructures::graph::connectivity::lemma_same_reach_spans(
        ends_of(forest),
        ends_of(sorted),
        n,
    );
    lemma_tree_size(ends_of(forest), n);
    // both are spanning sets of edges of the graph
    assert(edges_within(forest, es)) by {
        crate::algorithms::util::lemma_edges_within_trans(forest, sorted, es);
    }
    assert(edges_within(t, es) && spans(ends_of(t), n));
    assert(edges_within(forest, es) && spans(ends_of(forest), n));
    assert(max_weight(t) <= max_weight(forest));
    assert(max_weight(forest) <= max_weight(t));
    // both bottlenecks are largest weights
    crate::algorithms::util::lemma_all_negative_within(t, es);
    crate::algorithms::util::lemma_all_negative_within(sorted, es);
    assert(t.len() > 0 && t[0].weight < 0);
    assert(sorted.len() > 0 && sorted[0].weight < 0) by {
        assert(forest.len() > 0);
    }
}

/// A spanning tree with the least bottleneck, by halving the edges at their median
/// weight and contracting what the lighter half connects.
pub struct MBST();

impl MBST {
    /// The bottleneck of a tree: its largest weight where its first edge has a weight
    /// below zero, its smallest weight where not.
    pub fn find_bottleneck(st_edges: &Vec<Edge>) -> (r: i64)
        ensures
            r == bottleneck_of(st_edges@, inverse_regime(st_edges@)),
    {
        let inverse = st_edges.len() > 0 && st_edges[0].get_weight() < 0;
        let mut bottleneck: i64 = if inverse {
            NEG_INFINITY
        } else {
            INFINITY
        };
        let mut i: usize = 0;
        while i < st_edges.len()
            invariant
                i <= st_edges@.len(),
                bottleneck == bottleneck_of(st_edges@.take(i as int), inverse),
            decreases st_edges@.len() - i,
        {
            proof {
                lemma_bottleneck_push(st_edges@.take(i as int), st_edges@[i as int], inverse);
                assert(st_edges@.take(i + 1) =~= st_edges@.take(i as int).push(st_edges@[i as int]));
            }
            bottleneck = Util::update_bottleneck(bottleneck, &st_edges[i], inverse);
            i = i + 1;
        }
        proof {
            assert(st_edges@.take(i as int) =~= st_edges@);
        }
        bottleneck
    }

    /// A spanning tree of least bottleneck with that bottleneck. Where the graph is not
    /// connected, the edges are a spanning forest: they connect what the graph connects,
    /// and they are fewer than the nodes less one.
    pub fn run(graph: &mut MutableGraph) -> (r: (Option<MutableGraph>, i64))
        requires
            old(graph).wf(),
        ensures
            *final(graph) == *old(graph),
            is_mbst_result(*old(graph), r),
    {
        let n = graph.nodes.len();
        let mut active: Vec<Working> = Vec::new();
        let mut i: usize = 0;
        let ghost comp = singletons(n as nat);
        while i < graph.edges.len()
            invariant
                i <= graph.edges@.len(),
                graph.wf(),
                n == graph.order(),
                active@.len() == i,
                forall|j: int|
                    0 <= j < i ==> (#[trigger] active@[j]) == (Working {
                        source: j as usize,
                        either: graph.edges@[j].either,
                        other: graph.edges@[j].other,
                    }),
            decreases graph.edges@.len() - i,
        {
            let (u, v) = graph.edges[i].endpoints();
            active.push(Working { source: i, either: u, other: v });
            i = i + 1;
        }
        let ghost none = Seq::<(int, int)>::empty();
        proof {
            lemma_labelling(none, n as nat);
            assert(labelled(graph.edges@, n as nat, comp, n as nat, active@)) by {
                assert forall|j: int| 0 <= j < active@.len() implies {
                    let w = #[trigger] active@[j];
                    &&& w.source < graph.edges@.len()
                    &&& graph.edges@[w.source as int].either < n
                    &&& graph.edges@[w.source as int].other < n
                    &&& w.either == comp[graph.edges@[w.source as int].either as int]
                    &&& w.other == comp[graph.edges@[w.source as int].other as int]
                    &&& w.either < n
                    &&& w.other < n
                } by {
                    assert(graph.edges@[j].fits(n as nat));
                }
            }
            assert(true_ends(graph.edges@, active@) =~= ends_of(graph.edges@));
            assert(covers(comp, n as nat)) by {
                assert forall|c: int| 0 <= c < n implies #[trigger] is_label(comp, c) by {
                    assert(comp[c] == c);
                }
            }
            assert(accounted(graph.edges@, n as nat, active@, none, i64::MAX as int)) by {
                assert forall|x: int| 0 <= x < graph.edges@.len() implies is_source(active@, x) by {
                    assert(active@[x].source == x);
                }
                assert forall|x: int| 0 <= x < graph.edges@.len() implies (
                #[trigger] graph.edges@[x]).either < n && graph.edges@[x].other < n by {
                    assert(graph.edges@[x].fits(n as nat));
                }
            }
        }
        let st_edges = Self::recursive_search(
            &graph.edges,
            active,
            n,
            Ghost(n as nat),
            Ghost(comp),
            Ghost(none),
            Ghost(i64::MAX as int),
        );
        let bottleneck = Self::find_bottleneck(&st_edges);
        proof {
            let tree = ends_of(st_edges@);
            let all = ends_of(graph.edges@);
            assert(none + tree =~= tree);
            assert(none + all =~= all);
            crate::datastructures::graph::connectivity::lemma_same_reach_spans(tree, all, n as nat);
            lemma_acyclic_count(tree, n as nat);
            lemma_labelling(tree, n as nat);
            lemma_agrees_spans(crate::datastructures::graph::connectivity::labelling_of(tree, n as nat), tree);
            lemma_single_class(crate::datastructures::graph::connectivity::labelling_of(tree, n as nat));
            if n >= 1 && spans(all, n as nat) {
                lemma_tree_size(tree, n as nat);
            }
            crate::algorithms::util::lemma_within_fits(st_edges@, graph.edges@, n as nat);
            lemma_least_bottleneck(graph.edges@, n as nat, st_edges@);
        }
        let st = MutableGraph::new(graph.nodes_copy(), st_edges);
        (Some(st), bottleneck)
    }

    /// The edges that the search adds to the edges `base` found so far, from the working
    /// edges `active` over `k` super-nodes: one edge is taken where its ends differ; more
    /// are split at their median weight, and the search goes on in the light half where
    /// that half connects all super-nodes, and else in the heavy half, with what the
    /// light half connects contracted.
    fn recursive_search(
        arena: &Vec<Edge>,
        active: Vec<Working>,
        k: usize,
        Ghost(n): Ghost<nat>,
        Ghost(comp): Ghost<Seq<int>>,
        Ghost(base): Ghost<Seq<(int, int)>>,
        Ghost(hi): Ghost<int>,
    ) -> (out: Vec<Edge>)
        requires
            k <= i32::MAX,
            is_state(arena@, n, comp, k as nat, active@, base, hi),
        ensures
            is_found(arena@, n, active@, base, out@),
        decreases active@.len(),
    {
        if active.len() == 0 {
            proof {
                assert(base + ends_of(Seq::<Edge>::empty()) =~= base + true_ends(arena@, active@));
            }
            return Vec::new();
        }
        if active.len() == 1 {
            let w = active[0];
            let edge = arena[w.source];
            let mut out: Vec<Edge> = Vec::new();
            proof {
                lemma_single(arena@, n, comp, k as nat, active@, base, hi);
            }
            if w.either != w.other {
                out.push(edge);
                proof {
                    assert(out@ =~= seq![edge]);
                }
            }
            return out;
        }
        let threshold = Self::split_weight(arena, &active);
        let (skeleton, small_half, big_half, mut uf) = Self::skeleton(
            arena,
            &active,
            k,
            threshold,
            Ghost(n),
            Ghost(comp),
            Ghost(base),
        );
        proof {
            uf.lemma_view();
            lemma_scan_connects(
                arena@,
                n,
                comp,
                k as nat,
                active@,
                base,
                threshold as int,
                skeleton@,
                uf@,
            );
        }
        if big_half.len() == 0 {
            proof {
                lemma_all_light(
                    arena@,
                    n,
                    comp,
                    k as nat,
                    active@,
                    base,
                    hi,
                    threshold as int,
                    skeleton@,
                    uf@,
                );
            }
            return skeleton;
        }
        if uf.count() == 1 {
            proof {
                lemma_single_class(uf@);
                lemma_light_spans(
                    arena@,
                    n,
                    comp,
                    k as nat,
                    active@,
                    base,
                    hi,
                    threshold as int,
                    skeleton@,
                    uf@,
                );
            }
            let out = Self::recursive_search(
                arena,
                small_half,
                k,
                Ghost(n),
                Ghost(comp),
                Ghost(base),
                Ghost(threshold + 1),
            );
            proof {
                lemma_found_in_part(
                    arena@,
                    n,
                    base,
                    active@,
                    active@.filter(is_light(arena@, threshold as int)),
                    out@,
                );
            }
            return out;
        }
        proof {
            Self::lemma_filtered_working(
                arena@,
                n,
                comp,
                k as nat,
                active@,
                is_heavy(arena@, threshold as int),
            );
        }
        let (super_edges, ids, Ghost(numbers)) = Self::build_super_graph(&big_half, &mut uf, k);
        let ghost comp2 = renamed(lifted(comp, uf@), numbers, ids as int);
        let ghost grown = base + ends_of(skeleton@);
        proof {
            lemma_single_class(uf@);
            lemma_contracted(
                arena@,
                n,
                comp,
                k as nat,
                active@,
                base,
                hi,
                threshold as int,
                skeleton@,
                uf@,
                super_edges@,
                ids as nat,
                numbers,
            );
        }
        let mut rest = Self::recursive_search(
            arena,
            super_edges,
            ids,
            Ghost(n),
            Ghost(comp2),
            Ghost(grown),
            Ghost(hi),
        );
        let ghost rest_edges = rest@;
        let ghost skeleton_edges = skeleton@;
        let mut out = skeleton;
        out.append(&mut rest);
        proof {
            lemma_joined(
                arena@,
                n,
                comp,
                k as nat,
                active@,
                base,
                hi,
                threshold as int,
                skeleton_edges,
                uf@,
                rest_edges,
            );
        }
        out
    }

    /// Working edges that pass a filter stand for edges of the graph as the others do.
    pub proof fn lemma_filtered_working(
        arena: Seq<Edge>,
        n: nat,
        comp: Seq<int>,
        k: nat,
        ws: Seq<Working>,
        pred: spec_fn(Working) -> bool,
    )
        requires
            labelled(arena, n, comp, k, ws),
        ensures
            labelled(arena, n, comp, k, ws.filter(pred)),
    {
        let f = ws.filter(pred);
        assert forall|i: int| 0 <= i < f.len() implies {
            let w = #[trigger] f[i];
            &&& w.source < arena.len()
            &&& arena[w.source as int].either < n
            &&& arena[w.source as int].other < n
            &&& w.either == comp[arena[w.source as int].either as int]
            &&& w.other == comp[arena[w.source as int].other as int]
            &&& w.either < k
            &&& w.other < k
        } by {
            assert(f.contains(f[i]));
            ws.lemma_filter_contains_rev(pred, f[i]);
            let j = choose|j: int| 0 <= j < ws.len() && ws[j] == f[i];
        }
    }

    /// Scans the working edges that weigh `threshold` at most and collects those that
    /// join two super-nodes. Returns the collected edges, the light and the heavy working
    /// edges, and the classes of super-nodes that the light edges leave.
    fn skeleton(
        arena: &Vec<Edge>,
        active: &Vec<Working>,
        k: usize,
        threshold: i64,
        Ghost(n): Ghost<nat>,
        Ghost(comp): Ghost<Seq<int>>,
        Ghost(base): Ghost<Seq<(int, int)>>,
    ) -> (r: (Vec<Edge>, Vec<Working>, Vec<Working>, UF))
        requires
            k <= i32::MAX,
            comp.len() == n,
            labelled(arena@, n, comp, k as nat, active@),
            agrees(comp, base),
            acyclic(base),
        ensures
            r.3.wf(),
            r.3@.len() == k,
            agrees(lifted(comp, r.3@), base + ends_of(r.0@)),
            acyclic(base + ends_of(r.0@)),
            edges_within(r.0@, arena@),
            within(ends_of(r.0@), n),
            r.1@ == active@.filter(is_light(arena@, threshold as int)),
            r.2@ == active@.filter(is_heavy(arena@, threshold as int)),
            r.1@.len() + r.2@.len() == active@.len(),
            forall|j: int|
                0 <= j < active@.len() && arena@[(#[trigger] active@[j]).source as int].weight
                    <= threshold ==> r.3@[active@[j].either as int] == r.3@[active@[j].other as int],
            forall|i: int|
                0 <= i < r.0@.len() ==> is_working(arena@, active@, #[trigger] r.0@[i]) && r.0@[i].weight
                    <= threshold,
    {
        let mut uf = match UF::new(k as i32) {
            Ok(uf) => uf,
            Err(_) => unreached(),
        };
        let mut res: Vec<Edge> = Vec::new();
        let mut small_half: Vec<Working> = Vec::new();
        let mut big_half: Vec<Working> = Vec::new();
        let mut i: usize = 0;
        proof {
            assert(lifted(comp, uf@) =~= comp);
            assert(base + ends_of(res@) =~= base);
            assert(active@.take(0) =~= Seq::<Working>::empty());
            reveal(Seq::filter);
        }
        while i < active.len()
            invariant
                i <= active@.len(),
                k <= i32::MAX,
                comp.len() == n,
                labelled(arena@, n, comp, k as nat, active@),
                uf.wf(),
                uf@.len() == k,
                agrees(lifted(comp, uf@), base + ends_of(res@)),
                acyclic(base + ends_of(res@)),
                edges_within(res@, arena@),
                within(ends_of(res@), n),
                small_half@ == active@.take(i as int).filter(is_light(arena@, threshold as int)),
                big_half@ == active@.take(i as int).filter(is_heavy(arena@, threshold as int)),
                small_half@.len() + big_half@.len() == i,
                forall|j: int|
                    0 <= j < i && arena@[(#[trigger] active@[j]).source as int].weight <= threshold
                        ==> uf@[active@[j].either as int] == uf@[active@[j].other as int],
                forall|j: int|
                    0 <= j < res@.len() ==> is_working(arena@, active@, #[trigger] res@[j]) && res@[j].weight
                        <= threshold,
            decreases active@.len() - i,
        {
            let w = active[i];
            let edge = arena[w.source];
            proof {
                assert(active@.take(i + 1) =~= active@.take(i as int).push(w));
                active@.take(i as int).lemma_filter_push(w, is_light(arena@, threshold as int));
                active@.take(i as int).lemma_filter_push(w, is_heavy(arena@, threshold as int));
                uf.lemma_view();
            }
            if edge.get_weight() > threshold {
                big_half.push(w);
            } else {
                small_half.push(w);
                let ghost before = uf@;
                let ghost lab = lifted(comp, before);
                let ghost sofar = base + ends_of(res@);
                if !uf.connected(w.either, w.other) {
                    proof {
                        let from = before[w.either as int];
                        let to = before[w.other as int];
                        let tu = edge.either as int;
                        let tv = edge.other as int;
                        assert(lab[tu] == from && lab[tv] == to);
                        lemma_merge_agrees(lab, sofar, edge.ends(), from, to);
                        lemma_merge_agrees(lab, sofar, edge.ends(), to, from);
                        lemma_united_count(before, w.either as int, w.other as int);
                        assert(lifted(comp, merged(before, from, to)) =~= merged(lab, from, to));
                        assert(lifted(comp, merged(before, to, from)) =~= merged(lab, to, from));
                        assert(!connected(sofar, tu, tv));
                        lemma_push_keeps_acyclic(sofar, edge.ends());
                        lemma_ends_push(res@, edge);
                        assert(sofar.push(edge.ends()) =~= base + ends_of(res@.push(edge)));
                        assert(0 <= from < k && 0 <= to < k);
                    }
                    uf.union(w.either, w.other);
                    res.push(edge);
                    proof {
                        assert(arena@.contains(edge));
                        assert(arena@[active@[i as int].source as int] == edge);
                        assert(is_working(arena@, active@, edge));
                        assert forall|j: int|
                            0 <= j < i + 1 && arena@[(#[trigger] active@[j]).source as int].weight
                                <= threshold implies uf@[active@[j].either as int]
                            == uf@[active@[j].other as int] by {
                            if j < i {
                                assert(before[active@[j].either as int] == before[active@[j].other as int]);
                            }
                        }
                    }
                }
            }
            i = i + 1;
        }
        proof {
            assert(active@.take(i as int) =~= active@);
        }
        (res, small_half, big_half, uf)
    }

    /// Gives the classes that occur at the ends of the heavy edges the numbers 0, 1, ..
    /// in the order in which they occur, and labels the ends of the heavy edges with
    /// them. Returns the relabelled edges, how many numbers were given out, and which
    /// number each class has got.
    fn build_super_graph(big_half: &Vec<Working>, uf: &mut UF, n: usize) -> (r: (
        Vec<Working>,
        usize,
        Ghost<Seq<int>>,
    ))
        requires
            old(uf).wf(),
            old(uf)@.len() == n,
            forall|i: int|
                0 <= i < big_half@.len() ==> (#[trigger] big_half@[i]).either < n && big_half@[i].other
                    < n,
        ensures
            final(uf).wf(),
            final(uf)@ == old(uf)@,
            r.0@.len() == big_half@.len(),
            r.1 <= n,
            r.2@.len() == n,
            forall|c: int| 0 <= c < n ==> -1 <= #[trigger] r.2@[c] < r.1,
            forall|c: int, d: int|
                0 <= c < n && 0 <= d < n && r.2@[c] >= 0 && r.2@[c] == r.2@[d] ==> c == d,
            forall|i: int|
                0 <= i < big_half@.len() ==> {
                    let w = #[trigger] r.0@[i];
                    &&& w.source == big_half@[i].source
                    &&& w.either == r.2@[old(uf)@[big_half@[i].either as int]]
                    &&& w.other == r.2@[old(uf)@[big_half@[i].other as int]]
                },
            forall|id: int| 0 <= id < r.1 ==> #[trigger] is_used(r.0@, id),
    {
        let mut edges: Vec<Working> = Vec::new();
        let mut keys: Vec<(bool, usize)> = Vec::new();
        let mut c: usize = 0;
        while c < n
            invariant
                c <= n,
                keys@.len() == c,
                forall|j: int| 0 <= j < c ==> !(#[trigger] keys@[j]).0,
            decreases n - c,
        {
            keys.push((false, 0));
            c = c + 1;
        }
        let mut ids: usize = 0;
        let ghost mut given: Set<int> = Set::empty();
        let mut i: usize = 0;
        proof {
            uf.lemma_view();
        }
        while i < big_half.len()
            invariant
                i <= big_half@.len(),
                uf.wf(),
                uf@ == old(uf)@,
                uf@.len() == n,
                is_partition(uf@),
                keys@.len() == n,
                edges@.len() == i,
                forall|j: int|
                    0 <= j < big_half@.len() ==> (#[trigger] big_half@[j]).either < n
                        && big_half@[j].other < n,
                given.finite(),
                given.len() == ids,
                forall|c: int|
                    #![trigger given.contains(c)]
                    #![trigger keys@[c]]
                    given.contains(c) <==> 0 <= c < n && keys@[c].0,
                forall|c: int| 0 <= c < n && (#[trigger] keys@[c]).0 ==> keys@[c].1 < ids,
                forall|c: int, d: int|
                    0 <= c < n && 0 <= d < n && (#[trigger] keys@[c]).0 && (#[trigger] keys@[d]).0
                        && keys@[c].1 == keys@[d].1 ==> c == d,
                forall|j: int|
                    0 <= j < i ==> is_relabelled(#[trigger] edges@[j], big_half@[j], uf@, keys@),
                forall|id: int| 0 <= id < ids ==> #[trigger] is_used(edges@, id),
                ids <= n,
            decreases big_half@.len() - i,
        {
            let w = big_half[i];
            let u_parent = uf.find(w.either);
            let v_parent = uf.find(w.other);
            proof {
                lemma_int_range(0, n as int);
                lemma_len_subset(given, set_int_range(0, n as int));
                assert(0 <= uf@[w.either as int] < n);
                assert(0 <= uf@[w.other as int] < n);
            }
            let ghost ids0 = ids;
            let ghost edges0 = edges@;
            let ghost keys0 = keys@;
            if !keys[u_parent].0 {
                proof {
                    assert(!given.contains(u_parent as int));
                    lemma_len_subset(given.insert(u_parent as int), set_int_range(0, n as int));
                    given = given.insert(u_parent as int);
                }
                keys[u_parent] = (true, ids);
                ids = ids + 1;
            }
            if !keys[v_parent].0 {
                proof {
                    assert(!given.contains(v_parent as int));
                    lemma_len_subset(given.insert(v_parent as int), set_int_range(0, n as int));
                    given = given.insert(v_parent as int);
                }
                keys[v_parent] = (true, ids);
                ids = ids + 1;
            }
            let relabelled = Working {
                source: w.source,
                either: keys[u_parent].1,
                other: keys[v_parent].1,
            };
            edges.push(relabelled);
            proof {
                assert forall|id: int| 0 <= id < ids implies #[trigger] is_used(edges@, id) by {
                    if id < ids0 {
                        assert(is_used(edges0, id));
                        let j = choose|j: int|
                            0 <= j < edges0.len() && ((#[trigger] edges0[j]).either == id
                                || edges0[j].other == id);
                        assert(edges@[j] == edges0[j]);
                    } else {
                        assert(edges@[i as int] == relabelled);
                    }
                }
                assert forall|j: int| 0 <= j < i + 1 implies is_relabelled(
                    #[trigger] edges@[j],
                    big_half@[j],
                    uf@,
                    keys@,
                ) by {
                    if j < i {
                        assert(edges@[j] == edges0[j]);
                        assert(is_relabelled(edges0[j], big_half@[j], uf@, keys0));
                        assert(0 <= uf@[big_half@[j].either as int] < n);
                        assert(0 <= uf@[big_half@[j].other as int] < n);
                    }
                }
            }
            i = i + 1;
        }
        let ghost numbers = Seq::new(
            n as nat,
            |c: int|
                if keys@[c].0 {
                    keys@[c].1 as int
                } else {
                    -1
                },
        );
        (edges, ids, Ghost(numbers))
    }

    /// A weight at which the working edges are split: the median weight, or, where no
    /// edge is heavier than the median, the next lower weight, so that only edges of one
    /// weight are left undivided.
    fn split_weight(arena: &Vec<Edge>, active: &Vec<Working>) -> (t: i64)
        requires
            active@.len() > 0,
            forall|i: int| 0 <= i < active@.len() ==> (#[trigger] active@[i]).source < arena@.len(),
        ensures
            exists|j: int|
                0 <= j < active@.len() && arena@[(#[trigger] active@[j]).source as int].weight <= t,
            (forall|j: int|
                0 <= j < active@.len() ==> arena@[(#[trigger] active@[j]).source as int].weight
                    <= t) ==> (forall|j: int|
                0 <= j < active@.len() ==> arena@[(#[trigger] active@[j]).source as int].weight
                    == t),
    {
        let mut scratch: Vec<Edge> = Vec::new();
        let mut i: usize = 0;
        while i < active.len()
            invariant
                i <= active@.len(),
                scratch@.len() == i,
                forall|j: int| 0 <= j < active@.len() ==> (#[trigger] active@[j]).source < arena@.len(),
                forall|j: int| 0 <= j < i ==> #[trigger] scratch@[j] == arena@[active@[j].source as int],
            decreases active@.len() - i,
        {
            scratch.push(arena[active[i].source]);
            i = i + 1;
        }
        let ghost copies = scratch@;
        let median = QuickSelect::find_median_edges_mut(&mut scratch);
        let m = median.get_weight();
        proof {
            lemma_sorted_same_edges(copies, CalculationType::Weight);
            let sorted = crate::algorithms::min_sum_spanning_tree::kruskal::sorted_edges(
                copies,
                CalculationType::Weight,
            );
            let pos = crate::algorithms::quick_select::median_position(copies.len());
            assert(copies.contains(sorted[pos]));
            let j = choose|j: int| 0 <= j < copies.len() && copies[j] == median;
            assert(arena@[active@[j].source as int].weight == m);
        }
        let mut heavier = false;
        let mut below: Option<i64> = None;
        let mut i: usize = 0;
        while i < active.len()
            invariant
                i <= active@.len(),
                forall|j: int| 0 <= j < active@.len() ==> (#[trigger] active@[j]).source < arena@.len(),
                heavier <==> exists|j: int|
                    0 <= j < i && arena@[(#[trigger] active@[j]).source as int].weight > m,
                below is None ==> forall|j: int|
                    0 <= j < i ==> arena@[(#[trigger] active@[j]).source as int].weight >= m,
                below matches Some(b) ==> {
                    &&& b < m
                    &&& exists|j: int|
                        0 <= j < i && arena@[(#[trigger] active@[j]).source as int].weight == b
                    &&& forall|j: int|
                        0 <= j < i && arena@[(#[trigger] active@[j]).source as int].weight < m
                            ==> arena@[active@[j].source as int].weight <= b
                },
            decreases active@.len() - i,
        {
            let w = arena[active[i].source].get_weight();
            if w > m {
                heavier = true;
            } else if w < m {
                match below {
                    None => {
                        below = Some(w);
                    },
                    Some(b) => {
                        if w > b {
                            below = Some(w);
                        }
                    },
                }
            }
            i = i + 1;
        }
        if heavier {
            m
        } else {
            match below {
                Some(b) => b,
                None => m,
            }
        }
    }
}

} // verus!
