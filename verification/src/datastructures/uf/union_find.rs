use crate::error::InvalidInput;
use vstd::prelude::*;
use vstd::set_lib::*;

verus! {

/// The elements of a labelling whose representative is `r`.
pub open spec fn class_of(roots: Seq<int>, r: int) -> Set<int> {
    Set::new(|i: int| 0 <= i < roots.len() && roots[i] == r)
}

/// The elements of a labelling that represent themselves.
pub open spec fn representatives(roots: Seq<int>) -> Set<int> {
    Set::new(|i: int| 0 <= i < roots.len() && roots[i] == i)
}

/// Every element is labelled with an element that represents itself.
pub open spec fn is_partition(roots: Seq<int>) -> bool {
    forall|i: int|
        0 <= i < roots.len() ==> 0 <= #[trigger] roots[i] < roots.len() && roots[roots[i]]
            == roots[i]
}

/// The labelling in which the class of `loser` has joined the class of `winner`.
pub open spec fn merged(roots: Seq<int>, loser: int, winner: int) -> Seq<int> {
    Seq::new(
        roots.len(),
        |i: int|
            if roots[i] == loser {
                winner
            } else {
                roots[i]
            },
    )
}

/// The labelling after the classes of `p` and `q` are united: the smaller class joins the
/// larger one, and on equal sizes the class of `q` joins that of `p`.
pub open spec fn united(roots: Seq<int>, p: int, q: int) -> Seq<int> {
    let rp = roots[p];
    let rq = roots[q];
    if rp == rq {
        roots
    } else if class_of(roots, rp).len() < class_of(roots, rq).len() {
        merged(roots, rp, rq)
    } else {
        merged(roots, rq, rp)
    }
}

/// The labelling in which every element stands alone.
pub open spec fn singletons(n: nat) -> Seq<int> {
    Seq::new(n, |i: int| i)
}

/// Follows parent links from `i` up to the element that is its own parent.
spec fn root_at(id: Seq<usize>, rank: Seq<nat>, limit: nat, i: int) -> int
    decreases limit - rank[i],
{
    if 0 <= i < id.len() && id[i] != i && id[i] < id.len() && rank[i] < rank[id[i] as int] <= limit {
        root_at(id, rank, limit, id[i] as int)
    } else {
        i
    }
}

/// Parent links stay inside the structure and climb strictly in rank.
spec fn links_ok(id: Seq<usize>, rank: Seq<nat>, limit: nat) -> bool {
    &&& rank.len() == id.len()
    &&& forall|i: int| 0 <= i < id.len() ==> #[trigger] id[i] < id.len()
    &&& forall|i: int| 0 <= i < id.len() ==> #[trigger] rank[i] <= limit
    &&& forall|i: int| 0 <= i < id.len() && id[i] != i ==> rank[i] < rank[#[trigger] id[i] as int]
}

spec fn roots_of(id: Seq<usize>, rank: Seq<nat>, limit: nat) -> Seq<int> {
    Seq::new(id.len(), |i: int| root_at(id, rank, limit, i))
}

proof fn lemma_root_is_fixed(id: Seq<usize>, rank: Seq<nat>, limit: nat, i: int)
    requires
        links_ok(id, rank, limit),
        0 <= i < id.len(),
    ensures
        0 <= root_at(id, rank, limit, i) < id.len(),
        id[root_at(id, rank, limit, i)] == root_at(id, rank, limit, i),
        root_at(id, rank, limit, root_at(id, rank, limit, i)) == root_at(id, rank, limit, i),
        rank[i] <= rank[root_at(id, rank, limit, i)],
    decreases limit - rank[i],
{
    if id[i] != i {
        lemma_root_is_fixed(id, rank, limit, id[i] as int);
    }
}

proof fn lemma_roots_partition(id: Seq<usize>, rank: Seq<nat>, limit: nat)
    requires
        links_ok(id, rank, limit),
    ensures
        is_partition(roots_of(id, rank, limit)),
{
    let roots = roots_of(id, rank, limit);
    assert forall|i: int| 0 <= i < roots.len() implies 0 <= #[trigger] roots[i] < roots.len()
        && roots[roots[i]] == roots[i] by {
        lemma_root_is_fixed(id, rank, limit, i);
    }
}

/// Replacing the parent of `p` by its grandparent moves no element to another class.
proof fn lemma_halving_keeps_root(id: Seq<usize>, rank: Seq<nat>, limit: nat, p: int, x: int)
    requires
        links_ok(id, rank, limit),
        0 <= p < id.len(),
        0 <= x < id.len(),
    ensures
        links_ok(id.update(p, id[id[p] as int]), rank, limit),
        root_at(id.update(p, id[id[p] as int]), rank, limit, x) == root_at(id, rank, limit, x),
    decreases limit - rank[x],
{
    let id2 = id.update(p, id[id[p] as int]);
    assert(links_ok(id2, rank, limit)) by {
        assert(id[id[p] as int] < id.len());
        assert forall|i: int| 0 <= i < id2.len() && id2[i] != i implies rank[i] < rank[
            #[trigger] id2[i] as int] by {
            if i == p {
                let par = id[p] as int;
                if id[par] != par {
                    assert(rank[par] < rank[id[par] as int]);
                }
                assert(rank[p] < rank[id[p] as int]);
            } else {
                assert(rank[i] < rank[id[i] as int]);
            }
        }
    }
    if id[x] != x {
        if x == p {
            let par = id[p] as int;
            assert(rank[p] < rank[id[p] as int]);
            assert(root_at(id, rank, limit, p) == root_at(id, rank, limit, par));
            if id[par] != par {
                assert(rank[par] < rank[id[par] as int]);
                lemma_halving_keeps_root(id, rank, limit, p, id[par] as int);
                assert(root_at(id, rank, limit, par) == root_at(id, rank, limit, id[par] as int));
                assert(root_at(id2, rank, limit, p) == root_at(id2, rank, limit, id[par] as int));
            } else {
                lemma_halving_keeps_root(id, rank, limit, p, par);
                assert(root_at(id2, rank, limit, p) == root_at(id2, rank, limit, par));
            }
        } else {
            assert(rank[x] < rank[id[x] as int]);
            assert(id2[x] == id[x]);
            lemma_halving_keeps_root(id, rank, limit, p, id[x] as int);
        }
    }
}

/// Hanging the root `loser` under the root `winner` relabels exactly the class of `loser`.
proof fn lemma_link_relabels(
    id: Seq<usize>,
    rank: Seq<nat>,
    limit: nat,
    loser: int,
    winner: int,
    x: int,
)
    requires
        links_ok(id, rank, limit),
        0 <= loser < id.len(),
        0 <= winner < id.len(),
        loser != winner,
        id[loser] == loser,
        id[winner] == winner,
        0 <= x < id.len(),
    ensures
        links_ok(
            id.update(loser, winner as usize),
            rank.update(winner, (limit + 1) as nat),
            (limit + 1) as nat,
        ),
        root_at(
            id.update(loser, winner as usize),
            rank.update(winner, (limit + 1) as nat),
            (limit + 1) as nat,
            x,
        ) == if root_at(id, rank, limit, x) == loser {
            winner
        } else {
            root_at(id, rank, limit, x)
        },
    decreases limit - rank[x],
{
    let id2 = id.update(loser, winner as usize);
    let rank2 = rank.update(winner, (limit + 1) as nat);
    let limit2 = (limit + 1) as nat;
    assert(links_ok(id2, rank2, limit2)) by {
        assert forall|i: int| 0 <= i < id2.len() && id2[i] != i implies rank2[i] < rank2[
            #[trigger] id2[i] as int] by {
            if i == loser {
            } else {
                assert(id2[i] == id[i]);
                assert(rank[i] < rank[id[i] as int]);
                assert(i != winner);
            }
        }
        assert forall|i: int| 0 <= i < id2.len() implies #[trigger] rank2[i] <= limit2 by {
            assert(rank[i] <= limit);
        }
        assert forall|i: int| 0 <= i < id2.len() implies #[trigger] id2[i] < id2.len() by {
            assert(id[i] < id.len());
        }
    }
    if id[x] != x {
        assert(rank[x] < rank[id[x] as int]);
        lemma_link_relabels(id, rank, limit, loser, winner, id[x] as int);
        assert(x != loser && x != winner);
        assert(id2[x] == id[x]);
        assert(rank2[x] < rank2[id2[x] as int]);
    } else if x == loser {
        assert(root_at(id2, rank2, limit2, winner) == winner);
        assert(id2[x] == winner);
        assert(rank2[x] < rank2[winner]);
    } else {
        assert(id2[x] == x);
    }
}

/// Classes are finite, and no larger than the whole.
pub proof fn lemma_class_bounded(roots: Seq<int>, r: int)
    ensures
        class_of(roots, r).finite(),
        class_of(roots, r).len() <= roots.len(),
        representatives(roots).finite(),
        representatives(roots).len() <= roots.len(),
{
    lemma_int_range(0, roots.len() as int);
    lemma_len_subset(class_of(roots, r), set_int_range(0, roots.len() as int));
    lemma_len_subset(representatives(roots), set_int_range(0, roots.len() as int));
}

/// What joining one class to another does to the sizes of the classes and to their number.
pub proof fn lemma_merged_classes(roots: Seq<int>, loser: int, winner: int)
    requires
        is_partition(roots),
        0 <= loser < roots.len(),
        0 <= winner < roots.len(),
        roots[loser] == loser,
        roots[winner] == winner,
        loser != winner,
    ensures
        is_partition(merged(roots, loser, winner)),
        class_of(merged(roots, loser, winner), winner).len() == class_of(roots, winner).len()
            + class_of(roots, loser).len(),
        forall|r: int|
            r != winner && r != loser ==> #[trigger] class_of(merged(roots, loser, winner), r)
                == class_of(roots, r),
        representatives(merged(roots, loser, winner)).len() + 1 == representatives(roots).len(),
{
    let m = merged(roots, loser, winner);
    assert forall|i: int| 0 <= i < m.len() implies 0 <= #[trigger] m[i] < m.len() && m[m[i]]
        == m[i] by {
        assert(0 <= roots[i] < roots.len() && roots[roots[i]] == roots[i]);
    }
    lemma_class_bounded(roots, winner);
    lemma_class_bounded(roots, loser);
    lemma_set_disjoint_lens(class_of(roots, winner), class_of(roots, loser));
    assert(class_of(roots, winner).disjoint(class_of(roots, loser)));
    assert(class_of(m, winner) =~= class_of(roots, winner) + class_of(roots, loser));
    assert forall|r: int| r != winner && r != loser implies #[trigger] class_of(m, r) == class_of(
        roots,
        r,
    ) by {
        assert(class_of(m, r) =~= class_of(roots, r));
    }
    assert(representatives(m) =~= representatives(roots).remove(loser)) by {
        assert forall|i: int| representatives(m).contains(i) <==> representatives(roots).remove(
            loser,
        ).contains(i) by {
            if 0 <= i < roots.len() {
                assert(0 <= roots[i] < roots.len() && roots[roots[i]] == roots[i]);
            }
        }
    }
    assert(representatives(roots).contains(loser));
}

/// Uniting two classes leaves a partition, with one class fewer where the two differed.
pub proof fn lemma_united_count(roots: Seq<int>, p: int, q: int)
    requires
        is_partition(roots),
        0 <= p < roots.len(),
        0 <= q < roots.len(),
    ensures
        is_partition(united(roots, p, q)),
        united(roots, p, q).len() == roots.len(),
        representatives(united(roots, p, q)).len() + (if roots[p] == roots[q] {
            0int
        } else {
            1int
        }) == representatives(roots).len(),
{
    let rp = roots[p];
    let rq = roots[q];
    assert(0 <= roots[p] < roots.len() && roots[roots[p]] == roots[p]);
    assert(0 <= roots[q] < roots.len() && roots[roots[q]] == roots[q]);
    if rp != rq {
        lemma_merged_classes(roots, rp, rq);
        lemma_merged_classes(roots, rq, rp);
    }
}

/// A labelling has one class at most exactly when all its elements carry one label.
pub proof fn lemma_single_class(roots: Seq<int>)
    requires
        is_partition(roots),
    ensures
        representatives(roots).len() <= 1 <==> (forall|a: int, b: int|
            0 <= a < roots.len() && 0 <= b < roots.len() ==> roots[a] == roots[b]),
        roots.len() > 0 ==> representatives(roots).len() >= 1,
{
    let reps = representatives(roots);
    lemma_class_bounded(roots, 0);
    if roots.len() > 0 {
        assert(0 <= roots[0] < roots.len() && roots[roots[0]] == roots[0]);
        assert(reps.contains(roots[0]));
    }
    if reps.len() <= 1 {
        assert forall|a: int, b: int|
            0 <= a < roots.len() && 0 <= b < roots.len() implies roots[a] == roots[b] by {
            assert(0 <= roots[a] < roots.len() && roots[roots[a]] == roots[a]);
            assert(0 <= roots[b] < roots.len() && roots[roots[b]] == roots[b]);
            if roots[a] != roots[b] {
                assert(reps.contains(roots[a]));
                assert(reps.remove(roots[a]).contains(roots[b]));
            }
        }
    }
    if forall|a: int, b: int|
        0 <= a < roots.len() && 0 <= b < roots.len() ==> roots[a] == roots[b] {
        if roots.len() > 0 {
            let r = roots[0];
            assert(reps =~= set![r]) by {
                assert forall|i: int| reps.contains(i) implies i == r by {
                    assert(roots[i] == roots[0]);
                }
            }
        } else {
            assert(reps =~= Set::<int>::empty());
        }
    }
}

impl View for UF {
    type V = Seq<int>;

    /// Each element's representative.
    closed spec fn view(&self) -> Seq<int> {
        roots_of(self.id@, self.rank@, self.limit@)
    }
}

/// A disjoint-set forest over the elements `0..n`, united by size, with paths halved on
/// every search.
pub struct UF {
    id: Vec<usize>,
    size: Vec<usize>,
    count: i32,
    rank: Ghost<Seq<nat>>,
    limit: Ghost<nat>,
}

impl UF {
    /// The structure is coherent: links lead to representatives, and the recorded sizes and
    /// the recorded number of classes are those of the labelling.
    pub closed spec fn wf(&self) -> bool {
        &&& links_ok(self.id@, self.rank@, self.limit@)
        &&& self.size@.len() == self.id@.len()
        &&& self.id@.len() <= i32::MAX
        &&& forall|r: int|
            0 <= r < self.id@.len() && self.id@[r] == r ==> #[trigger] self.size@[r] == class_of(
                self@,
                r,
            ).len()
        &&& self.count == representatives(self@).len()
    }

    /// A coherent structure labels its elements as a partition does.
    pub proof fn lemma_view(&self)
        requires
            self.wf(),
        ensures
            is_partition(self@),
            self@.len() <= i32::MAX,
    {
        lemma_roots_partition(self.id@, self.rank@, self.limit@);
    }

    /// `n` elements, each alone in its class. A negative `n` is turned down.
    pub fn new(n: i32) -> (r: Result<UF, InvalidInput>)
        ensures
            n < 0 <==> r is Err,
            r matches Err(e) ==> e == InvalidInput::NegativeSize,
            r matches Ok(uf) ==> uf.wf() && uf@ == singletons(n as nat),
    {
        if n < 0 {
            return Err(InvalidInput::NegativeSize);
        }
        let mut id: Vec<usize> = Vec::new();
        let mut size: Vec<usize> = Vec::new();
        let mut i: i32 = 0;
        while i < n
            invariant
                0 <= i <= n,
                id@.len() == i,
                size@.len() == i,
                forall|k: int| 0 <= k < i ==> #[trigger] id@[k] == k,
                forall|k: int| 0 <= k < i ==> #[trigger] size@[k] == 1,
            decreases n - i,
        {
            id.push(i as usize);
            size.push(1);
            i = i + 1;
        }
        let uf = UF { id, size, count: n, rank: Ghost(Seq::new(n as nat, |k: int| 0nat)), limit: Ghost(0nat) };
        proof {
            assert(links_ok(uf.id@, uf.rank@, uf.limit@));
            assert(uf@ =~= singletons(n as nat));
            assert forall|r: int| 0 <= r < uf.id@.len() implies class_of(uf@, r).len() == 1 by {
                assert(class_of(uf@, r) =~= set![r]);
            }
            lemma_int_range(0, n as int);
            assert(representatives(uf@) =~= set_int_range(0, n as int));
        }
        Ok(uf)
    }

    /// The representative of the class of `p`. Classes stay as they are.
    pub fn find(&mut self, p: usize) -> (r: usize)
        requires
            old(self).wf(),
            p < old(self)@.len(),
        ensures
            final(self).wf(),
            final(self)@ == old(self)@,
            r == old(self)@[p as int],
    {
        let ghost start = p;
        let mut p = p;
        while p != self.id[p]
            invariant
                self.wf(),
                self@ == old(self)@,
                p < self.id@.len(),
                self@[p as int] == old(self)@[start as int],
            decreases self.limit@ - self.rank@[p as int],
        {
            let parent = self.id[p];
            let grand = self.id[parent];
            proof {
                let id = self.id@;
                assert forall|x: int| 0 <= x < id.len() implies root_at(
                    id.update(p as int, grand),
                    self.rank@,
                    self.limit@,
                    x,
                ) == root_at(id, self.rank@, self.limit@, x) by {
                    lemma_halving_keeps_root(id, self.rank@, self.limit@, p as int, x);
                }
                lemma_halving_keeps_root(id, self.rank@, self.limit@, p as int, p as int);
                assert(roots_of(id.update(p as int, grand), self.rank@, self.limit@) =~= roots_of(
                    id,
                    self.rank@,
                    self.limit@,
                ));
                assert(self.rank@[p as int] < self.rank@[parent as int]);
                if id[parent as int] != parent {
                    assert(self.rank@[parent as int] < self.rank@[id[parent as int] as int]);
                }
            }
            self.id[p] = grand;
            p = grand;
        }
        p
    }

    /// Whether `p` and `q` are in one class. Classes stay as they are.
    pub fn connected(&mut self, p: usize, q: usize) -> (r: bool)
        requires
            old(self).wf(),
            p < old(self)@.len(),
            q < old(self)@.len(),
        ensures
            final(self).wf(),
            final(self)@ == old(self)@,
            r == (old(self)@[p as int] == old(self)@[q as int]),
    {
        let a = self.find(p);
        let b = self.find(q);
        a == b
    }

    /// Unites the classes of `p` and `q`.
    pub fn union(&mut self, p: usize, q: usize)
        requires
            old(self).wf(),
            p < old(self)@.len(),
            q < old(self)@.len(),
        ensures
            final(self).wf(),
            final(self)@ == united(old(self)@, p as int, q as int),
    {
        let root_p = self.find(p);
        let root_q = self.find(q);
        if root_p == root_q {
            return ;
        }
        proof {
            self.lemma_view();
            lemma_class_bounded(self@, root_p as int);
            lemma_class_bounded(self@, root_q as int);
            lemma_root_is_fixed(self.id@, self.rank@, self.limit@, p as int);
            lemma_root_is_fixed(self.id@, self.rank@, self.limit@, q as int);
        }
        let ghost before = self@;
        let ghost id0 = self.id@;
        let ghost rank0 = self.rank@;
        let ghost limit0 = self.limit@;
        let size_p = self.size[root_p];
        let size_q = self.size[root_q];
        if size_p < size_q {
            proof {
                lemma_merged_classes(before, root_p as int, root_q as int);
                assert forall|x: int| 0 <= x < id0.len() implies root_at(
                    id0.update(root_p as int, root_q),
                    rank0.update(root_q as int, (limit0 + 1) as nat),
                    (limit0 + 1) as nat,
                    x,
                ) == merged(before, root_p as int, root_q as int)[x] by {
                    lemma_link_relabels(id0, rank0, limit0, root_p as int, root_q as int, x);
                }
                lemma_link_relabels(id0, rank0, limit0, root_p as int, root_q as int, 0);
            }
            self.id[root_p] = root_q;
            self.size[root_q] = size_q + size_p;
            self.rank = Ghost(rank0.update(root_q as int, (limit0 + 1) as nat));
        } else {
            proof {
                lemma_merged_classes(before, root_q as int, root_p as int);
                assert forall|x: int| 0 <= x < id0.len() implies root_at(
                    id0.update(root_q as int, root_p),
                    rank0.update(root_p as int, (limit0 + 1) as nat),
                    (limit0 + 1) as nat,
                    x,
                ) == merged(before, root_q as int, root_p as int)[x] by {
                    lemma_link_relabels(id0, rank0, limit0, root_q as int, root_p as int, x);
                }
                lemma_link_relabels(id0, rank0, limit0, root_q as int, root_p as int, 0);
            }
            self.id[root_q] = root_p;
            self.size[root_p] = size_p + size_q;
            self.rank = Ghost(rank0.update(root_p as int, (limit0 + 1) as nat));
        }
        self.limit = Ghost((limit0 + 1) as nat);
        self.count = self.count - 1;
        proof {
            assert(self@ =~= united(before, p as int, q as int));
        }
    }

    /// The number of classes.
    pub fn count(&self) -> (r: i32)
        requires
            self.wf(),
        ensures
            r == representatives(self@).len(),
    {
        self.count
    }
}

} // verus!
