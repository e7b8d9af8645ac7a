//! Rack-aware replica selection within one datacenter: one node per distinct
//! rack first, in ring order, then a bounded number of repeats.
use crate::replication::{label_view, labels_view, Node};
use vstd::prelude::*;
use vstd::set_lib::*;

verus! {

/// The rack value of node `n`; nodes without a rack share the value `None`.
pub open spec fn rack_of(nodes: Seq<Node>, n: usize) -> Option<Seq<char>> {
    label_view(nodes[n as int].rack)
}

/// The rack values of the given nodes, in order.
pub open spec fn racks_in(nodes: Seq<Node>, ns: Seq<usize>) -> Seq<Option<Seq<char>>> {
    ns.map_values(|n: usize| rack_of(nodes, n))
}

/// The nodes picked from the distinct candidates `cands`, in order, when the
/// racks in `used` are taken already, `left` nodes are still wanted, and
/// `budget` nodes may still come from a rack that is taken.
pub open spec fn nts_walk(
    nodes: Seq<Node>,
    cands: Seq<usize>,
    used: Set<Option<Seq<char>>>,
    left: nat,
    budget: nat,
) -> Seq<usize>
    decreases cands.len(),
{
    if left == 0 || cands.len() == 0 {
        Seq::empty()
    } else {
        let n = cands[0];
        let rk = rack_of(nodes, n);
        let rest = cands.drop_first();
        if !used.contains(rk) {
            seq![n] + nts_walk(nodes, rest, used.insert(rk), (left - 1) as nat, budget)
        } else if budget > 0 {
            seq![n] + nts_walk(nodes, rest, used, (left - 1) as nat, (budget - 1) as nat)
        } else {
            nts_walk(nodes, rest, used, left, budget)
        }
    }
}

/// How many of the nodes `w` have a rack that is in `used` or belongs to an
/// earlier node of `w`.
pub open spec fn repeats_from(nodes: Seq<Node>, used: Set<Option<Seq<char>>>, w: Seq<usize>) -> nat
    decreases w.len(),
{
    if w.len() == 0 {
        0
    } else {
        let rk = rack_of(nodes, w[0]);
        (if used.contains(rk) {
            1nat
        } else {
            0nat
        }) + repeats_from(nodes, used.insert(rk), w.drop_first())
    }
}

/// Racks of the candidates that are not taken yet.
pub open spec fn fresh_racks(
    nodes: Seq<Node>,
    cands: Seq<usize>,
    used: Set<Option<Seq<char>>>,
) -> nat {
    racks_in(nodes, cands).to_set().difference(used).len()
}

/// Appending a value adds it to the set of values.
pub proof fn lemma_push_to_set<A>(s: Seq<A>, x: A)
    ensures
        s.push(x).to_set() == s.to_set().insert(x),
{
    assert forall|y: A| #[trigger] s.push(x).to_set().contains(y) implies s.to_set().insert(x).contains(y) by {
        let i = choose|i: int| 0 <= i < s.push(x).len() && s.push(x)[i] == y;
        if i < s.len() {
            assert(s[i] == y);
        }
    }
    assert forall|y: A| #[trigger] s.to_set().insert(x).contains(y) implies s.push(x).to_set().contains(y) by {
        if y == x {
            assert(s.push(x)[s.len() as int] == y);
        } else {
            let i = choose|i: int| 0 <= i < s.len() && s[i] == y;
            assert(s.push(x)[i] == y);
        }
    }
    assert(s.push(x).to_set() =~= s.to_set().insert(x));
}

/// The state of one rack-aware selection: the distinct candidates in ring
/// order and how far they have been read, the racks taken, how many nodes
/// are still wanted, and how many may still repeat a taken rack.
pub struct NtsReplicasInDatacenterIterator {
    pub replicas_left_to_find: usize,
    pub candidates: Vec<usize>,
    pub pos: usize,
    pub used_racks: Vec<Option<String>>,
    pub acceptable_repeats: usize,
}

impl NtsReplicasInDatacenterIterator {
    pub open spec fn wf(&self, nodes: Seq<Node>) -> bool {
        &&& self.pos <= self.candidates.len()
        &&& forall|i: int| 0 <= i < self.candidates.len() ==> (#[trigger] self.candidates@[i]) < nodes.len()
    }

    /// The nodes this selection has still to produce.
    pub open spec fn rest(&self, nodes: Seq<Node>) -> Seq<usize> {
        nts_walk(
            nodes,
            self.candidates@.skip(self.pos as int),
            labels_view(self.used_racks@).to_set(),
            self.replicas_left_to_find as nat,
            self.acceptable_repeats as nat,
        )
    }

    /// A selection over `candidates` that wants `left` nodes and allows
    /// `repeats` of them from taken racks.
    pub fn new(candidates: Vec<usize>, left: usize, repeats: usize) -> (r: Self)
        ensures
            r.candidates@ == candidates@,
            r.pos == 0,
            labels_view(r.used_racks@).to_set() == Set::<Option<Seq<char>>>::empty(),
            r.replicas_left_to_find == left,
            r.acceptable_repeats == repeats,
    {
        let r = NtsReplicasInDatacenterIterator {
            replicas_left_to_find: left,
            candidates,
            pos: 0,
            used_racks: Vec::new(),
            acceptable_repeats: repeats,
        };
        assert(labels_view(r.used_racks@).to_set() =~= Set::<Option<Seq<char>>>::empty());
        r
    }

    /// The next replica, or `None` once enough were found or the candidates
    /// ran out.
    pub fn next(&mut self, nodes: &Vec<Node>) -> (r: Option<usize>)
        requires
            old(self).wf(nodes@),
        ensures
            final(self).wf(nodes@),
            final(self).candidates@ == old(self).candidates@,
            old(self).pos <= final(self).pos,
            final(self).replicas_left_to_find <= old(self).replicas_left_to_find,
            final(self).acceptable_repeats <= old(self).acceptable_repeats,
            labels_view(old(self).used_racks@).to_set().subset_of(
                labels_view(final(self).used_racks@).to_set(),
            ),
            r.is_some() <==> final(self).replicas_left_to_find == old(self).replicas_left_to_find - 1,
            old(self).replicas_left_to_find == 0 ==> r.is_none() && *final(self) == *old(self),
            match r {
                None => {
                    &&& old(self).rest(nodes@) == Seq::<usize>::empty()
                    &&& final(self).rest(nodes@) == Seq::<usize>::empty()
                    &&& final(self).replicas_left_to_find == old(self).replicas_left_to_find
                    &&& final(self).acceptable_repeats == old(self).acceptable_repeats
                    &&& final(self).used_racks@ == old(self).used_racks@
                    &&& old(self).replicas_left_to_find > 0
                        ==> final(self).pos == final(self).candidates.len()
                },
                Some(n) => {
                    &&& old(self).rest(nodes@) == seq![n] + final(self).rest(nodes@)
                    &&& old(self).pos < final(self).pos
                    &&& final(self).candidates@[final(self).pos - 1] == n
                    &&& final(self).replicas_left_to_find == old(self).replicas_left_to_find - 1
                    &&& if labels_view(old(self).used_racks@).contains(rack_of(nodes@, n)) {
                        &&& final(self).acceptable_repeats == old(self).acceptable_repeats - 1
                        &&& final(self).used_racks@ == old(self).used_racks@
                    } else {
                        &&& final(self).acceptable_repeats == old(self).acceptable_repeats
                        &&& labels_view(final(self).used_racks@) == labels_view(
                            old(self).used_racks@,
                        ).push(rack_of(nodes@, n))
                    }
                },
            },
    {
        if self.replicas_left_to_find == 0 {
            return None;
        }
        while self.pos < self.candidates.len()
            invariant
                self.wf(nodes@),
                self.candidates@ == old(self).candidates@,
                self.replicas_left_to_find > 0,
                self.rest(nodes@) == old(self).rest(nodes@),
                old(self).pos <= self.pos,
                self.replicas_left_to_find == old(self).replicas_left_to_find,
                self.acceptable_repeats == old(self).acceptable_repeats,
                self.used_racks@ == old(self).used_racks@,
            decreases self.candidates.len() - self.pos,
        {
            let n = self.candidates[self.pos];
            let rack = &nodes[n].rack;
            let ghost used = labels_view(self.used_racks@).to_set();
            let ghost rem = self.candidates@.skip(self.pos as int);
            assert(rem.drop_first() == self.candidates@.skip(self.pos + 1));
            assert(rem[0] == n);
            let taken = crate::replication::contains_label(&self.used_racks, rack);
            let ghost prev = self.used_racks@;
            self.pos = self.pos + 1;
            if !taken {
                let c = crate::replication::clone_label(rack);
                self.used_racks.push(c);
                assert(labels_view(self.used_racks@) =~= labels_view(prev).push(label_view(*rack)));
                proof {
                    lemma_push_to_set(labels_view(prev), label_view(*rack));
                }
                self.replicas_left_to_find = self.replicas_left_to_find - 1;
                return Some(n);
            } else if self.acceptable_repeats > 0 {
                self.acceptable_repeats = self.acceptable_repeats - 1;
                self.replicas_left_to_find = self.replicas_left_to_find - 1;
                return Some(n);
            }
        }
        assert(self.candidates@.skip(self.pos as int).len() == 0);
        None
    }
}

} // verus!

verus! {

proof fn lemma_racks_split(nodes: Seq<Node>, cands: Seq<usize>)
    requires
        cands.len() > 0,
    ensures
        racks_in(nodes, cands).to_set() == racks_in(nodes, cands.drop_first()).to_set().insert(
            rack_of(nodes, cands[0]),
        ),
{
    let a = racks_in(nodes, cands);
    let b = racks_in(nodes, cands.drop_first());
    assert forall|y| #[trigger] a.to_set().contains(y) implies b.to_set().insert(rack_of(nodes, cands[0])).contains(y) by {
        let i = choose|i: int| 0 <= i < a.len() && a[i] == y;
        if i > 0 {
            assert(b[i - 1] == y);
        }
    }
    assert forall|y| #[trigger] b.to_set().insert(rack_of(nodes, cands[0])).contains(y) implies a.to_set().contains(y) by {
        if y == rack_of(nodes, cands[0]) {
            assert(a[0] == y);
        } else {
            let i = choose|i: int| 0 <= i < b.len() && b[i] == y;
            assert(a[i + 1] == y);
        }
    }
    assert(a.to_set() =~= b.to_set().insert(rack_of(nodes, cands[0])));
}

/// With no repeats allowed, the picked nodes have pairwise distinct racks,
/// none of them taken beforehand.
pub proof fn lemma_walk_distinct_racks(
    nodes: Seq<Node>,
    cands: Seq<usize>,
    used: Set<Option<Seq<char>>>,
    left: nat,
)
    ensures
        ({
            let w = nts_walk(nodes, cands, used, left, 0);
            &&& forall|i: int| 0 <= i < w.len() ==> !used.contains(#[trigger] rack_of(nodes, w[i]))
            &&& forall|i: int, j: int|
                0 <= i < j < w.len() ==> rack_of(nodes, w[i]) != rack_of(nodes, w[j])
        }),
    decreases cands.len(),
{
    if left > 0 && cands.len() > 0 {
        let rk = rack_of(nodes, cands[0]);
        let rest = cands.drop_first();
        if !used.contains(rk) {
            lemma_walk_distinct_racks(nodes, rest, used.insert(rk), (left - 1) as nat);
            let w = nts_walk(nodes, cands, used, left, 0);
            let w2 = nts_walk(nodes, rest, used.insert(rk), (left - 1) as nat, 0);
            assert forall|i: int| 0 <= i < w.len() implies !used.contains(#[trigger] rack_of(nodes, w[i])) by {
                if i > 0 {
                    assert(w[i] == w2[i - 1]);
                }
            }
            assert forall|i: int, j: int| 0 <= i < j < w.len() implies rack_of(nodes, w[i]) != rack_of(nodes, w[j]) by {
                assert(w[j] == w2[j - 1]);
                if i > 0 {
                    assert(w[i] == w2[i - 1]);
                } else {
                    assert(!used.insert(rk).contains(rack_of(nodes, w2[j - 1])));
                }
            }
        } else {
            lemma_walk_distinct_racks(nodes, rest, used, left);
        }
    }
}

/// Counting the walk: at most `budget` picked nodes repeat a rack, the others
/// each bring a fresh rack, and whenever enough candidates and fresh racks
/// remain, exactly `left` nodes are picked.
pub proof fn lemma_walk_counts(
    nodes: Seq<Node>,
    cands: Seq<usize>,
    used: Set<Option<Seq<char>>>,
    left: nat,
    budget: nat,
)
    ensures
        ({
            let w = nts_walk(nodes, cands, used, left, budget);
            let rep = repeats_from(nodes, used, w);
            &&& w.len() <= left
            &&& rep <= budget
            &&& rep <= w.len()
            &&& w.len() - rep <= fresh_racks(nodes, cands, used)
            &&& (left <= cands.len() && left <= fresh_racks(nodes, cands, used) + budget) ==> w.len() == left
        }),
    decreases cands.len(),
{
    let w = nts_walk(nodes, cands, used, left, budget);
    if left == 0 || cands.len() == 0 {
        if cands.len() == 0 {
            assert(racks_in(nodes, cands).to_set() =~= Set::empty());
        }
    } else {
        let n = cands[0];
        let rk = rack_of(nodes, n);
        let rest = cands.drop_first();
        let s = racks_in(nodes, cands).to_set();
        let s2 = racks_in(nodes, rest).to_set();
        lemma_racks_split(nodes, cands);
        racks_in(nodes, rest).lemma_cardinality_of_set();
        lemma_len_subset(s2.difference(used), s2);
        if !used.contains(rk) {
            lemma_walk_counts(nodes, rest, used.insert(rk), (left - 1) as nat, budget);
            let w2 = nts_walk(nodes, rest, used.insert(rk), (left - 1) as nat, budget);
            assert(w.drop_first() == w2);
            assert(s.difference(used) =~= s2.difference(used.insert(rk)).insert(rk));
            assert(!s2.difference(used.insert(rk)).contains(rk));
            assert(s.difference(used).len() == s2.difference(used.insert(rk)).len() + 1);
            lemma_len_subset(s2.difference(used.insert(rk)), s2);
        } else if budget > 0 {
            lemma_walk_counts(nodes, rest, used, (left - 1) as nat, (budget - 1) as nat);
            let w2 = nts_walk(nodes, rest, used, (left - 1) as nat, (budget - 1) as nat);
            assert(w.drop_first() == w2);
            assert(used.insert(rk) =~= used);
            assert(s.difference(used) =~= s2.difference(used));
        } else {
            lemma_walk_counts(nodes, rest, used, left, budget);
            assert(s.difference(used) =~= s2.difference(used));
        }
    }
}

} // verus!
