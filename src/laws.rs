//! Properties of replica selection that hold for every snapshot, token and
//! replication factor.
use crate::distinct::{dedup, lemma_dedup_len};
use crate::nts::{lemma_walk_counts, lemma_walk_distinct_racks, rack_of, racks_in, repeats_from};
use crate::replication::{ids, lemma_lap_nodes_same_members, min_nat, racks_of, ReplicationInfo};
use vstd::prelude::*;

verus! {

proof fn lemma_racks_same_set(nodes: Seq<crate::replication::Node>, a: Seq<usize>, b: Seq<usize>)
    requires
        a.to_set() == b.to_set(),
    ensures
        racks_in(nodes, a).to_set() == racks_in(nodes, b).to_set(),
{
    assert forall|y| #[trigger] racks_in(nodes, a).to_set().contains(y) implies racks_in(nodes, b).to_set().contains(y) by {
        let i = choose|i: int| 0 <= i < a.len() && racks_in(nodes, a)[i] == y;
        assert(a.to_set().contains(a[i]));
        let j = choose|j: int| 0 <= j < b.len() && b[j] == a[i];
        assert(racks_in(nodes, b)[j] == y);
    }
    assert forall|y| #[trigger] racks_in(nodes, b).to_set().contains(y) implies racks_in(nodes, a).to_set().contains(y) by {
        let i = choose|i: int| 0 <= i < b.len() && racks_in(nodes, b)[i] == y;
        assert(b.to_set().contains(b[i]));
        let j = choose|j: int| 0 <= j < a.len() && a[j] == b[i];
        assert(racks_in(nodes, a)[j] == y);
    }
    assert(racks_in(nodes, a).to_set() =~= racks_in(nodes, b).to_set());
}

/// Simple-strategy selection yields exactly the smaller of the replication
/// factor and the number of distinct nodes in the ring, with no node twice.
pub proof fn lemma_simple_count_and_distinct(info: ReplicationInfo, t: i64, rf: nat)
    requires
        info.wf(),
    ensures
        info.simple_spec(t, rf).len() == min_nat(rf, info.unique_nodes_in_global_ring@.len()),
        info.simple_spec(t, rf).no_duplicates(),
{
    lemma_lap_nodes_same_members(info.global_ring.entries@, t);
}

/// Selection is a function of the snapshot, the token and the factor: two
/// results obtained from the same arguments are the same sequence.
pub proof fn lemma_selection_deterministic(
    info: ReplicationInfo,
    t: i64,
    name: Seq<char>,
    rf: nat,
    first: Seq<usize>,
    second: Seq<usize>,
    nts_first: Seq<usize>,
    nts_second: Seq<usize>,
)
    requires
        first == info.simple_spec(t, rf),
        second == info.simple_spec(t, rf),
        nts_first == info.nts_spec(t, name, rf),
        nts_second == info.nts_spec(t, name, rf),
    ensures
        first == second,
        nts_first == nts_second,
{
}

/// When a datacenter has at least as many distinct racks as the replication
/// factor, the rack-aware replicas all have pairwise distinct racks.
pub proof fn lemma_nts_rack_diversity(info: ReplicationInfo, t: i64, name: Seq<char>, rf: nat)
    requires
        info.wf(),
        info.has_dc(name) ==> info.dc(name).rack_count >= rf,
    ensures
        forall|i: int, j: int|
            0 <= i < j < info.nts_spec(t, name, rf).len() ==> rack_of(
                info.nodes@,
                info.nts_spec(t, name, rf)[i],
            ) != rack_of(info.nodes@, info.nts_spec(t, name, rf)[j]),
{
    if info.has_dc(name) {
        let dc = info.dc(name);
        lemma_walk_distinct_racks(
            info.nodes@,
            crate::replication::lap_nodes(dc.dc_ring.entries@, t),
            Set::empty(),
            min_nat(rf, dc.unique_nodes_in_dc_ring@.len()),
        );
    }
}

/// When a datacenter has fewer distinct racks than the replication factor
/// and at least that many nodes, exactly that many replicas come back, and
/// exactly factor minus rack count of them share a rack with an earlier one.
pub proof fn lemma_nts_repeat_budget(info: ReplicationInfo, t: i64, name: Seq<char>, rf: nat)
    requires
        info.wf(),
        info.has_dc(name),
        info.dc(name).rack_count < rf,
        rf <= info.dc(name).unique_nodes_in_dc_ring@.len(),
    ensures
        info.nts_spec(t, name, rf).len() == rf,
        repeats_from(info.nodes@, Set::empty(), info.nts_spec(t, name, rf)) == rf - info.dc(
            name,
        ).rack_count,
{
    let nodes = info.nodes@;
    let dc = info.dc(name);
    let d = choose|d: int| 0 <= d < info.datacenters.len() && info.datacenters@[d].name@ == name;
    assert(info.datacenters@[d].wf_for(nodes, info.global_ring.entries@));
    let es = dc.dc_ring.entries@;
    let cands = crate::replication::lap_nodes(es, t);
    lemma_lap_nodes_same_members(es, t);
    crate::distinct::lemma_dedup_to_set(ids(crate::ring::rotate(es, crate::ring::count_below(es, t) as int)));
    lemma_racks_same_set(nodes, cands, ids(es));
    assert(racks_in(nodes, ids(es)) =~= racks_of(nodes, ids(es)));
    lemma_dedup_len(racks_of(nodes, ids(es)));
    let used = Set::<Option<Seq<char>>>::empty();
    assert(racks_in(nodes, cands).to_set().difference(used) =~= racks_in(nodes, cands).to_set());
    lemma_walk_counts(nodes, cands, used, rf, (rf - dc.rack_count) as nat);
}

/// For a datacenter name that is not known, rack-aware selection yields no
/// node.
pub proof fn lemma_unknown_dc_selects_nothing(info: ReplicationInfo, t: i64, name: Seq<char>, rf: nat)
    requires
        !info.has_dc(name),
    ensures
        info.nts_spec(t, name, rf) == Seq::<usize>::empty(),
{
}

} // verus!
