//! The replication snapshot: the global ring, one ring per datacenter, and the
//! statistics derived from them.
use crate::distinct::{dedup, unique_indices, unique_labels};
use crate::nts::{nts_walk, NtsReplicasInDatacenterIterator};
use crate::ring::{count_below, is_sorted, rotate, stable_sort, TokenRing};
use vstd::prelude::*;

verus! {

/// A cluster member, with its optional datacenter and rack labels. Nodes are
/// held in a table; ring entries name a node by its position there, so two
/// entries refer to the same node exactly when they hold the same position.
pub struct Node {
    pub datacenter: Option<String>,
    pub rack: Option<String>,
}

/// What an optional label holds, as characters.
pub open spec fn label_view(l: Option<String>) -> Option<Seq<char>> {
    match l {
        Some(s) => Some(s@),
        None => None,
    }
}

/// The node positions of ring entries, in order.
pub open spec fn ids(es: Seq<(i64, usize)>) -> Seq<usize> {
    es.map_values(|e: (i64, usize)| e.1)
}

/// Every entry names a node of a table of `n` nodes.
pub open spec fn ids_valid(es: Seq<(i64, usize)>, n: nat) -> bool {
    forall|i: int| 0 <= i < es.len() ==> (#[trigger] es[i]).1 < n
}

/// The rack labels of the given nodes, in order.
pub open spec fn racks_of(nodes: Seq<Node>, ns: Seq<usize>) -> Seq<Option<Seq<char>>> {
    ns.map_values(|i: usize| label_view(nodes[i as int].rack))
}

/// The datacenter labels met along the entries, absent ones left out.
pub open spec fn dc_labels(nodes: Seq<Node>, es: Seq<(i64, usize)>) -> Seq<Seq<char>>
    decreases es.len(),
{
    if es.len() == 0 {
        Seq::empty()
    } else {
        let p = dc_labels(nodes, es.drop_last());
        match nodes[es.last().1 as int].datacenter {
            Some(d) => p.push(d@),
            None => p,
        }
    }
}

/// The entries whose node belongs to datacenter `name`, in order.
pub open spec fn in_dc(nodes: Seq<Node>, es: Seq<(i64, usize)>, name: Seq<char>) -> Seq<(i64, usize)>
    decreases es.len(),
{
    if es.len() == 0 {
        Seq::empty()
    } else {
        let p = in_dc(nodes, es.drop_last(), name);
        if label_view(nodes[es.last().1 as int].datacenter) == Some(name) {
            p.push(es.last())
        } else {
            p
        }
    }
}

/// Distinct rack labels among the nodes of the entries; nodes without a
/// rack share one value.
pub open spec fn rack_count_of(nodes: Seq<Node>, es: Seq<(i64, usize)>) -> nat {
    dedup(racks_of(nodes, ids(es))).len()
}

/// The view of a list of names.
pub open spec fn names_view(v: Seq<String>) -> Seq<Seq<char>> {
    v.map_values(|s: String| s@)
}

/// The view of a list of optional labels.
pub open spec fn labels_view(v: Seq<Option<String>>) -> Seq<Option<Seq<char>>> {
    v.map_values(|l: Option<String>| label_view(l))
}

proof fn lemma_stable_sort_elems(s: Seq<(i64, usize)>, n: nat)
    requires
        ids_valid(s, n),
    ensures
        ids_valid(stable_sort(s), n),
{
    crate::ring::lemma_stable_sort_elems(s);
    assert forall|i: int| 0 <= i < stable_sort(s).len() implies (#[trigger] stable_sort(s)[i]).1 < n by {
        let j = choose|j: int| 0 <= j < s.len() && s[j] == stable_sort(s)[i];
        assert(s[j].1 < n);
    }
}

proof fn lemma_in_dc_elems(nodes: Seq<Node>, es: Seq<(i64, usize)>, name: Seq<char>)
    requires
        ids_valid(es, nodes.len()),
    ensures
        ids_valid(in_dc(nodes, es, name), nodes.len()),
    decreases es.len(),
{
    if es.len() > 0 {
        lemma_in_dc_elems(nodes, es.drop_last(), name);
    }
}

/// The same label, compared by content.
fn label_eq(a: &Option<String>, b: &Option<String>) -> (r: bool)
    ensures
        r == (label_view(*a) == label_view(*b)),
{
    match (a, b) {
        (Some(x), Some(y)) => *x == *y,
        (None, None) => true,
        _ => false,
    }
}

pub(crate) fn clone_label(a: &Option<String>) -> (r: Option<String>)
    ensures
        label_view(r) == label_view(*a),
{
    match a {
        Some(x) => Some(x.clone()),
        None => None,
    }
}

pub(crate) fn contains_label(v: &Vec<Option<String>>, x: &Option<String>) -> (r: bool)
    ensures
        r == labels_view(v@).contains(label_view(*x)),
{
    let mut i: usize = 0;
    while i < v.len()
        invariant
            i <= v.len(),
            forall|k: int| 0 <= k < i ==> labels_view(v@)[k] != label_view(*x),
        decreases v.len() - i,
    {
        if label_eq(&v[i], x) {
            assert(labels_view(v@)[i as int] == label_view(*x));
            return true;
        }
        i = i + 1;
    }
    false
}

fn position_of_name(v: &Vec<String>, x: &String) -> (r: Option<usize>)
    ensures
        match r {
            Some(d) => d < v.len() && names_view(v@)[d as int] == x@,
            None => !names_view(v@).contains(x@),
        },
{
    let mut i: usize = 0;
    while i < v.len()
        invariant
            i <= v.len(),
            forall|k: int| 0 <= k < i ==> names_view(v@)[k] != x@,
        decreases v.len() - i,
    {
        if v[i] == *x {
            return Some(i);
        }
        i = i + 1;
    }
    None
}

/// The node positions of the entries.
fn entry_ids(es: &Vec<(i64, usize)>) -> (r: Vec<usize>)
    ensures
        r@ == ids(es@),
{
    let mut out: Vec<usize> = Vec::new();
    let mut i: usize = 0;
    while i < es.len()
        invariant
            i <= es.len(),
            out@ == ids(es@.take(i as int)),
        decreases es.len() - i,
    {
        out.push(es[i].1);
        assert(ids(es@.take(i + 1)) == ids(es@.take(i as int)).push(es@[i as int].1));
        i = i + 1;
    }
    assert(es@.take(es.len() as int) == es@);
    out
}

/// Number of distinct rack labels among the given nodes.
fn count_distinct_racks(nodes: &Vec<Node>, ns: &Vec<usize>) -> (r: usize)
    requires
        forall|i: int| 0 <= i < ns.len() ==> (#[trigger] ns@[i]) < nodes.len(),
    ensures
        r == dedup(racks_of(nodes@, ns@)).len(),
{
    let mut racks: Vec<Option<String>> = Vec::new();
    let mut i: usize = 0;
    while i < ns.len()
        invariant
            i <= ns.len(),
            forall|k: int| 0 <= k < ns.len() ==> (#[trigger] ns@[k]) < nodes.len(),
            labels_view(racks@) == racks_of(nodes@, ns@.take(i as int)),
        decreases ns.len() - i,
    {
        let ghost prev = racks@;
        racks.push(clone_label(&nodes[ns[i]].rack));
        assert(labels_view(racks@) =~= racks_of(nodes@, ns@.take(i + 1))) by {
            assert(labels_view(racks@) =~= labels_view(prev).push(label_view(nodes@[ns@[i as int] as int].rack)));
        }
        i = i + 1;
    }
    assert(ns@.take(ns.len() as int) == ns@);
    let distinct = unique_labels(&racks);
    assert(labels_view(distinct@).len() == distinct@.len());
    distinct.len()
}

/// The nodes of one datacenter: their ring, their distinct members in ring
/// order, and how many distinct racks they span.
pub struct DatacenterNodes {
    pub name: String,
    pub dc_ring: TokenRing,
    pub unique_nodes_in_dc_ring: Vec<usize>,
    pub rack_count: usize,
}

impl DatacenterNodes {
    /// This is the view of datacenter `name@` of the global ring `global`.
    pub open spec fn wf_for(&self, nodes: Seq<Node>, global: Seq<(i64, usize)>) -> bool {
        &&& self.dc_ring.entries@ == stable_sort(in_dc(nodes, global, self.name@))
        &&& self.dc_ring.wf()
        &&& ids_valid(self.dc_ring.entries@, nodes.len())
        &&& self.unique_nodes_in_dc_ring@ == dedup(ids(self.dc_ring.entries@))
        &&& self.rack_count == rack_count_of(nodes, self.dc_ring.entries@)
    }

    /// A datacenter with no nodes.
    pub fn new_empty() -> (r: DatacenterNodes)
        ensures
            r.name@ == Seq::<char>::empty(),
            r.dc_ring.entries@ == Seq::<(i64, usize)>::empty(),
            r.unique_nodes_in_dc_ring@ == Seq::<usize>::empty(),
            r.rack_count == 0,
    {
        DatacenterNodes {
            name: String::new(),
            dc_ring: TokenRing::new_empty(),
            unique_nodes_in_dc_ring: Vec::new(),
            rack_count: 0,
        }
    }

    /// The ring of this datacenter's entries.
    pub fn get_dc_ring(&self) -> (r: &TokenRing)
        ensures
            r == &self.dc_ring,
    {
        &self.dc_ring
    }

    /// Builds the view of datacenter `name` from the global ring.
    fn build(
        nodes: &Vec<Node>,
        global: &Vec<(i64, usize)>,
        name: &String,
        group: &Vec<(i64, usize)>,
    ) -> (r: DatacenterNodes)
        requires
            ids_valid(global@, nodes.len() as nat),
            group@ == in_dc(nodes@, global@, name@),
        ensures
            r.name@ == name@,
            r.wf_for(nodes@, global@),
    {
        let es = crate::ring::copy_range(group, 0, group.len());
        assert(group@.subrange(0, group.len() as int) == group@);
        proof {
            lemma_in_dc_elems(nodes@, global@, name@);
            lemma_stable_sort_elems(es@, nodes.len() as nat);
        }
        let dc_ring = TokenRing::new(es);
        let dc_ids = entry_ids(&dc_ring.entries);
        let unique_nodes_in_dc_ring = unique_indices(&dc_ids);
        assert forall|k: int| 0 <= k < dc_ids.len() implies (#[trigger] dc_ids@[k]) < nodes.len() by {
            assert(dc_ids@[k] == dc_ring.entries@[k].1);
        }
        let rack_count = count_distinct_racks(nodes, &dc_ids);
        DatacenterNodes { name: name.clone(), dc_ring, unique_nodes_in_dc_ring, rack_count }
    }
}

} // verus!

verus! {

proof fn lemma_in_dc_absent(nodes: Seq<Node>, es: Seq<(i64, usize)>, name: Seq<char>)
    requires
        !dc_labels(nodes, es).contains(name),
    ensures
        in_dc(nodes, es, name) == Seq::<(i64, usize)>::empty(),
    decreases es.len(),
{
    if es.len() > 0 {
        let p = es.drop_last();
        match nodes[es.last().1 as int].datacenter {
            Some(d) => {
                let l = dc_labels(nodes, p).push(d@);
                assert(l[l.len() - 1] == d@);
                assert forall|j: int| 0 <= j < dc_labels(nodes, p).len() implies dc_labels(nodes, p)[j] != name by {
                    assert(l[j] == dc_labels(nodes, p)[j]);
                }
            },
            None => {},
        }
        lemma_in_dc_absent(nodes, p, name);
    }
}

/// The datacenter names met along the entries, each once, in order of
/// first appearance, and for each name the entries of its nodes, in order;
/// one pass over the entries.
fn partition_by_datacenter(nodes: &Vec<Node>, es: &Vec<(i64, usize)>) -> (r: (
    Vec<String>,
    Vec<Vec<(i64, usize)>>,
))
    requires
        ids_valid(es@, nodes.len() as nat),
    ensures
        names_view(r.0@) == dedup(dc_labels(nodes@, es@)),
        r.1.len() == r.0.len(),
        forall|d: int| 0 <= d < r.0.len() ==> (#[trigger] r.1@[d])@ == in_dc(nodes@, es@, r.0@[d]@),
{
    let mut names: Vec<String> = Vec::new();
    let mut groups: Vec<Vec<(i64, usize)>> = Vec::new();
    let mut i: usize = 0;
    while i < es.len()
        invariant
            i <= es.len(),
            ids_valid(es@, nodes.len() as nat),
            names_view(names@) == dedup(dc_labels(nodes@, es@.take(i as int))),
            groups.len() == names.len(),
            forall|d: int|
                0 <= d < names.len() ==> (#[trigger] groups@[d])@ == in_dc(nodes@, es@.take(i as int), names@[d]@),
        decreases es.len() - i,
    {
        let ghost pre = es@.take(i as int);
        let ghost g = groups@;
        let e = es[i];
        assert(es@.take(i + 1).drop_last() == pre);
        assert(es@.take(i + 1).last() == e);
        match &nodes[e.1].datacenter {
            Some(dn) => {
                let ghost labels = dc_labels(nodes@, pre);
                assert(dc_labels(nodes@, es@.take(i + 1)) == labels.push(dn@));
                assert(labels.push(dn@).drop_last() == labels);
                assert(labels.push(dn@).last() == dn@);
                proof {
                    crate::distinct::lemma_dedup_to_set(labels);
                }
                assert(dedup(labels).to_set().contains(dn@) == labels.to_set().contains(dn@));
                match position_of_name(&names, dn) {
                    Some(d) => {
                        groups[d].push(e);
                        assert forall|d2: int| 0 <= d2 < names.len() implies (#[trigger] groups@[d2])@
                            == in_dc(nodes@, es@.take(i + 1), names@[d2]@) by {
                            if d2 != d {
                                assert(names_view(names@)[d2] != names_view(names@)[d as int]);
                                assert(groups@[d2] == g[d2]);
                            }
                        }
                    },
                    None => {
                        proof {
                            lemma_in_dc_absent(nodes@, pre, dn@);
                        }
                        let ghost prev = names@;
                        names.push(dn.clone());
                        let mut fresh: Vec<(i64, usize)> = Vec::new();
                        fresh.push(e);
                        groups.push(fresh);
                        assert(names_view(names@) == names_view(prev).push(dn@));
                        assert forall|d2: int| 0 <= d2 < names.len() implies (#[trigger] groups@[d2])@
                            == in_dc(nodes@, es@.take(i + 1), names@[d2]@) by {
                            if d2 < prev.len() {
                                assert(names_view(prev)[d2] == prev[d2]@);
                                assert(names@[d2] == prev[d2]);
                                assert(groups@[d2] == g[d2]);
                            } else {
                                assert(in_dc(nodes@, pre, dn@).push(e) =~= fresh@);
                            }
                        }
                    },
                }
            },
            None => {
                assert(dc_labels(nodes@, es@.take(i + 1)) == dc_labels(nodes@, pre));
            },
        }
        i = i + 1;
    }
    assert(es@.take(es.len() as int) == es@);
    (names, groups)
}

/// A snapshot of token ownership: the global ring, its distinct members in
/// ring order, and one view per datacenter.
pub struct ReplicationInfo {
    pub nodes: Vec<Node>,
    pub global_ring: TokenRing,
    pub unique_nodes_in_global_ring: Vec<usize>,
    pub datacenters: Vec<DatacenterNodes>,
}

/// One lap of the ring from token `t`, as distinct nodes in the order first
/// met.
pub open spec fn lap_nodes(es: Seq<(i64, usize)>, t: i64) -> Seq<usize> {
    dedup(ids(rotate(es, count_below(es, t) as int)))
}

pub open spec fn min_nat(a: nat, b: nat) -> nat {
    if a <= b {
        a
    } else {
        b
    }
}

impl ReplicationInfo {
    /// The datacenter names, in order.
    pub open spec fn dc_names(&self) -> Seq<Seq<char>> {
        self.datacenters@.map_values(|d: DatacenterNodes| d.name@)
    }

    /// Everything is derived from the global ring as construction derives it.
    pub open spec fn wf(&self) -> bool {
        &&& self.global_ring.wf()
        &&& ids_valid(self.global_ring.entries@, self.nodes.len() as nat)
        &&& self.unique_nodes_in_global_ring@ == dedup(ids(self.global_ring.entries@))
        &&& self.dc_names() == dedup(dc_labels(self.nodes@, self.global_ring.entries@))
        &&& forall|d: int|
            0 <= d < self.datacenters.len() ==> (#[trigger] self.datacenters@[d]).wf_for(
                self.nodes@,
                self.global_ring.entries@,
            )
    }

    /// A datacenter of this name is known.
    pub open spec fn has_dc(&self, name: Seq<char>) -> bool {
        exists|d: int| 0 <= d < self.datacenters.len() && self.datacenters@[d].name@ == name
    }

    /// The view of the datacenter of this name, when it is known.
    pub open spec fn dc(&self, name: Seq<char>) -> DatacenterNodes
        recommends
            self.has_dc(name),
    {
        let d = choose|d: int| 0 <= d < self.datacenters.len() && self.datacenters@[d].name@ == name;
        self.datacenters@[d]
    }

    /// The simple-strategy replicas for token `t`.
    pub open spec fn simple_spec(&self, t: i64, rf: nat) -> Seq<usize> {
        lap_nodes(self.global_ring.entries@, t).take(
            min_nat(rf, self.unique_nodes_in_global_ring@.len()) as int,
        )
    }

    /// The rack-aware replicas for token `t` in datacenter `name`; none when
    /// the datacenter is unknown.
    pub open spec fn nts_spec(&self, t: i64, name: Seq<char>, rf: nat) -> Seq<usize> {
        if self.has_dc(name) {
            let dc = self.dc(name);
            nts_walk(
                self.nodes@,
                lap_nodes(dc.dc_ring.entries@, t),
                Set::empty(),
                min_nat(rf, dc.unique_nodes_in_dc_ring@.len()),
                if rf > dc.rack_count {
                    (rf - dc.rack_count) as nat
                } else {
                    0
                },
            )
        } else {
            Seq::empty()
        }
    }

    /// The datacenter views.
    pub fn get_datacenters(&self) -> (r: &Vec<DatacenterNodes>)
        ensures
            r == &self.datacenters,
    {
        &self.datacenters
    }

    /// The global ring.
    pub fn get_global_ring(&self) -> (r: &TokenRing)
        ensures
            r == &self.global_ring,
    {
        &self.global_ring
    }

    /// Builds the snapshot from the full token assignment: each entry gives
    /// a token and the position of its owning node in `nodes`.
    pub fn new(nodes: Vec<Node>, assignment: Vec<(i64, usize)>) -> (r: ReplicationInfo)
        requires
            ids_valid(assignment@, nodes.len() as nat),
        ensures
            r.wf(),
            r.nodes@ == nodes@,
            r.global_ring.entries@ == stable_sort(assignment@),
    {
        proof {
            lemma_stable_sort_elems(assignment@, nodes.len() as nat);
        }
        let global_ring = TokenRing::new(assignment);
        let global_ids = entry_ids(&global_ring.entries);
        let unique_nodes_in_global_ring = unique_indices(&global_ids);
        let (names, groups) = partition_by_datacenter(&nodes, &global_ring.entries);
        let mut datacenters: Vec<DatacenterNodes> = Vec::new();
        let mut k: usize = 0;
        while k < names.len()
            invariant
                k <= names.len(),
                ids_valid(global_ring.entries@, nodes.len() as nat),
                datacenters.len() == k,
                groups.len() == names.len(),
                forall|d: int|
                    0 <= d < names.len() ==> (#[trigger] groups@[d])@ == in_dc(nodes@, global_ring.entries@, names@[d]@),
                forall|j: int| 0 <= j < k ==> (#[trigger] datacenters@[j]).name@ == names@[j]@,
                forall|j: int|
                    0 <= j < k ==> (#[trigger] datacenters@[j]).wf_for(nodes@, global_ring.entries@),
            decreases names.len() - k,
        {
            let dc = DatacenterNodes::build(&nodes, &global_ring.entries, &names[k], &groups[k]);
            datacenters.push(dc);
            k = k + 1;
        }
        let r = ReplicationInfo { nodes, global_ring, unique_nodes_in_global_ring, datacenters };
        assert(r.dc_names() =~= names_view(names@));
        r
    }

    /// Position of the datacenter called `name`.
    fn find_datacenter(&self, name: &String) -> (r: Option<usize>)
        requires
            self.wf(),
        ensures
            r.is_none() <==> !self.has_dc(name@),
            r matches Some(d) ==> d < self.datacenters.len() && self.datacenters@[d as int] == self.dc(name@),
    {
        let mut d: usize = 0;
        while d < self.datacenters.len()
            invariant
                d <= self.datacenters.len(),
                self.wf(),
                forall|j: int| 0 <= j < d ==> self.datacenters@[j].name@ != name@,
            decreases self.datacenters.len() - d,
        {
            if self.datacenters[d].name == *name {
                assert(self.has_dc(name@));
                let ghost c = choose|c: int|
                    0 <= c < self.datacenters.len() && self.datacenters@[c].name@ == name@;
                assert(self.dc_names()[c] == self.datacenters@[c].name@);
                assert(self.dc_names()[d as int] == self.datacenters@[d as int].name@);
                proof {
                    crate::distinct::lemma_dedup_to_set(dc_labels(self.nodes@, self.global_ring.entries@));
                }
                assert(self.dc_names().no_duplicates());
                assert(c == d as int);
                return Some(d);
            }
            d = d + 1;
        }
        None
    }

    /// The simple-strategy replicas for `token`: walking the global ring from
    /// the first entry with token at least `token`, wrapping round, each node
    /// the first time it is met, up to `replication_factor` nodes.
    pub fn simple_strategy_replicas(&self, token: i64, replication_factor: usize) -> (r: Vec<usize>)
        requires
            self.wf(),
        ensures
            r@ == self.simple_spec(token, replication_factor as nat),
    {
        let num_to_take = if replication_factor < self.unique_nodes_in_global_ring.len() {
            replication_factor
        } else {
            self.unique_nodes_in_global_ring.len()
        };
        let lap = self.global_ring.ring_range(token);
        let lap_ids = entry_ids(&lap);
        let unique = unique_indices(&lap_ids);
        proof {
            lemma_lap_nodes_same_members(self.global_ring.entries@, token);
        }
        let mut out: Vec<usize> = Vec::new();
        let mut i: usize = 0;
        while i < num_to_take
            invariant
                i <= num_to_take <= unique.len(),
                out@ == unique@.take(i as int),
            decreases num_to_take - i,
        {
            out.push(unique[i]);
            assert(unique@.take(i + 1) == unique@.take(i as int).push(unique@[i as int]));
            i = i + 1;
        }
        out
    }

    /// A rack-aware selection for `token` in datacenter `datacenter_name`,
    /// handed out step by step: its `next` produces the replicas in order, and
    /// the caller may stop at any point. An unknown datacenter gives a
    /// selection that produces nothing.
    pub fn nts_replicas_iter(
        &self,
        token: i64,
        datacenter_name: &str,
        replication_factor: usize,
    ) -> (r: NtsReplicasInDatacenterIterator)
        requires
            self.wf(),
        ensures
            r.wf(self.nodes@),
            r.rest(self.nodes@) == self.nts_spec(token, datacenter_name@, replication_factor as nat),
    {
        let key = datacenter_name.to_owned();
        let found = self.find_datacenter(&key);
        let d = match found {
            Some(d) => d,
            None => {
                let it = NtsReplicasInDatacenterIterator::new(Vec::new(), 0, 0);
                return it;
            },
        };
        let dc = &self.datacenters[d];
        assert(dc.wf_for(self.nodes@, self.global_ring.entries@));
        let num_to_take = if replication_factor < dc.unique_nodes_in_dc_ring.len() {
            replication_factor
        } else {
            dc.unique_nodes_in_dc_ring.len()
        };
        let repeats = if replication_factor > dc.rack_count {
            replication_factor - dc.rack_count
        } else {
            0
        };
        let lap = dc.dc_ring.ring_range(token);
        let lap_ids = entry_ids(&lap);
        let unique = unique_indices(&lap_ids);
        proof {
            lemma_lap_nodes_same_members(dc.dc_ring.entries@, token);
            crate::distinct::lemma_dedup_to_set(lap_ids@);
            lemma_ids_valid_members(dc.dc_ring.entries@, unique@, self.nodes.len() as nat);
        }
        let it = NtsReplicasInDatacenterIterator::new(unique, num_to_take, repeats);
        assert(it.candidates@.skip(0) == it.candidates@);
        it
    }

    /// The rack-aware replicas for `token` in datacenter `datacenter_name`;
    /// none when the datacenter is unknown.
    pub fn nts_replicas_in_datacenter(
        &self,
        token: i64,
        datacenter_name: &str,
        replication_factor: usize,
    ) -> (r: Vec<usize>)
        requires
            self.wf(),
        ensures
            r@ == self.nts_spec(token, datacenter_name@, replication_factor as nat),
    {
        let mut it = self.nts_replicas_iter(token, datacenter_name, replication_factor);
        let mut out: Vec<usize> = Vec::new();
        loop
            invariant
                it.wf(self.nodes@),
                out@ + it.rest(self.nodes@) == self.nts_spec(token, datacenter_name@, replication_factor as nat),
            decreases it.rest(self.nodes@).len(),
        {
            let ghost before = it.rest(self.nodes@);
            match it.next(&self.nodes) {
                Some(n) => {
                    out.push(n);
                    assert(out@ + it.rest(self.nodes@) == self.nts_spec(token, datacenter_name@, replication_factor as nat)) by {
                        assert(before == seq![n] + it.rest(self.nodes@));
                        assert(out@ + it.rest(self.nodes@) =~= out@.drop_last() + before);
                    }
                },
                None => {
                    assert(out@ + Seq::<usize>::empty() == out@);
                    return out;
                },
            }
        }
    }

    /// The distinct nodes of the global ring, in ring order.
    pub fn unique_nodes_in_global_ring(&self) -> (r: &[usize])
        ensures
            r@ == self.unique_nodes_in_global_ring@,
    {
        self.unique_nodes_in_global_ring.as_slice()
    }

    /// The distinct nodes of datacenter `datacenter_name` in its ring order;
    /// `None` when the datacenter is unknown.
    pub fn unique_nodes_in_datacenter_ring(&self, datacenter_name: &str) -> (r: Option<&[usize]>)
        requires
            self.wf(),
        ensures
            r.is_none() <==> !self.has_dc(datacenter_name@),
            r matches Some(s) ==> s@ == self.dc(datacenter_name@).unique_nodes_in_dc_ring@,
    {
        let key = datacenter_name.to_owned();
        match self.find_datacenter(&key) {
            Some(d) => Some(self.datacenters[d].unique_nodes_in_dc_ring.as_slice()),
            None => None,
        }
    }

    /// Distinct racks of datacenter `datacenter_name`; `None` when the
    /// datacenter is unknown.
    pub fn rack_count_in_datacenter(&self, datacenter_name: &str) -> (r: Option<usize>)
        requires
            self.wf(),
        ensures
            r.is_none() <==> !self.has_dc(datacenter_name@),
            r matches Some(c) ==> c == self.dc(datacenter_name@).rack_count,
    {
        let key = datacenter_name.to_owned();
        match self.find_datacenter(&key) {
            Some(d) => Some(self.datacenters[d].rack_count),
            None => None,
        }
    }
}

/// A lap from any token meets the same nodes as the whole ring.
pub proof fn lemma_lap_nodes_same_members(es: Seq<(i64, usize)>, t: i64)
    requires
        is_sorted(es),
    ensures
        ids(rotate(es, count_below(es, t) as int)).to_set() == ids(es).to_set(),
        lap_nodes(es, t).to_set() == ids(es).to_set(),
        lap_nodes(es, t).len() == dedup(ids(es)).len(),
        lap_nodes(es, t).no_duplicates(),
{
    crate::ring::lemma_count_below_sorted(es, t);
    let k = count_below(es, t) as int;
    let a = ids(rotate(es, k));
    let b = ids(es);
    assert forall|x: usize| #[trigger] a.to_set().contains(x) implies b.to_set().contains(x) by {
        let i = choose|i: int| 0 <= i < a.len() && a[i] == x;
        if i < es.len() - k {
            assert(b[i + k] == x);
        } else {
            assert(b[i - (es.len() - k)] == x);
        }
    }
    assert forall|x: usize| #[trigger] b.to_set().contains(x) implies a.to_set().contains(x) by {
        let j = choose|j: int| 0 <= j < b.len() && b[j] == x;
        if j >= k {
            assert(a[j - k] == x);
        } else {
            assert(a[es.len() - k + j] == x);
        }
    }
    assert(a.to_set() =~= b.to_set());
    crate::distinct::lemma_dedup_to_set(a);
    crate::distinct::lemma_dedup_len_same_set(a, b);
}

proof fn lemma_ids_valid_members(es: Seq<(i64, usize)>, m: Seq<usize>, n: nat)
    requires
        ids_valid(es, n),
        m.to_set() == ids(es).to_set(),
    ensures
        forall|i: int| 0 <= i < m.len() ==> (#[trigger] m[i]) < n,
{
    assert forall|i: int| 0 <= i < m.len() implies (#[trigger] m[i]) < n by {
        assert(m.to_set().contains(m[i]));
        let j = choose|j: int| 0 <= j < ids(es).len() && ids(es)[j] == m[i];
        assert(es[j].1 < n);
    }
}

} // verus!
