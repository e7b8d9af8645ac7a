use scylla_replicas::replication::{DatacenterNodes, Node, ReplicationInfo};
use scylla_replicas::ring::TokenRing;
use scylla_replicas::startup::Startup;
use std::collections::HashMap;

fn node(dc: Option<&str>, rack: Option<&str>) -> Node {
    Node {
        datacenter: dc.map(|s| s.to_string()),
        rack: rack.map(|s| s.to_string()),
    }
}

/// N1(DC1, r1) at 10, N2(DC1, r2) at 20, N3(DC1, r1) at 30.
fn three_nodes() -> ReplicationInfo {
    let nodes = vec![
        node(Some("DC1"), Some("r1")),
        node(Some("DC1"), Some("r2")),
        node(Some("DC1"), Some("r1")),
    ];
    ReplicationInfo::new(nodes, vec![(30, 2), (10, 0), (20, 1)])
}

fn racks(info: &ReplicationInfo, ns: &[usize]) -> Vec<Option<String>> {
    ns.iter().map(|&n| info.nodes[n].rack.clone()).collect()
}

#[test]
fn nts_two_distinct_racks_skips_repeat() {
    let info = three_nodes();
    assert_eq!(info.nts_replicas_in_datacenter(5, "DC1", 2), vec![0, 1]);
}

#[test]
fn nts_repeat_budget_admits_third_node() {
    let info = three_nodes();
    assert_eq!(info.nts_replicas_in_datacenter(5, "DC1", 3), vec![0, 1, 2]);
}

#[test]
fn simple_wraps_past_last_token() {
    let info = three_nodes();
    assert_eq!(info.simple_strategy_replicas(25, 2), vec![2, 0]);
}

#[test]
fn empty_ring_selects_nothing() {
    let info = ReplicationInfo::new(Vec::new(), Vec::new());
    assert!(info.simple_strategy_replicas(0, 3).is_empty());
    assert!(info.nts_replicas_in_datacenter(0, "DC1", 3).is_empty());
    assert!(info.unique_nodes_in_global_ring().is_empty());
    assert!(info.get_datacenters().is_empty());
}

#[test]
fn simple_count_is_min_of_factor_and_members() {
    // Three nodes with two virtual nodes each.
    let nodes = vec![node(None, None), node(None, None), node(None, None)];
    let info = ReplicationInfo::new(
        nodes,
        vec![(1, 0), (2, 0), (3, 1), (4, 2), (5, 1), (6, 2)],
    );
    for rf in 0..6usize {
        let r = info.simple_strategy_replicas(2, rf);
        assert_eq!(r.len(), rf.min(3));
        let mut sorted = r.clone();
        sorted.sort();
        sorted.dedup();
        assert_eq!(sorted.len(), r.len());
    }
    assert_eq!(info.simple_strategy_replicas(2, 3), vec![0, 1, 2]);
    assert_eq!(info.simple_strategy_replicas(5, 3), vec![1, 2, 0]);
}

#[test]
fn selection_is_deterministic() {
    let info = three_nodes();
    assert_eq!(
        info.simple_strategy_replicas(15, 3),
        info.simple_strategy_replicas(15, 3)
    );
    assert_eq!(
        info.nts_replicas_in_datacenter(15, "DC1", 3),
        info.nts_replicas_in_datacenter(15, "DC1", 3)
    );
    assert_eq!(info.simple_strategy_replicas(15, 3), vec![1, 2, 0]);
}

#[test]
fn ring_range_wraps_to_smallest_token() {
    let ring = TokenRing::new(vec![(30, 2), (10, 0), (20, 1)]);
    assert_eq!(ring.ring_range(100), vec![(10, 0), (20, 1), (30, 2)]);
    assert_eq!(ring.ring_range(20), vec![(20, 1), (30, 2), (10, 0)]);
    assert_eq!(ring.ring_range(21), vec![(30, 2), (10, 0), (20, 1)]);
    assert_eq!(ring.start_index(100), 3);
    assert_eq!(ring.start_index(-5), 0);
}

#[test]
fn ring_range_on_empty_ring_is_empty() {
    let ring = TokenRing::new_empty();
    assert!(ring.ring_range(7).is_empty());
}

#[test]
fn equal_tokens_keep_input_order() {
    let ring = TokenRing::new(vec![(5, 3), (1, 9), (5, 1), (5, 2), (0, 4)]);
    assert_eq!(
        ring.entries,
        vec![(0, 4), (1, 9), (5, 3), (5, 1), (5, 2)]
    );
}

#[test]
fn nts_racks_distinct_when_enough_racks() {
    let nodes = vec![
        node(Some("DC1"), Some("a")),
        node(Some("DC1"), Some("a")),
        node(Some("DC1"), Some("b")),
        node(Some("DC1"), Some("c")),
        node(Some("DC1"), Some("b")),
    ];
    let info = ReplicationInfo::new(
        nodes,
        vec![(10, 0), (20, 1), (30, 2), (40, 4), (50, 3)],
    );
    assert_eq!(info.rack_count_in_datacenter("DC1"), Some(3));
    let r = info.nts_replicas_in_datacenter(15, "DC1", 3);
    assert_eq!(r, vec![1, 2, 3]);
    let rk = racks(&info, &r);
    assert!(rk[0] != rk[1] && rk[1] != rk[2] && rk[0] != rk[2]);
}

#[test]
fn nts_repeats_are_factor_minus_racks() {
    let nodes = vec![
        node(Some("DC1"), Some("a")),
        node(Some("DC1"), Some("a")),
        node(Some("DC1"), Some("a")),
        node(Some("DC1"), Some("b")),
        node(Some("DC1"), Some("b")),
    ];
    let info = ReplicationInfo::new(
        nodes,
        vec![(10, 0), (20, 1), (30, 2), (40, 3), (50, 4)],
    );
    let r = info.nts_replicas_in_datacenter(5, "DC1", 4);
    assert_eq!(r, vec![0, 1, 2, 3]);
    let rk = racks(&info, &r);
    let mut repeats = 0;
    for i in 0..rk.len() {
        if rk[..i].contains(&rk[i]) {
            repeats += 1;
        }
    }
    assert_eq!(repeats, 4 - 2);
}

#[test]
fn unknown_datacenter_is_empty() {
    let info = three_nodes();
    assert!(info.nts_replicas_in_datacenter(5, "DC9", 3).is_empty());
    assert!(info.unique_nodes_in_datacenter_ring("DC9").is_none());
    assert_eq!(info.rack_count_in_datacenter("DC9"), None);
}

#[test]
fn missing_racks_count_as_one_rack() {
    let nodes = vec![
        node(Some("DC1"), None),
        node(Some("DC1"), None),
        node(Some("DC1"), Some("r1")),
    ];
    let info = ReplicationInfo::new(nodes, vec![(1, 0), (2, 1), (3, 2)]);
    assert_eq!(info.rack_count_in_datacenter("DC1"), Some(2));
    assert_eq!(info.nts_replicas_in_datacenter(0, "DC1", 2), vec![0, 2]);
}

#[test]
fn nodes_without_datacenter_stay_in_global_ring_only() {
    let nodes = vec![
        node(Some("DC1"), Some("r1")),
        node(None, Some("r1")),
        node(Some("DC2"), Some("r1")),
        node(Some("DC1"), Some("r2")),
    ];
    let info = ReplicationInfo::new(nodes, vec![(40, 3), (30, 2), (20, 1), (10, 0)]);
    assert_eq!(info.unique_nodes_in_global_ring(), &[0, 1, 2, 3][..]);
    assert_eq!(info.unique_nodes_in_datacenter_ring("DC1"), Some(&[0, 3][..]));
    assert_eq!(info.unique_nodes_in_datacenter_ring("DC2"), Some(&[2][..]));
    let names: Vec<String> = info.get_datacenters().iter().map(|d| d.name.clone()).collect();
    assert_eq!(names, vec!["DC1".to_string(), "DC2".to_string()]);
    assert_eq!(info.get_global_ring().entries.len(), 4);
    assert_eq!(info.get_datacenters()[0].get_dc_ring().entries, vec![(10, 0), (40, 3)]);
    assert_eq!(info.nts_replicas_in_datacenter(15, "DC1", 5), vec![3, 0]);
}

#[test]
fn unique_members_follow_ring_order_once_each() {
    let nodes = vec![node(Some("DC1"), None), node(Some("DC1"), None)];
    let info = ReplicationInfo::new(nodes, vec![(9, 0), (3, 1), (5, 0), (7, 1)]);
    assert_eq!(info.unique_nodes_in_global_ring(), &[1, 0][..]);
    assert_eq!(info.unique_nodes_in_datacenter_ring("DC1"), Some(&[1, 0][..]));
    assert_eq!(info.simple_strategy_replicas(6, 5), vec![1, 0]);
}

#[test]
fn empty_datacenter_view_has_nothing() {
    let dc = DatacenterNodes::new_empty();
    assert!(dc.get_dc_ring().entries.is_empty());
    assert!(dc.unique_nodes_in_dc_ring.is_empty());
    assert_eq!(dc.rack_count, 0);
}

#[test]
fn startup_holds_options() {
    let mut options = HashMap::new();
    options.insert("CQL_VERSION".to_string(), "4.0.0".to_string());
    let s = Startup { options };
    assert_eq!(s.options.get("CQL_VERSION").map(|v| v.as_str()), Some("4.0.0"));
}

#[test]
fn nts_step_function_transitions() {
    let info = three_nodes();
    let mut it = info.nts_replicas_iter(5, "DC1", 3);
    assert_eq!(it.replicas_left_to_find, 3);
    assert_eq!(it.acceptable_repeats, 1);
    // New rack r1: marked used, budget kept.
    assert_eq!(it.next(&info.nodes), Some(0));
    assert_eq!((it.pos, it.replicas_left_to_find, it.acceptable_repeats), (1, 2, 1));
    assert_eq!(it.used_racks, vec![Some("r1".to_string())]);
    // New rack r2.
    assert_eq!(it.next(&info.nodes), Some(1));
    assert_eq!((it.pos, it.replicas_left_to_find, it.acceptable_repeats), (2, 1, 1));
    assert_eq!(it.used_racks.len(), 2);
    // Rack r1 again: spends the repeat budget, used racks unchanged.
    assert_eq!(it.next(&info.nodes), Some(2));
    assert_eq!((it.pos, it.replicas_left_to_find, it.acceptable_repeats), (3, 0, 0));
    assert_eq!(it.used_racks.len(), 2);
    // Finished, and stays finished.
    assert_eq!(it.next(&info.nodes), None);
    assert_eq!(it.next(&info.nodes), None);
    assert_eq!(it.pos, 3);
}

#[test]
fn nts_step_function_skips_and_exhausts() {
    let info = three_nodes();
    let mut it = info.nts_replicas_iter(5, "DC1", 2);
    assert_eq!(it.next(&info.nodes), Some(0));
    assert_eq!(it.next(&info.nodes), Some(1));
    assert_eq!(it.next(&info.nodes), None);
    let mut more = info.nts_replicas_iter(25, "DC1", 2);
    // From 25: N3 (r1), then N1 (r1, skipped: no repeats), then N2 (r2).
    assert_eq!(more.next(&info.nodes), Some(2));
    assert_eq!(more.next(&info.nodes), Some(1));
    assert_eq!(more.pos, 3);
    assert_eq!(more.next(&info.nodes), None);
}

#[test]
fn nts_step_function_unknown_datacenter() {
    let info = three_nodes();
    let mut it = info.nts_replicas_iter(5, "nowhere", 3);
    assert_eq!(it.next(&info.nodes), None);
    assert_eq!(it.next(&info.nodes), None);
}

#[test]
fn large_ring_sorts_stably() {
    let mut input = Vec::new();
    for i in 0..100usize {
        input.push((((i * 37) % 11) as i64 - 5, i));
    }
    let ring = TokenRing::new(input.clone());
    let mut expected = input.clone();
    expected.sort_by_key(|e| e.0);
    assert_eq!(ring.entries, expected);
}
