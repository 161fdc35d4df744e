use std::collections::HashMap;

use rust_ring::hashing::{partition_of_digest, partition_of_key};
use rust_ring::replicas::select_replicas;
use rust_ring::ring::{Ring, RingError};
use rust_ring::table::fill_table;

fn get_ring(nodes: u64) -> Ring {
    let mut ring = Ring::new("test".to_string(), 16, 3).unwrap();
    for nid in 1..nodes {
        let mut node = HashMap::new();
        node.insert("id".to_string(), nid);
        ring.add_node(node);
    }
    ring
}

fn small_ring(part_power: u32, replicas: usize, nodes: u64) -> Ring {
    let mut ring = Ring::new("small".to_string(), part_power, replicas).unwrap();
    for nid in 0..nodes {
        let mut node = HashMap::new();
        node.insert("weight".to_string(), nid);
        ring.add_node(node);
    }
    ring
}

fn count_of(table: &[u64], id: u64) -> usize {
    table.iter().filter(|&&x| x == id).count()
}

#[test]
fn test_rebalance() {
    let mut ring = get_ring(4);
    ring.rebalance().unwrap();
    // Every slot is filled: 2^16 of them.
    assert_eq!(ring.partitions().len(), 65536)
}

#[test]
fn test_get_nodes() {
    let mut ring = get_ring(4);
    ring.rebalance().unwrap();
    let nodes = ring.get_nodes("0").unwrap();
    assert_eq!(nodes.len(), 3)
}

#[test]
fn new_rejects_bad_configuration() {
    assert_eq!(Ring::new("r".to_string(), 0, 1).err(), Some(RingError::InvalidConfiguration));
    assert_eq!(Ring::new("r".to_string(), 33, 1).err(), Some(RingError::InvalidConfiguration));
    assert_eq!(Ring::new("r".to_string(), 4, 0).err(), Some(RingError::InvalidConfiguration));
    let ring = Ring::new("r".to_string(), 32, 1).unwrap();
    assert_eq!(ring.part_power(), 32);
    assert_eq!(ring.replicas(), 1);
    assert_eq!(ring.name(), "r");
    assert_eq!(ring.len(), 0);
    assert_eq!(ring.partitions().len(), 0);
}

#[test]
fn add_node_ids_increase_by_one() {
    let mut ring = small_ring(4, 1, 0);
    let a = ring.add_node(HashMap::new());
    let b = ring.add_node(HashMap::new());
    let c = ring.add_node(HashMap::new());
    assert_eq!((a, b, c), (1, 2, 3));
    assert_eq!(ring.len(), 3);
    assert_eq!(ring.partitions().len(), 0);
}

#[test]
fn table_is_complete_and_valid() {
    for (pp, n) in [(1u32, 3u64), (4, 2), (4, 3), (5, 7), (10, 5)] {
        let mut ring = small_ring(pp, 1, n);
        ring.rebalance().unwrap();
        let table = ring.partitions();
        assert_eq!(table.len(), 1usize << pp);
        assert!(table.iter().all(|&id| id >= 1 && id <= n));
    }
}

#[test]
fn fill_table_blocks_then_round_robin() {
    assert_eq!(fill_table(10, 3), vec![1, 1, 2, 2, 3, 3, 1, 2, 3, 1]);
    assert_eq!(fill_table(2, 3), vec![1, 2]);
    assert_eq!(fill_table(8, 2), vec![1, 1, 1, 1, 2, 2, 2, 2]);
    assert_eq!(fill_table(0, 2), Vec::<u64>::new());
}

#[test]
fn rebalance_twice_keeps_slot_counts() {
    let mut ring = small_ring(16, 3, 3);
    ring.rebalance().unwrap();
    let first: Vec<usize> = (1..=3).map(|id| count_of(ring.partitions(), id)).collect();
    ring.rebalance().unwrap();
    let second: Vec<usize> = (1..=3).map(|id| count_of(ring.partitions(), id)).collect();
    assert_eq!(first, second);
    // 65536 / 6 * 2 = 21844 each; the 4 left over go to nodes 1, 2, 3, 1.
    assert_eq!(first, vec![21846, 21845, 21845]);
}

#[test]
fn rebalance_of_empty_ring_is_a_no_op() {
    let mut ring = small_ring(4, 1, 0);
    assert_eq!(ring.rebalance(), Ok(()));
    assert_eq!(ring.partitions().len(), 0);
}

#[test]
fn get_id_is_deterministic_and_in_range() {
    let ring = small_ring(4, 1, 2);
    let a = ring.get_id("alpha").unwrap();
    assert_eq!(a, ring.get_id("alpha").unwrap());
    // md5("alpha") starts with 0x2c1743a3.
    assert_eq!(a, 0x2);
    assert_eq!(get_ring(1).get_id("0").unwrap(), 0xcfcd);
    assert_eq!(ring.get_id("").err(), Some(RingError::InvalidKey));
}

#[test]
fn partition_of_key_uses_md5() {
    // md5("") = d41d8cd98f00b204e9800998ecf8427e
    assert_eq!(partition_of_key("", 0), 0xd41d8cd9);
    assert_eq!(partition_of_key("", 28), 0xd);
    assert_eq!(partition_of_key("alpha", 16), 0x2c17);
}

#[test]
fn partition_of_digest_takes_leading_word() {
    let d = [0x12u8, 0x34, 0x56, 0x78, 0xff, 0xff];
    assert_eq!(partition_of_digest(&d, 0), 0x12345678);
    assert_eq!(partition_of_digest(&d, 16), 0x1234);
    assert_eq!(partition_of_digest(&d, 28), 0x1);
    assert_eq!(partition_of_digest(&d, 31), 0);
}

#[test]
fn select_replicas_walks_and_wraps() {
    let t = [1u64, 1, 2, 2, 3, 3];
    assert_eq!(select_replicas(&t, 1, 2), Some(vec![1, 2]));
    assert_eq!(select_replicas(&t, 5, 3), Some(vec![3, 1, 2]));
    assert_eq!(select_replicas(&t, 0, 1), Some(vec![1]));
    assert_eq!(select_replicas(&t, 2, 4), None);
}

#[test]
fn scenario_two_replicas_of_two_nodes() {
    let mut ring = small_ring(4, 2, 2);
    ring.rebalance().unwrap();
    assert_eq!(ring.partitions().len(), 16);
    let nodes = ring.get_nodes("alpha").unwrap();
    assert_eq!(nodes.len(), 2);
    assert_ne!(nodes[0].id, nodes[1].id);
    assert!(nodes.iter().all(|e| e.id == 1 || e.id == 2));
}

#[test]
fn scenario_too_few_nodes_fails() {
    let mut ring = small_ring(4, 3, 2);
    ring.rebalance().unwrap();
    assert_eq!(ring.get_nodes("anything").err(), Some(RingError::InsufficientDistinctNodes));
    assert_eq!(ring.get_nodes("alpha").err(), Some(RingError::InsufficientDistinctNodes));
}

#[test]
fn scenario_lookup_before_rebalance_fails() {
    let ring = small_ring(4, 1, 2);
    assert_eq!(ring.get_nodes("alpha").err(), Some(RingError::UninitializedTable));
}

#[test]
fn get_nodes_rejects_empty_key() {
    let mut ring = small_ring(4, 1, 2);
    ring.rebalance().unwrap();
    assert_eq!(ring.get_nodes("").err(), Some(RingError::InvalidKey));
}

#[test]
fn get_nodes_returns_distinct_entries_with_metadata() {
    let mut ring = small_ring(8, 3, 5);
    ring.rebalance().unwrap();
    for key in ["a", "b", "c", "alpha", "0"] {
        let nodes = ring.get_nodes(key).unwrap();
        assert_eq!(nodes.len(), 3);
        let mut ids: Vec<u64> = nodes.iter().map(|e| e.id).collect();
        assert_eq!(ids[0], ring.partitions()[ring.get_id(key).unwrap() as usize]);
        for e in &nodes {
            assert_eq!(e.metadata.get("weight"), Some(&(e.id - 1)));
        }
        ids.sort();
        ids.dedup();
        assert_eq!(ids.len(), 3);
    }
}

#[test]
fn slot_counts_follow_desired_share() {
    let mut ring = small_ring(5, 1, 3);
    ring.rebalance().unwrap();
    // 32 / 6 * 2 = 10 each; the 2 left over go to nodes 1 and 2.
    let counts: Vec<usize> = (1..=3).map(|id| count_of(ring.partitions(), id)).collect();
    assert_eq!(counts, vec![11, 11, 10]);
    let mut even = small_ring(4, 1, 2);
    even.rebalance().unwrap();
    let counts: Vec<usize> = (1..=2).map(|id| count_of(even.partitions(), id)).collect();
    assert_eq!(counts, vec![8, 8]);
}

#[test]
fn more_nodes_than_slots_fills_each_slot_once() {
    let mut ring = small_ring(1, 2, 3);
    ring.rebalance().unwrap();
    let mut table = ring.partitions().to_vec();
    table.sort();
    assert_eq!(table, vec![1, 2]);
    assert_eq!(ring.get_nodes("alpha").unwrap().len(), 2);
}

#[test]
fn rebalance_after_add_node_includes_new_node() {
    let mut ring = small_ring(6, 3, 2);
    ring.rebalance().unwrap();
    assert_eq!(ring.get_nodes("key").err(), Some(RingError::InsufficientDistinctNodes));
    let id = ring.add_node(HashMap::new());
    assert_eq!(id, 3);
    assert!(!ring.partitions().contains(&3));
    ring.rebalance().unwrap();
    assert!(ring.partitions().contains(&3));
    assert_eq!(ring.get_nodes("key").unwrap().len(), 3);
}
