use fastring::{Ring, DEFAULT_VIRTUAL_NODES};
use std::collections::HashMap;

#[test]
fn basic_add_and_lookup() {
    let mut ring = Ring::new(DEFAULT_VIRTUAL_NODES);
    ring.add_node("node-A", 1);
    ring.add_node("node-B", 1);
    ring.add_node("node-C", 1);
    assert!(ring.lookup("user:1").is_some());
}

#[test]
fn same_key_same_node() {
    let mut ring = Ring::new(DEFAULT_VIRTUAL_NODES);
    ring.add_node("A", 1);
    ring.add_node("B", 1);
    ring.add_node("C", 1);

    let first = ring.lookup("my-key");
    let second = ring.lookup("my-key");
    assert_eq!(first, second);
}

#[test]
fn remove_node_works() {
    let mut ring = Ring::new(DEFAULT_VIRTUAL_NODES);
    ring.add_node("A", 1);
    ring.add_node("B", 1);
    ring.add_node("C", 1);
    assert!(ring.contains_for_test("A"));
    ring.remove_node("A");
    assert!(!ring.contains_for_test("A"));
    assert!(ring.contains_for_test("B"));
    assert!(ring.contains_for_test("C"));
}

#[test]
fn balanced_distribution() {
    let mut ring = Ring::new(DEFAULT_VIRTUAL_NODES);
    ring.add_node("A", 1);
    ring.add_node("B", 1);
    ring.add_node("C", 1);

    let mut counts: HashMap<String, u32> = HashMap::new();
    let total = 10_000;

    for i in 0..total {
        let key = format!("key-{}", i);
        if let Some(owner) = ring.lookup(&key) {
            *counts.entry(owner.to_string()).or_insert(0) += 1;
        }
    }

    let expected = total / 3;
    let tolerance = total / 10;
    for (node, count) in &counts {
        let diff = (*count as i64 - expected as i64).unsigned_abs() as u32;
        assert!(
            diff < tolerance,
            "Node {} got {} keys, expected ~{}, +- {}",
            node,
            count,
            expected,
            tolerance
        );
    }
}

#[test]
fn wraparound_never_returns_none() {
    let mut ring = Ring::new(DEFAULT_VIRTUAL_NODES);
    ring.add_node("A", 1);
    ring.add_node("B", 1);
    ring.add_node("C", 1);

    for i in 0..10_000 {
        let key = format!("key-{}", i);
        assert!(ring.lookup(&key).is_some(), "key {} returned None", key);
    }
}

#[test]
fn empty_ring_returns_none() {
    let ring = Ring::new(DEFAULT_VIRTUAL_NODES);
    assert_eq!(ring.lookup("blah"), None);
}

#[test]
fn remove_nonexistent_node_is_noop() {
    let mut ring = Ring::new(DEFAULT_VIRTUAL_NODES);
    ring.add_node("A", 1);
    ring.add_node("B", 1);
    ring.add_node("C", 1);
    ring.remove_node("ghost");
    assert!(ring.contains_for_test("A"));
    assert!(ring.contains_for_test("B"));
    assert!(ring.contains_for_test("C"));
    assert!(ring.lookup("some-key").is_some());
}

#[test]
fn weighted_node_gets_more_keys() {
    let mut ring = Ring::new(DEFAULT_VIRTUAL_NODES);
    ring.add_node("A", 1);
    ring.add_node("B", 2);
    ring.add_node("C", 3);

    let mut counts: HashMap<String, u32> = HashMap::new();
    let total = 10_000;

    for i in 0..total {
        let key = format!("key-{}", i);
        let owner = ring.lookup(&key).expect("ring should never return None");
        *counts.entry(owner.to_string()).or_insert(0) += 1;
    }

    let total_assigned = counts.values().sum::<u32>() as f64;
    let a = counts["A"] as f64 / total_assigned;
    let b = counts["B"] as f64 / total_assigned;
    let c = counts["C"] as f64 / total_assigned;

    fn close(actual: f64, expected: f64) -> bool {
        (actual - expected).abs() < 0.05
    }

    assert!(close(a, 1.0 / 6.0), "A got share {} (expected ~0.167)", a);
    assert!(close(b, 2.0 / 6.0), "B got share {} (expected ~0.333)", b);
    assert!(close(c, 3.0 / 6.0), "C got share {} (expected ~0.500)", c);
}

#[test]
fn replicas_returns_n_distinct_owners() {
    let mut ring = Ring::new(DEFAULT_VIRTUAL_NODES);
    ring.add_node("A", 1);
    ring.add_node("B", 1);
    ring.add_node("C", 1);

    let replicas = ring.replicas("my-key", 3);
    assert_eq!(replicas.len(), 3);
    let mut sorted: Vec<&str> = replicas.iter().map(|arc| &**arc).collect();
    sorted.sort();
    sorted.dedup();
    assert_eq!(sorted.len(), 3, "Replicas should be distinct");
}

#[test]
fn replicas_caps_at_node_count() {
    let mut ring = Ring::new(DEFAULT_VIRTUAL_NODES);
    ring.add_node("A", 1);
    ring.add_node("B", 1);
    let replicas = ring.replicas("my-key", 5);
    assert_eq!(replicas.len(), 2);
}

#[test]
fn replicas_primary_matches_lookup() {
    let mut ring = Ring::new(DEFAULT_VIRTUAL_NODES);
    ring.add_node("A", 1);
    ring.add_node("B", 1);
    ring.add_node("C", 1);

    let primary = ring.lookup("my-key").unwrap();
    let replicas = ring.replicas("my-key", 3);
    assert_eq!(replicas[0].as_str(), primary.as_str());
}

#[test]
fn replicas_on_empty_ring() {
    let ring = Ring::new(DEFAULT_VIRTUAL_NODES);
    assert!(ring.replicas("my-key", 3).is_empty());
}

#[test]
fn replicas_zero_n() {
    let mut ring = Ring::new(DEFAULT_VIRTUAL_NODES);
    ring.add_node("A", 1);
    assert!(ring.replicas("my-key", 0).is_empty());
}

#[test]
fn readding_same_node_doubles_positions() {
    // The ring itself does not enforce unique names; HashRing does.
    let mut ring = Ring::new(DEFAULT_VIRTUAL_NODES);
    ring.add_node("A", 1);
    let after_first = ring.positions_len();
    ring.add_node("A", 1);
    let after_second = ring.positions_len();
    assert_eq!(after_first, DEFAULT_VIRTUAL_NODES as usize);
    assert_eq!(after_second, 2 * DEFAULT_VIRTUAL_NODES as usize);
}

// Further scenarios.

#[test]
fn key_hash_is_xxh3_of_utf8_bytes() {
    assert_eq!(fastring::hashing::hash_str(""), 0x2D06800538D394C2);
    assert_eq!(
        fastring::hashing::hash_str("user:1234"),
        xxhash_rust::xxh3::xxh3_64("user:1234".as_bytes())
    );
}

#[test]
fn lookup_is_first_position_clockwise() {
    let mut ring = Ring::new(4);
    ring.add_node("A", 1);
    ring.add_node("B", 1);
    // Exact owner computed independently from the hashes.
    let mut positions: Vec<(u64, &str)> = Vec::new();
    for name in ["A", "B"] {
        for i in 0u32..4 {
            let mut bytes = name.as_bytes().to_vec();
            bytes.push(b'#');
            bytes.extend_from_slice(&i.to_le_bytes());
            positions.push((xxhash_rust::xxh3::xxh3_64(&bytes), name));
        }
    }
    positions.sort_by_key(|p| p.0);
    for k in 0..200 {
        let key = format!("k{}", k);
        let h = xxhash_rust::xxh3::xxh3_64(key.as_bytes());
        let expected = positions
            .iter()
            .find(|p| p.0 >= h)
            .unwrap_or(&positions[0])
            .1;
        assert_eq!(ring.lookup(&key).unwrap(), expected);
    }
}

#[test]
fn adding_a_node_moves_keys_only_to_it() {
    let mut ring = Ring::new(DEFAULT_VIRTUAL_NODES);
    ring.add_node("A", 1);
    ring.add_node("B", 1);
    let before: Vec<String> = (0..2000).map(|i| ring.lookup(&format!("key-{}", i)).unwrap()).collect();
    ring.add_node("C", 1);
    let mut moved = 0;
    for i in 0..2000 {
        let after = ring.lookup(&format!("key-{}", i)).unwrap();
        if after != before[i] {
            assert_eq!(after, "C");
            moved += 1;
        }
    }
    assert!(moved > 0);
}

#[test]
fn removing_a_node_keeps_other_keys() {
    let mut ring = Ring::new(DEFAULT_VIRTUAL_NODES);
    ring.add_node("A", 1);
    ring.add_node("B", 1);
    ring.add_node("C", 1);
    let before: Vec<String> = (0..2000).map(|i| ring.lookup(&format!("key-{}", i)).unwrap()).collect();
    ring.remove_node("B");
    for i in 0..2000 {
        let after = ring.lookup(&format!("key-{}", i)).unwrap();
        if before[i] != "B" {
            assert_eq!(after, before[i]);
        } else {
            assert_ne!(after, "B");
        }
    }
}

#[test]
fn remove_counts_nodes() {
    let mut ring = Ring::new(8);
    ring.add_node("A", 1);
    ring.add_node("B", 0);
    assert_eq!(ring.node_count(), 2);
    ring.remove_node("B"); // owns no position: nothing is removed
    assert_eq!(ring.node_count(), 2);
    ring.remove_node("A");
    assert_eq!(ring.node_count(), 1);
    assert_eq!(ring.positions_len(), 0);
    assert_eq!(ring.virtual_nodes(), 8);
}

#[test]
fn replicas_walk_clockwise_from_owner() {
    let mut ring = Ring::new(DEFAULT_VIRTUAL_NODES);
    for n in ["A", "B", "C", "D"] {
        ring.add_node(n, 1);
    }
    for k in 0..100 {
        let key = format!("key-{}", k);
        let all = ring.replicas(&key, 4);
        assert_eq!(all.len(), 4);
        let two = ring.replicas(&key, 2);
        assert_eq!(&all[..2], &two[..]);
        assert_eq!(all[0], ring.lookup(&key).unwrap());
    }
}

#[test]
fn readded_name_counts_as_separate_node_in_replicas() {
    let mut ring = Ring::new(4);
    ring.add_node("A", 1);
    ring.add_node("A", 1);
    assert_eq!(ring.replicas("x", 5), vec!["A".to_string(), "A".to_string()]);
}

#[test]
fn add_then_remove_restores_ring() {
    let mut ring = Ring::new(DEFAULT_VIRTUAL_NODES);
    ring.add_node("A", 1);
    ring.add_node("B", 2);
    let keys: Vec<String> = (0..500).map(|i| format!("key-{}", i)).collect();
    let owners: Vec<Option<String>> = keys.iter().map(|k| ring.lookup(k)).collect();
    let reps: Vec<Vec<String>> = keys.iter().map(|k| ring.replicas(k, 3)).collect();
    let count = ring.node_count();
    let len = ring.positions_len();
    ring.add_node("C", 3);
    ring.remove_node("C");
    assert_eq!(ring.node_count(), count);
    assert_eq!(ring.positions_len(), len);
    for (i, k) in keys.iter().enumerate() {
        assert_eq!(ring.lookup(k), owners[i]);
        assert_eq!(ring.replicas(k, 3), reps[i]);
    }
    assert_eq!(ring.virtual_nodes(), DEFAULT_VIRTUAL_NODES);
}
