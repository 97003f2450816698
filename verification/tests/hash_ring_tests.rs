use fastring::{HashRing, NodeMetadata, DEFAULT_VIRTUAL_NODES};

fn ring3() -> HashRing<u64> {
    let mut ring: HashRing<u64> = HashRing::new(DEFAULT_VIRTUAL_NODES);
    ring.add_node("server-A", 1, None, None, None);
    ring.add_node("server-B", 3, Some("b.example.com".to_string()), Some(8080), Some(42));
    ring.add_node("server-C", 1, None, None, None);
    ring
}

#[test]
fn add_node_registers_metadata() {
    let ring = ring3();
    assert_eq!(ring.len(), 3);
    assert!(ring.contains("server-B"));
    assert!(!ring.contains("server-Z"));
    assert_eq!(ring.get_node_weight("server-B"), Some(3));
    assert_eq!(ring.get_node_weight("server-Z"), None);
    assert_eq!(ring.get_node_hostname("server-B"), Some("b.example.com".to_string()));
    assert_eq!(ring.get_node_hostname("server-A"), None);
    assert_eq!(ring.get_node_port("server-B"), Some(8080));
    assert_eq!(ring.get_node_port("server-A"), None);
    assert_eq!(ring.get_node_instance("server-B"), Some(&42));
    assert_eq!(ring.get_node_instance("server-A"), None);
    assert_eq!(ring.get_node_instance("server-Z"), None);
    assert_eq!(ring.virtual_nodes(), DEFAULT_VIRTUAL_NODES);
    assert_eq!(ring.ring().positions_len(), 5 * DEFAULT_VIRTUAL_NODES as usize);
}

#[test]
fn adding_existing_node_is_noop() {
    let mut ring = ring3();
    ring.add_node("server-A", 7, Some("other".to_string()), Some(1), Some(9));
    assert_eq!(ring.len(), 3);
    assert_eq!(ring.get_node_weight("server-A"), Some(1));
    assert_eq!(ring.get_node_hostname("server-A"), None);
    assert_eq!(ring.ring().positions_len(), 5 * DEFAULT_VIRTUAL_NODES as usize);
}

#[test]
fn remove_node_unregisters() {
    let mut ring = ring3();
    ring.remove_node("server-B");
    assert_eq!(ring.len(), 2);
    assert!(!ring.contains("server-B"));
    assert_eq!(ring.get_node_weight("server-B"), None);
    assert_eq!(ring.ring().positions_len(), 2 * DEFAULT_VIRTUAL_NODES as usize);
    ring.remove_node("ghost");
    assert_eq!(ring.len(), 2);
    for i in 0..500 {
        let owner = ring.get_node(&format!("user:{}", i)).unwrap();
        assert!(owner == "server-A" || owner == "server-C");
    }
}

#[test]
fn get_node_on_empty_ring_is_none() {
    let ring: HashRing<u64> = HashRing::new(DEFAULT_VIRTUAL_NODES);
    assert_eq!(ring.get_node("user:1234"), None);
    assert!(ring.get_replicas("user:1234", 2).is_empty());
    assert_eq!(ring.get_node_batch(vec!["a".to_string(), "b".to_string()]), vec![None, None]);
}

#[test]
fn zero_weight_node_owns_nothing() {
    let mut ring: HashRing<u64> = HashRing::new(DEFAULT_VIRTUAL_NODES);
    ring.add_node("idle", 0, None, None, None);
    assert!(ring.contains("idle"));
    assert_eq!(ring.get_node("k"), None);
    ring.add_node("busy", 1, None, None, None);
    assert_eq!(ring.get_node("k"), Some("busy".to_string()));
    assert_eq!(ring.get_replicas("k", 2), vec!["busy".to_string()]);
}

#[test]
fn batch_matches_single_lookups() {
    let ring = ring3();
    let keys: Vec<String> = (0..100).map(|i| format!("user:{}", i)).collect();
    let owners = ring.get_node_batch(keys.clone());
    assert_eq!(owners.len(), keys.len());
    for (k, o) in keys.iter().zip(owners.iter()) {
        assert_eq!(o, &ring.get_node(k));
    }
}

#[test]
fn replicas_are_distinct_registered_and_start_with_owner() {
    let ring = ring3();
    for i in 0..100 {
        let key = format!("user:{}", i);
        let reps = ring.get_replicas(&key, 5);
        assert_eq!(reps.len(), 3);
        assert_eq!(Some(reps[0].clone()), ring.get_node(&key));
        let mut sorted = reps.clone();
        sorted.sort();
        sorted.dedup();
        assert_eq!(sorted.len(), 3);
        assert_eq!(ring.get_replicas(&key, 2).len(), 2);
        assert!(ring.get_replicas(&key, 0).is_empty());
    }
}

#[test]
fn weighted_node_gets_proportional_share() {
    let ring = ring3();
    let mut b = 0;
    for i in 0..10_000 {
        if ring.get_node(&format!("key-{}", i)).unwrap() == "server-B" {
            b += 1;
        }
    }
    // server-B has 3 of the 5 units of weight.
    assert!(b > 5_000 && b < 7_000, "server-B got {}", b);
}

#[test]
fn names_lists_registered_nodes() {
    let ring = ring3();
    assert_eq!(ring.names(), vec!["server-A".to_string(), "server-B".to_string(), "server-C".to_string()]);
    let nodes = ring.nodes();
    assert_eq!(nodes.len(), 3);
    assert_eq!(nodes[1].weight, 3);
    assert_eq!(nodes[1].port, Some(8080));
}

#[test]
fn state_round_trip_restores_nodes_and_owners() {
    let ring = ring3();
    let state: Vec<NodeMetadata<u64>> = ring
        .nodes()
        .iter()
        .map(|m| NodeMetadata {
            name: m.name.clone(),
            weight: m.weight,
            hostname: m.hostname.clone(),
            port: m.port,
            instance: m.instance,
        })
        .collect();
    let mut restored: HashRing<u64> = HashRing::new(ring.virtual_nodes());
    restored.set_state(state);
    assert_eq!(restored.names(), ring.names());
    assert_eq!(restored.get_node_hostname("server-B"), Some("b.example.com".to_string()));
    assert_eq!(restored.get_node_instance("server-B"), Some(&42));
    for i in 0..1000 {
        let key = format!("user:{}", i);
        assert_eq!(restored.get_node(&key), ring.get_node(&key));
    }
}

#[test]
fn lookup_is_deterministic_until_ring_changes() {
    let mut ring = ring3();
    let a = ring.get_node("user:1234");
    assert_eq!(ring.get_node("user:1234"), a);
    ring.add_node("server-D", 1, None, None, None);
    let b = ring.get_node("user:1234").unwrap();
    assert!(Some(b.clone()) == a || b == "server-D");
}

#[test]
fn removing_an_added_node_restores_owners() {
    let mut ring = ring3();
    let keys: Vec<String> = (0..1000).map(|i| format!("user:{}", i)).collect();
    let before = ring.get_node_batch(keys.clone());
    let positions = ring.ring().positions_len();
    ring.add_node("server-D", 2, None, None, None);
    assert_eq!(ring.ring().positions_len(), positions + 2 * DEFAULT_VIRTUAL_NODES as usize);
    ring.remove_node("server-D");
    assert_eq!(ring.ring().positions_len(), positions);
    assert_eq!(ring.get_node_batch(keys), before);
    assert_eq!(ring.names(), vec!["server-A".to_string(), "server-B".to_string(), "server-C".to_string()]);
}

#[test]
fn removing_a_node_moves_only_its_keys() {
    let mut ring = ring3();
    let keys: Vec<String> = (0..1000).map(|i| format!("user:{}", i)).collect();
    let before = ring.get_node_batch(keys.clone());
    ring.remove_node("server-C");
    let after = ring.get_node_batch(keys);
    for (b, a) in before.iter().zip(after.iter()) {
        if b.as_deref() != Some("server-C") {
            assert_eq!(a, b);
        } else {
            assert_ne!(a.as_deref(), Some("server-C"));
        }
    }
}

#[test]
fn re_adding_registered_node_with_any_weight_is_noop() {
    let mut ring = ring3();
    let keys: Vec<String> = (0..200).map(|i| format!("user:{}", i)).collect();
    let before = ring.get_node_batch(keys.clone());
    ring.add_node("server-A", u32::MAX, Some("x".to_string()), Some(1), Some(7));
    assert_eq!(ring.len(), 3);
    assert_eq!(ring.get_node_weight("server-A"), Some(1));
    assert_eq!(ring.get_node_instance("server-A"), None);
    assert_eq!(ring.ring().positions_len(), 5 * DEFAULT_VIRTUAL_NODES as usize);
    assert_eq!(ring.get_node_batch(keys), before);
}

#[test]
fn set_state_skips_registered_and_repeated_names() {
    let mut ring = ring3();
    let state = vec![
        NodeMetadata { name: "server-A".to_string(), weight: u32::MAX, hostname: None, port: None, instance: None },
        NodeMetadata { name: "server-D".to_string(), weight: 2, hostname: None, port: Some(9), instance: Some(5) },
        NodeMetadata { name: "server-D".to_string(), weight: u32::MAX, hostname: None, port: None, instance: None },
    ];
    ring.set_state(state);
    assert_eq!(ring.len(), 4);
    assert_eq!(ring.get_node_weight("server-A"), Some(1));
    assert_eq!(ring.get_node_weight("server-D"), Some(2));
    assert_eq!(ring.get_node_port("server-D"), Some(9));
    assert_eq!(ring.ring().positions_len(), 7 * DEFAULT_VIRTUAL_NODES as usize);
}

#[test]
fn membership_and_length_follow_history() {
    let mut ring: HashRing<u64> = HashRing::new(16);
    ring.add_node("a", 1, None, None, None);
    ring.add_node("b", 1, None, None, None);
    ring.remove_node("a");
    ring.add_node("c", 0, None, None, None);
    ring.remove_node("zzz");
    ring.add_node("a", 2, None, None, None);
    ring.remove_node("b");
    assert!(ring.contains("a"));
    assert!(!ring.contains("b"));
    assert!(ring.contains("c"));
    assert_eq!(ring.len(), 2);
    assert_eq!(ring.virtual_nodes(), 16);
    assert_eq!(ring.ring().virtual_nodes(), 16);
    assert_eq!(ring.get_node_weight("a"), Some(2));
}
