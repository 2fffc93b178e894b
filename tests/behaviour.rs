use hashring::{
    partition_key_bytes, replica_key_bytes, Config, HashRing, Node, RingError, RingHasher,
    XxHash64Hasher, DEFAULT_PARTITION_COUNT, DEFAULT_REPLICATION_FACTOR,
};
use std::collections::hash_map::DefaultHasher;
use std::collections::HashSet;
use std::hash::{BuildHasherDefault, Hasher};
use std::sync::Arc;

#[derive(Debug)]
struct Server {
    name: String,
}

impl Node<'static> for Server {
    fn id(&self) -> &'static str {
        Box::leak(self.name.clone().into_boxed_str())
    }
}

fn server(name: &str) -> Arc<Server> {
    Arc::new(Server { name: name.to_string() })
}

fn ring_with(rf: usize, pc: usize, names: &[&str]) -> HashRing<'static, XxHash64Hasher, Server> {
    let mut ring = HashRing::new(Config { replication_factor: rf, partition_count: pc }).unwrap();
    for name in names {
        ring.add_node(server(name)).unwrap();
    }
    ring
}

fn owner_name(ring: &HashRing<'static, XxHash64Hasher, Server>, key: &[u8]) -> Option<String> {
    ring.get_key(key).map(|n| n.name.clone())
}

/// The owner of `key` worked out directly from the replica positions.
fn expected_owner(rf: usize, names: &[&str], key: &[u8]) -> String {
    let hasher = XxHash64Hasher;
    let mut points: Vec<(u64, String)> = Vec::new();
    for name in names {
        for r in 0..rf {
            let h = hasher.hash_bytes(&replica_key_bytes(name, r));
            points.retain(|(p, _)| *p != h);
            points.push((h, name.to_string()));
        }
    }
    points.sort();
    let h = hasher.hash_bytes(key);
    match points.iter().find(|(p, _)| *p >= h) {
        Some((_, n)) => n.clone(),
        None => points[0].1.clone(),
    }
}

#[test]
fn zero_replication_factor_is_rejected() {
    let r = HashRing::<XxHash64Hasher, Server>::new(Config { replication_factor: 0, partition_count: 10 });
    assert!(matches!(r, Err(RingError::InvalidConfig)));
}

#[test]
fn zero_partition_count_is_rejected() {
    let config = Config { replication_factor: 3, partition_count: 0 };
    assert_eq!(config.validate(), Err(RingError::InvalidConfig));
    let r = HashRing::<XxHash64Hasher, Server>::new(config);
    assert!(matches!(r, Err(RingError::InvalidConfig)));
}

#[test]
fn valid_config_is_accepted() {
    assert_eq!(Config { replication_factor: 1, partition_count: 1 }.validate(), Ok(()));
}

#[test]
fn default_config_sizes() {
    let config = Config::default();
    assert_eq!(config.replication_factor, 20);
    assert_eq!(config.partition_count, 271);
    assert_eq!(DEFAULT_REPLICATION_FACTOR, 20);
    assert_eq!(DEFAULT_PARTITION_COUNT, 271);
}

#[test]
fn duplicate_node_is_rejected() {
    let mut ring = ring_with(3, 16, &["a"]);
    let r = ring.add_node(server("a"));
    assert!(matches!(r, Err(RingError::DuplicateNode)));
    assert_eq!(ring.node_count(), 1);
    assert_eq!(ring.virtual_nodes_per_node().get("a"), Some(&3));
}

#[test]
fn unknown_node_removal_is_rejected() {
    let mut ring = ring_with(3, 16, &["a"]);
    assert_eq!(ring.remove_node("b"), Err(RingError::NodeNotFound));
    assert_eq!(ring.node_count(), 1);
    assert_eq!(ring.remove_node("a"), Ok(()));
    assert_eq!(ring.remove_node("a"), Err(RingError::NodeNotFound));
}

#[test]
fn added_node_is_returned() {
    let mut ring: HashRing<'static, XxHash64Hasher, Server> =
        HashRing::new(Config { replication_factor: 2, partition_count: 4 }).unwrap();
    let n = server("x");
    let back = ring.add_node(n.clone()).unwrap();
    assert!(Arc::ptr_eq(&n, &back));
}

#[test]
fn empty_ring_has_no_owner() {
    let ring = ring_with(3, 8, &[]);
    assert!(ring.get_key(b"anything").is_none());
    assert!(ring.get_preference_list(b"anything").is_empty());
    assert_eq!(ring.assigned_partitions(), 0);
    assert_eq!(ring.virtual_nodes_per_node().len(), 0);
}

#[test]
fn every_key_has_an_owner_once_a_node_is_added() {
    let ring = ring_with(2, 8, &["only"]);
    for i in 0..100u32 {
        let key = format!("key-{}", i);
        assert_eq!(owner_name(&ring, key.as_bytes()), Some("only".to_string()));
    }
    assert_eq!(owner_name(&ring, b""), Some("only".to_string()));
}

#[test]
fn owner_is_first_point_clockwise() {
    let names = ["alpha", "beta", "gamma", "delta"];
    let ring = ring_with(4, 32, &names);
    for i in 0..200u32 {
        let key = format!("k{}", i);
        assert_eq!(owner_name(&ring, key.as_bytes()), Some(expected_owner(4, &names, key.as_bytes())));
    }
}

#[test]
fn two_node_scenario() {
    let mut ring = HashRing::new(Config { replication_factor: 3, partition_count: 100 }).unwrap();
    ring.add_node(server("node1")).unwrap();
    ring.add_node(server("node2")).unwrap();
    let counts = ring.virtual_nodes_per_node();
    assert_eq!(counts.len(), 2);
    assert_eq!(counts.get("node1"), Some(&3));
    assert_eq!(counts.get("node2"), Some(&3));
    assert_eq!(counts.get("node3"), None);
    let prefs = ring.get_preference_list(b"some_key");
    assert_eq!(prefs.len(), 2);
    assert_ne!(prefs[0].name, prefs[1].name);
    assert_eq!(ring.assigned_partitions(), 100);
}

#[test]
fn replica_counts_equal_replication_factor() {
    let names = ["n0", "n1", "n2", "n3", "n4"];
    let ring = ring_with(7, 20, &names);
    let counts = ring.virtual_nodes_per_node();
    assert_eq!(counts.len(), 5);
    for name in names {
        assert_eq!(counts.get(name), Some(&7));
    }
}

#[test]
fn partition_table_follows_membership() {
    let mut ring = ring_with(3, 50, &["a", "b", "c"]);
    assert_eq!(ring.assigned_partitions(), 50);
    let registered: HashSet<&str> = ["a", "b", "c"].into_iter().collect();
    for p in 0..50 {
        let owner = ring.partition_owner(p).unwrap();
        assert!(registered.contains(owner.name.as_str()));
    }
    assert!(ring.partition_owner(50).is_none());
    ring.remove_node("a").unwrap();
    assert_eq!(ring.assigned_partitions(), 50);
    for p in 0..50 {
        assert_ne!(ring.partition_owner(p).unwrap().name, "a");
    }
    ring.remove_node("b").unwrap();
    ring.remove_node("c").unwrap();
    assert_eq!(ring.assigned_partitions(), 0);
    assert_eq!(ring.node_count(), 0);
    assert!(ring.get_key(b"k").is_none());
}

#[test]
fn preference_list_is_bounded_and_distinct() {
    let ring = ring_with(3, 10, &["a", "b", "c", "d", "e"]);
    for i in 0..100u32 {
        let key = format!("key{}", i);
        let prefs = ring.get_preference_list(key.as_bytes());
        assert_eq!(prefs.len(), 3);
        let names: HashSet<String> = prefs.iter().map(|n| n.name.clone()).collect();
        assert_eq!(names.len(), 3);
        assert_eq!(prefs[0].name, owner_name(&ring, key.as_bytes()).unwrap());
    }
}

#[test]
fn preference_list_with_fewer_nodes_than_replicas() {
    let ring = ring_with(4, 10, &["a", "b", "c"]);
    let prefs = ring.get_preference_list(b"some_key");
    assert_eq!(prefs.len(), 3);
    let names: HashSet<String> = prefs.iter().map(|n| n.name.clone()).collect();
    assert_eq!(names.len(), 3);
}

#[test]
fn lookups_are_deterministic() {
    let ring = ring_with(5, 10, &["a", "b", "c"]);
    for i in 0..50u32 {
        let key = format!("key{}", i);
        let first = ring.get_key(key.as_bytes()).unwrap();
        let second = ring.get_key(key.as_bytes()).unwrap();
        assert!(Arc::ptr_eq(&first, &second));
        let p1 = ring.get_preference_list(key.as_bytes());
        let p2 = ring.get_preference_list(key.as_bytes());
        assert_eq!(p1.len(), p2.len());
        for (x, y) in p1.iter().zip(p2.iter()) {
            assert!(Arc::ptr_eq(x, y));
        }
    }
}

#[test]
fn removal_moves_only_keys_of_the_removed_node() {
    let mut ring = ring_with(6, 40, &["a", "b", "c", "d"]);
    let keys: Vec<String> = (0..300u32).map(|i| format!("item-{}", i)).collect();
    let before: Vec<String> = keys.iter().map(|k| owner_name(&ring, k.as_bytes()).unwrap()).collect();
    let partitions_before: Vec<String> =
        (0..40).map(|p| ring.partition_owner(p).unwrap().name.clone()).collect();
    ring.remove_node("c").unwrap();
    for (k, owner) in keys.iter().zip(before.iter()) {
        let now = owner_name(&ring, k.as_bytes()).unwrap();
        if owner != "c" {
            assert_eq!(&now, owner);
        } else {
            assert_ne!(now, "c");
        }
    }
    for p in 0..40 {
        let now = ring.partition_owner(p).unwrap().name.clone();
        if partitions_before[p] != "c" {
            assert_eq!(now, partitions_before[p]);
        }
    }
}

#[test]
fn readding_a_removed_node_restores_ownership() {
    let mut ring = ring_with(4, 16, &["a", "b", "c"]);
    let keys: Vec<String> = (0..100u32).map(|i| format!("x{}", i)).collect();
    let before: Vec<String> = keys.iter().map(|k| owner_name(&ring, k.as_bytes()).unwrap()).collect();
    ring.remove_node("b").unwrap();
    ring.add_node(server("b")).unwrap();
    for (k, owner) in keys.iter().zip(before.iter()) {
        assert_eq!(&owner_name(&ring, k.as_bytes()).unwrap(), owner);
    }
}

#[test]
fn xxh3_digest_of_empty_input() {
    assert_eq!(XxHash64Hasher.hash_bytes(b""), 0x2D06800538D394C2);
}

#[test]
fn xxh3_digest_depends_on_input() {
    let h = XxHash64Hasher;
    assert_ne!(h.hash_bytes(b"node1:0"), h.hash_bytes(b"node1:1"));
}

#[test]
fn std_hasher_matches_default_hasher() {
    let builder: BuildHasherDefault<DefaultHasher> = BuildHasherDefault::default();
    let mut direct = DefaultHasher::new();
    direct.write(b"some bytes");
    assert_eq!(builder.hash_bytes(b"some bytes"), direct.finish());
}

#[test]
fn replica_key_format() {
    assert_eq!(replica_key_bytes("node1", 12), b"node1:12".to_vec());
    assert_eq!(replica_key_bytes("n", 0), b"n:0".to_vec());
    assert_eq!(replica_key_bytes("", 305), b":305".to_vec());
    assert_eq!(replica_key_bytes("é", 9), "é:9".as_bytes().to_vec());
}

#[test]
fn partition_key_is_little_endian() {
    assert_eq!(partition_key_bytes(1), vec![1, 0, 0, 0, 0, 0, 0, 0]);
    assert_eq!(partition_key_bytes(0x0102), vec![2, 1, 0, 0, 0, 0, 0, 0]);
}

#[test]
fn custom_hasher_ring_routes_keys() {
    let mut ring: HashRing<BuildHasherDefault<DefaultHasher>, Server> =
        HashRing::with_hasher(Config { replication_factor: 3, partition_count: 12 }, BuildHasherDefault::default())
            .unwrap();
    ring.add_node(server("p")).unwrap();
    ring.add_node(server("q")).unwrap();
    assert_eq!(ring.assigned_partitions(), 12);
    assert_eq!(ring.virtual_nodes_per_node().get("p"), Some(&3));
    assert!(ring.get_key(b"k").is_some());
}
