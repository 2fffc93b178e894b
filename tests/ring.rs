use hashring::{Config, HashRing, Node};
use std::hash::BuildHasherDefault;
use std::sync::Arc;

#[derive(Clone, Eq, PartialEq, Hash, Debug)]
pub struct TestNode<'a> {
    pub ip_addr: String,
    pub name: &'a str,
}

impl<'a> Node<'a> for TestNode<'a> {
    fn id(&self) -> &'a str {
        &self.name
    }
}

#[test]
fn test_add_node() {
    let config = Config {
        replication_factor: 3,
        partition_count: 100,
    };

    let mut hash_ring = HashRing::new(config.clone()).unwrap();

    let node1 = hash_ring.add_node(Arc::new(TestNode {
        ip_addr: "180.01.01.2:5000".to_string(),
        name: "node1",
    }));

    assert_eq!(node1.is_ok(), true);

    let node2 = hash_ring.add_node(Arc::new(TestNode {
        ip_addr: "170.01.01.2:5000".to_string(),
        name: "node2",
    }));
    assert_eq!(node2.is_ok(), true);

    assert_eq!(hash_ring.node_count(), 2);
    assert!(hash_ring.assigned_partitions() <= config.partition_count);
}

#[test]
fn test_get_key() {
    let config = Config {
        replication_factor: 3,
        partition_count: 100,
    };

    let mut hash_ring = HashRing::new(config).unwrap();

    hash_ring
        .add_node(Arc::new(TestNode {
            ip_addr: "170.01.01.1:1000".to_string(),
            name: "node1",
        }))
        .unwrap();

    hash_ring
        .add_node(Arc::new(TestNode {
            ip_addr: "170.01.01.2:2000".to_string(),
            name: "node2",
        }))
        .unwrap();

    let key1 = b"some_key";
    let node1 = hash_ring.get_key(key1);
    assert!(node1.is_some());

    let key2 = b"100";
    let node2 = hash_ring.get_key(key2);
    assert!(node2.is_some());
}

#[test]
fn test_virtual_nodes_per_node() {
    let config = Config {
        partition_count: 10,
        replication_factor: 2,
    };
    let mut hash_ring = HashRing::new(config).unwrap();

    let node1 = Arc::new(TestNode {
        ip_addr: "127.0.0.1:5000".to_string(),
        name: "node1",
    });

    let node2 = Arc::new(TestNode {
        ip_addr: "127.0.0.1:6000".to_string(),
        name: "node2",
    });

    hash_ring.add_node(node1.clone()).unwrap();
    hash_ring.add_node(node2.clone()).unwrap();

    let virtual_nodes = hash_ring.virtual_nodes_per_node();
    assert_eq!(virtual_nodes.get("node1"), Some(&2));
    assert_eq!(virtual_nodes.get("node2"), Some(&2));
}

#[test]
fn test_preference_list() {
    let config = Config {
        replication_factor: 3,
        partition_count: 100,
    };

    let mut hash_ring = HashRing::new(config).unwrap();

    hash_ring
        .add_node(Arc::new(TestNode {
            ip_addr: "170.01.01.1".to_string(),
            name: "node1",
        }))
        .unwrap();

    hash_ring
        .add_node(Arc::new(TestNode {
            ip_addr: "170.01.01.2".to_string(),
            name: "node2",
        }))
        .unwrap();

    let key1 = b"some_key";
    let preference_list = hash_ring.get_preference_list(key1);
    assert_eq!(preference_list.len(), 2);
}

#[test]
fn test_distribute_partitions() {
    type CustomBuildHasher = BuildHasherDefault<std::collections::hash_map::DefaultHasher>;

    let hasher = CustomBuildHasher::default();
    let config = Config {
        replication_factor: 3,
        partition_count: 10,
    };

    let mut hash_ring: HashRing<CustomBuildHasher> =
        HashRing::with_hasher(config.clone(), hasher).unwrap();

    let node1 = Arc::new(TestNode {
        ip_addr: "127.0.0.1:5000".to_string(),
        name: "node1",
    });

    let node2 = Arc::new(TestNode {
        ip_addr: "127.0.0.1:6000".to_string(),
        name: "node2",
    });

    hash_ring.add_node(node1.clone()).unwrap();
    hash_ring.add_node(node2.clone()).unwrap();

    assert_eq!(hash_ring.assigned_partitions(), 10);
}
