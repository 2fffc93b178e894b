//! A consistent-hashing ring: named nodes are placed on a 64-bit hash circle
//! through virtual replicas, keys are routed to the first replica clockwise of
//! their hash, and a fixed set of partitions is assigned the same way.

mod config;
mod counts;
mod hashing;
mod index;
mod laws;
mod ring;

pub use config::{Config, RingError, DEFAULT_PARTITION_COUNT, DEFAULT_REPLICATION_FACTOR};
pub use counts::NodeCounts;
pub use hashing::{
    decimal, partition_key, partition_key_bytes, replica_key, replica_key_bytes, xxh3_64_of,
    RingHasher, XxHash64Hasher,
};
pub use index::{
    clockwise_index, clockwise_walk, first_at_or_after, gather, holds_id, index_insert,
    index_remove, is_ascending, of_node, preference, replica_count, ring_ids, VirtualNode,
};
pub use laws::{
    distinct_ids, lemma_added_ring_has_points, lemma_lookups_are_deterministic,
    lemma_owner_exists, lemma_partition_table, lemma_preference_list, lemma_removal_keeps_unaffected_owners,
    lemma_replica_count_after_add,
};
pub use ring::{
    has_member, insert_replicas, is_replica_of, is_replica_position, partition_hash,
    partition_table_of, registered, remove_replicas, replica_hash, HashRing, Member, Node,
};
