use vstd::prelude::*;

verus! {

/// Number of partitions a default configuration asks for.
pub const DEFAULT_PARTITION_COUNT: usize = 271;

/// Number of virtual replicas per node a default configuration asks for.
pub const DEFAULT_REPLICATION_FACTOR: usize = 20;

/// The failures the ring reports; none of them is transient.
#[derive(Debug, Clone, Copy, PartialEq, Eq, Structural)]
pub enum RingError {
    /// The replication factor or the partition count is zero.
    InvalidConfig,
    /// A node with the same id is already on the ring.
    DuplicateNode,
    /// No node with the given id is on the ring.
    NodeNotFound,
}

/// Shape of a ring: how many virtual replicas each node gets, and how many
/// partitions the key space is cut into.
#[derive(Debug, Clone, Copy)]
pub struct Config {
    pub replication_factor: usize,
    pub partition_count: usize,
}

impl Config {
    /// A configuration is usable when both of its sizes are positive.
    pub open spec fn is_valid(&self) -> bool {
        self.replication_factor > 0 && self.partition_count > 0
    }

    /// Accepts the configuration exactly when both sizes are positive.
    pub fn validate(&self) -> (r: Result<(), RingError>)
        ensures
            r is Ok <==> self.is_valid(),
            r is Err ==> r == Err::<(), RingError>(RingError::InvalidConfig),
    {
        if self.partition_count == 0 {
            return Err(RingError::InvalidConfig);
        }
        if self.replication_factor == 0 {
            return Err(RingError::InvalidConfig);
        }
        Ok(())
    }
}

impl Default for Config {
    fn default() -> (r: Self)
        ensures
            r.replication_factor == DEFAULT_REPLICATION_FACTOR,
            r.partition_count == DEFAULT_PARTITION_COUNT,
    {
        Config {
            replication_factor: DEFAULT_REPLICATION_FACTOR,
            partition_count: DEFAULT_PARTITION_COUNT,
        }
    }
}

} // verus!
