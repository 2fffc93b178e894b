use crate::config::{Config, RingError};
use crate::counts::NodeCounts;
use crate::hashing::{
    partition_key, partition_key_bytes, replica_key, replica_key_bytes, RingHasher, XxHash64Hasher,
};
use crate::index::{
    clockwise, clockwise_index, holds_id, index_insert, index_remove, insert_point, is_ascending,
    lemma_insert_elements, lemma_remove_elements, preference, preference_nodes, remove_point,
    replica_count, ring_ids, VirtualNode,
};
use std::marker::PhantomData;
use std::sync::Arc;
use vstd::prelude::*;

verus! {

/// Something that can be placed on the ring. The ring knows a node only by
/// its id, which it reads once, when the node is added.
pub trait Node<'a> {
    fn id(&self) -> &'a str;
}

/// An entry of the node registry.
pub struct Member<N: ?Sized> {
    pub id: String,
    pub node: Arc<N>,
}

/// Position of replica `replica` of the node `id`.
pub open spec fn replica_hash<H: RingHasher>(hasher: H, id: Seq<char>, replica: nat) -> u64 {
    hasher.spec_hash(replica_key(id, replica))
}

/// Position of partition `part_id`.
pub open spec fn partition_hash<H: RingHasher>(hasher: H, part_id: nat) -> u64 {
    hasher.spec_hash(partition_key(part_id as usize))
}

/// Whether the node of point `p` is registered, under the same id and handle.
pub open spec fn registered<N: ?Sized>(members: Seq<Member<N>>, p: VirtualNode<N>) -> bool {
    exists|m: int| 0 <= m < members.len() && members[m].id@ == p.id@ && members[m].node == p.node
}

/// Whether `h` is the position of one of the first `k` replicas of the node `id`.
pub open spec fn is_replica_position<H: RingHasher>(hasher: H, id: Seq<char>, k: nat, h: u64) -> bool {
    exists|q: nat| q < k && h == replica_hash(hasher, id, q)
}

/// Whether `p` sits at the position of one of the first `rf` replicas of its node.
pub open spec fn is_replica_of<H: RingHasher, N: ?Sized>(hasher: H, rf: nat, p: VirtualNode<N>) -> bool {
    is_replica_position(hasher, p.id@, rf, p.hash)
}

/// Whether `id` is one of the registered ids.
pub open spec fn has_member<N: ?Sized>(members: Seq<Member<N>>, id: Seq<char>) -> bool {
    exists|m: int| 0 <= m < members.len() && members[m].id@ == id
}

/// `s` after placing replicas `0..k` of the node `id`, in that order.
pub open spec fn insert_replicas<H: RingHasher, N: ?Sized>(
    s: Seq<VirtualNode<N>>,
    hasher: H,
    id: String,
    node: Arc<N>,
    k: nat,
) -> Seq<VirtualNode<N>>
    decreases k,
{
    if k == 0 {
        s
    } else {
        index_insert(
            insert_replicas(s, hasher, id, node, (k - 1) as nat),
            VirtualNode { hash: replica_hash(hasher, id@, (k - 1) as nat), id, node },
        )
    }
}

/// `s` after taking off the positions of replicas `0..k` of the node `id`.
pub open spec fn remove_replicas<H: RingHasher, N: ?Sized>(
    s: Seq<VirtualNode<N>>,
    hasher: H,
    id: Seq<char>,
    k: nat,
) -> Seq<VirtualNode<N>>
    decreases k,
{
    if k == 0 {
        s
    } else {
        index_remove(
            remove_replicas(s, hasher, id, (k - 1) as nat),
            replica_hash(hasher, id, (k - 1) as nat),
        )
    }
}

/// The partition table derived from the points `s`: partition `p` goes to
/// the owner of its position; with no points there is no table.
pub open spec fn partition_table_of<H: RingHasher, N: ?Sized>(
    s: Seq<VirtualNode<N>>,
    hasher: H,
    partition_count: nat,
) -> Seq<VirtualNode<N>> {
    if s.len() == 0 {
        Seq::empty()
    } else {
        Seq::new(partition_count, |p: int| s[clockwise_index(s, partition_hash(hasher, p as nat))])
    }
}

/// A consistent-hashing ring over nodes of type `N`, hashed by `H`.
///
/// It holds a registry of nodes by id, the ascending list of their replica
/// points, and a partition table derived from those points.
pub struct HashRing<'a, H = XxHash64Hasher, N: ?Sized + Node<'a> = dyn Node<'a> + 'a> {
    config: Config,
    hasher: H,
    nodes: Vec<Member<N>>,
    index: Vec<VirtualNode<N>>,
    partitions: Vec<VirtualNode<N>>,
    lifetime: PhantomData<&'a ()>,
}

impl<'a, N: ?Sized + Node<'a>> HashRing<'a, XxHash64Hasher, N> {
    /// An empty ring hashed with XXH3; fails on an invalid configuration.
    pub fn new(config: Config) -> (r: Result<Self, RingError>)
        ensures
            r is Ok <==> config.is_valid(),
            r is Err ==> r == Err::<Self, RingError>(RingError::InvalidConfig),
            r matches Ok(ring) ==> ring.is_empty_with(config, XxHash64Hasher),
    {
        HashRing::with_hasher(config, XxHash64Hasher)
    }
}

impl<'a, H: RingHasher, N: ?Sized + Node<'a>> HashRing<'a, H, N> {
    /// The configuration the ring was built with.
    pub closed spec fn spec_config(&self) -> Config {
        self.config
    }

    /// The hasher that places replicas, partitions and keys.
    pub closed spec fn hasher(&self) -> H {
        self.hasher
    }

    /// The node registry, in order of addition.
    pub closed spec fn members(&self) -> Seq<Member<N>> {
        self.nodes@
    }

    /// The replica points, ascending by position.
    pub closed spec fn points(&self) -> Seq<VirtualNode<N>> {
        self.index@
    }

    /// The partition table: entry `p` is the point that owns partition `p`.
    pub closed spec fn partition_table(&self) -> Seq<VirtualNode<N>> {
        self.partitions@
    }

    /// The number of replicas placed per node.
    pub open spec fn replication_factor(&self) -> nat {
        self.spec_config().replication_factor as nat
    }

    /// A freshly built ring: nothing registered, no points, no partitions.
    pub open spec fn is_empty_with(&self, config: Config, hasher: H) -> bool {
        &&& self.wf()
        &&& self.spec_config() == config
        &&& self.hasher() == hasher
        &&& self.members().len() == 0
        &&& self.points().len() == 0
        &&& self.partition_table().len() == 0
    }

    /// The invariant of the ring.
    pub open spec fn wf(&self) -> bool {
        &&& self.spec_config().is_valid()
        &&& is_ascending(self.points())
        &&& forall|a: int, b: int|
            0 <= a < b < self.members().len() ==> self.members()[a].id@ != self.members()[b].id@
        &&& forall|j: int|
            0 <= j < self.points().len() ==> #[trigger] registered(self.members(), self.points()[j])
        &&& forall|j: int|
            0 <= j < self.points().len() ==> #[trigger] is_replica_of(
                self.hasher(),
                self.replication_factor(),
                self.points()[j],
            )
        &&& self.partition_table() == partition_table_of(
            self.points(),
            self.hasher(),
            self.spec_config().partition_count as nat,
        )
    }

    /// Position of a key.
    pub open spec fn key_hash(&self, key: Seq<u8>) -> u64 {
        self.hasher().spec_hash(key)
    }

    /// The point that owns `key`, if the ring has any point.
    pub open spec fn owner_of(&self, key: Seq<u8>) -> Option<VirtualNode<N>> {
        if self.points().len() == 0 {
            None
        } else {
            Some(self.points()[clockwise_index(self.points(), self.key_hash(key))])
        }
    }

    /// One point for each of the first `replication_factor` distinct nodes
    /// met going clockwise from the position of `key`.
    pub open spec fn preference_of(&self, key: Seq<u8>) -> Seq<VirtualNode<N>> {
        preference(self.points(), self.key_hash(key), self.replication_factor())
    }

    /// What `add_node_with_id(id, node)` does to `old`, giving `new` and `r`.
    pub open spec fn added(old: Self, new: Self, id: Seq<char>, node: Arc<N>, r: Result<Arc<N>, RingError>) -> bool {
        if has_member(old.members(), id) {
            &&& r == Err::<Arc<N>, RingError>(RingError::DuplicateNode)
            &&& new == old
        } else {
            &&& r == Ok::<Arc<N>, RingError>(node)
            &&& new.spec_config() == old.spec_config()
            &&& new.hasher() == old.hasher()
            &&& new.members().len() == old.members().len() + 1
            &&& new.members().drop_last() == old.members()
            &&& new.members().last().id@ == id
            &&& new.members().last().node == node
            &&& new.points() == insert_replicas(
                old.points(),
                old.hasher(),
                new.members().last().id,
                node,
                old.replication_factor(),
            )
        }
    }

    /// What `remove_node(id)` does to `old`, giving `new` and `r`.
    pub open spec fn removed(old: Self, new: Self, id: Seq<char>, r: Result<(), RingError>) -> bool {
        if !has_member(old.members(), id) {
            &&& r == Err::<(), RingError>(RingError::NodeNotFound)
            &&& new == old
        } else {
            &&& r == Ok::<(), RingError>(())
            &&& new.spec_config() == old.spec_config()
            &&& new.hasher() == old.hasher()
            &&& exists|m: int|
                0 <= m < old.members().len() && old.members()[m].id@ == id && new.members()
                    == old.members().remove(m)
            &&& new.points() == remove_replicas(
                old.points(),
                old.hasher(),
                id,
                old.replication_factor(),
            )
        }
    }

    /// An empty ring with the given hasher; fails on an invalid configuration.
    pub fn with_hasher(config: Config, hasher: H) -> (r: Result<Self, RingError>)
        ensures
            r is Ok <==> config.is_valid(),
            r is Err ==> r == Err::<Self, RingError>(RingError::InvalidConfig),
            r matches Ok(ring) ==> ring.is_empty_with(config, hasher),
    {
        match config.validate() {
            Err(e) => Err(e),
            Ok(()) => {
                let ring = HashRing {
                    config,
                    hasher,
                    nodes: Vec::new(),
                    index: Vec::new(),
                    partitions: Vec::new(),
                    lifetime: PhantomData,
                };
                proof {
                    assert(ring.partition_table() =~= partition_table_of(
                        ring.points(),
                        ring.hasher(),
                        config.partition_count as nat,
                    ));
                }
                Ok(ring)
            },
        }
    }

    /// Position of the registered node `id`, if any.
    fn find_member(&self, id: &String) -> (r: Option<usize>)
        ensures
            r is None <==> !has_member(self.members(), id@),
            r matches Some(m) ==> m < self.members().len() && self.members()[m as int].id@ == id@,
    {
        let mut m: usize = 0;
        while m < self.nodes.len()
            invariant
                m <= self.nodes@.len(),
                forall|q: int| 0 <= q < m ==> self.nodes@[q].id@ != id@,
            decreases self.nodes@.len() - m,
        {
            if self.nodes[m].id == *id {
                return Some(m);
            }
            m += 1;
        }
        None
    }

    /// Adds `node` under the id `id`: places its `replication_factor`
    /// replicas, registers it and rebuilds the partition table. Fails, and
    /// changes nothing, when `id` is already registered.
    pub fn add_node_with_id(&mut self, id: &str, node: Arc<N>) -> (r: Result<Arc<N>, RingError>)
        requires
            old(self).wf(),
        ensures
            final(self).wf(),
            Self::added(*old(self), *final(self), id@, node, r),
    {
        let name = id.to_owned();
        if self.find_member(&name).is_some() {
            return Err(RingError::DuplicateNode);
        }
        let ghost old_points = self.index@;
        let rf = self.config.replication_factor;
        let mut i: usize = 0;
        while i < rf
            invariant
                i <= rf,
                rf == self.config.replication_factor,
                is_ascending(old_points),
                is_ascending(self.index@),
                name@ == id@,
                self.index@ == insert_replicas(old_points, self.hasher, name, node, i as nat),
                forall|x: VirtualNode<N>| #[trigger]
                    self.index@.contains(x) ==> old_points.contains(x) || (x.id == name && x.node
                        == node && exists|q: nat|
                        q < i && x.hash == replica_hash(self.hasher, name@, q)),
                self.nodes == old(self).nodes,
                self.config == old(self).config,
                self.hasher == old(self).hasher,
                self.partitions == old(self).partitions,
            decreases rf - i,
        {
            let key = replica_key_bytes(name.as_str(), i);
            let h = self.hasher.hash_bytes(key.as_slice());
            let point = VirtualNode { hash: h, id: name.clone(), node: node.clone() };
            let ghost before = self.index@;
            proof {
                lemma_insert_elements(before, point);
            }
            insert_point(&mut self.index, point);
            i += 1;
            proof {
                assert(point.hash == replica_hash(self.hasher, name@, (i - 1) as nat));
                assert forall|x: VirtualNode<N>| #[trigger]
                    self.index@.contains(x) implies old_points.contains(x) || (x.id == name && x.node
                        == node && exists|q: nat|
                        q < i && x.hash == replica_hash(self.hasher, name@, q)) by {
                    if x == point {
                        assert(((i - 1) as nat) < i && x.hash == replica_hash(self.hasher, name@, (i - 1) as nat));
                    } else {
                        assert(index_insert(before, point).contains(x));
                        assert(before.contains(x));
                        if !old_points.contains(x) {
                            let q = choose|q: nat| q < i - 1 && x.hash == replica_hash(self.hasher, name@, q);
                            assert(q < i && x.hash == replica_hash(self.hasher, name@, q));
                        }
                    }
                }
            }
        }
        let ghost points_now = self.index@;
        proof {
            assert forall|x: VirtualNode<N>| points_now.contains(x) implies is_replica_of(
                old(self).hasher,
                rf as nat,
                x,
            ) by {
                if old_points.contains(x) {
                    let j2 = choose|j2: int| 0 <= j2 < old_points.len() && old_points[j2] == x;
                    assert(old(self).points()[j2] == x);
                    assert(is_replica_of(
                        old(self).hasher(),
                        old(self).replication_factor(),
                        old(self).points()[j2],
                    ));
                } else {
                    assert(self.index@.contains(x));
                    assert(x.id == name);
                    let q = choose|q: nat| q < i && x.hash == replica_hash(self.hasher, name@, q);
                    assert(q < rf && x.hash == replica_hash(old(self).hasher, x.id@, q));
                }
            }
        }
        let ghost old_members = self.nodes@;
        self.nodes.push(Member { id: name, node: node.clone() });
        let ghost members_now = self.nodes@;
        proof {
            assert(members_now.drop_last() =~= old_members);
            assert forall|x: VirtualNode<N>| points_now.contains(x) implies registered(members_now, x) by {
                if old_points.contains(x) {
                    let j2 = choose|j2: int| 0 <= j2 < old_points.len() && old_points[j2] == x;
                    assert(registered(old(self).members(), old(self).points()[j2]));
                    let m = choose|m: int|
                        0 <= m < old_members.len() && old_members[m].id@ == x.id@
                            && old_members[m].node == x.node;
                    assert(members_now[m] == old_members[m]);
                } else {
                    assert(members_now[members_now.len() - 1].id@ == x.id@);
                }
            }
        }
        self.distribute_partitions();
        proof {
            assert(self.points() == points_now);
            assert(self.members() == members_now);
            assert(self.hasher() == old(self).hasher);
            assert(self.replication_factor() == rf as nat);
            assert forall|j: int| 0 <= j < self.points().len() implies #[trigger] registered(
                self.members(),
                self.points()[j],
            ) by {
                assert(points_now.contains(points_now[j]));
            }
            assert forall|j: int| 0 <= j < self.points().len() implies #[trigger] is_replica_of(
                self.hasher(),
                self.replication_factor(),
                self.points()[j],
            ) by {
                assert(points_now.contains(points_now[j]));
            }
        }
        Ok(node)
    }

    /// Adds `node` under the id it reports; see `add_node_with_id`.
    pub fn add_node(&mut self, node: Arc<N>) -> (r: Result<Arc<N>, RingError>)
        requires
            old(self).wf(),
        ensures
            final(self).wf(),
            exists|id: Seq<char>| Self::added(*old(self), *final(self), id, node, r),
    {
        let id: &'a str = node.id();
        self.add_node_with_id(id, node)
    }

    /// Takes the node `id` off the ring: removes the positions of its
    /// `replication_factor` replicas, unregisters it and rebuilds the
    /// partition table. Fails, and changes nothing, when `id` is not
    /// registered.
    pub fn remove_node(&mut self, id: &str) -> (r: Result<(), RingError>)
        requires
            old(self).wf(),
        ensures
            final(self).wf(),
            Self::removed(*old(self), *final(self), id@, r),
    {
        let name = id.to_owned();
        let m = match self.find_member(&name) {
            None => {
                return Err(RingError::NodeNotFound);
            },
            Some(m) => m,
        };
        let ghost old_points = self.index@;
        let rf = self.config.replication_factor;
        let mut i: usize = 0;
        while i < rf
            invariant
                i <= rf,
                rf == self.config.replication_factor,
                is_ascending(self.index@),
                name@ == id@,
                self.index@ == remove_replicas(old_points, self.hasher, name@, i as nat),
                forall|x: VirtualNode<N>| #[trigger]
                    self.index@.contains(x) <==> old_points.contains(x) && !is_replica_position(
                        self.hasher,
                        name@,
                        i as nat,
                        x.hash,
                    ),
                self.nodes == old(self).nodes,
                self.config == old(self).config,
                self.hasher == old(self).hasher,
            decreases rf - i,
        {
            let key = replica_key_bytes(name.as_str(), i);
            let h = self.hasher.hash_bytes(key.as_slice());
            let ghost before = self.index@;
            proof {
                lemma_remove_elements(before, h);
            }
            remove_point(&mut self.index, h);
            i += 1;
            proof {
                assert forall|x: VirtualNode<N>| #[trigger]
                    self.index@.contains(x) <==> old_points.contains(x) && !is_replica_position(
                        self.hasher,
                        name@,
                        i as nat,
                        x.hash,
                    ) by {
                    assert(index_remove(before, h).contains(x) <==> before.contains(x) && x.hash != h);
                    assert(before.contains(x) <==> old_points.contains(x) && !is_replica_position(
                        self.hasher,
                        name@,
                        (i - 1) as nat,
                        x.hash,
                    ));
                    if is_replica_position(self.hasher, name@, i as nat, x.hash) && x.hash != h {
                        let q = choose|q: nat| q < i && x.hash == replica_hash(self.hasher, name@, q);
                        assert(q < i - 1);
                    }
                    if is_replica_position(self.hasher, name@, (i - 1) as nat, x.hash) {
                        let q = choose|q: nat| q < i - 1 && x.hash == replica_hash(self.hasher, name@, q);
                        assert(q < i);
                    }
                    if x.hash == h {
                        assert(((i - 1) as nat) < i && x.hash == replica_hash(self.hasher, name@, (i - 1) as nat));
                    }
                }
            }
        }
        let ghost points_now = self.index@;
        let ghost old_members = self.nodes@;
        self.nodes.remove(m);
        let ghost members_now = self.nodes@;
        proof {
            assert forall|x: VirtualNode<N>| points_now.contains(x) implies registered(members_now, x)
                && is_replica_of(old(self).hasher, rf as nat, x) by {
                assert(self.index@.contains(x));
                assert(old_points.contains(x));
                let j2 = choose|j2: int| 0 <= j2 < old_points.len() && old_points[j2] == x;
                assert(old(self).points()[j2] == x);
                assert(is_replica_of(
                    old(self).hasher(),
                    old(self).replication_factor(),
                    old(self).points()[j2],
                ));
                assert(registered(old(self).members(), old(self).points()[j2]));
                let m2 = choose|m2: int|
                    0 <= m2 < old_members.len() && old_members[m2].id@ == x.id@
                        && old_members[m2].node == x.node;
                if m2 == m {
                    let q = choose|q: nat| q < rf && x.hash == replica_hash(old(self).hasher, x.id@, q);
                    assert(is_replica_position(self.hasher, name@, rf as nat, x.hash));
                    assert(false);
                } else if m2 < m {
                    assert(members_now[m2] == old_members[m2]);
                } else {
                    assert(members_now[m2 - 1] == old_members[m2]);
                }
            }
            assert forall|a: int, b: int| 0 <= a < b < members_now.len() implies members_now[a].id@
                != members_now[b].id@ by {
                let a2 = if a < m { a } else { a + 1 };
                let b2 = if b < m { b } else { b + 1 };
                assert(members_now[a] == old_members[a2]);
                assert(members_now[b] == old_members[b2]);
                assert(old(self).members()[a2].id@ != old(self).members()[b2].id@);
            }
        }
        self.distribute_partitions();
        proof {
            assert(self.points() == points_now);
            assert(self.members() == members_now);
            assert(self.hasher() == old(self).hasher);
            assert(self.replication_factor() == rf as nat);
            assert forall|j: int| 0 <= j < self.points().len() implies #[trigger] registered(
                self.members(),
                self.points()[j],
            ) by {
                assert(points_now.contains(points_now[j]));
            }
            assert forall|j: int| 0 <= j < self.points().len() implies #[trigger] is_replica_of(
                self.hasher(),
                self.replication_factor(),
                self.points()[j],
            ) by {
                assert(points_now.contains(points_now[j]));
            }
        }
        Ok(())
    }

    /// The node that owns `key`: the one whose point is first at or after the
    /// key's position, wrapping round; `None` when the ring has no points.
    pub fn get_key(&self, key: &[u8]) -> (r: Option<Arc<N>>)
        requires
            self.wf(),
        ensures
            r is None <==> self.points().len() == 0,
            r matches Some(n) ==> n == self.owner_of(key@)->0.node,
    {
        let h = self.hasher.hash_bytes(key);
        if self.index.len() == 0 {
            return None;
        }
        let i = clockwise(&self.index, h);
        Some(self.index[i].node.clone())
    }

    /// Up to `replication_factor` distinct nodes for `key`, in clockwise order
    /// from its position, going at most once round the ring.
    pub fn get_preference_list(&self, key: &[u8]) -> (r: Vec<Arc<N>>)
        requires
            self.wf(),
        ensures
            r@ == self.preference_of(key@).map_values(|e: VirtualNode<N>| e.node),
    {
        let h = self.hasher.hash_bytes(key);
        preference_nodes(&self.index, h, self.config.replication_factor)
    }

    /// How many points each node owns.
    pub fn virtual_nodes_per_node(&self) -> (r: NodeCounts)
        requires
            self.wf(),
        ensures
            r.wf(),
            forall|id: Seq<char>|
                #[trigger] r.spec_get(id) == if holds_id(self.points(), id) {
                    Some(replica_count(self.points(), id))
                } else {
                    None
                },
            r.spec_len() == ring_ids(self.points()).len(),
    {
        NodeCounts::tally(&self.index)
    }

    /// The number of registered nodes.
    pub fn node_count(&self) -> (r: usize)
        ensures
            r == self.members().len(),
    {
        self.nodes.len()
    }

    /// The number of partitions that have an owner.
    pub fn assigned_partitions(&self) -> (r: usize)
        ensures
            r == self.partition_table().len(),
    {
        self.partitions.len()
    }

    /// The node that owns partition `part_id`, if it is assigned.
    pub fn partition_owner(&self, part_id: usize) -> (r: Option<Arc<N>>)
        ensures
            part_id < self.partition_table().len() ==> r == Some(self.partition_table()[part_id as int].node),
            part_id >= self.partition_table().len() ==> r is None,
    {
        if part_id < self.partitions.len() {
            Some(self.partitions[part_id].node.clone())
        } else {
            None
        }
    }

    /// Rebuilds the partition table from the current points.
    fn distribute_partitions(&mut self)
        requires
            is_ascending(old(self).points()),
        ensures
            final(self).spec_config() == old(self).spec_config(),
            final(self).hasher() == old(self).hasher(),
            final(self).members() == old(self).members(),
            final(self).points() == old(self).points(),
            final(self).partition_table() == partition_table_of(
                old(self).points(),
                old(self).hasher(),
                old(self).spec_config().partition_count as nat,
            ),
    {
        let mut table: Vec<VirtualNode<N>> = Vec::new();
        if self.index.len() > 0 {
            let count = self.config.partition_count;
            let mut p: usize = 0;
            while p < count
                invariant
                    p <= count,
                    count == self.config.partition_count,
                    is_ascending(self.index@),
                    self.index@.len() > 0,
                    forall|q: int|
                        0 <= q < p ==> #[trigger] table@[q] == self.index@[clockwise_index(
                            self.index@,
                            partition_hash(self.hasher, q as nat),
                        )],
                    table@.len() == p,
                decreases count - p,
            {
                let key = partition_key_bytes(p);
                let h = self.hasher.hash_bytes(key.as_slice());
                let i = clockwise(&self.index, h);
                table.push(self.index[i].duplicate());
                p += 1;
            }
        }
        self.partitions = table;
        proof {
            assert(self.partitions@ =~= partition_table_of(
                self.index@,
                self.hasher,
                self.config.partition_count as nat,
            ));
        }
    }
}

} // verus!
