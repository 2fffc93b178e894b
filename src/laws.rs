use crate::config::RingError;
use crate::hashing::RingHasher;
use crate::index::{
    clockwise_index, clockwise_walk, first_at_or_after, gather, holds_id, index_insert,
    index_remove, is_ascending, lemma_first_at_or_after, lemma_first_at_or_after_is,
    lemma_insert_elements, lemma_remove_elements, of_node, replica_count, ring_ids, VirtualNode,
};
use crate::ring::{
    has_member, insert_replicas, is_replica_position, registered, remove_replicas, replica_hash,
    HashRing, Node,
};
use std::sync::Arc;
use vstd::arithmetic::div_mod::{lemma_mod_add_multiples_vanish, lemma_small_mod};
use vstd::prelude::*;
use vstd::seq_lib::seq_to_set_is_finite;
use vstd::set_lib::lemma_len_subset;

verus! {

/// In a well-formed ring the partition table has `partition_count` entries
/// when the ring has points and none otherwise, and every entry is a
/// registered node, under its id and handle.
pub proof fn lemma_partition_table<'a, H: RingHasher, N: ?Sized + Node<'a>>(ring: HashRing<'a, H, N>)
    requires
        ring.wf(),
    ensures
        ring.partition_table().len() == if ring.points().len() > 0 {
            ring.spec_config().partition_count as nat
        } else {
            0
        },
        forall|p: int|
            0 <= p < ring.partition_table().len() ==> #[trigger] registered(
                ring.members(),
                ring.partition_table()[p],
            ),
{
    assert forall|p: int| 0 <= p < ring.partition_table().len() implies #[trigger] registered(
        ring.members(),
        ring.partition_table()[p],
    ) by {
        let s = ring.points();
        let h = crate::ring::partition_hash(ring.hasher(), p as nat);
        lemma_first_at_or_after(s, h);
        let i = clockwise_index(s, h);
        assert(ring.partition_table()[p] == s[i]);
        assert(registered(ring.members(), s[i]));
    }
}

/// Placing the replicas of a node keeps the ring ascending; afterwards each
/// point is an old one or a replica of that node, and the last replica
/// placed is there.
pub proof fn lemma_insert_replicas_elements<H: RingHasher, N: ?Sized>(
    s: Seq<VirtualNode<N>>,
    hasher: H,
    id: String,
    node: Arc<N>,
    k: nat,
)
    requires
        is_ascending(s),
    ensures
        is_ascending(insert_replicas(s, hasher, id, node, k)),
        forall|x: VirtualNode<N>| #[trigger]
            insert_replicas(s, hasher, id, node, k).contains(x) ==> s.contains(x) || (x.id == id
                && x.node == node && is_replica_position(hasher, id@, k, x.hash)),
        k > 0 ==> insert_replicas(s, hasher, id, node, k).contains(
            (VirtualNode { hash: replica_hash(hasher, id@, (k - 1) as nat), id, node }),
        ),
    decreases k,
{
    if k > 0 {
        let prev = insert_replicas(s, hasher, id, node, (k - 1) as nat);
        let e = VirtualNode { hash: replica_hash(hasher, id@, (k - 1) as nat), id, node };
        lemma_insert_replicas_elements(s, hasher, id, node, (k - 1) as nat);
        lemma_insert_elements(prev, e);
        assert forall|x: VirtualNode<N>| #[trigger]
            insert_replicas(s, hasher, id, node, k).contains(x) implies s.contains(x) || (x.id == id
                && x.node == node && is_replica_position(hasher, id@, k, x.hash)) by {
            assert(index_insert(prev, e).contains(x));
            if x == e {
                assert(((k - 1) as nat) < k && x.hash == replica_hash(hasher, id@, (k - 1) as nat));
            } else if !s.contains(x) {
                assert(prev.contains(x));
                let q = choose|q: nat| q < k - 1 && x.hash == replica_hash(hasher, id@, q);
                assert(q < k && x.hash == replica_hash(hasher, id@, q));
            }
        }
    }
}

/// Taking off the replica positions of a node keeps the ring ascending and
/// removes exactly the points at those positions.
pub proof fn lemma_remove_replicas_elements<H: RingHasher, N: ?Sized>(
    s: Seq<VirtualNode<N>>,
    hasher: H,
    id: Seq<char>,
    k: nat,
)
    requires
        is_ascending(s),
    ensures
        is_ascending(remove_replicas(s, hasher, id, k)),
        forall|x: VirtualNode<N>| #[trigger]
            remove_replicas(s, hasher, id, k).contains(x) <==> s.contains(x)
                && !is_replica_position(hasher, id, k, x.hash),
    decreases k,
{
    if k > 0 {
        let prev = remove_replicas(s, hasher, id, (k - 1) as nat);
        let h = replica_hash(hasher, id, (k - 1) as nat);
        lemma_remove_replicas_elements(s, hasher, id, (k - 1) as nat);
        lemma_remove_elements(prev, h);
        assert forall|x: VirtualNode<N>| #[trigger]
            remove_replicas(s, hasher, id, k).contains(x) <==> s.contains(x)
                && !is_replica_position(hasher, id, k, x.hash) by {
            assert(index_remove(prev, h).contains(x) <==> prev.contains(x) && x.hash != h);
            assert(prev.contains(x) <==> s.contains(x) && !is_replica_position(hasher, id, (k - 1) as nat, x.hash));
            if is_replica_position(hasher, id, k, x.hash) && x.hash != h {
                let q = choose|q: nat| q < k && x.hash == replica_hash(hasher, id, q);
                assert(q < k - 1);
            }
            if is_replica_position(hasher, id, (k - 1) as nat, x.hash) {
                let q = choose|q: nat| q < k - 1 && x.hash == replica_hash(hasher, id, q);
                assert(q < k);
            }
            if x.hash == h {
                assert(((k - 1) as nat) < k && x.hash == replica_hash(hasher, id, (k - 1) as nat));
            }
        }
    }
}

/// Taking points off an ascending ring, but not the owner of `h`, leaves
/// that point the owner of `h`.
pub proof fn lemma_owner_survives<N: ?Sized>(s: Seq<VirtualNode<N>>, t: Seq<VirtualNode<N>>, h: u64)
    requires
        is_ascending(s),
        is_ascending(t),
        s.len() > 0,
        forall|x: VirtualNode<N>| #[trigger] t.contains(x) ==> s.contains(x),
        t.contains(s[clockwise_index(s, h)]),
    ensures
        t.len() > 0,
        t[clockwise_index(t, h)] == s[clockwise_index(s, h)],
{
    lemma_first_at_or_after(s, h);
    let f = first_at_or_after(s, h) as int;
    let e = s[clockwise_index(s, h)];
    let k = choose|k: int| 0 <= k < t.len() && t[k] == e;
    if f < s.len() {
        assert forall|j: int| 0 <= j < k implies t[j].hash < h by {
            assert(t.contains(t[j]));
            let i = choose|i: int| 0 <= i < s.len() && s[i] == t[j];
            if i >= f {
                if i > f {
                    assert(s[f].hash < s[i].hash);
                }
                assert(t[k].hash <= t[j].hash);
            }
        }
        lemma_first_at_or_after_is(t, h, k);
    } else {
        assert forall|j: int| 0 <= j < t.len() implies t[j].hash < h by {
            assert(t.contains(t[j]));
            let i = choose|i: int| 0 <= i < s.len() && s[i] == t[j];
        }
        lemma_first_at_or_after_is(t, h, t.len() as int);
        if k > 0 {
            assert(t.contains(t[0]));
            let i = choose|i: int| 0 <= i < s.len() && s[i] == t[0];
            if i > 0 {
                assert(s[0].hash < s[i].hash);
            }
            assert(t[0].hash < t[k].hash);
        }
    }
}

/// A ring with no registered node has no points, so no key has an owner;
/// a ring with points gives every key an owner.
pub proof fn lemma_owner_exists<'a, H: RingHasher, N: ?Sized + Node<'a>>(
    ring: HashRing<'a, H, N>,
    key: Seq<u8>,
)
    requires
        ring.wf(),
    ensures
        ring.owner_of(key) is Some <==> ring.points().len() > 0,
        ring.members().len() == 0 ==> ring.owner_of(key) is None,
{
    if ring.points().len() > 0 {
        assert(registered(ring.members(), ring.points()[0]));
    }
}

/// A node that was just added successfully leaves the ring with points,
/// so every key then has an owner.
pub proof fn lemma_added_ring_has_points<'a, H: RingHasher, N: ?Sized + Node<'a>>(
    old: HashRing<'a, H, N>,
    new: HashRing<'a, H, N>,
    id: Seq<char>,
    node: Arc<N>,
    r: Result<Arc<N>, RingError>,
)
    requires
        old.wf(),
        HashRing::added(old, new, id, node, r),
        r is Ok,
    ensures
        new.points().len() > 0,
{
    let name = new.members().last().id;
    lemma_insert_replicas_elements(old.points(), old.hasher(), name, node, old.replication_factor());
    let e = VirtualNode {
        hash: replica_hash(old.hasher(), name@, (old.replication_factor() - 1) as nat),
        id: name,
        node,
    };
    assert(new.points().contains(e));
}

/// Removing a node leaves every key whose owning point was not at one of
/// that node's replica positions with the same owner, and every such
/// partition with the same entry.
pub proof fn lemma_removal_keeps_unaffected_owners<'a, H: RingHasher, N: ?Sized + Node<'a>>(
    old: HashRing<'a, H, N>,
    new: HashRing<'a, H, N>,
    id: Seq<char>,
    r: Result<(), RingError>,
    key: Seq<u8>,
)
    requires
        old.wf(),
        new.wf(),
        HashRing::removed(old, new, id, r),
        r is Ok,
        old.owner_of(key) is Some,
        !is_replica_position(old.hasher(), id, old.replication_factor(), old.owner_of(key)->0.hash),
    ensures
        new.owner_of(key) == old.owner_of(key),
        forall|p: int|
            0 <= p < old.partition_table().len() && !is_replica_position(
                old.hasher(),
                id,
                old.replication_factor(),
                #[trigger] old.partition_table()[p].hash,
            ) ==> new.partition_table()[p] == old.partition_table()[p],
{
    let s = old.points();
    let t = new.points();
    lemma_remove_replicas_elements(s, old.hasher(), id, old.replication_factor());
    let h = old.key_hash(key);
    assert(t.contains(s[clockwise_index(s, h)]));
    lemma_owner_survives(s, t, h);
    assert forall|p: int|
        0 <= p < old.partition_table().len() && !is_replica_position(
            old.hasher(),
            id,
            old.replication_factor(),
            #[trigger] old.partition_table()[p].hash,
        ) implies new.partition_table()[p] == old.partition_table()[p] by {
        let hp = crate::ring::partition_hash(old.hasher(), p as nat);
        assert(old.partition_table()[p] == s[clockwise_index(s, hp)]);
        assert(t.contains(s[clockwise_index(s, hp)]));
        lemma_owner_survives(s, t, hp);
    }
}

/// No two points of `s` belong to the same node.
pub open spec fn distinct_ids<N: ?Sized>(s: Seq<VirtualNode<N>>) -> bool {
    forall|a: int, b: int| 0 <= a < b < s.len() ==> s[a].id@ != s[b].id@
}

/// What `gather` collects: at most `n` points, of distinct nodes, each from
/// `acc` or the walk; and, when it stops short of `n`, every node of the
/// walk.
pub proof fn lemma_gather<N: ?Sized>(walk: Seq<VirtualNode<N>>, acc: Seq<VirtualNode<N>>, n: nat)
    requires
        acc.len() <= n,
        distinct_ids(acc),
    ensures
        gather(walk, acc, n).len() <= n,
        distinct_ids(gather(walk, acc, n)),
        forall|x: VirtualNode<N>| #[trigger]
            gather(walk, acc, n).contains(x) ==> acc.contains(x) || walk.contains(x),
        forall|id: Seq<char>| holds_id(acc, id) ==> #[trigger] holds_id(gather(walk, acc, n), id),
        gather(walk, acc, n).len() < n ==> forall|j: int|
            0 <= j < walk.len() ==> #[trigger] holds_id(gather(walk, acc, n), walk[j].id@),
    decreases walk.len(),
{
    if walk.len() > 0 && acc.len() < n {
        let rest = walk.drop_first();
        let w = walk[0];
        let next = if holds_id(acc, w.id@) { acc } else { acc.push(w) };
        if !holds_id(acc, w.id@) {
            assert forall|a: int, b: int| 0 <= a < b < next.len() implies next[a].id@ != next[b].id@ by {
                if b == acc.len() {
                    assert(!(0 <= a < acc.len() && acc[a].id@ == w.id@));
                }
            }
            assert forall|id: Seq<char>| holds_id(acc, id) implies holds_id(next, id) by {
                let j = choose|j: int| 0 <= j < acc.len() && acc[j].id@ == id;
                assert(next[j] == acc[j]);
            }
            assert(next[acc.len() as int] == w);
            assert(holds_id(next, w.id@));
        }
        lemma_gather(rest, next, n);
        let r = gather(walk, acc, n);
        assert(r == gather(rest, next, n));
        assert forall|x: VirtualNode<N>| #[trigger] r.contains(x) implies acc.contains(x) || walk.contains(x) by {
            if next.contains(x) && !acc.contains(x) {
                assert(walk[0] == x);
            }
            if rest.contains(x) {
                let j = choose|j: int| 0 <= j < rest.len() && rest[j] == x;
                assert(walk[j + 1] == x);
            }
        }
        assert forall|id: Seq<char>| holds_id(acc, id) implies #[trigger] holds_id(r, id) by {
            assert(holds_id(next, id));
        }
        if r.len() < n {
            assert forall|j: int| 0 <= j < walk.len() implies #[trigger] holds_id(r, walk[j].id@) by {
                if j > 0 {
                    assert(walk[j] == rest[j - 1]);
                } else {
                    assert(holds_id(next, w.id@));
                }
            }
        }
    }
}

/// Every point of the ring is met on the clockwise walk.
pub proof fn lemma_walk_covers<N: ?Sized>(s: Seq<VirtualNode<N>>, h: u64, j: int)
    requires
        0 <= j < s.len(),
    ensures
        clockwise_walk(s, h).contains(s[j]),
{
    lemma_first_at_or_after(s, h);
    let f = first_at_or_after(s, h) as int;
    let len = s.len() as int;
    let k = if f == len {
        j
    } else if j >= f {
        j - f
    } else {
        len - f + j
    };
    if f == len {
        lemma_mod_add_multiples_vanish(j, len);
        lemma_small_mod(j as nat, len as nat);
    } else if j >= f {
        lemma_small_mod(j as nat, len as nat);
    } else {
        lemma_mod_add_multiples_vanish(j, len);
        lemma_small_mod(j as nat, len as nat);
    }
    assert(clockwise_walk(s, h)[k] == s[j]);
}

/// The preference list of a key holds at most `replication_factor` points,
/// each a point of the ring and no two of the same node; when the ring has
/// at least `replication_factor` distinct nodes it holds exactly that many.
pub proof fn lemma_preference_list<'a, H: RingHasher, N: ?Sized + Node<'a>>(
    ring: HashRing<'a, H, N>,
    key: Seq<u8>,
)
    requires
        ring.wf(),
    ensures
        ring.preference_of(key).len() <= ring.replication_factor(),
        distinct_ids(ring.preference_of(key)),
        forall|j: int|
            0 <= j < ring.preference_of(key).len() ==> ring.points().contains(
                #[trigger] ring.preference_of(key)[j],
            ),
        ring_ids(ring.points()).len() >= ring.replication_factor() ==> ring.preference_of(key).len()
            == ring.replication_factor(),
{
    let s = ring.points();
    let h = ring.key_hash(key);
    let n = ring.replication_factor();
    let walk = clockwise_walk(s, h);
    let r = ring.preference_of(key);
    lemma_first_at_or_after(s, h);
    lemma_gather(walk, Seq::empty(), n);
    assert forall|j: int| 0 <= j < r.len() implies ring.points().contains(#[trigger] r[j]) by {
        assert(r.contains(r[j]));
        assert(walk.contains(r[j]));
        let k = choose|k: int| 0 <= k < walk.len() && walk[k] == r[j];
        let i = (first_at_or_after(s, h) + k) % (s.len() as int);
        assert(s[i] == r[j]);
    }
    if ring_ids(s).len() >= n && r.len() < n {
        let rid = r.map_values(|e: VirtualNode<N>| e.id@);
        assert(rid.no_duplicates());
        rid.unique_seq_to_set();
        seq_to_set_is_finite(rid);
        assert forall|id: Seq<char>| ring_ids(s).contains(id) implies rid.to_set().contains(id) by {
            let sid = s.map_values(|e: VirtualNode<N>| e.id@);
            let j = choose|j: int| 0 <= j < sid.len() && #[trigger] sid[j] == id;
            lemma_walk_covers(s, h, j);
            let k = choose|k: int| 0 <= k < walk.len() && walk[k] == s[j];
            assert(holds_id(r, walk[k].id@));
            let q = choose|q: int| 0 <= q < r.len() && r[q].id@ == id;
            assert(rid[q] == id);
        }
        lemma_len_subset(ring_ids(s), rid.to_set());
    }
}

/// Counting the points of a node over the one-point sequence `seq![x]`.
proof fn lemma_count_single<N: ?Sized>(x: VirtualNode<N>, id: Seq<char>)
    ensures
        replica_count(seq![x], id) == if x.id@ == id { 1nat } else { 0nat },
{
    let pred = of_node::<N>(id);
    let empty = Seq::<VirtualNode<N>>::empty();
    empty.filter_lemma(pred);
    assert(empty.filter(pred).len() == 0);
    empty.lemma_filter_push(x, pred);
    assert(seq![x] =~= empty.push(x));
    assert(replica_count(seq![x], id) == empty.push(x).filter(pred).len());
    if x.id@ == id {
        assert(empty.push(x).filter(pred) == empty.filter(pred).push(x));
    } else {
        assert(empty.push(x).filter(pred) == empty.filter(pred));
    }
}

/// Replacing a point of another node by one of `id` adds one to its count.
proof fn lemma_count_update<N: ?Sized>(s: Seq<VirtualNode<N>>, i: int, e: VirtualNode<N>, id: Seq<char>)
    requires
        0 <= i < s.len(),
        s[i].id@ != id,
        e.id@ == id,
    ensures
        replica_count(s.update(i, e), id) == replica_count(s, id) + 1,
{
    let pred = of_node::<N>(id);
    let a = s.subrange(0, i);
    let b = s.subrange(i + 1, s.len() as int);
    assert(s.update(i, e) =~= a + seq![e] + b);
    assert(s =~= a + seq![s[i]] + b);
    Seq::filter_distributes_over_add(a, seq![e], pred);
    Seq::filter_distributes_over_add(a + seq![e], b, pred);
    Seq::filter_distributes_over_add(a, seq![s[i]], pred);
    Seq::filter_distributes_over_add(a + seq![s[i]], b, pred);
    lemma_count_single(e, id);
    lemma_count_single(s[i], id);
}

/// Inserting a point of `id` adds one to its count.
proof fn lemma_count_insert<N: ?Sized>(s: Seq<VirtualNode<N>>, i: int, e: VirtualNode<N>, id: Seq<char>)
    requires
        0 <= i <= s.len(),
        e.id@ == id,
    ensures
        replica_count(s.insert(i, e), id) == replica_count(s, id) + 1,
{
    let pred = of_node::<N>(id);
    let a = s.subrange(0, i);
    let b = s.subrange(i, s.len() as int);
    assert(s.insert(i, e) =~= a + seq![e] + b);
    assert(s =~= a + b);
    Seq::filter_distributes_over_add(a, seq![e], pred);
    Seq::filter_distributes_over_add(a + seq![e], b, pred);
    Seq::filter_distributes_over_add(a, b, pred);
    lemma_count_single(e, id);
}

/// Placing `k` replicas of a node with pairwise distinct positions on a
/// ring without points of that node gives it exactly `k` points.
pub proof fn lemma_insert_replicas_count<H: RingHasher, N: ?Sized>(
    s: Seq<VirtualNode<N>>,
    hasher: H,
    id: String,
    node: Arc<N>,
    k: nat,
)
    requires
        is_ascending(s),
        !holds_id(s, id@),
        forall|a: nat, b: nat| a < b < k ==> replica_hash(hasher, id@, a) != replica_hash(hasher, id@, b),
    ensures
        replica_count(insert_replicas(s, hasher, id, node, k), id@) == k,
    decreases k,
{
    if k == 0 {
        s.lemma_all_neg_filter_empty(of_node::<N>(id@));
    } else {
        let prev = insert_replicas(s, hasher, id, node, (k - 1) as nat);
        let h = replica_hash(hasher, id@, (k - 1) as nat);
        let e = VirtualNode { hash: h, id, node };
        lemma_insert_replicas_count(s, hasher, id, node, (k - 1) as nat);
        lemma_insert_replicas_elements(s, hasher, id, node, (k - 1) as nat);
        let i = first_at_or_after(prev, h) as int;
        lemma_first_at_or_after(prev, h);
        if i < prev.len() && prev[i].hash == h {
            assert(prev.contains(prev[i]));
            if prev[i].id@ == id@ {
                if s.contains(prev[i]) {
                    let j = choose|j: int| 0 <= j < s.len() && s[j] == prev[i];
                    assert(holds_id(s, id@));
                } else {
                    let q = choose|q: nat| q < k - 1 && prev[i].hash == replica_hash(hasher, id@, q);
                    assert(replica_hash(hasher, id@, q) != replica_hash(hasher, id@, (k - 1) as nat));
                }
            }
            lemma_count_update(prev, i, e, id@);
        } else {
            lemma_count_insert(prev, i, e, id@);
        }
    }
}

/// Right after a node is added, and when its replica positions are pairwise
/// distinct, it owns exactly `replication_factor` points of the ring.
pub proof fn lemma_replica_count_after_add<'a, H: RingHasher, N: ?Sized + Node<'a>>(
    old: HashRing<'a, H, N>,
    new: HashRing<'a, H, N>,
    id: Seq<char>,
    node: Arc<N>,
    r: Result<Arc<N>, RingError>,
)
    requires
        old.wf(),
        HashRing::added(old, new, id, node, r),
        r is Ok,
        forall|a: nat, b: nat|
            a < b < old.replication_factor() ==> replica_hash(old.hasher(), id, a) != replica_hash(
                old.hasher(),
                id,
                b,
            ),
    ensures
        holds_id(new.points(), id),
        replica_count(new.points(), id) == old.replication_factor(),
{
    let s = old.points();
    let name = new.members().last().id;
    if holds_id(s, id) {
        let j = choose|j: int| 0 <= j < s.len() && s[j].id@ == id;
        assert(registered(old.members(), s[j]));
        assert(has_member(old.members(), id));
    }
    lemma_insert_replicas_count(s, old.hasher(), name, node, old.replication_factor());
    lemma_added_ring_has_points(old, new, id, node, r);
    lemma_insert_replicas_elements(s, old.hasher(), name, node, old.replication_factor());
    let e = VirtualNode {
        hash: replica_hash(old.hasher(), name@, (old.replication_factor() - 1) as nat),
        id: name,
        node,
    };
    assert(new.points().contains(e));
}

/// Lookups depend on nothing but the points of the ring, its hasher and its
/// replication factor: rings that agree on those give every key the same
/// owner and the same preference list, so asking twice gives the same answer.
pub proof fn lemma_lookups_are_deterministic<'a, H: RingHasher, N: ?Sized + Node<'a>>(
    a: HashRing<'a, H, N>,
    b: HashRing<'a, H, N>,
    key: Seq<u8>,
)
    requires
        a.points() == b.points(),
        a.hasher() == b.hasher(),
        a.replication_factor() == b.replication_factor(),
    ensures
        a.owner_of(key) == b.owner_of(key),
        a.preference_of(key) == b.preference_of(key),
{
}

} // verus!
