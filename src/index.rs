use std::sync::Arc;
use vstd::arithmetic::div_mod::{lemma_mod_add_multiples_vanish, lemma_small_mod};
use vstd::prelude::*;

verus! {

/// One point of the ring: a replica of the node `id` at position `hash`.
pub struct VirtualNode<N: ?Sized> {
    pub hash: u64,
    pub id: String,
    pub node: Arc<N>,
}

impl<N: ?Sized> VirtualNode<N> {
    /// A second handle on the same point.
    pub fn duplicate(&self) -> (r: Self)
        ensures
            r == *self,
    {
        VirtualNode { hash: self.hash, id: self.id.clone(), node: self.node.clone() }
    }
}

/// Points are kept in strictly ascending order of position, so no two
/// share a position.
pub open spec fn is_ascending<N: ?Sized>(s: Seq<VirtualNode<N>>) -> bool {
    forall|i: int, j: int| 0 <= i < j < s.len() ==> s[i].hash < s[j].hash
}

/// Index of the first point whose position is at or after `h`; the length
/// of `s` when there is none.
pub open spec fn first_at_or_after<N: ?Sized>(s: Seq<VirtualNode<N>>, h: u64) -> nat
    decreases s.len(),
{
    if s.len() == 0 {
        0
    } else if s[0].hash >= h {
        0
    } else {
        1 + first_at_or_after(s.drop_first(), h)
    }
}

/// Index of the point that owns position `h`: the first one at or after
/// `h`, wrapping round to the first point of the ring when `h` lies past
/// the last one.
pub open spec fn clockwise_index<N: ?Sized>(s: Seq<VirtualNode<N>>, h: u64) -> int {
    if first_at_or_after(s, h) < s.len() {
        first_at_or_after(s, h) as int
    } else {
        0
    }
}

/// `s` with `e` placed at its position; a point already at that position is
/// replaced.
pub open spec fn index_insert<N: ?Sized>(s: Seq<VirtualNode<N>>, e: VirtualNode<N>) -> Seq<
    VirtualNode<N>,
> {
    let i = first_at_or_after(s, e.hash) as int;
    if i < s.len() && s[i].hash == e.hash {
        s.update(i, e)
    } else {
        s.insert(i, e)
    }
}

/// `s` without the point at position `h`, if there is one.
pub open spec fn index_remove<N: ?Sized>(s: Seq<VirtualNode<N>>, h: u64) -> Seq<VirtualNode<N>> {
    let i = first_at_or_after(s, h) as int;
    if i < s.len() && s[i].hash == h {
        s.remove(i)
    } else {
        s
    }
}

/// Whether some point of `s` belongs to the node `id`.
pub open spec fn holds_id<N: ?Sized>(s: Seq<VirtualNode<N>>, id: Seq<char>) -> bool {
    exists|j: int| 0 <= j < s.len() && s[j].id@ == id
}

/// The ids of the nodes that own some point of `s`.
pub open spec fn ring_ids<N: ?Sized>(s: Seq<VirtualNode<N>>) -> Set<Seq<char>> {
    s.map_values(|e: VirtualNode<N>| e.id@).to_set()
}

/// The points of `s` in clockwise order, starting at the owner of `h` and
/// going once round the ring.
pub open spec fn clockwise_walk<N: ?Sized>(s: Seq<VirtualNode<N>>, h: u64) -> Seq<VirtualNode<N>> {
    Seq::new(s.len(), |k: int| s[(first_at_or_after(s, h) + k) % (s.len() as int)])
}

/// Walks `walk` and appends to `acc` each point whose node is not yet in
/// it, until `acc` holds `n` points.
pub open spec fn gather<N: ?Sized>(
    walk: Seq<VirtualNode<N>>,
    acc: Seq<VirtualNode<N>>,
    n: nat,
) -> Seq<VirtualNode<N>>
    decreases walk.len(),
{
    if walk.len() == 0 || acc.len() >= n {
        acc
    } else if holds_id(acc, walk[0].id@) {
        gather(walk.drop_first(), acc, n)
    } else {
        gather(walk.drop_first(), acc.push(walk[0]), n)
    }
}

/// The first `n` distinct nodes met going clockwise from `h`, one point each.
pub open spec fn preference<N: ?Sized>(s: Seq<VirtualNode<N>>, h: u64, n: nat) -> Seq<
    VirtualNode<N>,
> {
    gather(clockwise_walk(s, h), Seq::empty(), n)
}

/// Whether a point belongs to the node `id`.
pub open spec fn of_node<N: ?Sized>(id: Seq<char>) -> spec_fn(VirtualNode<N>) -> bool {
    |e: VirtualNode<N>| e.id@ == id
}

/// The number of points of `s` that belong to the node `id`.
pub open spec fn replica_count<N: ?Sized>(s: Seq<VirtualNode<N>>, id: Seq<char>) -> nat {
    s.filter(of_node(id)).len()
}

/// `first_at_or_after` is the boundary between the points before `h` and
/// those at or after it.
pub proof fn lemma_first_at_or_after<N: ?Sized>(s: Seq<VirtualNode<N>>, h: u64)
    ensures
        first_at_or_after(s, h) <= s.len(),
        forall|j: int| 0 <= j < first_at_or_after(s, h) ==> s[j].hash < h,
        first_at_or_after(s, h) < s.len() ==> s[first_at_or_after(s, h) as int].hash >= h,
    decreases s.len(),
{
    if s.len() > 0 && s[0].hash < h {
        lemma_first_at_or_after(s.drop_first(), h);
        assert forall|j: int| 0 <= j < first_at_or_after(s, h) implies s[j].hash < h by {
            if j > 0 {
                assert(s[j] == s.drop_first()[j - 1]);
            }
        }
    }
}

/// Any boundary of that shape is `first_at_or_after`.
pub proof fn lemma_first_at_or_after_is<N: ?Sized>(s: Seq<VirtualNode<N>>, h: u64, i: int)
    requires
        0 <= i <= s.len(),
        forall|j: int| 0 <= j < i ==> s[j].hash < h,
        i < s.len() ==> s[i].hash >= h,
    ensures
        first_at_or_after(s, h) == i,
    decreases i,
{
    if i > 0 {
        assert forall|j: int| 0 <= j < i - 1 implies s.drop_first()[j].hash < h by {
            assert(s.drop_first()[j] == s[j + 1]);
        }
        lemma_first_at_or_after_is(s.drop_first(), h, i - 1);
    }
}

/// Placing a point keeps the ring ascending; afterwards the ring holds the
/// new point, the old points at other positions, and nothing else.
pub proof fn lemma_insert_elements<N: ?Sized>(s: Seq<VirtualNode<N>>, e: VirtualNode<N>)
    requires
        is_ascending(s),
    ensures
        is_ascending(index_insert(s, e)),
        index_insert(s, e).contains(e),
        forall|x: VirtualNode<N>| #[trigger]
            index_insert(s, e).contains(x) ==> x == e || s.contains(x),
        forall|x: VirtualNode<N>|
            s.contains(x) && x.hash != e.hash ==> #[trigger] index_insert(s, e).contains(x),
{
    lemma_first_at_or_after(s, e.hash);
    let i = first_at_or_after(s, e.hash) as int;
    let t = index_insert(s, e);
    assert(t[i] == e);
    assert forall|x: VirtualNode<N>| #[trigger] t.contains(x) implies x == e || s.contains(x) by {
        let j = choose|j: int| 0 <= j < t.len() && t[j] == x;
        if i < s.len() && s[i].hash == e.hash {
            if j != i {
                assert(s[j] == x);
            }
        } else {
            if j < i {
                assert(s[j] == x);
            } else if j > i {
                assert(s[j - 1] == x);
            }
        }
    }
    assert forall|x: VirtualNode<N>| s.contains(x) && x.hash != e.hash implies #[trigger] t.contains(x) by {
        let j = choose|j: int| 0 <= j < s.len() && s[j] == x;
        if i < s.len() && s[i].hash == e.hash {
            assert(j != i);
            assert(t[j] == x);
        } else {
            if j < i {
                assert(t[j] == x);
            } else {
                assert(t[j + 1] == x);
            }
        }
    }
}

/// Taking the point at `h` off keeps the ring ascending and removes exactly
/// the point at that position.
pub proof fn lemma_remove_elements<N: ?Sized>(s: Seq<VirtualNode<N>>, h: u64)
    requires
        is_ascending(s),
    ensures
        is_ascending(index_remove(s, h)),
        forall|x: VirtualNode<N>| #[trigger]
            index_remove(s, h).contains(x) <==> s.contains(x) && x.hash != h,
{
    lemma_first_at_or_after(s, h);
    let i = first_at_or_after(s, h) as int;
    let t = index_remove(s, h);
    assert forall|x: VirtualNode<N>| #[trigger] t.contains(x) <==> s.contains(x) && x.hash != h by {
        if t.contains(x) {
            let j = choose|j: int| 0 <= j < t.len() && t[j] == x;
            if i < s.len() && s[i].hash == h {
                if j < i {
                    assert(s[j] == x);
                } else {
                    assert(s[j + 1] == x);
                }
            } else {
                assert(s[j] == x);
            }
        }
        if s.contains(x) && x.hash != h {
            let j = choose|j: int| 0 <= j < s.len() && s[j] == x;
            if i < s.len() && s[i].hash == h {
                assert(j != i);
                if j < i {
                    assert(t[j] == x);
                } else {
                    assert(t[j - 1] == x);
                }
            } else {
                assert(t[j] == x);
            }
        }
    }
}

/// Index of the first point of `v` at or after `h`, by binary search.
pub fn lower_bound<N: ?Sized>(v: &Vec<VirtualNode<N>>, h: u64) -> (r: usize)
    requires
        is_ascending(v@),
    ensures
        r == first_at_or_after(v@, h),
{
    let mut lo: usize = 0;
    let mut hi: usize = v.len();
    while lo < hi
        invariant
            0 <= lo <= hi <= v@.len(),
            is_ascending(v@),
            forall|j: int| 0 <= j < lo ==> v@[j].hash < h,
            forall|j: int| hi <= j < v@.len() ==> v@[j].hash >= h,
        decreases hi - lo,
    {
        let mid = lo + (hi - lo) / 2;
        if v[mid].hash < h {
            lo = mid + 1;
        } else {
            hi = mid;
        }
    }
    proof {
        lemma_first_at_or_after_is(v@, h, lo as int);
    }
    lo
}

/// Index of the point that owns position `h`.
pub fn clockwise<N: ?Sized>(v: &Vec<VirtualNode<N>>, h: u64) -> (r: usize)
    requires
        is_ascending(v@),
        v@.len() > 0,
    ensures
        r == clockwise_index(v@, h),
        r < v@.len(),
{
    let i = lower_bound(v, h);
    if i < v.len() {
        i
    } else {
        0
    }
}

/// Places `e` on the ring held by `v`, replacing a point at the same position.
pub fn insert_point<N: ?Sized>(v: &mut Vec<VirtualNode<N>>, e: VirtualNode<N>)
    requires
        is_ascending(old(v)@),
    ensures
        final(v)@ == index_insert(old(v)@, e),
        is_ascending(final(v)@),
{
    let i = lower_bound(v, e.hash);
    proof {
        lemma_first_at_or_after(old(v)@, e.hash);
    }
    if i < v.len() && v[i].hash == e.hash {
        v[i] = e;
    } else {
        v.insert(i, e);
    }
}

/// Takes the point at position `h` off the ring held by `v`, if there is one.
pub fn remove_point<N: ?Sized>(v: &mut Vec<VirtualNode<N>>, h: u64)
    requires
        is_ascending(old(v)@),
    ensures
        final(v)@ == index_remove(old(v)@, h),
        is_ascending(final(v)@),
{
    let i = lower_bound(v, h);
    if i < v.len() && v[i].hash == h {
        v.remove(i);
    }
}

/// Position in `v` of the point met `k` steps clockwise after position `start`.
fn step_index(start: usize, k: usize, len: usize) -> (r: usize)
    requires
        start <= len,
        k < len,
    ensures
        r as int == (start + k) % (len as int),
        r < len,
{
    proof {
        if start + k < len {
            lemma_small_mod((start + k) as nat, len as nat);
        } else {
            lemma_mod_add_multiples_vanish(start + k - len, len as int);
            lemma_small_mod((start + k - len) as nat, len as nat);
        }
    }
    if k < len - start {
        start + k
    } else {
        k - (len - start)
    }
}

/// Whether one of the points of `v` at the positions `chosen` belongs to the
/// node `id`.
fn chosen_holds<N: ?Sized>(v: &Vec<VirtualNode<N>>, chosen: &Vec<usize>, id: &String) -> (r: bool)
    requires
        forall|j: int| 0 <= j < chosen@.len() ==> chosen@[j] < v@.len(),
    ensures
        r == holds_id(chosen@.map_values(|p: usize| v@[p as int]), id@),
{
    let ghost acc = chosen@.map_values(|p: usize| v@[p as int]);
    let mut j: usize = 0;
    while j < chosen.len()
        invariant
            j <= chosen@.len(),
            acc == chosen@.map_values(|p: usize| v@[p as int]),
            forall|q: int| 0 <= q < chosen@.len() ==> chosen@[q] < v@.len(),
            forall|q: int| 0 <= q < j ==> acc[q].id@ != id@,
        decreases chosen@.len() - j,
    {
        if v[chosen[j]].id == *id {
            assert(acc[j as int].id@ == id@);
            return true;
        }
        j += 1;
    }
    false
}

/// The handles of the first `n` distinct nodes met going clockwise from `h`.
pub fn preference_nodes<N: ?Sized>(v: &Vec<VirtualNode<N>>, h: u64, n: usize) -> (r: Vec<Arc<N>>)
    requires
        is_ascending(v@),
        n > 0,
    ensures
        r@ == preference(v@, h, n as nat).map_values(|e: VirtualNode<N>| e.node),
{
    let len = v.len();
    let ghost walk = clockwise_walk(v@, h);
    let mut out: Vec<Arc<N>> = Vec::new();
    if len == 0 {
        proof {
            assert(out@ =~= preference(v@, h, n as nat).map_values(|e: VirtualNode<N>| e.node));
        }
        return out;
    }
    let start = lower_bound(v, h);
    proof {
        lemma_first_at_or_after(v@, h);
        assert(walk.subrange(0, len as int) =~= walk);
    }
    let mut chosen: Vec<usize> = Vec::new();
    let ghost mut acc: Seq<VirtualNode<N>> = Seq::empty();
    let mut k: usize = 0;
    while k < len
        invariant_except_break
            acc.len() < n,
        invariant
            len == v@.len(),
            len > 0,
            start as int == first_at_or_after(v@, h),
            start <= len,
            k <= len,
            walk == clockwise_walk(v@, h),
            gather(walk.subrange(k as int, len as int), acc, n as nat) == preference(v@, h, n as nat),
            acc == chosen@.map_values(|p: usize| v@[p as int]),
            forall|j: int| 0 <= j < chosen@.len() ==> chosen@[j] < v@.len(),
            out@ == acc.map_values(|e: VirtualNode<N>| e.node),
        ensures
            acc == preference(v@, h, n as nat),
            out@ == acc.map_values(|e: VirtualNode<N>| e.node),
        decreases len - k,
    {
        let idx = step_index(start, k, len);
        let ghost rest = walk.subrange(k as int, len as int);
        proof {
            assert(rest[0] == v@[idx as int]);
            assert(rest.drop_first() =~= walk.subrange(k + 1, len as int));
        }
        let seen = chosen_holds(v, &chosen, &v[idx].id);
        if !seen {
            chosen.push(idx);
            out.push(v[idx].node.clone());
            proof {
                acc = acc.push(v@[idx as int]);
                assert(acc =~= chosen@.map_values(|p: usize| v@[p as int]));
                assert(out@ =~= acc.map_values(|e: VirtualNode<N>| e.node));
            }
            if out.len() >= n {
                proof {
                    let rest2 = walk.subrange(k + 1, len as int);
                    assert(gather(rest2, acc, n as nat) == acc);
                }
                break;
            }
        }
        k += 1;
    }
    proof {
        if k == len {
            assert(walk.subrange(k as int, len as int).len() == 0);
        }
    }
    out
}

} // verus!
