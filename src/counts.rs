use crate::index::{holds_id, of_node, replica_count, ring_ids, VirtualNode};
use vstd::prelude::*;

verus! {

/// How many points of the ring each node owns, keyed by node id.
pub struct NodeCounts {
    ids: Vec<String>,
    counts: Vec<usize>,
}

impl NodeCounts {
    /// Ids and counts line up, and no id is listed twice.
    pub closed spec fn wf(&self) -> bool {
        &&& self.ids@.len() == self.counts@.len()
        &&& forall|i: int, j: int|
            0 <= i < j < self.ids@.len() ==> self.ids@[i]@ != self.ids@[j]@
    }

    /// The ids that have a count.
    pub closed spec fn has(&self, id: Seq<char>) -> bool {
        exists|i: int| 0 <= i < self.ids@.len() && self.ids@[i]@ == id
    }

    /// The count of `id`; meaningful where `has(id)`.
    pub closed spec fn count(&self, id: Seq<char>) -> nat {
        self.counts@[choose|i: int| 0 <= i < self.ids@.len() && self.ids@[i]@ == id] as nat
    }

    /// The number of nodes that have a count.
    pub closed spec fn spec_len(&self) -> nat {
        self.ids@.len()
    }

    /// The count of `id` as a map lookup.
    pub open spec fn spec_get(&self, id: Seq<char>) -> Option<nat> {
        if self.has(id) {
            Some(self.count(id))
        } else {
            None
        }
    }

    proof fn lemma_count_at(&self, i: int)
        requires
            self.wf(),
            0 <= i < self.ids@.len(),
        ensures
            self.has(self.ids@[i]@),
            self.count(self.ids@[i]@) == self.counts@[i],
    {
        let id = self.ids@[i]@;
        assert(0 <= i < self.ids@.len() && self.ids@[i]@ == id);
        let c = choose|c: int| 0 <= c < self.ids@.len() && self.ids@[c]@ == id;
        assert(c == i);
    }

    /// Counts the points of `s` per node.
    pub fn tally<N: ?Sized>(s: &Vec<VirtualNode<N>>) -> (r: NodeCounts)
        ensures
            r.wf(),
            forall|id: Seq<char>| #[trigger] r.has(id) <==> holds_id(s@, id),
            forall|id: Seq<char>| r.has(id) ==> #[trigger] r.count(id) == replica_count(s@, id),
            r.spec_len() == ring_ids(s@).len(),
    {
        let mut r = NodeCounts { ids: Vec::new(), counts: Vec::new() };
        let mut k: usize = 0;
        while k < s.len()
            invariant
                k <= s@.len(),
                r.wf(),
                forall|i: int| 0 <= i < r.ids@.len() ==> holds_id(s@.subrange(0, k as int), #[trigger] r.ids@[i]@),
                forall|j: int| 0 <= j < k ==> #[trigger] r.has(s@[j].id@),
                forall|i: int| 0 <= i < r.ids@.len() ==> #[trigger] r.counts@[i] == replica_count(s@.subrange(0, k as int), r.ids@[i]@),
                forall|i: int| 0 <= i < r.ids@.len() ==> #[trigger] r.counts@[i] <= k,
            decreases s@.len() - k,
        {
            let ghost old_r = r;
            let ghost pre = s@.subrange(0, k as int);
            let ghost post = s@.subrange(0, k + 1);
            let e = &s[k];
            proof {
                assert(post =~= pre.push(s@[k as int]));
                pre.lemma_filter_push(s@[k as int], of_node(e.id@));
                assert forall|id: Seq<char>| id != e.id@ implies replica_count(post, id) == replica_count(pre, id) by {
                    pre.lemma_filter_push(s@[k as int], of_node(id));
                }
            }
            let mut i: usize = 0;
            let mut found = false;
            while i < r.ids.len()
                invariant_except_break
                    !found,
                invariant
                    i <= r.ids@.len(),
                    r.ids@.len() == r.counts@.len(),
                    forall|q: int| 0 <= q < i ==> r.ids@[q]@ != e.id@,
                ensures
                    found ==> i < r.ids@.len() && r.ids@[i as int]@ == e.id@,
                    !found ==> i == r.ids@.len(),
                decreases r.ids@.len() - i,
            {
                if r.ids[i] == e.id {
                    found = true;
                    break;
                }
                i += 1;
            }
            if found {
                let c = r.counts[i];
                assert(c <= k);
                r.counts.set(i, c + 1);
            } else {
                r.ids.push(e.id.clone());
                r.counts.push(1);
            }
            k += 1;
            proof {
                assert(post == s@.subrange(0, k as int));
                assert forall|i2: int| 0 <= i2 < r.ids@.len() implies holds_id(post, #[trigger] r.ids@[i2]@) by {
                    if i2 < old_r.ids@.len() {
                        let j = choose|j: int| 0 <= j < pre.len() && pre[j].id@ == old_r.ids@[i2]@;
                        assert(post[j] == pre[j]);
                    } else {
                        assert(post[k - 1].id@ == r.ids@[i2]@);
                    }
                }
                assert forall|j: int| 0 <= j < k implies #[trigger] r.has(s@[j].id@) by {
                    if j < k - 1 {
                        assert(old_r.has(s@[j].id@));
                        let q = choose|q: int| 0 <= q < old_r.ids@.len() && old_r.ids@[q]@ == s@[j].id@;
                        assert(r.ids@[q] == old_r.ids@[q]);
                    } else if found {
                        assert(r.ids@[i as int]@ == s@[j].id@);
                    } else {
                        assert(r.ids@[old_r.ids@.len() as int]@ == s@[j].id@);
                    }
                }
                if !found {
                    assert forall|j: int| 0 <= j < pre.len() implies pre[j].id@ != e.id@ by {
                        assert(old_r.has(s@[j].id@));
                    }
                    pre.lemma_all_neg_filter_empty(of_node(e.id@));
                }
                assert forall|i2: int| 0 <= i2 < r.ids@.len() implies #[trigger] r.counts@[i2] == replica_count(post, r.ids@[i2]@) by {
                    if i2 < old_r.ids@.len() && !(found && i2 == i) {
                        if found {
                            assert(old_r.ids@[i as int]@ == e.id@);
                        }
                        assert(old_r.ids@[i2]@ != e.id@);
                    }
                }
            }
        }
        proof {
            assert(s@.subrange(0, k as int) =~= s@);
            assert forall|id: Seq<char>| #[trigger] r.has(id) <==> holds_id(s@, id) by {
                if holds_id(s@, id) {
                    let j = choose|j: int| 0 <= j < s@.len() && s@[j].id@ == id;
                    assert(r.has(s@[j].id@));
                }
                if r.has(id) {
                    let q = choose|q: int| 0 <= q < r.ids@.len() && r.ids@[q]@ == id;
                    assert(holds_id(s@.subrange(0, k as int), r.ids@[q]@));
                }
            }
            assert forall|id: Seq<char>| r.has(id) implies #[trigger] r.count(id) == replica_count(s@, id) by {
                let q = choose|q: int| 0 <= q < r.ids@.len() && r.ids@[q]@ == id;
                r.lemma_count_at(q);
            }
            let listed = r.ids@.map_values(|x: String| x@);
            assert forall|a: int, b: int| 0 <= a < listed.len() && 0 <= b < listed.len() && a != b implies listed[a] != listed[b] by {
                if a < b {
                    assert(r.ids@[a]@ != r.ids@[b]@);
                } else {
                    assert(r.ids@[b]@ != r.ids@[a]@);
                }
            }
            listed.unique_seq_to_set();
            assert forall|id: Seq<char>| listed.to_set().contains(id) <==> ring_ids(s@).contains(id) by {
                if listed.to_set().contains(id) {
                    let q = choose|q: int| 0 <= q < listed.len() && listed[q] == id;
                    assert(r.has(id));
                    let j = choose|j: int| 0 <= j < s@.len() && s@[j].id@ == id;
                    assert(s@.map_values(|e: VirtualNode<N>| e.id@)[j] == id);
                }
                if ring_ids(s@).contains(id) {
                    let ids_seq = s@.map_values(|e: VirtualNode<N>| e.id@);
                    let j = choose|j: int| 0 <= j < ids_seq.len() && #[trigger] ids_seq[j] == id;
                    assert(s@[j].id@ == id);
                    assert(r.has(s@[j].id@));
                    let q = choose|q: int| 0 <= q < r.ids@.len() && r.ids@[q]@ == id;
                    assert(listed[q] == id);
                }
            }
            assert(listed.to_set() =~= ring_ids(s@));
        }
        r
    }

    /// The count of `id`, if some point of the ring belongs to it.
    pub fn get(&self, id: &str) -> (r: Option<&usize>)
        requires
            self.wf(),
        ensures
            r matches Some(c) ==> self.spec_get(id@) == Some(*c as nat),
            r is None ==> self.spec_get(id@) is None,
    {
        let key = id.to_owned();
        let mut i: usize = 0;
        while i < self.ids.len()
            invariant
                i <= self.ids@.len(),
                self.wf(),
                key@ == id@,
                forall|q: int| 0 <= q < i ==> self.ids@[q]@ != id@,
            decreases self.ids@.len() - i,
        {
            if self.ids[i] == key {
                proof {
                    self.lemma_count_at(i as int);
                }
                return Some(&self.counts[i]);
            }
            i += 1;
        }
        None
    }

    /// The number of nodes that have a count.
    pub fn len(&self) -> (r: usize)
        requires
            self.wf(),
        ensures
            r == self.spec_len(),
    {
        self.ids.len()
    }
}

} // verus!
