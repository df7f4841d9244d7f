//! A bounded key-value cache with least-recently-used eviction.
//!
//! The cache pairs a hash index (key to arena slot) with a recency
//! list (a doubly-linked chain of arena slots ordered from most- to
//! least-recently used). Every operation keeps the two structures
//! consistent; insertion past capacity evicts from the tail.

mod list;

use vstd::prelude::*;

verus! {

use crate::list::RecencyList;

/// The recency order after a key already present is touched: the key
/// moves to the front of the order; nothing else changes.
pub open spec fn touch(ord: Seq<u64>, k: u64) -> Seq<u64> {
    seq![k] + ord.remove_value(k)
}

/// The recency order after a key not yet present is inserted into a
/// cache with capacity `max`: the key enters at the front, and when the
/// bound would be exceeded the least-recently-used key falls off the
/// tail.
pub open spec fn push_fresh(ord: Seq<u64>, k: u64, max: usize) -> Seq<u64> {
    let grown = seq![k] + ord;
    if max == 0 || grown.len() <= max {
        grown
    } else {
        grown.drop_last()
    }
}

/// On a sequence without duplicates, removing a value by name is the
/// same as removing the position it stands at.
proof fn lemma_remove_value_at(s: Seq<u64>, j: int)
    requires
        s.no_duplicates(),
        0 <= j < s.len(),
    ensures
        s.remove_value(s[j]) == s.remove(j),
{
    assert(s.contains(s[j]));
    s.index_of_first_ensures(s[j]);
    let m = s.index_of_first(s[j]).unwrap();
    assert(m == j);
}

/// A key-value cache bounded to `max_size` entries (`0` meaning
/// unbounded), evicting the least-recently-used entry when full.
pub struct LruHashMap {
    max_size: usize,
    index: std::collections::HashMap<u64, usize>,
    list: RecencyList,
}

impl LruHashMap {
    /// The hash index and the recency list describe exactly the same
    /// set of live entries: every chain position's key is indexed to
    /// that very slot, and every indexed key stands somewhere in the
    /// chain.
    spec fn index_consistent(self) -> bool {
        &&& self.list.keys().no_duplicates()
        &&& forall|j: int| #![trigger self.list.keys()[j]]
            0 <= j < self.list.chain@.len() ==> self.index@.contains_key(self.list.keys()[j])
                && self.index@[self.list.keys()[j]] == self.list.chain@[j]
        &&& forall|k: u64| #[trigger]
            self.index@.contains_key(k) ==> exists|j: int|
                0 <= j < self.list.chain@.len() && self.list.keys()[j] == k
    }

    /// Internal consistency: the recency list is well formed, the hash
    /// index and the list describe exactly the same set of live
    /// entries, and the capacity bound holds.
    pub closed spec fn wf(self) -> bool {
        &&& self.list.wf()
        &&& self.index_consistent()
        &&& (self.max_size > 0 ==> self.list.chain@.len() <= self.max_size)
        &&& self.list.free@.len() <= 1
    }

    /// The keys currently cached, ordered from most- to least-recently
    /// used.
    pub closed spec fn order(self) -> Seq<u64> {
        self.list.keys()
    }

    /// The key-value pairs currently cached.
    pub closed spec fn contents(self) -> Map<u64, u64> {
        Map::new(
            |k: u64| self.index@.contains_key(k),
            |k: u64| self.list.slots@[self.index@[k] as int].value,
        )
    }

    /// The capacity bound this cache was created with (`0` = unbounded).
    pub closed spec fn capacity(self) -> usize {
        self.max_size
    }

    /// An empty cache with capacity `max_size` (`0` meaning unbounded).
    pub fn new(max_size: usize) -> (c: LruHashMap)
        ensures
            c.wf(),
            c.capacity() == max_size,
            c.order() == Seq::<u64>::empty(),
            c.contents() == Map::<u64, u64>::empty(),
    {
        let c = LruHashMap {
            max_size,
            index: std::collections::HashMap::new(),
            list: RecencyList::new(),
        };
        proof {
            assert(c.order() =~= Seq::<u64>::empty());
            assert(c.contents() =~= Map::<u64, u64>::empty());
        }
        c
    }

    /// The position in the recency order that a cached key stands at.
    spec fn pos_of(self, k: u64) -> int {
        choose|j: int| 0 <= j < self.list.chain@.len() && self.list.keys()[j] == k
    }

    /// A key known to the hash index stands at a unique position of the
    /// chain, and the index maps it to exactly that slot.
    proof fn lemma_key_position(self, k: u64)
        requires
            self.wf(),
            self.index@.contains_key(k),
        ensures
            0 <= self.pos_of(k) < self.list.chain@.len(),
            self.list.keys()[self.pos_of(k)] == k,
            self.index@[k] == self.list.chain@[self.pos_of(k)],
    {
        assert(exists|j: int| 0 <= j < self.list.chain@.len() && self.list.keys()[j] == k);
        let j = self.pos_of(k);
        assert(self.index@[self.list.keys()[j]] == self.list.chain@[j]);
    }

    /// The hash index and the recency list describe the same set of
    /// keys, so their sizes agree.
    proof fn lemma_index_parity(self)
        requires
            self.wf(),
        ensures
            self.index@.dom() == self.list.keys().to_set(),
            self.index@.len() == self.list.keys().len(),
            self.contents().dom() == self.index@.dom(),
            self.contents().len() == self.list.keys().len(),
    {
        let ks = self.list.keys();
        assert forall|k: u64| #[trigger] self.index@.contains_key(k) implies ks.to_set().contains(
            k,
        ) by {
            let j = choose|j: int| 0 <= j < self.list.chain@.len() && ks[j] == k;
            assert(ks[j] == k);
            assert(ks.contains(k));
        }
        assert forall|k: u64| #[trigger] ks.to_set().contains(k) implies self.index@.contains_key(
            k,
        ) by {
            let j = choose|j: int| 0 <= j < ks.len() && ks[j] == k;
            assert(self.index@.contains_key(ks[j]));
        }
        assert(self.index@.dom() =~= ks.to_set());
        ks.unique_seq_to_set();
        assert(self.contents().dom() =~= self.index@.dom());
    }

    /// The number of live entries: it equals the size of the hash index
    /// and the length of the recency order alike.
    pub fn len(&self) -> (n: usize)
        requires
            self.wf(),
        ensures
            n == self.contents().len(),
            n == self.order().len(),
    {
        proof {
            self.lemma_index_parity();
        }
        self.index.len()
    }

    /// Look a key up. On a hit the entry is marked most-recently used —
    /// the cache's one "reading" operation still reorders the recency
    /// list — and its value is returned; a miss changes nothing.
    #[verifier::rlimit(50)]
    pub fn get(&mut self, k: u64) -> (r: Option<u64>)
        requires
            old(self).wf(),
        ensures
            final(self).wf(),
            final(self).capacity() == old(self).capacity(),
            final(self).contents() == old(self).contents(),
            match r {
                Some(v) => {
                    &&& old(self).contents().contains_key(k)
                    &&& v == old(self).contents()[k]
                    &&& final(self).order() == touch(old(self).order(), k)
                },
                None => {
                    &&& !old(self).contents().contains_key(k)
                    &&& final(self).order() == old(self).order()
                },
            },
    {
        let found: Option<usize> = match self.index.get(&k) {
            Some(i) => Some(*i),
            None => None,
        };
        match found {
            None => None,
            Some(i) => {
                proof {
                    self.lemma_key_position(k);
                }
                let ghost j = self.pos_of(k);
                proof {
                    assert(self.list.chain@[j] == i);
                }
                self.list.move_to_front(i, Ghost(j));
                let v = self.list.value_at(i, Ghost(0));
                proof {
                    self.lemma_after_touch(*old(self), k, j);
                    assert(v == old(self).list.vals()[j]);
                    assert(v == old(self).contents()[k]);
                }
                Some(v)
            },
        }
    }

    /// After a hit on `k` (standing at position `j`) was moved to the
    /// front, the cache is well formed again, its contents are
    /// unchanged, and its order is the old order with `k` touched.
    #[verifier::spinoff_prover]
    #[verifier::rlimit(100)]
    proof fn lemma_after_touch(self, pre: LruHashMap, k: u64, j: int)
        requires
            pre.wf(),
            0 <= j < pre.list.chain@.len(),
            pre.list.keys()[j] == k,
            pre.index@.contains_key(k),
            self.index@ == pre.index@,
            self.max_size == pre.max_size,
            self.list.wf(),
            self.list.chain@ == seq![pre.list.chain@[j]] + pre.list.chain@.remove(j),
            self.list.keys() == seq![k] + pre.list.keys().remove(j),
            self.list.free@ == pre.list.free@,
            self.list.slots@.len() == pre.list.slots@.len(),
            forall|s: int|
                0 <= s < pre.list.slots@.len() ==> self.list.slots@[s].key
                    == pre.list.slots@[s].key && self.list.slots@[s].value
                    == pre.list.slots@[s].value,
        ensures
            self.wf(),
            self.contents() == pre.contents(),
            self.order() == touch(pre.order(), k),
    {
        let oc = pre.list.chain@;
        let ok = pre.list.keys();
        let nc = self.list.chain@;
        let nk = self.list.keys();
        let len = oc.len() as int;
        assert(nk.no_duplicates()) by {
            assert(forall|m: int| 1 <= m < j + 1 ==> nk[m] == ok[m - 1]);
            assert(forall|m: int| j + 1 <= m < len ==> nk[m] == ok[m]);
            assert(forall|m1: int, m2: int| 0 <= m1 < m2 < nk.len() ==> nk[m1] != nk[m2]);
        }
        assert forall|m: int| #![trigger nk[m]] 0 <= m < nc.len() implies self.index@.contains_key(
            nk[m],
        ) && self.index@[nk[m]] == nc[m] by {
            let o = if m == 0 {
                j
            } else if m < j + 1 {
                m - 1
            } else {
                m
            };
            assert(nk[m] == ok[o] && nc[m] == oc[o]);
            assert(pre.index@[ok[o]] == oc[o]);
        }
        assert forall|k2: u64| #[trigger] self.index@.contains_key(k2) implies exists|m: int|
            0 <= m < nc.len() && nk[m] == k2 by {
            let o = choose|o: int| 0 <= o < oc.len() && ok[o] == k2;
            let m = if o == j {
                0
            } else if o < j {
                o + 1
            } else {
                o
            };
            assert(nk[m] == ok[o]);
        }
        assert(self.wf());
        assert forall|k2: u64| #[trigger] self.index@.contains_key(k2) implies self.contents()[k2]
            == pre.contents()[k2] by {
            let o = choose|o: int| 0 <= o < oc.len() && ok[o] == k2;
            assert(pre.index@[ok[o]] == oc[o]);
            assert((oc[o] as nat) < pre.list.slots@.len());
            assert(self.list.slots@[oc[o] as int].value == pre.list.slots@[oc[o] as int].value);
        }
        assert(self.contents() =~= pre.contents());
        lemma_remove_value_at(ok, j);
        assert(self.order() == touch(pre.order(), k));
    }

    /// After a hit on `k` was moved to the front (slot `i`, now chain
    /// position 0) and its value replaced by `v`: the cache is well
    /// formed, the order is untouched, and only `k`'s value changed.
    #[verifier::spinoff_prover]
    #[verifier::rlimit(100)]
    proof fn lemma_after_update(self, mid: LruHashMap, k: u64, v: u64, i: usize)
        requires
            mid.wf(),
            mid.list.chain@.len() > 0,
            mid.list.chain@[0] == i,
            mid.list.keys()[0] == k,
            self.index@ == mid.index@,
            self.max_size == mid.max_size,
            self.list.wf(),
            self.list.chain@ == mid.list.chain@,
            self.list.keys() == mid.list.keys(),
            self.list.free@ == mid.list.free@,
            self.list.slots@.len() == mid.list.slots@.len(),
            forall|s: int|
                0 <= s < mid.list.slots@.len() && s != i ==> self.list.slots@[s]
                    == mid.list.slots@[s],
            self.list.slots@[i as int].value == v,
        ensures
            self.wf(),
            self.contents() == mid.contents().insert(k, v),
            self.order() == mid.order(),
    {
        assert(self.index_consistent());
        assert(self.wf());
        assert forall|k2: u64| #[trigger] self.index@.contains_key(k2) implies self.contents()[k2]
            == mid.contents().insert(k, v)[k2] by {
            let o = choose|o: int|
                0 <= o < mid.list.chain@.len() && mid.list.keys()[o] == k2;
            assert(mid.index@[mid.list.keys()[o]] == mid.list.chain@[o]);
            if k2 == k {
                assert(o == 0);
                assert(mid.index@[k] == i);
            } else {
                assert(o != 0);
                assert(mid.list.chain@[o] != i);
                assert((mid.list.chain@[o] as nat) < mid.list.slots@.len());
            }
        }
        assert(self.contents() =~= mid.contents().insert(k, v));
    }

    /// After a fresh key `k` with value `v` entered the front (slot
    /// `idx`) and was indexed: the index and the chain are consistent
    /// again, the key order gained `k` at the front, and the contents
    /// gained `k ↦ v`.
    #[verifier::spinoff_prover]
    #[verifier::rlimit(100)]
    proof fn lemma_after_fresh(self, pre: LruHashMap, k: u64, v: u64, idx: usize)
        requires
            pre.wf(),
            !pre.index@.contains_key(k),
            self.index@ == pre.index@.insert(k, idx),
            self.max_size == pre.max_size,
            self.list.wf(),
            self.list.chain@ == seq![idx] + pre.list.chain@,
            self.list.keys() == seq![k] + pre.list.keys(),
            self.list.vals() == seq![v] + pre.list.vals(),
            self.list.slots@.len() >= pre.list.slots@.len(),
            forall|s: int|
                0 <= s < pre.list.slots@.len() && s != idx ==> self.list.slots@[s].key
                    == pre.list.slots@[s].key && self.list.slots@[s].value
                    == pre.list.slots@[s].value,
        ensures
            self.index_consistent(),
            self.contents() == pre.contents().insert(k, v),
            self.order() == seq![k] + pre.order(),
    {
        let oc = pre.list.chain@;
        let ok = pre.list.keys();
        let nc = self.list.chain@;
        let nk = self.list.keys();
        assert(forall|m: int| 0 <= m < ok.len() ==> ok[m] != k);
        assert(nk.no_duplicates()) by {
            assert(forall|m: int| 1 <= m < nk.len() ==> nk[m] == ok[m - 1]);
            assert(forall|m1: int, m2: int| 0 <= m1 < m2 < nk.len() ==> nk[m1] != nk[m2]);
        }
        assert forall|m: int| #![trigger nk[m]] 0 <= m < nc.len() implies self.index@.contains_key(
            nk[m],
        ) && self.index@[nk[m]] == nc[m] by {
            if m == 0 {
            } else {
                assert(nk[m] == ok[m - 1] && nc[m] == oc[m - 1]);
                assert(pre.index@[ok[m - 1]] == oc[m - 1]);
                assert(ok[m - 1] != k);
            }
        }
        assert forall|k2: u64| #[trigger] self.index@.contains_key(k2) implies exists|m: int|
            0 <= m < nc.len() && nk[m] == k2 by {
            if k2 == k {
                assert(nk[0] == k2);
            } else {
                let o = choose|o: int| 0 <= o < oc.len() && ok[o] == k2;
                assert(nk[o + 1] == ok[o]);
            }
        }
        assert(self.index_consistent());
        assert(self.list.slots@[idx as int].value == v) by {
            assert(self.list.vals()[0] == v);
        }
        assert forall|k2: u64| #[trigger] self.index@.contains_key(k2) implies self.contents()[k2]
            == pre.contents().insert(k, v)[k2] by {
            if k2 != k {
                let o = choose|o: int| 0 <= o < oc.len() && ok[o] == k2;
                assert(pre.index@[ok[o]] == oc[o]);
                assert((oc[o] as nat) < pre.list.slots@.len());
                assert(oc[o] != idx) by {
                    assert(nc[o + 1] == oc[o]);
                    assert(nc.no_duplicates());
                    assert(nc[0] == idx);
                }
            }
        }
        assert(self.contents() =~= pre.contents().insert(k, v));
    }

    /// After the tail entry (key `ek`) was popped and unindexed: the
    /// index and the chain are consistent again, the order lost its
    /// last key, and the contents lost `ek`.
    #[verifier::spinoff_prover]
    #[verifier::rlimit(100)]
    proof fn lemma_after_evict(self, mid: LruHashMap, ek: u64)
        requires
            mid.list.wf(),
            mid.index_consistent(),
            mid.list.chain@.len() > 0,
            ek == mid.list.keys().last(),
            self.index@ == mid.index@.remove(ek),
            self.max_size == mid.max_size,
            self.list.wf(),
            self.list.chain@ == mid.list.chain@.drop_last(),
            self.list.keys() == mid.list.keys().drop_last(),
            self.list.slots@.len() == mid.list.slots@.len(),
            forall|s: int|
                0 <= s < mid.list.slots@.len() ==> self.list.slots@[s].key
                    == mid.list.slots@[s].key && self.list.slots@[s].value
                    == mid.list.slots@[s].value,
        ensures
            self.index_consistent(),
            self.contents() == mid.contents().remove(ek),
            self.order() == mid.order().drop_last(),
    {
        let oc = mid.list.chain@;
        let ok = mid.list.keys();
        let nc = self.list.chain@;
        let nk = self.list.keys();
        let len = oc.len() as int;
        assert(nk.no_duplicates()) by {
            assert(forall|m: int| 0 <= m < nk.len() ==> nk[m] == ok[m]);
            assert(forall|m1: int, m2: int| 0 <= m1 < m2 < nk.len() ==> nk[m1] != nk[m2]);
        }
        assert forall|m: int| #![trigger nk[m]] 0 <= m < nc.len() implies self.index@.contains_key(
            nk[m],
        ) && self.index@[nk[m]] == nc[m] by {
            assert(nk[m] == ok[m] && nc[m] == oc[m]);
            assert(mid.index@[ok[m]] == oc[m]);
            assert(ok[m] != ok[len - 1]);
        }
        assert forall|k2: u64| #[trigger] self.index@.contains_key(k2) implies exists|m: int|
            0 <= m < nc.len() && nk[m] == k2 by {
            let o = choose|o: int| 0 <= o < oc.len() && ok[o] == k2;
            assert(k2 != ek);
            assert(o != len - 1);
            assert(nk[o] == ok[o]);
        }
        assert(self.index_consistent());
        assert forall|k2: u64| #[trigger] self.index@.contains_key(k2) implies self.contents()[k2]
            == mid.contents().remove(ek)[k2] by {
            let o = choose|o: int| 0 <= o < oc.len() && ok[o] == k2;
            assert(mid.index@[ok[o]] == oc[o]);
            assert((oc[o] as nat) < mid.list.slots@.len());
        }
        assert(self.contents() =~= mid.contents().remove(ek));
    }

    /// Insert a key-value pair. An existing key keeps its entry: the
    /// value is replaced in place, the entry becomes most-recently used
    /// and the previous value is returned. A fresh key gets a new entry
    /// at the front; if that pushes the cache past a nonzero capacity,
    /// the least-recently-used entry is evicted in the same step.
    #[verifier::spinoff_prover]
    #[verifier::rlimit(100)]
    pub fn insert(&mut self, k: u64, v: u64) -> (prev: Option<u64>)
        requires
            old(self).wf(),
            old(self).contents().contains_key(k) || old(self).contents().len() < usize::MAX,
        ensures
            final(self).wf(),
            final(self).capacity() == old(self).capacity(),
            if old(self).contents().contains_key(k) {
                &&& prev == Some(old(self).contents()[k])
                &&& final(self).contents() == old(self).contents().insert(k, v)
                &&& final(self).order() == touch(old(self).order(), k)
            } else {
                &&& prev == None::<u64>
                &&& final(self).order() == push_fresh(
                    old(self).order(),
                    k,
                    old(self).capacity(),
                )
                &&& final(self).contents() == (if old(self).capacity() == 0 || old(
                    self,
                ).order().len() < old(self).capacity() {
                    old(self).contents().insert(k, v)
                } else {
                    old(self).contents().insert(k, v).remove(old(self).order().last())
                })
            },
    {
        let found: Option<usize> = match self.index.get(&k) {
            Some(i) => Some(*i),
            None => None,
        };
        match found {
            Some(i) => {
                proof {
                    self.lemma_key_position(k);
                }
                let ghost j = self.pos_of(k);
                self.list.move_to_front(i, Ghost(j));
                let ghost mid = *self;
                proof {
                    mid.lemma_after_touch(*old(self), k, j);
                }
                let prev_v = self.list.set_value(i, Ghost(0), v);
                proof {
                    self.lemma_after_update(mid, k, v, i);
                    assert(prev_v == old(self).list.vals()[j]);
                    assert(prev_v == old(self).contents()[k]);
                    assert(self.contents() =~= old(self).contents().insert(k, v));
                }
                Some(prev_v)
            },
            None => {
                proof {
                    old(self).lemma_index_parity();
                    if self.list.free@.len() == 0 {
                        assert(self.list.chain@.len() == self.list.slots@.len());
                    }
                    assert(forall|m: int|
                        0 <= m < self.list.keys().len() ==> self.list.keys()[m] != k);
                }
                let idx = self.list.push_front(k, v);
                self.index.insert(k, idx);
                let ghost mid = *self;
                proof {
                    mid.lemma_after_fresh(*old(self), k, v, idx);
                    assert(mid.index@.dom() =~= old(self).index@.dom().insert(k));
                }
                let n = self.index.len();
                proof {
                    assert(n == old(self).index@.len() + 1);
                    assert(n == old(self).order().len() + 1);
                }
                if self.max_size == 0 || n <= self.max_size {
                    proof {
                        assert(self.wf());
                        assert(self.order() == push_fresh(
                            old(self).order(),
                            k,
                            old(self).capacity(),
                        ));
                    }
                    None
                } else {
                    let ek = self.list.pop_back();
                    proof {
                        assert(ek == mid.list.keys().last());
                        assert(mid.list.keys().last() == old(self).order().last()) by {
                            assert(mid.list.keys() == seq![k] + old(self).list.keys());
                            assert(old(self).order().len() >= 1);
                        }
                    }
                    self.index.remove(&ek);
                    proof {
                        self.lemma_after_evict(mid, ek);
                        assert(self.wf());
                        assert(self.order() =~= push_fresh(
                            old(self).order(),
                            k,
                            old(self).capacity(),
                        ));
                    }
                    None
                }
            },
        }
    }

    /// Whether the cache holds no entries at all.
    pub fn is_empty(&self) -> (e: bool)
        requires
            self.wf(),
        ensures
            e == (self.contents().len() == 0),
            e == (self.order().len() == 0),
    {
        let n = self.len();
        n == 0
    }
}

/// Index/list parity: the number of cached pairs always equals the
/// length of the recency order — the hash index and the recency list
/// describe the same set of live entries at every reachable state.
pub proof fn lemma_len_parity(c: LruHashMap)
    requires
        c.wf(),
    ensures
        c.contents().len() == c.order().len(),
        c.contents().dom() == c.order().to_set(),
{
    c.lemma_index_parity();
}

/// Bounded size: every reachable state of a cache with a nonzero
/// capacity holds at most `capacity` entries.
pub proof fn lemma_bounded_size(c: LruHashMap)
    requires
        c.wf(),
        c.capacity() > 0,
    ensures
        c.contents().len() <= c.capacity(),
        c.order().len() <= c.capacity(),
{
    c.lemma_index_parity();
}

/// The recency order after a whole sequence of fresh keys is inserted
/// in turn, first element first. Each step is the `push_fresh` that
/// `insert` promises for a key not yet present.
pub open spec fn push_fresh_all(ord: Seq<u64>, ks: Seq<u64>, max: usize) -> Seq<u64>
    decreases ks.len(),
{
    if ks.len() == 0 {
        ord
    } else {
        push_fresh_all(push_fresh(ord, ks[0], max), ks.drop_first(), max)
    }
}

/// Unbounded mode never evicts: with capacity `0`, inserting any
/// sequence of fresh keys simply stacks them, newest first, on top of
/// the order that was already there — nothing ever leaves.
pub proof fn lemma_unbounded_no_eviction(ord: Seq<u64>, ks: Seq<u64>)
    ensures
        push_fresh_all(ord, ks, 0) == ks.reverse() + ord,
    decreases ks.len(),
{
    if ks.len() == 0 {
        assert(ks.reverse() + ord =~= ord);
    } else {
        let ord1 = seq![ks[0]] + ord;
        assert(push_fresh(ord, ks[0], 0) == ord1);
        lemma_unbounded_no_eviction(ord1, ks.drop_first());
        assert(ks.reverse() + ord =~= ks.drop_first().reverse() + ord1);
    }
}

/// Inserting fresh keys introduces no key beyond those inserted: a key
/// absent from both the order and the insert sequence stays absent.
proof fn lemma_push_fresh_all_no_new(ord: Seq<u64>, ks: Seq<u64>, max: usize, x: u64)
    requires
        !ord.contains(x),
        !ks.contains(x),
    ensures
        !push_fresh_all(ord, ks, max).contains(x),
    decreases ks.len(),
{
    if ks.len() > 0 {
        let grown = seq![ks[0]] + ord;
        let ord1 = push_fresh(ord, ks[0], max);
        assert(ks[0] != x);
        assert(!grown.contains(x)) by {
            if grown.contains(x) {
                let m = choose|m: int| 0 <= m < grown.len() && grown[m] == x;
                if m > 0 {
                    assert(ord[m - 1] == x);
                }
            }
        }
        assert(!ord1.contains(x)) by {
            if ord1.contains(x) {
                let m = choose|m: int| 0 <= m < ord1.len() && ord1[m] == x;
                assert(grown[m] == x);
            }
        }
        assert(!ks.drop_first().contains(x)) by {
            if ks.drop_first().contains(x) {
                let m = choose|m: int|
                    0 <= m < ks.drop_first().len() && ks.drop_first()[m] == x;
                assert(ks[m + 1] == x);
            }
        }
        lemma_push_fresh_all_no_new(ord1, ks.drop_first(), max, x);
    }
}

/// LRU eviction, one step: when a fresh key enters a full cache, the
/// key that falls out is exactly the last of the recency order — the
/// least recently touched one — and every other key stays.
pub proof fn lemma_eviction_is_lru(ord: Seq<u64>, k: u64, max: usize)
    requires
        max > 0,
        ord.len() == max as nat,
        ord.no_duplicates(),
        !ord.contains(k),
    ensures
        push_fresh(ord, k, max) == (seq![k] + ord).drop_last(),
        forall|m: int|
            0 <= m < ord.len() - 1 ==> push_fresh(ord, k, max).contains(#[trigger] ord[m]),
        !push_fresh(ord, k, max).contains(ord[ord.len() - 1]),
{
    let grown = seq![k] + ord;
    let out = grown.drop_last();
    assert(forall|m: int| 0 <= m < ord.len() ==> ord[m] != k);
    assert forall|m: int| 0 <= m < ord.len() - 1 implies out.contains(#[trigger] ord[m]) by {
        assert(out[m + 1] == ord[m]);
    }
    assert(!out.contains(ord[ord.len() - 1])) by {
        if out.contains(ord[ord.len() - 1]) {
            let m = choose|m: int| 0 <= m < out.len() && out[m] == ord[ord.len() - 1];
            if m > 0 {
                assert(ord[m - 1] == ord[ord.len() - 1]);
            }
        }
    }
}

/// LRU correctness over any run of fresh insertions: the key standing
/// at position `p` of the recency order (0 = most recent) is still
/// present after `n` fresh distinct keys are inserted exactly when
/// `p + n < capacity` — so a key just touched to the front survives the
/// next `capacity - 1` insertions, while the tail key is the first to
/// be evicted.
pub proof fn lemma_lru_survival(ord: Seq<u64>, ks: Seq<u64>, max: usize, p: int)
    requires
        max > 0,
        ord.len() <= max as nat,
        ord.no_duplicates(),
        ks.no_duplicates(),
        forall|m: int| 0 <= m < ks.len() ==> !ord.contains(#[trigger] ks[m]),
        0 <= p < ord.len(),
    ensures
        push_fresh_all(ord, ks, max).contains(ord[p]) <==> p + ks.len() < max,
    decreases ks.len(),
{
    if ks.len() == 0 {
        assert(ord.contains(ord[p]));
    } else {
        let k0 = ks[0];
        let grown = seq![k0] + ord;
        let rest = ks.drop_first();
        assert(forall|m: int| 0 <= m < rest.len() ==> rest[m] == ks[m + 1]);
        assert(rest.no_duplicates());
        assert(forall|m: int| 0 <= m < ord.len() ==> ord[m] != k0);
        if ord.len() < max as nat {
            let ord1 = grown;
            assert(push_fresh(ord, k0, max) == ord1);
            assert(ord1.no_duplicates()) by {
                assert(forall|m1: int, m2: int|
                    0 <= m1 < m2 < ord1.len() ==> ord1[m1] != ord1[m2]);
            }
            assert forall|m: int| 0 <= m < rest.len() implies !ord1.contains(
                #[trigger] rest[m],
            ) by {
                if ord1.contains(rest[m]) {
                    let q = choose|q: int| 0 <= q < ord1.len() && ord1[q] == rest[m];
                    if q > 0 {
                        assert(ord[q - 1] == ks[m + 1]);
                        assert(ord.contains(ks[m + 1]));
                    }
                }
            }
            lemma_lru_survival(ord1, rest, max, p + 1);
            assert(ord1[p + 1] == ord[p]);
        } else {
            let ord1 = grown.drop_last();
            assert(push_fresh(ord, k0, max) == ord1);
            assert(ord1.len() == max as nat);
            assert(forall|m: int| 0 <= m < ord1.len() ==> ord1[m] == grown[m]);
            assert(ord1.no_duplicates()) by {
                assert(forall|m1: int, m2: int|
                    0 <= m1 < m2 < ord1.len() ==> ord1[m1] != ord1[m2]);
            }
            assert forall|m: int| 0 <= m < rest.len() implies !ord1.contains(
                #[trigger] rest[m],
            ) by {
                if ord1.contains(rest[m]) {
                    let q = choose|q: int| 0 <= q < ord1.len() && ord1[q] == rest[m];
                    if q > 0 {
                        assert(ord[q - 1] == ks[m + 1]);
                        assert(ord.contains(ks[m + 1]));
                    }
                }
            }
            if p < ord.len() - 1 {
                assert(ord1[p + 1] == ord[p]);
                lemma_lru_survival(ord1, rest, max, p + 1);
            } else {
                assert(!ord1.contains(ord[p])) by {
                    if ord1.contains(ord[p]) {
                        let q = choose|q: int| 0 <= q < ord1.len() && ord1[q] == ord[p];
                        if q > 0 {
                            assert(ord[q - 1] == ord[p]);
                        }
                    }
                }
                assert(!rest.contains(ord[p])) by {
                    if rest.contains(ord[p]) {
                        let m = choose|m: int| 0 <= m < rest.len() && rest[m] == ord[p];
                        assert(!ord.contains(ks[m + 1]));
                        assert(ord.contains(ord[p]));
                    }
                }
                lemma_push_fresh_all_no_new(ord1, rest, max, ord[p]);
                assert(p + ks.len() >= max);
            }
        }
    }
}

/// Recency refresh protects: a key that was just touched to the front
/// of the order (as `get` and `insert` both do on a hit) is still
/// present after any run of fewer than `capacity` fresh insertions.
pub proof fn lemma_refresh_protects(ord: Seq<u64>, ks: Seq<u64>, max: usize, k: u64)
    requires
        max > 0,
        ord.len() <= max as nat,
        ord.no_duplicates(),
        ks.no_duplicates(),
        forall|m: int| 0 <= m < ks.len() ==> !ord.contains(#[trigger] ks[m]),
        ord.len() > 0,
        ord[0] == k,
        ks.len() < max as nat,
    ensures
        push_fresh_all(ord, ks, max).contains(k),
{
    lemma_lru_survival(ord, ks, max, 0);
}

/// An unrefreshed tail is the first to go: when the cache is full, the
/// least-recently-touched key is evicted by the very next fresh
/// insertion and never comes back on its own.
pub proof fn lemma_unrefreshed_tail_evicted(ord: Seq<u64>, ks: Seq<u64>, max: usize)
    requires
        max > 0,
        ord.len() == max as nat,
        ord.no_duplicates(),
        ks.no_duplicates(),
        forall|m: int| 0 <= m < ks.len() ==> !ord.contains(#[trigger] ks[m]),
        ks.len() >= 1,
    ensures
        !push_fresh_all(ord, ks, max).contains(ord.last()),
{
    lemma_lru_survival(ord, ks, max, ord.len() - 1);
}

/// Idempotent update: inserting a value for the same key twice leaves
/// the number of entries exactly where the first insertion put it, the
/// key maps to the latest value, the first value is what the second
/// call displaces, and the recency order settles with the key at the
/// front either way.
pub proof fn lemma_update_in_place(m: Map<u64, u64>, ord: Seq<u64>, k: u64, v1: u64, v2: u64)
    ensures
        m.insert(k, v1)[k] == v1,
        m.insert(k, v1).insert(k, v2)[k] == v2,
        m.insert(k, v1).insert(k, v2).len() == m.insert(k, v1).len(),
        touch(touch(ord, k), k) == touch(ord, k),
{
    assert(m.insert(k, v1).insert(k, v2).dom() =~= m.insert(k, v1).dom());
    let t1 = touch(ord, k);
    assert(t1[0] == k);
    assert(t1.contains(k));
    t1.index_of_first_ensures(k);
    let m0 = t1.index_of_first(k).unwrap();
    assert(m0 == 0);
    assert(t1.remove(0) =~= ord.remove_value(k));
    assert(touch(t1, k) == seq![k] + t1.remove(0));
    assert(touch(t1, k) == t1);
}

} // verus!
