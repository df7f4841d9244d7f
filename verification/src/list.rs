use vstd::prelude::*;

verus! {

/// Sentinel slot index standing for "no neighbor" / "empty end".
pub(crate) const NIL: usize = usize::MAX;

/// One cache entry: a key/value pair together with its links in the
/// recency list. `prev` points toward the head (more recently used),
/// `next` toward the tail (less recently used); `NIL` marks an end.
#[derive(Clone, Copy)]
pub(crate) struct Node {
    pub(crate) key: u64,
    pub(crate) value: u64,
    pub(crate) prev: usize,
    pub(crate) next: usize,
}

/// The recency list: a doubly-linked chain of entries ordered from
/// most-recently used (`head`) to least-recently used (`tail`).
///
/// Entries live in the slot arena `slots`; links are slot indices, so
/// no raw pointers are needed. Slots released by eviction are kept on
/// the `free` list for reuse. The ghost `chain` names the slot indices
/// in list order, head first; the invariant `wf` ties the stored links
/// to adjacency in `chain`.
pub(crate) struct RecencyList {
    pub(crate) slots: Vec<Node>,
    pub(crate) free: Vec<usize>,
    pub(crate) head: usize,
    pub(crate) tail: usize,
    pub(crate) chain: Ghost<Seq<usize>>,
}

impl Node {
    /// A fresh, unlinked entry for `key` and `value`.
    pub(crate) fn new(key: u64, value: u64) -> (n: Node)
        ensures
            n.key == key,
            n.value == value,
            n.prev == NIL,
            n.next == NIL,
    {
        Node { key, value, prev: NIL, next: NIL }
    }
}

impl RecencyList {
    /// Moving the chain member at position `j` to the front permutes the
    /// key and value sequences the same way, provided no slot's key or
    /// value changed.
    proof fn lemma_keys_after_move(pre: RecencyList, post: RecencyList, j: int)
        requires
            0 <= j < pre.chain@.len(),
            post.chain@ == seq![pre.chain@[j]] + pre.chain@.remove(j),
            forall|s: int|
                0 <= s < pre.slots@.len() ==> post.slots@[s].key == pre.slots@[s].key
                    && post.slots@[s].value == pre.slots@[s].value,
            post.slots@.len() == pre.slots@.len(),
            forall|m: int| #![trigger pre.chain@[m]]
                0 <= m < pre.chain@.len() ==> (pre.chain@[m] as nat) < pre.slots@.len(),
        ensures
            post.keys() == seq![pre.keys()[j]] + pre.keys().remove(j),
            post.vals() == seq![pre.vals()[j]] + pre.vals().remove(j),
    {
        assert(post.keys() =~= seq![pre.keys()[j]] + pre.keys().remove(j));
        assert(post.vals() =~= seq![pre.vals()[j]] + pre.vals().remove(j));
    }

    /// The keys of the live entries, most recent first.
    pub(crate) open spec fn keys(self) -> Seq<u64> {
        Seq::new(self.chain@.len(), |j: int| self.slots@[self.chain@[j] as int].key)
    }

    /// The values of the live entries, most recent first.
    pub(crate) open spec fn vals(self) -> Seq<u64> {
        Seq::new(self.chain@.len(), |j: int| self.slots@[self.chain@[j] as int].value)
    }

    /// The links stored in the slots spell out exactly the chain: each
    /// chain member's `prev` and `next` name its chain neighbors (or
    /// `NIL` at the ends), `head` and `tail` name the two ends, and
    /// every slot index is distinguishable from the sentinel.
    pub(crate) open spec fn linked(self) -> bool {
        let ch = self.chain@;
        let n = self.slots@.len();
        &&& n <= NIL as nat
        &&& forall|j: int| #![trigger ch[j]] 0 <= j < ch.len() ==> (ch[j] as nat) < n
        &&& ch.no_duplicates()
        &&& if ch.len() == 0 {
            self.head == NIL && self.tail == NIL
        } else {
            self.head == ch[0] && self.tail == ch[ch.len() - 1]
        }
        &&& forall|j: int| #![trigger ch[j]]
            0 <= j < ch.len() ==> self.slots@[ch[j] as int].prev == (if j == 0 {
                NIL
            } else {
                ch[j - 1]
            }) && self.slots@[ch[j] as int].next == (if j == ch.len() - 1 {
                NIL
            } else {
                ch[j + 1]
            })
    }

    /// Well-formedness: the chain is linked and the chain and the free
    /// list together partition the arena, so a free slot can be handed
    /// out without ever touching a live entry.
    pub(crate) open spec fn wf(self) -> bool {
        let ch = self.chain@;
        let fr = self.free@;
        let n = self.slots@.len();
        &&& self.linked()
        &&& fr.no_duplicates()
        &&& forall|j: int| #![trigger fr[j]]
            0 <= j < fr.len() ==> (fr[j] as nat) < n && !ch.contains(fr[j])
        &&& ch.len() + fr.len() == n
    }

    /// An empty list: no entries, no free slots, both ends at the sentinel.
    pub(crate) fn new() -> (l: RecencyList)
        ensures
            l.wf(),
            l.chain@ == Seq::<usize>::empty(),
            l.slots@ == Seq::<Node>::empty(),
            l.free@ == Seq::<usize>::empty(),
    {
        RecencyList {
            slots: Vec::new(),
            free: Vec::new(),
            head: NIL,
            tail: NIL,
            chain: Ghost(Seq::empty()),
        }
    }

    /// Link the detached slot `i` in at the head of the chain. Only the
    /// links of `i` and of the former head change; every key and value
    /// stays in place.
    #[verifier::rlimit(50)]
    fn attach_front(&mut self, i: usize)
        requires
            old(self).linked(),
            (i as nat) < old(self).slots@.len(),
            !old(self).chain@.contains(i),
        ensures
            final(self).linked(),
            final(self).chain@ == seq![i] + old(self).chain@,
            final(self).free@ == old(self).free@,
            final(self).slots@.len() == old(self).slots@.len(),
            forall|s: int|
                0 <= s < old(self).slots@.len() ==> final(self).slots@[s].key == old(
                    self,
                ).slots@[s].key && final(self).slots@[s].value == old(self).slots@[s].value,
    {
        let ghost oc = self.chain@;
        proof {
            assert(forall|j: int| 0 <= j < oc.len() ==> oc[j] != i);
        }
        let oh = self.head;
        let mut me = self.slots[i];
        me.prev = NIL;
        me.next = oh;
        self.slots.set(i, me);
        if oh == NIL {
            self.tail = i;
        } else {
            proof {
                assert(oc.len() > 0 && oh == oc[0]);
            }
            let mut hn = self.slots[oh];
            hn.prev = i;
            self.slots.set(oh, hn);
        }
        self.head = i;
        self.chain = Ghost(seq![i] + oc);
        proof {
            let nc = self.chain@;
            let os = old(self).slots@;
            assert(nc.no_duplicates()) by {
                assert(forall|j1: int, j2: int|
                    0 <= j1 < j2 < nc.len() ==> nc[j1] != nc[j2]);
            }
            assert forall|j: int| #![trigger nc[j]] 0 <= j < nc.len() implies self.slots@[nc[j] as int].prev
                == (if j == 0 {
                NIL
            } else {
                nc[j - 1]
            }) && self.slots@[nc[j] as int].next == (if j == nc.len() - 1 {
                NIL
            } else {
                nc[j + 1]
            }) by {
                if j == 0 {
                } else if j == 1 {
                    assert(nc[j] == oc[0]);
                    assert(os[oc[0] as int].next == (if oc.len() == 1 {
                        NIL
                    } else {
                        oc[1]
                    }));
                } else {
                    assert(nc[j] == oc[j - 1]);
                    assert(oc[j - 1] != oc[0] && oc[j - 1] != i);
                    assert(self.slots@[oc[j - 1] as int] == os[oc[j - 1] as int]);
                }
            }
        }
    }

    /// Unlink the entry in slot `i`, which stands at interior or tail
    /// position `j >= 1` of the chain, fixing up its neighbors' links
    /// (and `tail` when it was the tail). The slot keeps its key and
    /// value; it is simply no longer part of the chain.
    #[verifier::rlimit(50)]
    fn unlink(&mut self, i: usize, Ghost(j): Ghost<int>)
        requires
            old(self).linked(),
            1 <= j < old(self).chain@.len(),
            old(self).chain@[j] == i,
        ensures
            final(self).linked(),
            final(self).chain@ == old(self).chain@.remove(j),
            final(self).free@ == old(self).free@,
            final(self).head == old(self).head,
            final(self).slots@.len() == old(self).slots@.len(),
            forall|s: int|
                0 <= s < old(self).slots@.len() ==> final(self).slots@[s].key == old(
                    self,
                ).slots@[s].key && final(self).slots@[s].value == old(self).slots@[s].value,
    {
        let ghost oc = self.chain@;
        let ghost len = oc.len() as int;
        let nd = self.slots[i];
        let p = nd.prev;
        let nx = nd.next;
        proof {
            assert(p == oc[j - 1]);
            assert((p as nat) < old(self).slots@.len());
        }
        let mut pn = self.slots[p];
        pn.next = nx;
        self.slots.set(p, pn);
        if nx == NIL {
            proof {
                assert(j == len - 1);
            }
            self.tail = p;
        } else {
            proof {
                assert(nx == oc[j + 1]);
            }
            let mut xn = self.slots[nx];
            xn.prev = p;
            self.slots.set(nx, xn);
        }
        self.chain = Ghost(oc.remove(j));
        proof {
            let nc = self.chain@;
            let os = old(self).slots@;
            assert(nc.len() == len - 1);
            assert(forall|m: int| 0 <= m < j ==> nc[m] == oc[m]);
            assert(forall|m: int| j <= m < len - 1 ==> nc[m] == oc[m + 1]);
            assert(nc.no_duplicates()) by {
                assert(forall|m1: int, m2: int|
                    0 <= m1 < m2 < nc.len() ==> nc[m1] != nc[m2]);
            }
            assert(len - 1 > 0 && self.head == nc[0]);
            assert forall|m: int| #![trigger nc[m]] 0 <= m < nc.len() implies self.slots@[nc[m] as int].prev
                == (if m == 0 {
                NIL
            } else {
                nc[m - 1]
            }) && self.slots@[nc[m] as int].next == (if m == nc.len() - 1 {
                NIL
            } else {
                nc[m + 1]
            }) by {
                if m == j - 1 {
                    assert(nc[m] == oc[j - 1] && oc[j - 1] == p);
                    assert(os[p as int].prev == (if m == 0 {
                        NIL
                    } else {
                        oc[j - 2]
                    }));
                    assert(m > 0 ==> nc[m - 1] == oc[j - 2]);
                    assert(m < nc.len() - 1 ==> nc[m + 1] == oc[j + 1]);
                } else if m == j {
                    assert(nc[m] == oc[j + 1]);
                    assert(nc[m - 1] == oc[j - 1]);
                    assert(m < nc.len() - 1 ==> nc[m + 1] == oc[j + 2]);
                    assert(os[oc[j + 1] as int].next == (if j + 1 == len - 1 {
                        NIL
                    } else {
                        oc[j + 2]
                    }));
                } else {
                    let o = if m < j {
                        m
                    } else {
                        m + 1
                    };
                    assert(nc[m] == oc[o]);
                    assert(oc[o] != oc[j - 1] && oc[o] != oc[j]);
                    assert(j < len - 1 ==> oc[o] != oc[j + 1]);
                    assert(self.slots@[oc[o] as int] == os[oc[o] as int]);
                    assert(m > 0 ==> nc[m - 1] == oc[o - 1]);
                    assert(m < nc.len() - 1 ==> nc[m + 1] == oc[o + 1]);
                }
            }
        }
    }

    /// Link a brand-new entry at the head of the list, taking its slot
    /// from the free list when one is available and growing the arena
    /// otherwise. Returns the slot index the entry went into.
    #[verifier::rlimit(50)]
    pub(crate) fn push_front(&mut self, key: u64, value: u64) -> (idx: usize)
        requires
            old(self).wf(),
            old(self).free@.len() > 0 || old(self).slots@.len() < NIL as nat,
        ensures
            final(self).wf(),
            final(self).chain@ == seq![idx] + old(self).chain@,
            final(self).keys() == seq![key] + old(self).keys(),
            final(self).vals() == seq![value] + old(self).vals(),
            final(self).free@.len() == (if old(self).free@.len() > 0 {
                old(self).free@.len() - 1
            } else {
                0
            }),
            old(self).slots@.len() <= final(self).slots@.len(),
            forall|s: int|
                0 <= s < old(self).slots@.len() && s != idx ==> final(self).slots@[s].key
                    == old(self).slots@[s].key && final(self).slots@[s].value == old(
                    self,
                ).slots@[s].value,
    {
        let ghost oc = self.chain@;
        let ghost n0 = self.slots@.len();
        let nd = Node::new(key, value);
        let idx: usize;
        if self.free.len() > 0 {
            let popped = self.free.pop();
            idx = popped.unwrap();
            self.slots.set(idx, nd);
        } else {
            idx = self.slots.len();
            self.slots.push(nd);
        }
        proof {
            assert(forall|j: int| 0 <= j < oc.len() ==> oc[j] != idx);
            assert(!self.chain@.contains(idx));
            assert(self.linked());
        }
        self.attach_front(idx);
        proof {
            assert(self.wf()) by {
                assert(forall|x1: int, x2: int|
                    0 <= x1 < x2 < self.free@.len() ==> self.free@[x1] != self.free@[x2]);
                assert forall|x: int| #![trigger self.free@[x]] 0 <= x < self.free@.len() implies (
                self.free@[x] as nat) < self.slots@.len() && !self.chain@.contains(
                    self.free@[x],
                ) by {
                    assert(self.free@[x] == old(self).free@[x]);
                    assert(!oc.contains(old(self).free@[x]));
                    if self.chain@.contains(self.free@[x]) {
                        let m = choose|m: int|
                            0 <= m < self.chain@.len() && self.chain@[m] == self.free@[x];
                        assert(m > 0 && oc[m - 1] == self.free@[x]);
                    }
                }
            }
            assert(self.keys() =~= seq![key] + old(self).keys());
            assert(self.vals() =~= seq![value] + old(self).vals());
        }
        idx
    }

    /// Relocate the entry in slot `i` (position `j` of the chain) to the
    /// head of the list, marking it most-recently used. Handles the head
    /// (no-op), interior and tail positions; keys, values and the free
    /// list are untouched.
    #[verifier::spinoff_prover]
    #[verifier::rlimit(100)]
    pub(crate) fn move_to_front(&mut self, i: usize, Ghost(j): Ghost<int>)
        requires
            old(self).wf(),
            0 <= j < old(self).chain@.len(),
            old(self).chain@[j] == i,
        ensures
            final(self).wf(),
            final(self).chain@ == seq![i] + old(self).chain@.remove(j),
            final(self).keys() == seq![old(self).keys()[j]] + old(self).keys().remove(j),
            final(self).vals() == seq![old(self).vals()[j]] + old(self).vals().remove(j),
            final(self).free@ == old(self).free@,
            final(self).slots@.len() == old(self).slots@.len(),
            forall|s: int|
                0 <= s < old(self).slots@.len() ==> final(self).slots@[s].key == old(
                    self,
                ).slots@[s].key && final(self).slots@[s].value == old(self).slots@[s].value,
    {
        let ghost oc = self.chain@;
        if self.head == i {
            proof {
                assert(oc[0] == i);
                assert(j == 0);
                assert(oc =~= seq![i] + oc.remove(0));
                assert(self.keys() =~= seq![self.keys()[0]] + self.keys().remove(0));
                assert(self.vals() =~= seq![self.vals()[0]] + self.vals().remove(0));
            }
            return ;
        }
        proof {
            assert(oc[0] != i);
            assert(j != 0);
        }
        self.unlink(i, Ghost(j));
        proof {
            assert(!self.chain@.contains(i)) by {
                if self.chain@.contains(i) {
                    let m = choose|m: int|
                        0 <= m < self.chain@.len() && self.chain@[m] == i;
                    assert(oc[if m < j {
                        m
                    } else {
                        m + 1
                    }] == i);
                }
            }
        }
        self.attach_front(i);
        proof {
            assert(self.chain@ == seq![i] + oc.remove(j));
            assert(self.wf()) by {
                assert forall|x: int| #![trigger self.free@[x]] 0 <= x < self.free@.len() implies (
                self.free@[x] as nat) < self.slots@.len() && !self.chain@.contains(
                    self.free@[x],
                ) by {
                    assert(!oc.contains(old(self).free@[x]));
                    if self.chain@.contains(self.free@[x]) {
                        let m = choose|m: int|
                            0 <= m < self.chain@.len() && self.chain@[m] == self.free@[x];
                        if m == 0 {
                            assert(oc[j] == self.free@[x]);
                        } else {
                            assert(oc[if m - 1 < j {
                                m - 1
                            } else {
                                m
                            }] == self.free@[x]);
                        }
                    }
                }
            }
            assert forall|s: int| 0 <= s < old(self).slots@.len() implies self.slots@[s].key
                == old(self).slots@[s].key && self.slots@[s].value == old(
                self,
            ).slots@[s].value by {}
            Self::lemma_keys_after_move(*old(self), *self, j);
        }
    }

    /// Detach the tail entry — the least-recently-used one — returning
    /// its key and handing its slot to the free list for reuse.
    #[verifier::rlimit(50)]
    pub(crate) fn pop_back(&mut self) -> (k: u64)
        requires
            old(self).wf(),
            old(self).chain@.len() > 0,
        ensures
            final(self).wf(),
            final(self).chain@ == old(self).chain@.drop_last(),
            final(self).keys() == old(self).keys().drop_last(),
            final(self).vals() == old(self).vals().drop_last(),
            k == old(self).keys().last(),
            final(self).free@.len() == old(self).free@.len() + 1,
            final(self).slots@.len() == old(self).slots@.len(),
            forall|s: int|
                0 <= s < old(self).slots@.len() ==> final(self).slots@[s].key == old(
                    self,
                ).slots@[s].key && final(self).slots@[s].value == old(self).slots@[s].value,
    {
        let ghost oc = self.chain@;
        let ghost len = oc.len() as int;
        let t = self.tail;
        proof {
            assert(t == oc[len - 1]);
            assert((t as nat) < self.slots@.len());
        }
        let nd = self.slots[t];
        let k = nd.key;
        let p = nd.prev;
        self.tail = p;
        if p == NIL {
            proof {
                assert(len >= 2 ==> oc[len - 1] != oc[0] && old(self).slots@[oc[len
                    - 1] as int].prev == oc[len - 2]);
                assert(len == 1);
            }
            self.head = NIL;
        } else {
            proof {
                assert(len >= 2);
                assert(p == oc[len - 2]);
            }
            let mut pn = self.slots[p];
            pn.next = NIL;
            self.slots.set(p, pn);
        }
        self.free.push(t);
        self.chain = Ghost(oc.drop_last());
        proof {
            let nc = self.chain@;
            assert(nc.no_duplicates()) by {
                assert(forall|m1: int, m2: int|
                    0 <= m1 < m2 < nc.len() ==> nc[m1] != nc[m2]);
            }
            assert forall|m: int| #![trigger nc[m]] 0 <= m < nc.len() implies self.slots@[nc[m] as int].prev
                == (if m == 0 {
                NIL
            } else {
                nc[m - 1]
            }) && self.slots@[nc[m] as int].next == (if m == nc.len() - 1 {
                NIL
            } else {
                nc[m + 1]
            }) by {
                assert(nc[m] == oc[m]);
                if m == len - 2 {
                } else {
                    assert(oc[m] != oc[len - 2] && oc[m] != oc[len - 1]);
                    assert(self.slots@[oc[m] as int] == old(self).slots@[oc[m] as int]);
                }
            }
            assert forall|x: int| #![trigger self.free@[x]] 0 <= x < self.free@.len() implies (
            self.free@[x] as nat) < self.slots@.len() && !nc.contains(self.free@[x]) by {
                if x < old(self).free@.len() {
                    assert(self.free@[x] == old(self).free@[x]);
                    assert(!oc.contains(old(self).free@[x]));
                } else {
                    assert(self.free@[x] == t);
                }
                if nc.contains(self.free@[x]) {
                    let m = choose|m: int| 0 <= m < nc.len() && nc[m] == self.free@[x];
                    assert(oc[m] == self.free@[x]);
                }
            }
            assert(self.free@.no_duplicates()) by {
                assert(forall|x: int|
                    0 <= x < old(self).free@.len() ==> old(self).free@[x] != t);
                assert(forall|x1: int, x2: int|
                    0 <= x1 < x2 < self.free@.len() ==> self.free@[x1] != self.free@[x2]);
            }
            assert(self.wf());
            assert(self.keys() =~= old(self).keys().drop_last());
            assert(self.vals() =~= old(self).vals().drop_last());
        }
        k
    }

    /// Read the value of the entry in slot `i`, which stands at position
    /// `j` of the chain.
    pub(crate) fn value_at(&self, i: usize, Ghost(j): Ghost<int>) -> (v: u64)
        requires
            self.wf(),
            0 <= j < self.chain@.len(),
            self.chain@[j] == i,
        ensures
            v == self.vals()[j],
    {
        self.slots[i].value
    }

    /// Replace the value of the entry in slot `i` (position `j` of the
    /// chain), returning the value it held before. The ordering, the keys
    /// and every other slot are untouched.
    pub(crate) fn set_value(&mut self, i: usize, Ghost(j): Ghost<int>, v: u64) -> (prev_v: u64)
        requires
            old(self).wf(),
            0 <= j < old(self).chain@.len(),
            old(self).chain@[j] == i,
        ensures
            final(self).wf(),
            final(self).chain@ == old(self).chain@,
            final(self).free@ == old(self).free@,
            final(self).keys() == old(self).keys(),
            final(self).vals() == old(self).vals().update(j, v),
            prev_v == old(self).vals()[j],
            final(self).slots@.len() == old(self).slots@.len(),
            forall|s: int|
                0 <= s < old(self).slots@.len() && s != i ==> final(self).slots@[s]
                    == old(self).slots@[s],
            final(self).slots@[i as int].key == old(self).slots@[i as int].key,
            final(self).slots@[i as int].value == v,
    {
        let mut nd = self.slots[i];
        let prev_v = nd.value;
        nd.value = v;
        self.slots.set(i, nd);
        proof {
            assert(self.keys() =~= old(self).keys());
            assert(self.vals() =~= old(self).vals().update(j, v));
        }
        prev_v
    }
}

} // verus!
