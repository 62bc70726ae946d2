//! A capacity-bounded cache that evicts the least-recently-used entry.
//!
//! Entries live in a slot arena (`Vec<Option<Node<V>>>`); handles are
//! slot indices, so the intrusive recency list needs no raw pointers:
//! `prev`/`next` are plain indices with `NIL` for "none". A hash map
//! resolves a key to its slot in O(1), a free list recycles released
//! slots, and a ghost sequence of slot indices (most recent first)
//! carries the proof that the list links, the key index, and the
//! counters always agree.

use std::collections::HashMap;
use vstd::prelude::*;

verus! {

/// Sentinel slot index meaning "no neighbor here".
pub const NIL: usize = usize::MAX;

/// A key-value entry of the cache, with its links in the recency list.
/// `next` points toward the more recently used neighbor, `prev` toward
/// the less recently used one.
pub struct Node<V> {
    pub key: i32,
    pub val: V,
    pub prev: usize,
    pub next: usize,
}

impl<V> Node<V> {
    pub fn new(key: i32, val: V) -> (n: Node<V>)
        ensures
            n.key == key,
            n.val == val,
            n.prev == NIL,
            n.next == NIL,
    {
        Node { key, val, prev: NIL, next: NIL }
    }
}

/// A cache that evicts the least recently used entry when a `set` of a
/// new key would exceed the given capacity.
///
/// A cache constructed with capacity 0 never retains anything: `set`
/// on it is a no-op.
pub struct LRUCache<V> {
    capacity: i32,
    count: i32,
    page_map: HashMap<i32, usize>,
    slots: Vec<Option<Node<V>>>,
    free: Vec<usize>,
    front: usize,
    back: usize,
    order: Ghost<Seq<usize>>,
}

/// Slot arenas `a` and `b` hold entries in the same slots, with the
/// same keys and values; only the links may differ.
spec fn same_entries<V>(a: Seq<Option<Node<V>>>, b: Seq<Option<Node<V>>>) -> bool {
    &&& a.len() == b.len()
    &&& forall|x: int|
        0 <= x < a.len() ==> (((#[trigger] b[x]) is Some <==> a[x] is Some) && (a[x] is Some
            ==> (b[x]->0).key == (a[x]->0).key && (b[x]->0).val == (a[x]->0).val))
}

/// Slot arenas `a` and `b` hold entries with the same keys in the same
/// slots; values and links may differ.
spec fn same_keys<V>(a: Seq<Option<Node<V>>>, b: Seq<Option<Node<V>>>) -> bool {
    &&& a.len() == b.len()
    &&& forall|x: int|
        0 <= x < a.len() ==> (((#[trigger] b[x]) is Some <==> a[x] is Some) && (a[x] is Some
            ==> (b[x]->0).key == (a[x]->0).key))
}

/// The keys of `s` with every occurrence of `k` removed, order kept.
pub open spec fn remove_key(s: Seq<i32>, k: i32) -> Seq<i32>
    decreases s.len(),
{
    if s.len() == 0 {
        Seq::empty()
    } else if s.first() == k {
        remove_key(s.drop_first(), k)
    } else {
        seq![s.first()] + remove_key(s.drop_first(), k)
    }
}

/// The recency order after key `k` has been touched: `k` in front, the
/// remaining keys behind it in their old order.
pub open spec fn promote(s: Seq<i32>, k: i32) -> Seq<i32> {
    seq![k] + remove_key(s, k)
}

/// Removing `k` from a sequence that does not contain it changes
/// nothing.
proof fn lemma_remove_key_absent(s: Seq<i32>, k: i32)
    requires
        !s.contains(k),
    ensures
        remove_key(s, k) == s,
    decreases s.len(),
{
    if s.len() > 0 {
        assert(s[0] != k);
        assert forall|i: int| 0 <= i < s.drop_first().len() implies s.drop_first()[i] != k by {
            assert(s[i + 1] != k);
        }
        lemma_remove_key_absent(s.drop_first(), k);
        assert(remove_key(s, k) =~= s);
    } else {
        assert(remove_key(s, k) =~= s);
    }
}

/// After removing `k`, the key `k` is gone.
proof fn lemma_remove_key_gone(s: Seq<i32>, k: i32)
    ensures
        !remove_key(s, k).contains(k),
    decreases s.len(),
{
    if s.len() > 0 {
        lemma_remove_key_gone(s.drop_first(), k);
        if s.first() != k {
            let r = seq![s.first()] + remove_key(s.drop_first(), k);
            assert forall|i: int| 0 <= i < r.len() implies r[i] != k by {
                if i > 0 {
                    assert(r[i] == remove_key(s.drop_first(), k)[i - 1]);
                }
            }
        }
    }
}

/// On a duplicate-free sequence whose position `pos` holds `k`,
/// removing the key `k` is removing the element at `pos`.
proof fn lemma_remove_key_at(s: Seq<i32>, k: i32, pos: int)
    requires
        s.no_duplicates(),
        0 <= pos < s.len(),
        s[pos] == k,
    ensures
        remove_key(s, k) == s.remove(pos),
    decreases s.len(),
{
    if pos == 0 {
        assert(s.first() == k);
        assert forall|i: int| 0 <= i < s.drop_first().len() implies s.drop_first()[i] != k by {
            assert(s[i + 1] != s[0]);
        }
        lemma_remove_key_absent(s.drop_first(), k);
        assert(remove_key(s, k) =~= s.remove(0));
    } else {
        assert(s.first() != k);
        assert(s.drop_first().no_duplicates()) by {
            assert forall|i: int, j: int|
                0 <= i < s.drop_first().len() && 0 <= j < s.drop_first().len() && i != j implies s.drop_first()[i]
                != s.drop_first()[j] by {
                assert(s[i + 1] != s[j + 1]);
            }
        }
        assert(s.drop_first()[pos - 1] == k);
        lemma_remove_key_at(s.drop_first(), k, pos - 1);
        assert(remove_key(s, k) =~= s.remove(pos));
    }
}

/// Re-insertion is idempotent: storing under `k` and storing under `k`
/// again leaves exactly the contents and the recency order that the
/// second store alone would have produced, so `set(k, v1); set(k, v2)`
/// ends in the same state as `set(k, v2)` and cannot change the count.
pub proof fn lemma_reinsert<V>(m: Map<i32, V>, s: Seq<i32>, k: i32, v1: V, v2: V)
    ensures
        m.insert(k, v1).insert(k, v2) == m.insert(k, v2),
        promote(promote(s, k), k) == promote(s, k),
{
    assert(m.insert(k, v1).insert(k, v2) =~= m.insert(k, v2));
    let t = remove_key(s, k);
    lemma_remove_key_gone(s, k);
    assert(promote(s, k).first() == k);
    assert(promote(s, k).drop_first() =~= t);
    lemma_remove_key_absent(t, k);
    assert(remove_key(promote(s, k), k) == remove_key(t, k));
    assert(promote(promote(s, k), k) =~= promote(s, k));
}

impl<V: Clone> LRUCache<V> {
    /// The entry at position `i` of the recency order (0 = most recent).
    spec fn node_at(self, i: int) -> Node<V> {
        self.slots@[self.order@[i] as int]->0
    }

    /// The recency list links trace out exactly `order`: position 0 is
    /// `front`, the last position is `back`, `next` points one position
    /// forward (toward the front) and `prev` one position back.
    spec fn list_wf(self) -> bool {
        let ord = self.order@;
        &&& ord.no_duplicates()
        &&& forall|i: int|
            0 <= i < ord.len() ==> (#[trigger] ord[i]) < self.slots@.len() && self.slots@[ord[i] as int] is Some
        &&& forall|i: int|
            0 <= i < ord.len() ==> (#[trigger] self.node_at(i)).next == (if i == 0 {
                NIL
            } else {
                ord[i - 1]
            })
        &&& forall|i: int|
            0 <= i < ord.len() ==> (#[trigger] self.node_at(i)).prev == (if i == ord.len() - 1 {
                NIL
            } else {
                ord[i + 1]
            })
        &&& self.front == (if ord.len() == 0 {
            NIL
        } else {
            ord[0]
        })
        &&& self.back == (if ord.len() == 0 {
            NIL
        } else {
            ord[ord.len() - 1]
        })
    }

    /// The key index maps exactly the keys of the live entries, each to
    /// the slot that holds it.
    spec fn map_wf(self) -> bool {
        let ord = self.order@;
        &&& forall|i: int|
            0 <= i < ord.len() ==> self.page_map@.contains_key((#[trigger] self.node_at(i)).key)
                && self.page_map@[self.node_at(i).key] == ord[i]
        &&& forall|k: i32|
            #[trigger] self.page_map@.contains_key(k) ==> {
                let n = self.page_map@[k];
                &&& n < self.slots@.len()
                &&& self.slots@[n as int] is Some
                &&& (self.slots@[n as int]->0).key == k
                &&& self.order@.contains(n)
            }
    }

    /// Every slot is either live (then it sits in the recency order) or
    /// free (then the free list knows it); no slot is both.
    spec fn store_wf(self) -> bool {
        &&& forall|x: int|
            0 <= x < self.slots@.len() ==> ((#[trigger] self.slots@[x]) is Some <==> self.order@.contains(
                x as usize,
            ))
        &&& self.free@.no_duplicates()
        &&& forall|j: int|
            0 <= j < self.free@.len() ==> (#[trigger] self.free@[j]) < self.slots@.len()
                && self.slots@[self.free@[j] as int] is None
        &&& forall|x: int|
            0 <= x < self.slots@.len() && (#[trigger] self.slots@[x]) is None ==> self.free@.contains(
                x as usize,
            )
    }

    /// Well-formedness: the three structures agree and the counters are
    /// within bounds. Established by `new` and preserved by every
    /// operation.
    pub closed spec fn wf(self) -> bool {
        &&& self.list_wf()
        &&& self.map_wf()
        &&& self.store_wf()
        &&& 0 <= self.capacity
        &&& self.count == self.order@.len()
        &&& self.count <= self.capacity
    }

    /// The configured capacity, fixed at construction.
    pub closed spec fn spec_capacity(self) -> i32 {
        self.capacity
    }

    /// The number of entries currently held.
    pub closed spec fn spec_count(self) -> i32 {
        self.count
    }

    /// The live keys from most to least recently used.
    pub closed spec fn recency(self) -> Seq<i32> {
        Seq::new(self.order@.len(), |i: int| self.node_at(i).key)
    }

    /// The key-value pairs currently held.
    pub closed spec fn contents(self) -> Map<i32, V> {
        Map::new(
            |k: i32| self.page_map@.contains_key(k),
            |k: i32| (self.slots@[self.page_map@[k] as int]->0).val,
        )
    }

    /// Create a cache that holds at most `capacity` entries.
    pub fn new(capacity: i32) -> (c: LRUCache<V>)
        requires
            capacity >= 0,
        ensures
            c.wf(),
            c.spec_capacity() == capacity,
            c.spec_count() == 0,
            c.contents() == Map::<i32, V>::empty(),
            c.recency() == Seq::<i32>::empty(),
    {
        let c = LRUCache {
            capacity,
            count: 0,
            page_map: HashMap::new(),
            slots: Vec::new(),
            free: Vec::new(),
            front: NIL,
            back: NIL,
            order: Ghost(Seq::empty()),
        };
        proof {
            assert(c.contents() =~= Map::<i32, V>::empty());
            assert(c.recency() =~= Seq::<i32>::empty());
        }
        c
    }

    /// Unlink the entry in slot `n`, which sits at position `pos` of the
    /// recency order, by joining its neighbors directly; correct for the
    /// front, the back, and any interior position.
    fn remove(&mut self, n: usize, Ghost(pos): Ghost<int>)
        requires
            old(self).list_wf(),
            0 <= pos < old(self).order@.len(),
            old(self).order@[pos] == n,
        ensures
            final(self).list_wf(),
            final(self).order@ == old(self).order@.remove(pos),
            same_entries(old(self).slots@, final(self).slots@),
            final(self).page_map == old(self).page_map,
            final(self).free == old(self).free,
            final(self).count == old(self).count,
            final(self).capacity == old(self).capacity,
    {
        let ghost ord0 = self.order@;
        let (p, nx) = {
            let nd = self.slots[n].as_ref().unwrap();
            (nd.prev, nd.next)
        };
        proof {
            assert(self.slots.len() == self.slots@.len());
            assert(self.node_at(pos) == self.slots@[n as int]->0);
            assert(p == self.node_at(pos).prev);
            assert(nx == self.node_at(pos).next);
            assert(p == (if pos == ord0.len() - 1 {
                NIL
            } else {
                ord0[pos + 1]
            }));
            assert(nx == (if pos == 0 {
                NIL
            } else {
                ord0[pos - 1]
            }));
            // Neighbor slots are live, in range, and distinct from NIL.
            if pos < ord0.len() - 1 {
                assert(ord0[pos + 1] < self.slots@.len());
            }
            if pos > 0 {
                assert(ord0[pos - 1] < self.slots@.len());
            }
        }
        if p == NIL {
            self.back = nx;
        } else {
            set_next(&mut self.slots, p, nx);
        }
        if nx == NIL {
            self.front = p;
        } else {
            set_prev(&mut self.slots, nx, p);
        }
        self.order = Ghost(ord0.remove(pos));
        proof {
            ord0.remove_ensures(pos);
            let ordn = self.order@;
            assert forall|i: int| 0 <= i < ordn.len() implies (#[trigger] ordn[i])
                < self.slots@.len() && self.slots@[ordn[i] as int] is Some by {
                if i < pos {
                    assert(ordn[i] == ord0[i]);
                } else {
                    assert(ordn[i] == ord0[i + 1]);
                }
            }
            assert(ordn.no_duplicates()) by {
                assert forall|i: int, j: int|
                    0 <= i < ordn.len() && 0 <= j < ordn.len() && i != j implies ordn[i]
                    != ordn[j] by {
                    let i0 = if i < pos {
                        i
                    } else {
                        i + 1
                    };
                    let j0 = if j < pos {
                        j
                    } else {
                        j + 1
                    };
                    assert(ordn[i] == ord0[i0] && ordn[j] == ord0[j0] && i0 != j0);
                }
            }
            assert forall|i: int| 0 <= i < ordn.len() implies (#[trigger] self.node_at(i)).next == (
            if i == 0 {
                NIL
            } else {
                ordn[i - 1]
            }) && self.node_at(i).prev == (if i == ordn.len() - 1 {
                NIL
            } else {
                ordn[i + 1]
            }) by {
                let i0 = if i < pos {
                    i
                } else {
                    i + 1
                };
                assert(ordn[i] == ord0[i0]);
                assert(ord0[i0] != ord0[pos]);
                assert(old(self).node_at(i0).next == (if i0 == 0 {
                    NIL
                } else {
                    ord0[i0 - 1]
                }));
                assert(old(self).node_at(i0).prev == (if i0 == ord0.len() - 1 {
                    NIL
                } else {
                    ord0[i0 + 1]
                }));
                if i0 == pos + 1 {
                    assert(self.node_at(i) == (Node { next: nx, ..old(self).node_at(i0) }));
                } else if i0 == pos - 1 {
                    assert(self.node_at(i) == (Node { prev: p, ..old(self).node_at(i0) }));
                } else {
                    assert(self.node_at(i) == old(self).node_at(i0));
                }
            }
        }
    }

    /// Thread the live, unlinked entry in slot `n` in as the new front
    /// (most recently used), handling the empty-list case.
    fn add_to_front(&mut self, n: usize)
        requires
            old(self).list_wf(),
            n < old(self).slots@.len(),
            old(self).slots@[n as int] is Some,
            !old(self).order@.contains(n),
        ensures
            final(self).list_wf(),
            final(self).order@ == seq![n] + old(self).order@,
            same_entries(old(self).slots@, final(self).slots@),
            final(self).page_map == old(self).page_map,
            final(self).free == old(self).free,
            final(self).count == old(self).count,
            final(self).capacity == old(self).capacity,
    {
        let ghost ord0 = self.order@;
        proof {
            assert(self.slots.len() == self.slots@.len());
            if ord0.len() > 0 {
                assert(ord0[0] < self.slots@.len());
                assert(ord0[ord0.len() - 1] < self.slots@.len());
                assert(ord0[0] != n && ord0[ord0.len() - 1] != n);
                assert(self.back != NIL);
            } else {
                assert(self.back == NIL);
            }
        }
        let old_front = self.front;
        set_links(&mut self.slots, n, old_front, NIL);
        if self.back == NIL {
            self.back = n;
        } else {
            set_next(&mut self.slots, old_front, n);
        }
        self.front = n;
        self.order = Ghost(seq![n] + ord0);
        proof {
            let ordn = self.order@;
            assert forall|i: int| 0 <= i < ordn.len() implies (#[trigger] ordn[i])
                < self.slots@.len() && self.slots@[ordn[i] as int] is Some by {
                if i > 0 {
                    assert(ordn[i] == ord0[i - 1]);
                    assert(ord0[i - 1] != n);
                }
            }
            assert(ordn.no_duplicates()) by {
                assert forall|i: int, j: int|
                    0 <= i < ordn.len() && 0 <= j < ordn.len() && i != j implies ordn[i]
                    != ordn[j] by {
                    if i > 0 && j > 0 {
                        assert(ordn[i] == ord0[i - 1] && ordn[j] == ord0[j - 1]);
                    } else if i == 0 && j > 0 {
                        assert(ordn[j] == ord0[j - 1] && ord0[j - 1] != n);
                    } else if j == 0 && i > 0 {
                        assert(ordn[i] == ord0[i - 1] && ord0[i - 1] != n);
                    }
                }
            }
            assert forall|i: int| 0 <= i < ordn.len() implies (#[trigger] self.node_at(i)).next == (
            if i == 0 {
                NIL
            } else {
                ordn[i - 1]
            }) && self.node_at(i).prev == (if i == ordn.len() - 1 {
                NIL
            } else {
                ordn[i + 1]
            }) by {
                if i == 0 {
                    assert(ordn[0] == n);
                    assert(self.node_at(0).prev == old_front && self.node_at(0).next == NIL);
                    if ord0.len() > 0 {
                        assert(ordn[1] == ord0[0] && ord0[0] == old_front);
                    }
                } else {
                    let i0 = i - 1;
                    assert(ordn[i] == ord0[i0]);
                    assert(ord0[i0] != n);
                    assert(old(self).node_at(i0).next == (if i0 == 0 {
                        NIL
                    } else {
                        ord0[i0 - 1]
                    }));
                    assert(old(self).node_at(i0).prev == (if i0 == ord0.len() - 1 {
                        NIL
                    } else {
                        ord0[i0 + 1]
                    }));
                    if i0 == 0 {
                        assert(ord0[0] == old_front);
                        assert(self.node_at(i) == (Node { next: n, ..old(self).node_at(0) }));
                    } else {
                        assert(ord0[i0] != old_front);
                        assert(self.node_at(i) == old(self).node_at(i0));
                    }
                }
            }
        }
    }

    /// After the entry of `key`, which stood in slot `n` at position
    /// `pos`, has been unlinked and pushed back in at the front, the
    /// whole cache is well-formed again and the recency order is the
    /// old one with `key` promoted.
    proof fn lemma_restore_wf(self, pre: LRUCache<V>, n: usize, pos: int, key: i32)
        requires
            pre.wf(),
            0 <= pos < pre.order@.len(),
            pre.order@[pos] == n,
            pre.node_at(pos).key == key,
            self.list_wf(),
            self.order@ == seq![n] + pre.order@.remove(pos),
            same_keys(pre.slots@, self.slots@),
            self.page_map@ == pre.page_map@,
            self.free@ == pre.free@,
            self.count == pre.count,
            self.capacity == pre.capacity,
        ensures
            self.wf(),
            self.recency() == promote(pre.recency(), key),
    {
        let ord0 = pre.order@;
        let ordn = self.order@;
        ord0.remove_ensures(pos);
        // Same membership: the new order is a permutation of the old.
        assert forall|x: usize| #[trigger] ordn.contains(x) implies ord0.contains(x) by {
            let i = ordn.index_of(x);
            if i == 0 {
                assert(ord0[pos] == x);
            } else if i - 1 < pos {
                assert(ord0[i - 1] == x);
            } else {
                assert(ord0[i] == x);
            }
        }
        assert forall|x: usize| #[trigger] ord0.contains(x) implies ordn.contains(x) by {
            let j = ord0.index_of(x);
            if j == pos {
                assert(ordn[0] == x);
            } else if j < pos {
                assert(ordn[j + 1] == x);
            } else {
                assert(ordn[j] == x);
            }
        }
        // Each new position shows the same key as the old position it
        // came from.
        assert forall|i: int| 0 <= i < ordn.len() implies (#[trigger] self.node_at(i)).key == (if i
            == 0 {
            pre.node_at(pos).key
        } else if i - 1 < pos {
            pre.node_at(i - 1).key
        } else {
            pre.node_at(i).key
        }) by {
            if i == 0 {
                assert(ordn[0] == ord0[pos]);
            } else if i - 1 < pos {
                assert(ordn[i] == ord0[i - 1]);
            } else {
                assert(ordn[i] == ord0[i]);
            }
        }
        assert(self.map_wf()) by {
            assert forall|i: int| 0 <= i < ordn.len() implies self.page_map@.contains_key(
                (#[trigger] self.node_at(i)).key,
            ) && self.page_map@[self.node_at(i).key] == ordn[i] by {
                if i == 0 {
                    assert(pre.page_map@[pre.node_at(pos).key] == ord0[pos]);
                } else if i - 1 < pos {
                    assert(pre.page_map@[pre.node_at(i - 1).key] == ord0[i - 1]);
                } else {
                    assert(pre.page_map@[pre.node_at(i).key] == ord0[i]);
                }
            }
            assert forall|k: i32| #[trigger] self.page_map@.contains_key(k) implies {
                let m = self.page_map@[k];
                &&& m < self.slots@.len()
                &&& self.slots@[m as int] is Some
                &&& (self.slots@[m as int]->0).key == k
                &&& self.order@.contains(m)
            } by {
                assert(pre.page_map@.contains_key(k));
                let m = pre.page_map@[k];
                assert(m < pre.slots@.len() && pre.slots@[m as int] is Some);
                assert(ord0.contains(m));
            }
        }
        assert(self.store_wf()) by {
            assert forall|x: int| 0 <= x < self.slots@.len() implies ((#[trigger] self.slots@[x]) is Some
                <==> ordn.contains(x as usize)) by {
                assert(pre.slots@[x] is Some <==> ord0.contains(x as usize));
            }
        }
        // The recency order is the promoted one.
        pre.lemma_keys_distinct();
        lemma_remove_key_at(pre.recency(), key, pos);
        assert(pre.recency()[pos] == key);
        assert(self.recency() =~= promote(pre.recency(), key)) by {
            assert forall|i: int| 0 <= i < ordn.len() implies self.recency()[i] == promote(
                pre.recency(),
                key,
            )[i] by {
                if i > 0 && i - 1 < pos {
                    assert(pre.recency().remove(pos)[i - 1] == pre.recency()[i - 1]);
                } else if i > 0 {
                    assert(pre.recency().remove(pos)[i - 1] == pre.recency()[i]);
                }
            }
        }
    }

    /// Distinct slots hold distinct keys: the key index maps each key
    /// to one slot, so two positions of the recency order never share a
    /// key.
    proof fn lemma_keys_distinct(self)
        requires
            self.list_wf(),
            self.map_wf(),
        ensures
            self.recency().no_duplicates(),
    {
        let rec = self.recency();
        assert forall|i: int, j: int|
            0 <= i < rec.len() && 0 <= j < rec.len() && i != j implies rec[i] != rec[j] by {
            if self.node_at(i).key == self.node_at(j).key {
                assert(self.page_map@[self.node_at(i).key] == self.order@[i]);
                assert(self.page_map@[self.node_at(j).key] == self.order@[j]);
                assert(self.order@[i] == self.order@[j]);
            }
        }
    }

    /// Retrieve the value for `key`, promoting the entry to most
    /// recently used on a hit; a miss has no effect at all.
    pub fn get(&mut self, key: i32) -> (r: Option<V>)
        requires
            old(self).wf(),
        ensures
            final(self).wf(),
            final(self).spec_capacity() == old(self).spec_capacity(),
            final(self).spec_count() == old(self).spec_count(),
            final(self).contents() == old(self).contents(),
            match r {
                Option::None => !old(self).contents().contains_key(key) && final(self).recency()
                    == old(self).recency(),
                Option::Some(w) => old(self).contents().contains_key(key) && vstd::pervasive::cloned::<
                    V,
                >(old(self).contents()[key], w) && final(self).recency() == promote(
                    old(self).recency(),
                    key,
                ),
            },
    {
        let n_opt: Option<usize> = match self.page_map.get(&key) {
            Some(i) => Some(*i),
            None => None,
        };
        match n_opt {
            None => {
                proof {
                    assert(!self.page_map@.contains_key(key));
                    assert(!self.contents().contains_key(key));
                }
                None
            },
            Some(n) => {
                proof {
                    self.lemma_keys_distinct();
                }
                let ghost rec0 = self.recency();
                let ghost ord0 = self.order@;
                let ghost pos = ord0.index_of(n);
                proof {
                    assert(self.page_map@.contains_key(key) && self.page_map@[key] == n);
                    assert(ord0.contains(n));
                    assert(0 <= pos < ord0.len() && ord0[pos] == n);
                    assert(self.node_at(pos).key == key);
                    assert(rec0[pos] == key);
                    lemma_remove_key_at(rec0, key, pos);
                }
                if n != self.front {
                    proof {
                        assert(pos != 0);
                    }
                    self.remove(n, Ghost(pos));
                    self.add_to_front(n);
                    proof {
                        self.lemma_restore_wf(*old(self), n, pos, key);
                    }
                } else {
                    proof {
                        assert(pos == 0);
                        assert(self.recency() =~= promote(rec0, key));
                    }
                }
                let w = self.slots[n].as_ref().unwrap().val.clone();
                proof {
                    assert(vstd::pervasive::cloned::<V>(old(self).contents()[key], w));
                }
                Some(w)
            },
        }
    }

    /// Evict the least recently used entry: drop its key from the
    /// index, unlink it from the back of the list, and release its
    /// slot onto the free list.
    fn evict_back(&mut self)
        requires
            old(self).wf(),
            old(self).spec_count() > 0,
        ensures
            final(self).wf(),
            final(self).spec_capacity() == old(self).spec_capacity(),
            final(self).spec_count() == old(self).spec_count() - 1,
            final(self).contents() == old(self).contents().remove(old(self).recency().last()),
            final(self).recency() == old(self).recency().drop_last(),
    {
        let ghost pre = *self;
        let ghost ord0 = self.order@;
        let ghost last = ord0.len() - 1;
        proof {
            self.lemma_keys_distinct();
            assert(self.slots.len() == self.slots@.len());
            assert(ord0[last] < self.slots@.len());
            assert(self.back == ord0[last]);
        }
        let b = self.back;
        let bk = self.slots[b].as_ref().unwrap().key;
        proof {
            assert(bk == pre.node_at(last).key);
            assert(bk == pre.recency()[last]);
            assert(pre.page_map@.contains_key(bk) && pre.page_map@[bk] == b);
        }
        self.remove(b, Ghost(last));
        let ghost mid = *self;
        self.page_map.remove(&bk);
        self.slots[b] = None;
        self.free.push(b);
        self.count = self.count - 1;
        proof {
            let ordn = self.order@;
            assert(ordn == mid.order@ && ordn == ord0.remove(last));
            ord0.remove_ensures(last);
            assert(ordn =~= ord0.drop_last());
            assert(self.slots@ == mid.slots@.update(b as int, None::<Node<V>>));
            assert(self.page_map@ == pre.page_map@.remove(bk));
            assert(self.free@ == pre.free@.push(b));
            assert(!ordn.contains(b)) by {
                assert forall|i: int| 0 <= i < ordn.len() implies ordn[i] != b by {
                    assert(ord0[i] != ord0[last]);
                }
            }
            assert forall|i: int| 0 <= i < ordn.len() implies self.node_at(i) == mid.node_at(i)
                && (#[trigger] self.node_at(i)).key == pre.node_at(i).key && self.node_at(i).val
                == pre.node_at(i).val by {
                assert(ordn[i] != b);
                assert(ordn[i] == ord0[i]);
                assert(mid.slots@[ord0[i] as int] is Some);
                assert(pre.slots@[ord0[i] as int] is Some);
            }
            assert(self.list_wf()) by {
                assert forall|i: int| 0 <= i < ordn.len() implies (#[trigger] ordn[i])
                    < self.slots@.len() && self.slots@[ordn[i] as int] is Some by {
                    assert(ordn[i] != b);
                }
                assert forall|i: int| 0 <= i < ordn.len() implies (#[trigger] self.node_at(i)).next
                    == (if i == 0 {
                    NIL
                } else {
                    ordn[i - 1]
                }) && self.node_at(i).prev == (if i == ordn.len() - 1 {
                    NIL
                } else {
                    ordn[i + 1]
                }) by {
                    assert(ordn[i] != b);
                    assert(self.node_at(i) == mid.node_at(i));
                    assert(mid.node_at(i).next == (if i == 0 {
                        NIL
                    } else {
                        ordn[i - 1]
                    }));
                }
            }
            assert(self.map_wf()) by {
                assert forall|i: int| 0 <= i < ordn.len() implies self.page_map@.contains_key(
                    (#[trigger] self.node_at(i)).key,
                ) && self.page_map@[self.node_at(i).key] == ordn[i] by {
                    assert(ordn[i] != b);
                    assert(self.node_at(i).key == pre.node_at(i).key);
                    assert(pre.recency()[i] == pre.node_at(i).key);
                    assert(pre.recency()[i] != pre.recency()[last]);
                    assert(pre.page_map@.contains_key(pre.node_at(i).key));
                    assert(pre.page_map@[pre.node_at(i).key] == ord0[i]);
                }
                assert forall|k: i32| #[trigger] self.page_map@.contains_key(k) implies {
                    let m = self.page_map@[k];
                    &&& m < self.slots@.len()
                    &&& self.slots@[m as int] is Some
                    &&& (self.slots@[m as int]->0).key == k
                    &&& self.order@.contains(m)
                } by {
                    assert(pre.page_map@.contains_key(k) && k != bk);
                    let m = pre.page_map@[k];
                    assert(m != b);
                    let j = ord0.index_of(m);
                    assert(j != last);
                    assert(ordn[j] == m);
                }
            }
            assert(self.store_wf()) by {
                assert forall|x: int| 0 <= x < self.slots@.len() implies ((
                #[trigger] self.slots@[x]) is Some <==> ordn.contains(x as usize)) by {
                    if x == b {
                        assert(!ordn.contains(x as usize));
                    } else {
                        if pre.slots@[x] is Some {
                            let j = ord0.index_of(x as usize);
                            assert(j != last);
                            assert(ordn[j] == x as usize);
                        }
                        if ordn.contains(x as usize) {
                            let j = ordn.index_of(x as usize);
                            assert(ord0[j] == x as usize);
                        }
                    }
                }
                assert forall|x: int|
                    0 <= x < self.slots@.len() && (#[trigger] self.slots@[x]) is None implies self.free@.contains(
                    x as usize,
                ) by {
                    if x == b {
                        assert(self.free@[self.free@.len() - 1] == b);
                    } else {
                        assert(pre.free@.contains(x as usize));
                        let j = pre.free@.index_of(x as usize);
                        assert(self.free@[j] == x as usize);
                    }
                }
                assert(self.free@.no_duplicates()) by {
                    assert(!pre.free@.contains(b)) by {
                        if pre.free@.contains(b) {
                            let j = pre.free@.index_of(b);
                            assert(pre.slots@[pre.free@[j] as int] is None);
                        }
                    }
                }
            }
            assert(self.recency() =~= pre.recency().drop_last());
            assert(self.contents() =~= pre.contents().remove(bk)) by {
                assert forall|kk: i32| #[trigger] self.page_map@.contains_key(kk) implies self.contents()[kk]
                    == pre.contents()[kk] by {
                    let m = pre.page_map@[kk];
                    assert(kk != bk);
                    assert(m != b);
                    assert(m < pre.slots@.len() && pre.slots@[m as int] is Some);
                    assert(mid.slots@[m as int] is Some);
                    assert(self.slots@[m as int] == mid.slots@[m as int]);
                }
            }
        }
    }

    /// Store a key that is not present while there is room: take a
    /// slot from the free list (or grow the arena), fill it, link it
    /// in at the front and index it.
    #[verifier::rlimit(50)]
    fn insert_fresh(&mut self, key: i32, v: V)
        requires
            old(self).wf(),
            !old(self).contents().contains_key(key),
            old(self).spec_count() < old(self).spec_capacity(),
        ensures
            final(self).wf(),
            final(self).spec_capacity() == old(self).spec_capacity(),
            final(self).spec_count() == old(self).spec_count() + 1,
            final(self).contents() == old(self).contents().insert(key, v),
            final(self).recency() == seq![key] + old(self).recency(),
    {
        let ghost pre = *self;
        let ghost ord0 = self.order@;
        proof {
            assert(!pre.page_map@.contains_key(key));
            assert(self.slots.len() == self.slots@.len());
            assert(self.free.len() == self.free@.len());
        }
        let f: usize = match self.free.pop() {
            Some(fi) => {
                proof {
                    assert(pre.free@[pre.free@.len() - 1] == fi);
                    assert(fi < self.slots@.len() && self.slots@[fi as int] is None);
                    assert(!ord0.contains(fi));
                }
                self.slots[fi] = Some(Node::new(key, v));
                proof {
                    assert(self.free@ == pre.free@.drop_last());
                    assert forall|j: int| 0 <= j < self.free@.len() implies (
                    #[trigger] self.free@[j]) < self.slots@.len() && self.slots@[self.free@[j] as int] is None
                        && self.free@[j] != fi by {
                        assert(self.free@[j] == pre.free@[j]);
                        assert(pre.free@[j] != pre.free@[pre.free@.len() - 1]);
                    }
                    assert(self.free@.no_duplicates());
                    assert forall|x: int|
                        0 <= x < self.slots@.len() && (#[trigger] self.slots@[x]) is None implies self.free@.contains(
                        x as usize,
                    ) by {
                        assert(x != fi);
                        assert(pre.slots@[x] is None);
                        assert(pre.free@.contains(x as usize));
                        let j = pre.free@.index_of(x as usize);
                        assert(j != pre.free@.len() - 1);
                        assert(self.free@[j] == x as usize);
                    }
                    assert(forall|x: int|
                        0 <= x < self.slots@.len() && x != fi ==> self.slots@[x] == pre.slots@[x]);
                }
                fi
            },
            None => {
                let fi = self.slots.len();
                proof {
                    assert forall|i: int| 0 <= i < ord0.len() implies ord0[i] != fi as usize by {
                        assert(ord0[i] < pre.slots@.len());
                    }
                    assert(!ord0.contains(fi));
                    assert(pre.free@.len() == 0);
                }
                self.slots.push(Some(Node::new(key, v)));
                proof {
                    assert(self.free@ == pre.free@);
                    assert(self.free@.no_duplicates());
                    assert forall|x: int|
                        0 <= x < self.slots@.len() && (#[trigger] self.slots@[x]) is None implies self.free@.contains(
                        x as usize,
                    ) by {
                        assert(x != fi);
                        assert(pre.slots@[x] is None);
                        assert(pre.free@.contains(x as usize));
                    }
                    assert(forall|x: int|
                        0 <= x < self.slots@.len() && x != fi ==> self.slots@[x] == pre.slots@[x]);
                }
                fi
            },
        };
        let ghost s1 = *self;
        proof {
            assert(s1.slots@[f as int] is Some && (s1.slots@[f as int]->0).key == key && (
            s1.slots@[f as int]->0).val == v);
            assert(forall|j: int|
                0 <= j < s1.free@.len() ==> (#[trigger] s1.free@[j]) < s1.slots@.len()
                    && s1.slots@[s1.free@[j] as int] is None && s1.free@[j] != f);
            // The arena changed only in slot `f`, which the order does
            // not mention, so the list is untouched.
            assert(!ord0.contains(f));
            assert forall|i: int| 0 <= i < ord0.len() implies ord0[i] != f by {
                if ord0[i] == f {
                    assert(ord0.contains(f));
                }
            }
            assert(self.list_wf()) by {
                assert forall|i: int| 0 <= i < ord0.len() implies (#[trigger] ord0[i])
                    < self.slots@.len() && self.slots@[ord0[i] as int] is Some by {
                    assert(ord0[i] != f);
                }
                assert forall|i: int| 0 <= i < ord0.len() implies (#[trigger] self.node_at(i)).next
                    == (if i == 0 {
                    NIL
                } else {
                    ord0[i - 1]
                }) && self.node_at(i).prev == (if i == ord0.len() - 1 {
                    NIL
                } else {
                    ord0[i + 1]
                }) by {
                    assert(ord0[i] != f);
                    assert(self.node_at(i) == pre.node_at(i));
                }
            }
        }
        self.add_to_front(f);
        let ghost s2 = *self;
        self.page_map.insert(key, f);
        self.count = self.count + 1;
        proof {
            let ordn = self.order@;
            assert(ordn == seq![f] + ord0);
            assert(self.slots@ == s2.slots@ && self.order@ == s2.order@ && self.front == s2.front
                && self.back == s2.back && self.free@ == s2.free@);
            assert(self.list_wf()) by {
                assert(s2.list_wf());
                assert forall|i: int| 0 <= i < ordn.len() implies (#[trigger] ordn[i])
                    < self.slots@.len() && self.slots@[ordn[i] as int] is Some by {
                    assert(s2.slots@[s2.order@[i] as int] is Some);
                }
                assert forall|i: int| 0 <= i < ordn.len() implies (#[trigger] self.node_at(i)).next
                    == (if i == 0 {
                    NIL
                } else {
                    ordn[i - 1]
                }) && self.node_at(i).prev == (if i == ordn.len() - 1 {
                    NIL
                } else {
                    ordn[i + 1]
                }) by {
                    assert(self.node_at(i) == s2.node_at(i));
                    assert(s2.node_at(i).next == (if i == 0 {
                        NIL
                    } else {
                        s2.order@[i - 1]
                    }));
                    assert(s2.node_at(i).prev == (if i == s2.order@.len() - 1 {
                        NIL
                    } else {
                        s2.order@[i + 1]
                    }));
                }
            }
            assert(self.slots@[f as int]->0.key == key && self.slots@[f as int]->0.val == v);
            assert forall|i: int| 1 <= i < ordn.len() implies ordn[i] != f && self.node_at(i).key
                == pre.node_at(i - 1).key && self.node_at(i).val == pre.node_at(i - 1).val by {
                assert(ordn[i] == ord0[i - 1]);
                assert(ord0[i - 1] != f);
            }
            assert(self.map_wf()) by {
                assert forall|i: int| 0 <= i < ordn.len() implies self.page_map@.contains_key(
                    (#[trigger] self.node_at(i)).key,
                ) && self.page_map@[self.node_at(i).key] == ordn[i] by {
                    if i > 0 {
                        assert(pre.page_map@.contains_key(pre.node_at(i - 1).key));
                        assert(pre.node_at(i - 1).key != key);
                    }
                }
                assert forall|k: i32| #[trigger] self.page_map@.contains_key(k) implies {
                    let m = self.page_map@[k];
                    &&& m < self.slots@.len()
                    &&& self.slots@[m as int] is Some
                    &&& (self.slots@[m as int]->0).key == k
                    &&& self.order@.contains(m)
                } by {
                    if k == key {
                        assert(ordn[0] == f);
                    } else {
                        assert(pre.page_map@.contains_key(k));
                        let m = pre.page_map@[k];
                        assert(m != f);
                        let j = ord0.index_of(m);
                        assert(ordn[j + 1] == m);
                    }
                }
            }
            assert(self.free@ == s1.free@ && same_entries(s1.slots@, self.slots@));
            assert(self.store_wf()) by {
                assert forall|x: int| 0 <= x < self.slots@.len() implies ((
                #[trigger] self.slots@[x]) is Some <==> ordn.contains(x as usize)) by {
                    assert(ordn[0] == f);
                    if x == f {
                    } else {
                        assert(s1.slots@[x] == pre.slots@[x]);
                        if pre.slots@[x] is Some {
                            let j = ord0.index_of(x as usize);
                            assert(ordn[j + 1] == x as usize);
                        }
                        if ordn.contains(x as usize) {
                            let j = ordn.index_of(x as usize);
                            assert(ordn[j] == x as usize && ordn[0] == f);
                            assert(j != 0);
                            assert(ord0[j - 1] == x as usize);
                            assert(pre.slots@[x] is Some);
                        }
                    }
                }
                assert forall|j: int| 0 <= j < self.free@.len() implies (
                #[trigger] self.free@[j]) < self.slots@.len()
                    && self.slots@[self.free@[j] as int] is None by {
                    assert(s1.free@[j] < s1.slots@.len() && s1.slots@[s1.free@[j] as int] is None);
                }
                assert(self.free@.no_duplicates());
                assert forall|x: int|
                    0 <= x < self.slots@.len() && (#[trigger] self.slots@[x]) is None implies self.free@.contains(
                    x as usize,
                ) by {
                    assert(s1.slots@[x] is None);
                    assert(s1.free@.contains(x as usize));
                    let j = s1.free@.index_of(x as usize);
                    assert(self.free@[j] == x as usize);
                }
            }
            assert(self.recency() =~= seq![key] + pre.recency());
            assert(self.contents() =~= pre.contents().insert(key, v)) by {
                assert forall|kk: i32| #[trigger] pre.page_map@.contains_key(kk) implies self.page_map@.contains_key(
                    kk,
                ) && self.contents()[kk] == pre.contents()[kk] by {
                    let m = pre.page_map@[kk];
                    assert(m != f);
                    assert(s1.slots@[m as int] == pre.slots@[m as int]);
                    assert(pre.slots@[m as int] is Some);
                }
            }
        }
    }

    /// Store `value` under `key`. An existing entry is updated in place
    /// and promoted; a fresh key is inserted at the front, evicting the
    /// least recently used entry when the cache is full. On a cache of
    /// capacity 0 nothing is ever stored.
    pub fn set(&mut self, key: i32, value: V)
        requires
            old(self).wf(),
        ensures
            final(self).wf(),
            final(self).spec_capacity() == old(self).spec_capacity(),
            0 <= final(self).spec_count() <= final(self).spec_capacity(),
            old(self).contents().contains_key(key) ==> {
                &&& final(self).contents() == old(self).contents().insert(key, value)
                &&& final(self).recency() == promote(old(self).recency(), key)
                &&& final(self).spec_count() == old(self).spec_count()
            },
            !old(self).contents().contains_key(key) && old(self).spec_count() < old(self).spec_capacity() ==> {
                &&& final(self).contents() == old(self).contents().insert(key, value)
                &&& final(self).recency() == seq![key] + old(self).recency()
                &&& final(self).spec_count() == old(self).spec_count() + 1
            },
            !old(self).contents().contains_key(key) && old(self).spec_count() == old(self).spec_capacity() && old(self).spec_capacity() > 0 ==> {
                &&& final(self).contents() == old(self).contents().remove(
                    old(self).recency().last(),
                ).insert(key, value)
                &&& final(self).recency() == seq![key] + old(self).recency().drop_last()
                &&& final(self).spec_count() == old(self).spec_count()
            },
            old(self).spec_capacity() == 0 ==> *final(self) == *old(self),
            old(self).spec_capacity() > 0 ==> final(self).contents().contains_key(key) && final(self).contents()[key] == value && final(self).recency().first() == key,
    {
        let n_opt: Option<usize> = match self.page_map.get(&key) {
            Some(i) => Some(*i),
            None => None,
        };
        match n_opt {
            Some(n) => {
                proof {
                    self.lemma_keys_distinct();
                }
                let ghost pre = *self;
                let ghost ord0 = self.order@;
                let ghost pos = ord0.index_of(n);
                proof {
                    assert(pre.page_map@.contains_key(key) && pre.page_map@[key] == n);
                    assert(ord0.contains(n));
                    assert(0 <= pos < ord0.len() && ord0[pos] == n);
                    assert(pre.node_at(pos).key == key);
                }
                self.remove(n, Ghost(pos));
                let ghost mid = *self;
                set_val(&mut self.slots, n, value);
                proof {
                    let ordm = self.order@;
                    assert(ordm == ord0.remove(pos));
                    ord0.remove_ensures(pos);
                    assert(!ordm.contains(n)) by {
                        assert forall|i: int| 0 <= i < ordm.len() implies ordm[i] != n by {
                            if i < pos {
                                assert(ordm[i] == ord0[i]);
                            } else {
                                assert(ordm[i] == ord0[i + 1]);
                            }
                            assert(ord0[pos] == n);
                        }
                    }
                    assert(self.slots@ == mid.slots@.update(
                        n as int,
                        Some((Node { val: value, ..mid.slots@[n as int]->0 })),
                    ));
                    assert(self.list_wf()) by {
                        assert forall|i: int| 0 <= i < ordm.len() implies (#[trigger] ordm[i])
                            < self.slots@.len() && self.slots@[ordm[i] as int] is Some by {
                            assert(ordm[i] != n);
                        }
                        assert forall|i: int|
                            0 <= i < ordm.len() implies (#[trigger] self.node_at(i)).next == (if i
                            == 0 {
                            NIL
                        } else {
                            ordm[i - 1]
                        }) && self.node_at(i).prev == (if i == ordm.len() - 1 {
                            NIL
                        } else {
                            ordm[i + 1]
                        }) by {
                            assert(ordm[i] != n);
                            assert(self.node_at(i) == mid.node_at(i));
                        }
                    }
                    assert(self.slots@[n as int] is Some);
                }
                self.add_to_front(n);
                proof {
                    self.lemma_restore_wf(pre, n, pos, key);
                    assert(self.slots@[n as int]->0.val == value);
                    assert(self.contents() =~= pre.contents().insert(key, value)) by {
                        assert forall|kk: i32| #[trigger] pre.page_map@.contains_key(kk) && kk
                            != key implies self.contents()[kk] == pre.contents()[kk] by {
                            let m = pre.page_map@[kk];
                            assert(m != n);
                        }
                    }
                    assert(self.recency().first() == key);
                }
            },
            None => {
                proof {
                    assert(!old(self).contents().contains_key(key));
                }
                if self.count == self.capacity {
                    if self.capacity == 0 {
                        return ;
                    }
                    self.evict_back();
                    proof {
                        assert(!self.contents().contains_key(key));
                    }
                }
                self.insert_fresh(key, value);
                proof {
                    assert(self.recency().first() == key);
                }
            },
        }
    }

    /// The abstract model a well-formed cache presents: the recency
    /// order lists each live key exactly once, its length is the entry
    /// count, the count never exceeds the capacity, and the keys in
    /// recency order are exactly the keys that are retrievable.
    pub proof fn lemma_model(self)
        requires
            self.wf(),
        ensures
            self.recency().no_duplicates(),
            self.recency().len() == self.spec_count(),
            0 <= self.spec_count() <= self.spec_capacity(),
            forall|k: i32| #[trigger]
                self.contents().contains_key(k) <==> self.recency().contains(k),
    {
        self.lemma_keys_distinct();
        assert forall|k: i32| #[trigger]
            self.contents().contains_key(k) <==> self.recency().contains(k) by {
            if self.page_map@.contains_key(k) {
                let m = self.page_map@[k];
                let j = self.order@.index_of(m);
                assert(self.order@[j] == m);
                assert(self.recency()[j] == k);
            }
            if self.recency().contains(k) {
                let i = self.recency().index_of(k);
                assert(self.node_at(i).key == k);
                assert(self.page_map@.contains_key(k));
            }
        }
    }

    /// Touching a key protects it from the next eviction: while at
    /// least one other entry is present, the most recently used key is
    /// never the one at the back, so an eviction (which removes the
    /// back) cannot remove it.
    pub proof fn lemma_recent_key_not_evicted(self, k: i32)
        requires
            self.wf(),
            self.recency().len() >= 2,
            self.recency().first() == k,
        ensures
            self.recency().last() != k,
    {
        self.lemma_keys_distinct();
        assert(self.recency()[0] != self.recency()[self.recency().len() - 1]);
    }

    /// The number of entries currently held.
    pub fn count(&self) -> (c: i32)
        ensures
            c == self.spec_count(),
    {
        self.count
    }

    /// The capacity this cache was constructed with.
    pub fn capacity(&self) -> (c: i32)
        ensures
            c == self.spec_capacity(),
    {
        self.capacity
    }
}

/// Point the `next` link of the entry in slot `i` at `x`.
fn set_next<V>(slots: &mut Vec<Option<Node<V>>>, i: usize, x: usize)
    requires
        i < old(slots).len(),
        old(slots)@[i as int] is Some,
    ensures
        final(slots)@ == old(slots)@.update(
            i as int,
            Some((Node { next: x, ..old(slots)@[i as int]->0 })),
        ),
{
    match &mut slots[i] {
        Some(nd) => {
            nd.next = x;
        },
        None => {},
    }
}

/// Point the `prev` link of the entry in slot `i` at `x`.
fn set_prev<V>(slots: &mut Vec<Option<Node<V>>>, i: usize, x: usize)
    requires
        i < old(slots).len(),
        old(slots)@[i as int] is Some,
    ensures
        final(slots)@ == old(slots)@.update(
            i as int,
            Some((Node { prev: x, ..old(slots)@[i as int]->0 })),
        ),
{
    match &mut slots[i] {
        Some(nd) => {
            nd.prev = x;
        },
        None => {},
    }
}

/// Set both links of the entry in slot `i`, leaving key and value as
/// they are.
fn set_links<V>(slots: &mut Vec<Option<Node<V>>>, i: usize, prev: usize, next: usize)
    requires
        i < old(slots).len(),
        old(slots)@[i as int] is Some,
    ensures
        final(slots)@ == old(slots)@.update(
            i as int,
            Some((Node { prev, next, ..old(slots)@[i as int]->0 })),
        ),
{
    match &mut slots[i] {
        Some(nd) => {
            nd.prev = prev;
            nd.next = next;
        },
        None => {},
    }
}

/// Overwrite the value stored in slot `i` in place.
fn set_val<V>(slots: &mut Vec<Option<Node<V>>>, i: usize, v: V)
    requires
        i < old(slots).len(),
        old(slots)@[i as int] is Some,
    ensures
        final(slots)@ == old(slots)@.update(
            i as int,
            Some((Node { val: v, ..old(slots)@[i as int]->0 })),
        ),
{
    match &mut slots[i] {
        Some(nd) => {
            nd.val = v;
        },
        None => {},
    }
}

} // verus!
