//! The LRU cache core: a dense arena of nodes threaded into a doubly-linked
//! recency chain by slot indices, plus the key directory derived from it.

use vstd::prelude::*;

verus! {

/// A key type the cache can compare: equality of keys must agree with
/// equality of their mathematical views.
pub trait CacheKey: View + Sized {
    fn key_eq(&self, other: &Self) -> (r: bool)
        ensures
            r <==> self@ == other@,
    ;
}

impl CacheKey for String {
    fn key_eq(&self, other: &Self) -> (r: bool) {
        self.eq(other)
    }
}

impl<'a> CacheKey for &'a str {
    fn key_eq(&self, other: &Self) -> (r: bool) {
        let a: String = (*self).to_owned();
        let b: String = (*other).to_owned();
        a.eq(&b)
    }
}

impl CacheKey for Vec<u8> {
    fn key_eq(&self, other: &Self) -> (r: bool) {
        if self.len() != other.len() {
            return false;
        }
        let mut i: usize = 0;
        while i < self.len()
            invariant
                i <= self@.len(),
                self@.len() == other@.len(),
                forall|j: int| 0 <= j < i ==> self@[j] == other@[j],
            decreases self@.len() - i,
        {
            if self[i] != other[i] {
                return false;
            }
            i = i + 1;
        }
        proof {
            assert(self@ =~= other@);
        }
        true
    }
}

/// True when some entry of `s` carries the key `k`.
pub open spec fn has_key<A, B>(s: Seq<(A, B)>, k: A) -> bool {
    exists|p: int| 0 <= p < s.len() && s[p].0 == k
}

/// The position of the entry carrying key `k`, when one exists.
pub open spec fn key_at<A, B>(s: Seq<(A, B)>, k: A) -> int {
    choose|p: int| 0 <= p < s.len() && s[p].0 == k
}

/// The sequence `s` with its element at position `p` moved to the front.
pub open spec fn promote<A>(s: Seq<A>, p: int) -> Seq<A> {
    seq![s[p]] + s.remove(p)
}

/// What one `put` of `(k, v)` does to a recency sequence (head first) under
/// capacity `cap`: an existing key is rewritten and promoted, a fresh key is
/// prepended, and at capacity the least recent entry is dropped first.
pub open spec fn put_step<A, B>(cap: int, s: Seq<(A, B)>, k: A, v: B) -> Seq<(A, B)> {
    if has_key(s, k) {
        seq![(k, v)] + s.remove(key_at(s, k))
    } else if s.len() < cap {
        seq![(k, v)] + s
    } else {
        seq![(k, v)] + s.drop_last()
    }
}

/// The common capability of a bounded cache, over which eviction policies
/// can be interchanged: construction with a fixed capacity, insertion,
/// lookup and size. The least-recently-used policy below is one conforming
/// implementation.
pub trait Cache<K: CacheKey, V>: Sized {
    /// The abstract state: key views and values, most recent first.
    spec fn model(&self) -> Seq<(<K as View>::V, V)>;

    /// The fixed capacity the cache was created with.
    spec fn capacity(&self) -> int;

    /// The implementation's internal invariant.
    spec fn inv(&self) -> bool;

    /// Creates an empty cache that holds at most `capacity` entries.
    fn new(capacity: usize) -> (r: Self)
        requires
            capacity > 0,
        ensures
            r.inv(),
            r.capacity() == capacity,
            r.model() == Seq::<(<K as View>::V, V)>::empty(),
    ;

    /// Inserts or updates a pair; at capacity an insertion evicts first.
    fn put(&mut self, key: K, value: V)
        requires
            old(self).inv(),
        ensures
            final(self).inv(),
            final(self).capacity() == old(self).capacity(),
            final(self).model().len() <= final(self).capacity(),
            has_key(final(self).model(), key@),
    ;

    /// Looks a key up, updating the recency bookkeeping on a hit.
    fn get<'a>(&'a mut self, key: &K) -> (r: Option<&'a V>)
        requires
            old(self).inv(),
        ensures
            final(self).inv(),
            final(self).capacity() == old(self).capacity(),
            r is Some <==> has_key(old(self).model(), key@),
    ;

    /// The number of entries currently stored.
    fn len(&self) -> (r: usize)
        requires
            self.inv(),
        ensures
            r == self.model().len(),
    ;
}

/// One arena slot: the entry itself and the two neighbour indices that
/// thread it into the recency chain. `prev` points toward the head (more
/// recent), `next` toward the tail (less recent).
pub(crate) struct Node<K, V> {
    pub(crate) key: K,
    pub(crate) value: V,
    pub(crate) prev: Option<usize>,
    pub(crate) next: Option<usize>,
}

/// A least-recently-used cache of fixed capacity.
///
/// Entries live in a dense arena; the recency chain links arena slots by
/// integer index, so `get`, `put` and eviction rewrite a constant number of
/// links. The ghost `order` sequence lists the slots from head (most
/// recent) to tail (least recent) and is the spine of the invariant.
pub struct LruCache<K, V> {
    capacity: usize,
    arena: Vec<Node<K, V>>,
    head: Option<usize>,
    tail: Option<usize>,
    order: Ghost<Seq<int>>,
}

impl<K: CacheKey, V> LruCache<K, V> {
    /// The fixed capacity the cache was created with.
    pub closed spec fn cap(&self) -> int {
        self.capacity as int
    }

    /// The abstract state: the key views and values of all entries, from
    /// most recently used (head) to least recently used (tail).
    pub closed spec fn entries(&self) -> Seq<(<K as View>::V, V)> {
        Seq::new(
            self.order@.len(),
            |p: int| (self.arena@[self.order@[p]].key@, self.arena@[self.order@[p]].value),
        )
    }

    /// The position in the recency chain of the entry stored in arena slot
    /// `i`.
    pub closed spec fn slot_position(&self, i: int) -> int {
        choose|p: int| 0 <= p < self.order@.len() && self.order@[p] == i
    }

    spec fn order_ok(&self) -> bool {
        let n = self.arena@.len() as int;
        &&& self.order@.len() == n
        &&& (forall|p: int| 0 <= p < n ==> 0 <= #[trigger] self.order@[p] < n)
        &&& (forall|i: int| 0 <= i < n ==> self.order@.contains(i))
        &&& (forall|p: int, q: int|
            0 <= p < q < n ==> self.order@[p] != self.order@[q])
    }

    spec fn links_ok(&self) -> bool {
        let n = self.arena@.len() as int;
        &&& (forall|p: int|
            0 <= p < n ==> #[trigger] self.arena@[self.order@[p]].prev == (if p == 0 {
                None::<usize>
            } else {
                Some(self.order@[p - 1] as usize)
            }))
        &&& (forall|p: int|
            0 <= p < n ==> #[trigger] self.arena@[self.order@[p]].next == (if p == n - 1 {
                None::<usize>
            } else {
                Some(self.order@[p + 1] as usize)
            }))
    }

    spec fn ends_ok(&self) -> bool {
        let n = self.arena@.len() as int;
        &&& self.head == (if n == 0 {
            None::<usize>
        } else {
            Some(self.order@[0] as usize)
        })
        &&& self.tail == (if n == 0 {
            None::<usize>
        } else {
            Some(self.order@[n - 1] as usize)
        })
    }

    spec fn keys_ok(&self) -> bool {
        let n = self.arena@.len() as int;
        forall|i: int, j: int|
            0 <= i < j < n ==> self.arena@[i].key@ != self.arena@[j].key@
    }

    /// The structural invariant: the arena is no larger than the capacity,
    /// the ghost order is a permutation of the arena slots, the `prev` and
    /// `next` links realise exactly that order with `head` and `tail` at its
    /// two ends, and no two slots carry the same key.
    pub closed spec fn wf(&self) -> bool {
        &&& 0 < self.capacity
        &&& self.arena@.len() <= self.capacity
        &&& self.order_ok()
        &&& self.links_ok()
        &&& self.ends_ok()
        &&& self.keys_ok()
    }

    /// Creates an empty cache that will hold at most `capacity` entries.
    pub fn new(capacity: usize) -> (r: Self)
        requires
            capacity > 0,
        ensures
            r.wf(),
            r.cap() == capacity,
            r.entries() == Seq::<(<K as View>::V, V)>::empty(),
    {
        let r = LruCache {
            capacity,
            arena: Vec::new(),
            head: None,
            tail: None,
            order: Ghost(Seq::empty()),
        };
        proof {
            assert(r.entries() =~= Seq::<(<K as View>::V, V)>::empty());
        }
        r
    }

    /// The key directory: finds the arena slot holding `key`, if any. The
    /// directory is kept in lock-step with the arena by construction, since
    /// it is read off the arena itself.
    fn find_slot(&self, key: &K) -> (r: Option<usize>)
        requires
            self.wf(),
        ensures
            match r {
                Some(i) => i < self.arena@.len() && self.arena@[i as int].key@ == key@,
                None => forall|i: int| 0 <= i < self.arena@.len() ==> self.arena@[i].key@ != key@,
            },
    {
        let mut i: usize = 0;
        while i < self.arena.len()
            invariant
                self.wf(),
                i <= self.arena@.len(),
                forall|j: int| 0 <= j < i ==> self.arena@[j].key@ != key@,
            decreases self.arena@.len() - i,
        {
            if self.arena[i].key.key_eq(key) {
                return Some(i);
            }
            i = i + 1;
        }
        None
    }

    /// Detaches the entry in arena slot `index` from the recency chain and
    /// relinks it as the new head; a no-op when it is the head already. Only
    /// a constant number of neighbour links is rewritten.
    #[verifier::rlimit(80)]
    pub fn move_to_head(&mut self, index: usize)
        requires
            old(self).wf(),
            index < old(self).entries().len(),
        ensures
            final(self).wf(),
            final(self).cap() == old(self).cap(),
            0 <= old(self).slot_position(index as int) < old(self).entries().len(),
            final(self).entries() == promote(
                old(self).entries(),
                old(self).slot_position(index as int),
            ),
            final(self).entries()[0] == old(self).entries()[old(self).slot_position(
                index as int,
            )],
    {
        let ghost s0 = *self;
        let ghost n = s0.arena@.len() as int;
        proof {
            assert(s0.order@.contains(index as int));
            assert(0 <= s0.slot_position(index as int) < n && s0.order@[s0.slot_position(
                index as int,
            )] == index as int);
        }
        let ghost p = s0.slot_position(index as int);
        let at_head = match self.head {
            Some(h) => h == index,
            None => false,
        };
        if at_head {
            proof {
                assert(s0.order@[0] == index as int);
                assert(p == 0);
                assert(promote(s0.entries(), 0) =~= s0.entries());
            }
            return;
        }
        proof {
            assert(p != 0);
            assert(n >= 2);
        }
        let prev_idx = self.arena[index].prev;
        let next_idx = self.arena[index].next;
        proof {
            assert(prev_idx == Some(s0.order@[p - 1] as usize));
            assert(0 <= s0.order@[p - 1] < n);
            assert(next_idx == (if p == n - 1 {
                None::<usize>
            } else {
                Some(s0.order@[p + 1] as usize)
            }));
        }
        if let Some(prev) = prev_idx {
            self.arena[prev].next = next_idx;
        }
        if let Some(next) = next_idx {
            self.arena[next].prev = prev_idx;
        }
        let at_tail = match self.tail {
            Some(t) => t == index,
            None => false,
        };
        if at_tail {
            self.tail = prev_idx;
        }
        if let Some(old_head) = self.head {
            self.arena[old_head].prev = Some(index);
        }
        let head_now = self.head;
        self.arena[index].next = head_now;
        self.arena[index].prev = None;
        self.head = Some(index);
        self.order = Ghost(seq![index as int] + s0.order@.remove(p));
        proof {
            let o0 = s0.order@;
            let o1 = self.order@;
            let a1 = self.arena@;
            assert(o1.len() == n);
            assert forall|q: int| 0 <= q < n implies o1[q] == (if q == 0 {
                index as int
            } else if q <= p {
                o0[q - 1]
            } else {
                o0[q]
            }) by {
                if q > 0 {
                    assert(o1[q] == o0.remove(p)[q - 1]);
                }
            }
            // Only links were rewritten; every slot keeps its key and value.
            assert(a1.len() == n);
            assert(forall|i: int|
                0 <= i < n ==> a1[i].key == s0.arena@[i].key && a1[i].value == s0.arena@[i].value);
            // The rewritten links realise the new order.
            assert(p == n - 1 ==> at_tail);
            assert forall|i: int| 0 <= i < n implies o1.contains(i) by {
                if i == index as int {
                    assert(o1[0] == i);
                } else {
                    assert(o0.contains(i));
                    let j = choose|j: int| 0 <= j < n && o0[j] == i;
                    if j < p {
                        assert(o1[j + 1] == i);
                    } else if j > p {
                        assert(o1[j] == i);
                    } else {
                        assert(false);
                    }
                }
                assert(exists|q: int| 0 <= q < o1.len() && o1[q] == i);
            }
            assert forall|q: int, r: int| 0 <= q < r < n implies o1[q] != o1[r] by {
                if q == 0 {
                    assert(o1[0] == o0[p]);
                } else {
                }
            }
            assert(self.order_ok());
            assert forall|q: int| 0 <= q < n implies #[trigger] a1[o1[q]].prev == (if q == 0 {
                None::<usize>
            } else {
                Some(o1[q - 1] as usize)
            }) && a1[o1[q]].next == (if q == n - 1 {
                None::<usize>
            } else {
                Some(o1[q + 1] as usize)
            }) by {
                if q == 0 {
                } else if q == 1 {
                    assert(o1[q] == o0[0]);
                } else if q <= p {
                    assert(o1[q] == o0[q - 1]);
                } else {
                    assert(o1[q] == o0[q]);
                }
            }
            assert(self.links_ok());
            assert(self.ends_ok());
            assert(self.keys_ok());
            assert(self.wf());
            assert(self.entries() =~= promote(s0.entries(), p));
        }
    }

    /// A reference to the value of the most recently used entry.
    fn head_value(&self) -> (r: &V)
        requires
            self.wf(),
            self.entries().len() > 0,
        ensures
            *r == self.entries()[0].1,
    {
        let h = match self.head {
            Some(h) => h,
            None => 0,
        };
        proof {
            assert(h == self.order@[0]);
        }
        &self.arena[h].value
    }

    /// Looks a key up. On a hit the entry is promoted to the head of the
    /// recency chain as a side effect and a reference to its value is
    /// returned; a miss changes nothing.
    pub fn get<'a>(&'a mut self, key: &K) -> (r: Option<&'a V>)
        requires
            old(self).wf(),
        ensures
            final(self).wf(),
            final(self).cap() == old(self).cap(),
            !has_key(old(self).entries(), key@) ==> r is None && final(self).entries() == old(
                self,
            ).entries(),
            has_key(old(self).entries(), key@) ==> {
                let p = key_at(old(self).entries(), key@);
                &&& final(self).entries() == promote(old(self).entries(), p)
                &&& r matches Some(v) && *v == old(self).entries()[p].1
            },
    {
        let ghost s0 = *self;
        match self.find_slot(key) {
            Some(i) => {
                proof {
                    assert(s0.order@.contains(i as int));
                    let q = choose|q: int|
                        0 <= q < s0.order@.len() && s0.order@[q] == i as int;
                    assert(s0.entries()[q].0 == key@);
                    assert(has_key(s0.entries(), key@));
                    let p = key_at(s0.entries(), key@);
                    assert(0 <= p < s0.entries().len() && s0.entries()[p].0 == key@);
                    // keys are unique, so the found position is the key's position
                    // and the slot found is the slot at that position
                    if p != q {
                        let si = s0.order@[p];
                        let sj = s0.order@[q];
                        assert(s0.arena@[si].key@ == key@ && s0.arena@[sj].key@ == key@);
                        assert(false);
                    }
                    assert(s0.slot_position(i as int) == p) by {
                        let w = s0.slot_position(i as int);
                        assert(0 <= w < s0.order@.len() && s0.order@[w] == i as int);
                        if w != p {
                            assert(false);
                        }
                    }
                }
                self.move_to_head(i);
                Some(self.head_value())
            }
            None => {
                proof {
                    if has_key(s0.entries(), key@) {
                        let p = key_at(s0.entries(), key@);
                        assert(s0.arena@[s0.order@[p]].key@ == key@);
                        assert(false);
                    }
                }
                None
            }
        }
    }

    /// The tail slot of the recency chain, before an eviction.
    spec fn tail_slot(&self) -> int {
        self.order@[self.arena@.len() - 1]
    }

    /// The slot that held, before an eviction with compaction, the entry
    /// that sits in slot `i` afterwards: the freed tail slot receives the
    /// entry of the last physical slot, every other slot keeps its own.
    spec fn evict_src(&self, i: int) -> int {
        let m = self.arena@.len() - 1;
        if i == self.tail_slot() && self.tail_slot() != m {
            m as int
        } else {
            i
        }
    }

    /// After the tail is unlinked and the arena compacted by a
    /// swap-with-last, the shortened chain is again well formed and the
    /// abstract state has lost exactly its last (least recent) entry.
    #[verifier::rlimit(100)]
    proof fn lemma_evict(s0: Self, s1: Self, pm: int)
        requires
            s0.wf(),
            s0.arena@.len() >= 1,
            0 <= pm < s0.arena@.len(),
            s0.order@[pm] == s0.arena@.len() - 1,
            s1.capacity == s0.capacity,
            s1.arena@.len() == s0.arena@.len() - 1,
            s1.order@ == s0.order@.drop_last().map_values(
                |x: int|
                    if x == s0.arena@.len() - 1 {
                        s0.order@[s0.arena@.len() - 1]
                    } else {
                        x
                    },
            ),
            forall|i: int|
                0 <= i < s1.arena@.len() ==> #[trigger] s1.arena@[i].key == s0.arena@[s0.evict_src(
                    i,
                )].key,
            forall|i: int|
                0 <= i < s1.arena@.len() ==> #[trigger] s1.arena@[i].value == s0.arena@[
                    s0.evict_src(i)
                ].value,
            forall|i: int|
                0 <= i < s1.arena@.len() ==> #[trigger] s1.arena@[i].next == ({
                    let n = s0.arena@.len() as int;
                    let t = s0.tail_slot();
                    let src = s0.evict_src(i);
                    if n >= 2 && src == s0.order@[n - 2] {
                        None::<usize>
                    } else if t != n - 1 && pm >= 1 && src == s0.order@[pm - 1] {
                        Some(t as usize)
                    } else {
                        s0.arena@[src].next
                    }
                }),
            forall|i: int|
                0 <= i < s1.arena@.len() ==> #[trigger] s1.arena@[i].prev == ({
                    let n = s0.arena@.len() as int;
                    let t = s0.tail_slot();
                    let src = s0.evict_src(i);
                    if t != n - 1 && pm <= n - 3 && src == s0.order@[pm + 1] {
                        Some(t as usize)
                    } else {
                        s0.arena@[src].prev
                    }
                }),
            s1.head == ({
                let n = s0.arena@.len() as int;
                if n == 1 {
                    None::<usize>
                } else if s0.order@[0] == n - 1 {
                    Some(s0.tail_slot() as usize)
                } else {
                    Some(s0.order@[0] as usize)
                }
            }),
            s1.tail == ({
                let n = s0.arena@.len() as int;
                if n == 1 {
                    None::<usize>
                } else if s0.order@[n - 2] == n - 1 {
                    Some(s0.tail_slot() as usize)
                } else {
                    Some(s0.order@[n - 2] as usize)
                }
            }),
        ensures
            s1.wf(),
            s1.entries() == s0.entries().drop_last(),
    {
        let n = s0.arena@.len() as int;
        let o0 = s0.order@;
        let o1 = s1.order@;
        let t = s0.tail_slot();
        let m = n - 1;
        assert(0 <= t < n);
        if t == m {
            assert(pm == n - 1) by {
                if pm != n - 1 {
                    assert(o0[pm] == o0[n - 1]);
                    assert(false);
                }
            }
        } else {
            assert(pm != n - 1);
        }
        assert forall|q: int| 0 <= q < n - 1 implies #[trigger] o1[q] == (if o0[q] == m {
            t
        } else {
            o0[q]
        }) by {
            assert(o0.drop_last()[q] == o0[q]);
        }
        assert forall|q: int|
            0 <= q < n - 1 implies s0.evict_src(#[trigger] o1[q]) == o0[q] && 0 <= o1[q] < n
            - 1 by {
            if o0[q] == m {
                assert(q == pm);
                assert(t != m);
                assert(o1[q] == t);
            } else {
                assert(o1[q] == o0[q]);
                assert(o0[q] != t) by {
                    if o0[q] == t {
                        assert(o0[q] == o0[n - 1]);
                        assert(false);
                    }
                }
            }
        }
        assert forall|i: int| 0 <= i < n - 1 implies o1.contains(i) by {
            if i == t && t != m {
                assert(o1[pm] == t);
            } else {
                assert(o0.contains(i));
                let j = choose|j: int| 0 <= j < n && o0[j] == i;
                assert(j != n - 1);
                assert(o0[j] != m);
                assert(o1[j] == i);
            }
            assert(exists|q: int| 0 <= q < o1.len() && o1[q] == i);
        }
        assert forall|q: int, r: int| 0 <= q < r < n - 1 implies o1[q] != o1[r] by {
            assert(s0.evict_src(o1[q]) == o0[q]);
            assert(s0.evict_src(o1[r]) == o0[r]);
        }
        assert(s1.order_ok());
        assert forall|q: int|
            0 <= q < n - 1 implies #[trigger] s1.arena@[o1[q]].prev == (if q == 0 {
                None::<usize>
            } else {
                Some(o1[q - 1] as usize)
            }) by {
            let i = o1[q];
            let src = s0.evict_src(i);
            assert(src == o0[q]);
            if t != m && pm <= n - 3 && src == o0[pm + 1] {
                assert(q == pm + 1);
                assert(o1[pm] == t);
            } else {
                assert(q != pm + 1) by {
                    if q == pm + 1 {
                        assert(src == o0[pm + 1]);
                        if t == m {
                            assert(pm == n - 1);
                            assert(q == n > n - 1);
                            assert(false);
                        } else {
                            assert(pm <= n - 2);
                            if pm == n - 2 {
                                assert(q == n - 1);
                                assert(false);
                            }
                        }
                    }
                }
                if q != 0 {
                    assert(o0[q - 1] != m);
                    assert(o1[q - 1] == o0[q - 1]);
                }
            }
        }
        assert forall|q: int|
            0 <= q < n - 1 implies #[trigger] s1.arena@[o1[q]].next == (if q == n - 2 {
                None::<usize>
            } else {
                Some(o1[q + 1] as usize)
            }) by {
            let i = o1[q];
            let src = s0.evict_src(i);
            assert(src == o0[q]);
            if q == n - 2 {
                assert(src == o0[n - 2]);
            } else {
                assert(src != o0[n - 2]) by {
                    if src == o0[n - 2] {
                        assert(q == n - 2);
                    }
                }
                if t != m && pm >= 1 && src == o0[pm - 1] {
                    assert(q == pm - 1);
                    assert(o1[pm] == t);
                } else {
                    assert(q != pm - 1 || (t == m && pm == n - 1)) by {
                        if q == pm - 1 && !(t == m) {
                            assert(src == o0[pm - 1]);
                        }
                    }
                    assert(o0[q + 1] != m ==> o1[q + 1] == o0[q + 1]);
                    assert(o0[q + 1] != m) by {
                        if o0[q + 1] == m {
                            assert(q + 1 == pm);
                            if t == m {
                                assert(pm == n - 1);
                                assert(q == n - 2);
                                assert(false);
                            }
                        }
                    }
                }
            }
        }
        assert(s1.links_ok());
        assert(s1.ends_ok()) by {
            if n >= 2 {
                assert(o1[0] == (if o0[0] == m {
                    t
                } else {
                    o0[0]
                }));
                assert(o1[n - 2] == (if o0[n - 2] == m {
                    t
                } else {
                    o0[n - 2]
                }));
            }
        }
        assert forall|i: int, j: int|
            0 <= i < j < n - 1 implies s1.arena@[i].key@ != s1.arena@[j].key@ by {
            let si = s0.evict_src(i);
            let sj = s0.evict_src(j);
            assert(s1.arena@[i].key == s0.arena@[si].key);
            assert(s1.arena@[j].key == s0.arena@[sj].key);
            assert(si != sj);
            assert(0 <= si < n && 0 <= sj < n);
        }
        assert(s1.keys_ok());
        assert(s1.wf());
        assert forall|q: int| 0 <= q < n - 1 implies #[trigger] s1.entries()[q] == s0.entries()[
            q
        ] by {
            assert(s0.evict_src(o1[q]) == o0[q]);
        }
        assert(s1.entries() =~= s0.entries().drop_last());
    }

    /// Evicts the least recently used entry (the tail) and keeps the arena
    /// dense: the entry occupying the last physical slot is moved into the
    /// freed slot, and its neighbour links — and `head` or `tail`, had they
    /// referred to the vacated slot — are patched to the new slot number.
    /// A no-op on an empty cache.
    #[verifier::rlimit(100)]
    pub fn remove_lru(&mut self)
        requires
            old(self).wf(),
        ensures
            final(self).wf(),
            final(self).cap() == old(self).cap(),
            old(self).entries().len() == 0 ==> final(self).entries() == old(self).entries(),
            old(self).entries().len() > 0 ==> final(self).entries() == old(
                self,
            ).entries().drop_last(),
    {
        let ghost s0 = *self;
        let ghost n = s0.arena@.len() as int;
        if self.tail.is_none() {
            return;
        }
        let tail_idx = self.tail.unwrap();
        let ghost t = tail_idx as int;
        proof {
            assert(n >= 1);
            assert(s0.order@[n - 1] == t);
            assert(0 <= t < n);
            assert(s0.order@.contains(n - 1));
        }
        let ghost pm = choose|q: int| 0 <= q < n && s0.order@[q] == n - 1;
        let t_prev = self.arena[tail_idx].prev;
        self.tail = t_prev;
        if let Some(new_tail) = t_prev {
            proof {
                assert(n >= 2 && t_prev == Some(s0.order@[n - 2] as usize));
                assert(0 <= s0.order@[n - 2] < n);
            }
            self.arena[new_tail].next = None;
        } else {
            proof {
                assert(n == 1);
            }
            self.head = None;
        }
        let ghost a_mid = self.arena@;
        self.arena.swap_remove(tail_idx);
        let m = self.arena.len();
        proof {
            assert(m as int == n - 1);
            assert(0 <= pm < n && s0.order@[pm] == n - 1);
        }
        self.order = Ghost(
            s0.order@.drop_last().map_values(
                |x: int|
                    if x == s0.arena@.len() - 1 {
                        s0.order@[s0.arena@.len() - 1]
                    } else {
                        x
                    },
            ),
        );
        if tail_idx < m {
            let mv_prev = self.arena[tail_idx].prev;
            let mv_next = self.arena[tail_idx].next;
            proof {
                assert(t != n - 1);
                assert(pm < n - 1);
                assert(self.arena@[t] == a_mid[n - 1]);
                assert(mv_prev == (if pm == 0 {
                    None::<usize>
                } else {
                    Some(s0.order@[pm - 1] as usize)
                }));
                assert(mv_next == (if pm >= n - 2 {
                    None::<usize>
                } else {
                    Some(s0.order@[pm + 1] as usize)
                })) by {
                    if pm == n - 2 {
                        assert(a_mid[s0.order@[n - 2]].next == None::<usize>);
                    }
                }
                assert(pm >= 1 ==> s0.order@[pm - 1] != t && s0.order@[pm - 1] != n - 1 && 0 <= s0.order@[pm - 1] < n - 1);
                assert(pm <= n - 3 ==> s0.order@[pm + 1] != t && s0.order@[pm + 1] != n - 1 && 0 <= s0.order@[pm + 1] < n - 1);
            }
            if let Some(pp) = mv_prev {
                self.arena[pp].next = Some(tail_idx);
            }
            if let Some(nn) = mv_next {
                self.arena[nn].prev = Some(tail_idx);
            }
            let fix_head = match self.head {
                Some(h) => h == m,
                None => false,
            };
            if fix_head {
                self.head = Some(tail_idx);
            }
            let fix_tail = match self.tail {
                Some(t2) => t2 == m,
                None => false,
            };
            if fix_tail {
                self.tail = Some(tail_idx);
            }
        }
        proof {
            let o0 = s0.order@;
            assert(s0.tail_slot() == t);
            assert(n >= 2 ==> o0[n - 2] != n - 1 || pm == n - 2);
            assert forall|i: int|
                0 <= i < n - 1 implies #[trigger] self.arena@[i].key == s0.arena@[s0.evict_src(i)].key
                && self.arena@[i].value == s0.arena@[s0.evict_src(i)].value by {}
            assert forall|i: int|
                0 <= i < n - 1 implies #[trigger] self.arena@[i].next == ({
                    let src = s0.evict_src(i);
                    if n >= 2 && src == o0[n - 2] {
                        None::<usize>
                    } else if t != n - 1 && pm >= 1 && src == o0[pm - 1] {
                        Some(t as usize)
                    } else {
                        s0.arena@[src].next
                    }
                }) by {}
            assert forall|i: int|
                0 <= i < n - 1 implies #[trigger] self.arena@[i].prev == ({
                    let src = s0.evict_src(i);
                    if t != n - 1 && pm <= n - 3 && src == o0[pm + 1] {
                        Some(t as usize)
                    } else {
                        s0.arena@[src].prev
                    }
                }) by {}
            Self::lemma_evict(s0, *self, pm);
        }
    }


    /// For a well-formed cache, the entry of arena slot `i` sits at chain
    /// position `slot_position(i)`, and — keys being unique — that position
    /// is exactly where `key_at` finds the slot's key.
    proof fn lemma_slot_key(s: Self, i: int)
        requires
            s.wf(),
            0 <= i < s.arena@.len(),
        ensures
            has_key(s.entries(), s.arena@[i].key@),
            0 <= s.slot_position(i) < s.entries().len(),
            s.order@[s.slot_position(i)] == i,
            key_at(s.entries(), s.arena@[i].key@) == s.slot_position(i),
            s.entries()[s.slot_position(i)] == (s.arena@[i].key@, s.arena@[i].value),
    {
        assert(s.order@.contains(i));
        let q = choose|q: int| 0 <= q < s.order@.len() && s.order@[q] == i;
        assert(s.entries()[q].0 == s.arena@[i].key@);
        assert(has_key(s.entries(), s.arena@[i].key@));
        let w = s.slot_position(i);
        assert(0 <= w < s.order@.len() && s.order@[w] == i);
        let p = key_at(s.entries(), s.arena@[i].key@);
        assert(0 <= p < s.entries().len() && s.entries()[p].0 == s.arena@[i].key@);
        if p != w {
            let si = s.order@[p];
            let sj = s.order@[w];
            assert(s.arena@[si].key@ == s.arena@[sj].key@);
            assert(si != sj);
            assert(false);
        }
    }

    /// Inserts a pair or updates an existing one. An existing key has its
    /// value rewritten and is promoted to the head without consuming
    /// capacity; a fresh key enters at the head, after the least recently
    /// used entry is evicted when the cache is already full.
    #[verifier::rlimit(100)]
    pub fn put(&mut self, key: K, value: V)
        requires
            old(self).wf(),
        ensures
            final(self).wf(),
            final(self).cap() == old(self).cap(),
            final(self).entries() == put_step(
                old(self).cap(),
                old(self).entries(),
                key@,
                value,
            ),
    {
        let ghost s0 = *self;
        match self.find_slot(&key) {
            Some(i) => {
                proof {
                    Self::lemma_slot_key(s0, i as int);
                }
                let ghost p = s0.slot_position(i as int);
                self.arena[i].value = value;
                let ghost s_mid = *self;
                proof {
                    assert forall|q: int|
                        0 <= q < s_mid.arena@.len() implies #[trigger] s_mid.arena@[q].prev
                        == s0.arena@[q].prev && s_mid.arena@[q].next == s0.arena@[q].next
                        && s_mid.arena@[q].key == s0.arena@[q].key by {}
                    assert(s_mid.order_ok() && s_mid.links_ok() && s_mid.ends_ok()
                        && s_mid.keys_ok());
                    assert(s_mid.wf());
                    assert(s_mid.entries() =~= s0.entries().update(p, (key@, value)));
                    Self::lemma_slot_key(s_mid, i as int);
                    assert(s_mid.slot_position(i as int) == p) by {
                        let w = s_mid.slot_position(i as int);
                        assert(0 <= w < s_mid.order@.len() && s_mid.order@[w] == i as int);
                        if w != p {
                            assert(false);
                        }
                    }
                }
                self.move_to_head(i);
                proof {
                    let e0 = s0.entries();
                    let em = s_mid.entries();
                    assert(self.entries() == promote(em, p));
                    assert(em[p] == (key@, value));
                    assert(em.remove(p) =~= e0.remove(p));
                    assert(has_key(e0, key@) && key_at(e0, key@) == p);
                    assert(self.entries() =~= put_step(s0.cap(), e0, key@, value));
                }
            }
            None => {
                proof {
                    if has_key(s0.entries(), key@) {
                        let p = key_at(s0.entries(), key@);
                        assert(s0.arena@[s0.order@[p]].key@ == key@);
                        assert(false);
                    }
                }
                if self.arena.len() >= self.capacity {
                    self.remove_lru();
                }
                let ghost s1 = *self;
                proof {
                    assert(s0.entries().len() == s0.arena@.len());
                    assert(s1.entries().len() == s1.arena@.len());
                    assert(s1.arena@.len() < s1.capacity);
                    assert forall|q: int|
                        0 <= q < s1.arena@.len() implies #[trigger] s1.arena@[q].key@
                        != key@ by {
                        Self::lemma_slot_key(s1, q);
                        let w = s1.slot_position(q);
                        assert(s1.entries()[w].0 == s1.arena@[q].key@);
                        assert(s1.entries()[w] == s0.entries()[w]
                            || s1.entries() == s0.entries().drop_last());
                        assert(s0.entries()[w].0 == s0.arena@[s0.order@[w]].key@);
                    }
                }
                let idx = self.arena.len();
                let head_now = self.head;
                let node = Node { key, value, prev: None, next: head_now };
                self.arena.push(node);
                if let Some(h) = head_now {
                    proof {
                        assert(h == s1.order@[0]);
                        assert(0 <= s1.order@[0] < idx);
                    }
                    self.arena[h].prev = Some(idx);
                }
                self.head = Some(idx);
                if self.tail.is_none() {
                    self.tail = Some(idx);
                }
                self.order = Ghost(seq![idx as int] + s1.order@);
                proof {
                    let o1 = s1.order@;
                    let o2 = self.order@;
                    let n1 = s1.arena@.len() as int;
                    assert(o2.len() == n1 + 1);
                    assert(o2[0] == idx as int);
                    assert(forall|q: int| 0 <= q < n1 ==> o2[q + 1] == #[trigger] o1[q]);
                    assert forall|q: int| 1 <= q < n1 + 1 implies #[trigger] o2[q] == o1[q
                        - 1] by {}
                    assert forall|i: int| 0 <= i < n1 + 1 implies o2.contains(i) by {
                        if i == idx as int {
                            assert(o2[0] == i);
                        } else {
                            assert(o1.contains(i));
                            let j = choose|j: int| 0 <= j < n1 && o1[j] == i;
                            assert(o2[j + 1] == i);
                        }
                        assert(exists|q: int| 0 <= q < o2.len() && o2[q] == i);
                    }
                    assert(self.order_ok());
                    assert forall|q: int|
                        0 <= q < n1 + 1 implies #[trigger] self.arena@[o2[q]].prev == (if q
                        == 0 {
                        None::<usize>
                    } else {
                        Some(o2[q - 1] as usize)
                    }) && self.arena@[o2[q]].next == (if q == n1 {
                        None::<usize>
                    } else {
                        Some(o2[q + 1] as usize)
                    }) by {
                        if q == 0 {
                        } else if q == 1 {
                            assert(o2[q] == o1[0]);
                        } else {
                            assert(o2[q] == o1[q - 1]);
                        }
                    }
                    assert(self.links_ok());
                    assert(self.ends_ok());
                    assert forall|i: int, j: int|
                        0 <= i < j < n1 + 1 implies self.arena@[i].key@ != self.arena@[
                        j
                    ].key@ by {}
                    assert(self.keys_ok());
                    assert(self.wf());
                    assert(self.entries() =~= seq![(key@, value)] + s1.entries());
                    assert(self.entries() =~= put_step(s0.cap(), s0.entries(), key@, value));
                }
            }
        }
    }

    /// The number of entries currently stored; always at most the capacity.
    pub fn len(&self) -> (r: usize)
        requires
            self.wf(),
        ensures
            r == self.entries().len(),
            r <= self.cap(),
    {
        self.arena.len()
    }

    /// Capacity invariant: a well-formed cache never holds more entries
    /// than its capacity, so after any sequence of `put` operations the
    /// length stays bounded.
    pub proof fn lemma_capacity_invariant(&self)
        requires
            self.wf(),
        ensures
            self.entries().len() <= self.cap(),
            0 < self.cap(),
    {
    }

    /// Key uniqueness: the keys of a well-formed cache are pairwise
    /// distinct, so the directory read off the arena maps each key to
    /// exactly one slot and its key set equals the arena's key set.
    pub proof fn lemma_keys_unique(&self)
        requires
            self.wf(),
        ensures
            forall|p: int, q: int|
                0 <= p < q < self.entries().len() ==> self.entries()[p].0 != self.entries()[
                    q
                ].0,
    {
        assert forall|p: int, q: int|
            0 <= p < q < self.entries().len() implies self.entries()[p].0 != self.entries()[
            q
        ].0 by {
            let si = self.order@[p];
            let sj = self.order@[q];
            assert(si != sj);
            assert(0 <= si < self.arena@.len() && 0 <= sj < self.arena@.len());
        }
    }
}

impl<K: CacheKey, V> LruCache<K, V> {
    /// The key directory as a mathematical map: each key present in the
    /// cache is bound to the chain position of its entry.
    pub open spec fn directory(&self) -> Map<<K as View>::V, int> {
        Map::new(
            |k: <K as View>::V| has_key(self.entries(), k),
            |k: <K as View>::V| key_at(self.entries(), k),
        )
    }

    /// Key uniqueness, stated over the directory: its key set is exactly
    /// the set of keys present in the arena, and each key is bound to its
    /// own entry's position — no duplicates and no dangling bindings.
    pub proof fn lemma_directory_matches_arena(&self)
        requires
            self.wf(),
        ensures
            forall|p: int|
                0 <= p < self.entries().len() ==> self.directory().contains_key(
                    #[trigger] self.entries()[p].0,
                ),
            forall|p: int|
                0 <= p < self.entries().len() ==> self.directory()[#[trigger] self.entries()[
                    p
                ].0] == p,
            forall|k: <K as View>::V|
                #[trigger] self.directory().contains_key(k) ==> has_key(self.entries(), k),
    {
        self.lemma_keys_unique();
        assert forall|p: int|
            0 <= p < self.entries().len() implies self.directory().contains_key(
            #[trigger] self.entries()[p].0,
        ) && self.directory()[self.entries()[p].0] == p by {
            let k = self.entries()[p].0;
            assert(has_key(self.entries(), k));
            let w = key_at(self.entries(), k);
            assert(0 <= w < self.entries().len() && self.entries()[w].0 == k);
            if w != p {
                assert(false);
            }
        }
    }
}

impl<K: CacheKey, V> Cache<K, V> for LruCache<K, V> {
    closed spec fn model(&self) -> Seq<(<K as View>::V, V)> {
        self.entries()
    }

    closed spec fn capacity(&self) -> int {
        self.cap()
    }

    closed spec fn inv(&self) -> bool {
        self.wf()
    }

    fn new(capacity: usize) -> (r: Self) {
        LruCache::new(capacity)
    }

    fn put(&mut self, key: K, value: V) {
        LruCache::put(self, key, value);
        proof {
            assert(self.entries()[0] == (key@, value));
            assert(has_key(self.entries(), key@));
        }
    }

    fn get<'a>(&'a mut self, key: &K) -> (r: Option<&'a V>) {
        let ghost s0 = *self;
        let r = LruCache::get(self, key);
        proof {
            if has_key(s0.entries(), key@) {
                assert(r is Some);
            }
        }
        r
    }

    fn len(&self) -> (r: usize) {
        LruCache::len(self)
    }
}

/// Recency correctness: promoting the entry at position `p` makes it the
/// head, leaves the length unchanged, and — when it was not the head
/// already — makes the previous head its immediate successor. Promoting
/// the head itself changes nothing.
pub proof fn lemma_promote_recency<A>(s: Seq<A>, p: int)
    requires
        0 <= p < s.len(),
    ensures
        promote(s, p).len() == s.len(),
        promote(s, p)[0] == s[p],
        p != 0 ==> promote(s, p)[1] == s[0],
        p == 0 ==> promote(s, p) == s,
    forall|j: int| 0 <= j < s.len() ==> promote(s, p).contains(#[trigger] s[j]),
{
    if p == 0 {
        assert(promote(s, 0) =~= s);
    }
    assert forall|j: int| 0 <= j < s.len() implies promote(s, p).contains(#[trigger] s[j]) by {
        if j == p {
            assert(promote(s, p)[0] == s[j]);
        } else if j < p {
            assert(promote(s, p)[j + 1] == s.remove(p)[j]);
            assert(s.remove(p)[j] == s[j]);
        } else {
            assert(promote(s, p)[j] == s.remove(p)[j - 1]);
            assert(s.remove(p)[j - 1] == s[j]);
        }
        assert(exists|q: int| 0 <= q < promote(s, p).len() && promote(s, p)[q] == s[j]);
    }
}

/// Recency correctness for `put`: after a `put` of key `k` the head
/// carries `k`, and a surviving previous head with a different key is the
/// head's immediate successor.
pub proof fn lemma_put_recency<A, B>(cap: int, s: Seq<(A, B)>, k: A, v: B)
    ensures
        put_step(cap, s, k, v).len() >= 1,
        put_step(cap, s, k, v)[0] == (k, v),
        s.len() > 0 && s[0].0 != k && put_step(cap, s, k, v).len() >= 2 ==> put_step(
            cap,
            s,
            k,
            v,
        )[1] == s[0],
{
    let r = put_step(cap, s, k, v);
    if has_key(s, k) {
        let p = key_at(s, k);
        assert(0 <= p < s.len() && s[p].0 == k);
        if s.len() > 0 && s[0].0 != k {
            assert(p != 0);
            assert(r[1] == s.remove(p)[0]);
        }
    }
}

/// Idempotent hit: a lookup of the key that is already the head leaves
/// the whole order — and with it the length — unchanged.
pub proof fn lemma_idempotent_hit<A, B>(s: Seq<(A, B)>, k: A)
    requires
        s.len() > 0,
        s[0].0 == k,
        forall|p: int, q: int| 0 <= p < q < s.len() ==> s[p].0 != s[q].0,
    ensures
        has_key(s, k),
        key_at(s, k) == 0,
        promote(s, key_at(s, k)) == s,
{
    assert(has_key(s, k));
    let p = key_at(s, k);
    assert(0 <= p < s.len() && s[p].0 == k);
    if p != 0 {
        assert(s[0].0 != s[p].0);
        assert(false);
    }
    assert(promote(s, 0) =~= s);
}

/// Eviction correctness: a `put` of a fresh key into a full cache keeps
/// every entry except the least recently used one, which is the only key
/// removed, and the fresh key enters at the head.
pub proof fn lemma_eviction<A, B>(cap: int, s: Seq<(A, B)>, k: A, v: B)
    requires
        !has_key(s, k),
        s.len() == cap,
        cap >= 1,
        forall|p: int, q: int| 0 <= p < q < s.len() ==> s[p].0 != s[q].0,
    ensures
        put_step(cap, s, k, v).len() == cap,
        has_key(put_step(cap, s, k, v), k),
        !has_key(put_step(cap, s, k, v), s.last().0),
        forall|j: int| 0 <= j < s.len() - 1 ==> has_key(put_step(cap, s, k, v), #[trigger] s[j].0),
{
    let r = put_step(cap, s, k, v);
    assert(r == seq![(k, v)] + s.drop_last());
    assert(r[0].0 == k);
    assert(has_key(r, k));
    assert forall|j: int| 0 <= j < s.len() - 1 implies has_key(r, #[trigger] s[j].0) by {
        assert(r[j + 1] == s[j]);
    }
    assert(!has_key(r, s.last().0)) by {
        if has_key(r, s.last().0) {
            let p = choose|p: int| 0 <= p < r.len() && r[p].0 == s.last().0;
            if p == 0 {
                assert(s.last() == s[s.len() - 1]);
                assert(has_key(s, k));
            } else {
                assert(r[p] == s[p - 1]);
                assert(s[p - 1].0 == s[s.len() - 1].0);
            }
            assert(false);
        }
    }
}

/// A byte-cache entry with its value taken as a byte sequence.
pub open spec fn view_pair(e: (Seq<u8>, Vec<u8>)) -> (Seq<u8>, Seq<u8>) {
    (e.0, e.1@)
}

/// A sequence of byte-cache entries with the values taken as byte
/// sequences.
pub open spec fn view_records(s: Seq<(Seq<u8>, Vec<u8>)>) -> Seq<(Seq<u8>, Seq<u8>)> {
    s.map_values(|e: (Seq<u8>, Vec<u8>)| view_pair(e))
}

/// The entries of a byte-keyed cache with both components taken as byte
/// sequences, most recent first.
pub open spec fn byte_entries(c: &LruCache<Vec<u8>, Vec<u8>>) -> Seq<(Seq<u8>, Seq<u8>)> {
    view_records(c.entries())
}

/// A byte-for-byte copy of a byte vector.
pub(crate) fn copy_bytes(src: &Vec<u8>) -> (r: Vec<u8>)
    ensures
        r@ == src@,
{
    let mut out: Vec<u8> = Vec::new();
    let mut i: usize = 0;
    while i < src.len()
        invariant
            i <= src@.len(),
            out@ == src@.take(i as int),
        decreases src@.len() - i,
    {
        let b = src[i];
        out.push(b);
        i = i + 1;
        proof {
            assert(src@.take(i as int) =~= src@.take(i - 1).push(src@[i - 1]));
        }
    }
    proof {
        assert(src@.take(src@.len() as int) =~= src@);
    }
    out
}

impl LruCache<Vec<u8>, Vec<u8>> {
    /// All entries as concrete byte pairs, most recent first; the chain is
    /// walked from the head along the `next` links.
    pub fn records(&self) -> (r: Vec<(Vec<u8>, Vec<u8>)>)
        requires
            self.wf(),
        ensures
            r@.len() == byte_entries(self).len(),
            forall|q: int|
                0 <= q < r@.len() ==> (#[trigger] r@[q].0@, r@[q].1@) == byte_entries(self)[q],
    {
        let ghost n = self.arena@.len() as int;
        let mut out: Vec<(Vec<u8>, Vec<u8>)> = Vec::new();
        let mut cur = self.head;
        let ghost mut q: int = 0;
        while cur.is_some()
            invariant
                self.wf(),
                n == self.arena@.len(),
                0 <= q <= n,
                cur == (if q < n {
                    Some(self.order@[q] as usize)
                } else {
                    None::<usize>
                }),
                out@.len() == q,
                forall|j: int|
                    0 <= j < q ==> (#[trigger] out@[j].0@, out@[j].1@) == byte_entries(self)[j],
            decreases n - q,
        {
            let i = cur.unwrap();
            proof {
                assert(i == self.order@[q]);
                assert(0 <= i < n);
            }
            let k2 = copy_bytes(&self.arena[i].key);
            let v2 = copy_bytes(&self.arena[i].value);
            out.push((k2, v2));
            cur = self.arena[i].next;
            proof {
                q = q + 1;
            }
        }
        out
    }
}

} // verus!
