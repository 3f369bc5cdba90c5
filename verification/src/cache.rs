use vstd::prelude::*;
use vstd::std_specs::cmp::PartialEqSpec;

verus! {

// An LRU cache: a bounded key-value store that evicts the least-recently-used
// entry when a new key arrives at full capacity.
//
// The recency list is a doubly-linked list laid out in an arena (a dense
// vector of slots), with arena indices standing in for the links. Slot 0 is
// the head sentinel and slot 1 the tail sentinel; they never hold data. The
// chain runs head -> most-recently-used -> ... -> least-recently-used -> tail.
//
// The abstract state is a sequence of (key, value) pairs in recency order,
// most-recently-used first; a ghost sequence of arena indices ties the
// concrete links to that order.

/// One arena slot: an entry of the recency list, holding the key, the value,
/// and the two list links as arena indices. The two sentinel slots hold no
/// key and no value.
struct Node<K, V> {
    key: Option<K>,
    value: Option<V>,
    next: usize,
    prev: usize,
}

/// The index of the head sentinel slot.
const HEAD: usize = 0;

/// The index of the tail sentinel slot.
const TAIL: usize = 1;

/// Holds when `==` on `K` is known to decide structural equality: the
/// executable comparison agrees with the mathematical equality that the
/// contracts are stated over. Integer key types satisfy it outright.
pub open spec fn key_eq_decided<K: PartialEq>() -> bool {
    &&& K::obeys_eq_spec()
    &&& forall|a: K, b: K| (#[trigger] a.eq_spec(&b)) <==> a == b
}

/// Whether some entry of `s` holds the key `k`.
pub open spec fn has_key<K, V>(s: Seq<(K, V)>, k: K) -> bool {
    exists|j: int| 0 <= j < s.len() && s[j].0 == k
}

/// The position of the entry holding `k`, meaningful when `has_key(s, k)`
/// and the keys of `s` are distinct.
pub open spec fn key_pos<K, V>(s: Seq<(K, V)>, k: K) -> int {
    choose|j: int| 0 <= j < s.len() && s[j].0 == k
}

/// The value stored under `k`, meaningful when `has_key(s, k)`.
pub open spec fn value_of<K, V>(s: Seq<(K, V)>, k: K) -> V {
    s[key_pos(s, k)].1
}

/// No two entries of `s` hold the same key.
pub open spec fn distinct_keys<K, V>(s: Seq<(K, V)>) -> bool {
    forall|j1: int, j2: int| 0 <= j1 < j2 < s.len() ==> s[j1].0 != s[j2].0
}

/// The abstract effect of `get(k)` on the recency sequence: a hit moves the
/// entry to the front, a miss changes nothing.
pub open spec fn get_result<K, V>(s: Seq<(K, V)>, k: K) -> Seq<(K, V)> {
    if has_key(s, k) {
        seq![s[key_pos(s, k)]] + s.remove(key_pos(s, k))
    } else {
        s
    }
}

/// The abstract effect of `put(k, v)` on the recency sequence, for a cache of
/// capacity `cap`: an existing key is updated and moved to the front; a new
/// key is prepended, dropping the last (least-recently-used) entry when the
/// cache is full.
pub open spec fn put_result<K, V>(s: Seq<(K, V)>, cap: int, k: K, v: V) -> Seq<(K, V)> {
    if has_key(s, k) {
        seq![(k, v)] + s.remove(key_pos(s, k))
    } else if s.len() < cap {
        seq![(k, v)] + s
    } else {
        seq![(k, v)] + s.drop_last()
    }
}

pub struct LruCache<K, V> {
    nodes: Vec<Node<K, V>>,
    cap: usize,
    order: Ghost<Seq<int>>,
}

impl<K, V> View for LruCache<K, V> {
    type V = Seq<(K, V)>;

    /// The entries in recency order, most-recently-used first.
    closed spec fn view(&self) -> Seq<(K, V)> {
        Seq::new(
            self.order@.len(),
            |j: int| (self.nodes@[self.order@[j]].key.unwrap(), self.nodes@[self.order@[j]].value.unwrap()),
        )
    }
}

impl<K, V> LruCache<K, V> {
    /// The fixed capacity, as set at construction.
    pub closed spec fn spec_capacity(&self) -> int {
        self.cap as int
    }

    /// The arena slot standing at position `j` of the recency order.
    spec fn node_at(&self, j: int) -> Node<K, V> {
        self.nodes@[self.order@[j]]
    }

    /// Well-formedness: the ghost recency order lists exactly the data slots,
    /// each holding a key and a value, keys distinct, and the doubly-linked
    /// chain through the arena follows that order between the two sentinels.
    pub closed spec fn inv(&self) -> bool {
        let n = self.order@.len();
        &&& 0 < self.cap
        &&& n <= self.cap
        &&& self.nodes@.len() == n + 2
        &&& (forall|j: int| 0 <= j < n ==> 2 <= #[trigger] self.order@[j] < self.nodes@.len())
        &&& (forall|j1: int, j2: int|
            0 <= j1 < j2 < n ==> self.order@[j1] != self.order@[j2])
        &&& (forall|i: int| 2 <= i < self.nodes@.len() ==> self.order@.contains(i))
        &&& (forall|j: int|
            0 <= j < n ==> (#[trigger] self.node_at(j)).key is Some && self.node_at(j).value is Some)
        &&& (forall|j1: int, j2: int|
            0 <= j1 < j2 < n ==> self.node_at(j1).key.unwrap() != self.node_at(j2).key.unwrap())
        &&& self.nodes@[HEAD as int].key is None
        &&& self.nodes@[HEAD as int].value is None
        &&& self.nodes@[TAIL as int].key is None
        &&& self.nodes@[TAIL as int].value is None
        &&& self.nodes@[HEAD as int].next == (if n == 0 { TAIL as int } else { self.order@[0] })
        &&& self.nodes@[TAIL as int].prev == (if n == 0 { HEAD as int } else { self.order@[n - 1] })
        &&& (forall|j: int|
            0 <= j < n ==> (#[trigger] self.node_at(j)).next == (if j == n - 1 { TAIL as int } else { self.order@[j + 1] }))
        &&& (forall|j: int|
            0 <= j < n ==> (#[trigger] self.node_at(j)).prev == (if j == 0 { HEAD as int } else { self.order@[j - 1] }))
    }

    /// A well-formed cache never holds more entries than its capacity, and
    /// holds each key at most once.
    pub proof fn lemma_inv_bounds(&self)
        requires
            self.inv(),
        ensures
            0 < self.spec_capacity(),
            self@.len() <= self.spec_capacity(),
            distinct_keys(self@),
    {
        assert forall|j1: int, j2: int| 0 <= j1 < j2 < self@.len() implies self@[j1].0 != self@[j2].0 by {
            assert(self.node_at(j1).key.unwrap() != self.node_at(j2).key.unwrap());
        }
    }

    /// Constructs an empty cache of the given positive capacity: the two
    /// sentinels are created and linked to each other.
    pub fn new(capacity: usize) -> (c: Self)
        requires
            capacity > 0,
        ensures
            c.inv(),
            c@ == Seq::<(K, V)>::empty(),
            c.spec_capacity() == capacity,
    {
        let mut nodes: Vec<Node<K, V>> = Vec::new();
        nodes.push(new_empty_node());
        nodes.push(new_empty_node());
        connect_two(&mut nodes, HEAD, TAIL);
        let c = LruCache { nodes, cap: capacity, order: Ghost(Seq::empty()) };
        proof {
            assert(c@ =~= Seq::<(K, V)>::empty());
        }
        c
    }

    /// The number of entries currently held.
    pub fn size(&self) -> (r: usize)
        requires
            self.inv(),
        ensures
            r == self@.len(),
    {
        self.nodes.len() - 2
    }

    /// The fixed capacity.
    pub fn capacity(&self) -> (r: usize)
        ensures
            r == self.spec_capacity(),
    {
        self.cap
    }
}

impl<K: Eq, V> LruCache<K, V> {
    /// Scans the arena for the slot holding `key`. The scan stands in for a
    /// hash index from key to slot: without shared ownership such an index
    /// would hold its own copy of every key beside the one in the arena,
    /// putting a `Clone` bound and a clone-exactness assumption on the key
    /// type. The scan keeps the key type free of that, at the price of an
    /// O(size) presence check; the list relinking stays constant-time.
    fn find_slot(&self, key: &K) -> (r: Option<usize>)
        requires
            self.inv(),
            key_eq_decided::<K>(),
        ensures
            match r {
                Some(i) => 2 <= i < self.nodes@.len() && self.nodes@[i as int].key == Some(*key),
                None => forall|i: int|
                    2 <= i < self.nodes@.len() ==> self.nodes@[i].key != Some(*key),
            },
    {
        let mut idx: usize = 2;
        while idx < self.nodes.len()
            invariant
                self.inv(),
                key_eq_decided::<K>(),
                2 <= idx <= self.nodes@.len(),
                forall|m: int| 2 <= m < idx ==> self.nodes@[m].key != Some(*key),
            decreases self.nodes@.len() - idx,
        {
            match &self.nodes[idx].key {
                Some(k) => {
                    if k == key {
                        return Some(idx);
                    }
                },
                None => {},
            }
            idx = idx + 1;
        }
        None
    }

    /// Relates an arena slot to its position in the recency order: every data
    /// slot is listed, and at exactly one position.
    proof fn lemma_slot_position(&self, i: int) -> (j: int)
        requires
            self.inv(),
            2 <= i < self.nodes@.len(),
        ensures
            0 <= j < self.order@.len(),
            self.order@[j] == i,
            self@[j] == (self.nodes@[i].key.unwrap(), self.nodes@[i].value.unwrap()),
    {
        assert(self.order@.contains(i));
        let j = choose|j: int| 0 <= j < self.order@.len() && self.order@[j] == i;
        j
    }

    /// Makes the data slot `i` (standing at position `j` of the recency
    /// order) the most-recently-used entry: if it is not already at the front,
    /// it is unlinked and relinked immediately after the head sentinel. Keys
    /// and values are untouched.
    #[verifier::rlimit(100)]
    fn move_to_front(&mut self, i: usize, Ghost(j): Ghost<int>)
        requires
            old(self).inv(),
            0 <= j < old(self).order@.len(),
            old(self).order@[j] == i,
        ensures
            final(self).inv(),
            final(self).cap == old(self).cap,
            final(self).order@ == seq![i as int] + old(self).order@.remove(j),
            final(self).nodes@.len() == old(self).nodes@.len(),
            forall|m: int|
                2 <= m < old(self).nodes@.len() ==> (#[trigger] final(self).nodes@[m]).key == old(
                    self,
                ).nodes@[m].key && final(self).nodes@[m].value == old(self).nodes@[m].value,
            final(self)@ == seq![old(self)@[j]] + old(self)@.remove(j),
    {
        let ghost o = self.order@;
        let ghost n = o.len() as int;
        let ghost olds = *self;
        proof {
            assert(self.node_at(j) == self.nodes@[i as int]);
        }
        let hn = self.nodes[HEAD].next;
        if hn == i {
            // Already the most-recently-used entry: nothing to relink.
            proof {
                assert(self.nodes@[HEAD as int].next == o[0]);
                if j != 0 {
                    assert(o[0] != o[j]);
                }
                assert(j == 0);
                assert(self.order@ =~= seq![i as int] + o.remove(0));
                assert(self@ =~= seq![olds@[0]] + olds@.remove(0));
            }
            return;
        }
        proof {
            assert(self.nodes@[HEAD as int].next == o[0]);
            if j == 0 {
                assert(o[0] == i);
            }
            assert(j > 0);
            assert(n >= 2);
        }
        let p = self.nodes[i].prev;
        let q = self.nodes[i].next;
        proof {
            assert(p as int == o[j - 1]);
            assert(q as int == (if j == n - 1 { TAIL as int } else { o[j + 1] }));
            assert(2 <= o[j - 1] < self.nodes@.len());
            if j < n - 1 {
                assert(2 <= o[j + 1] < self.nodes@.len());
            }
            assert(p != i && q != i && p != q);
        }
        detach(&mut self.nodes, i);
        proof {
            assert(self.nodes@[HEAD as int].next == o[0]);
        }
        insert_after(&mut self.nodes, i, HEAD);
        self.order = Ghost(seq![i as int] + o.remove(j));
        proof {
            let o2 = self.order@;
            let r = o.remove(j);
            let pi = p as int;
            let qi = q as int;
            let ii = i as int;
            assert(forall|m: int| 0 <= m < j ==> r[m] == o[m]);
            assert(forall|m: int| j <= m < n - 1 ==> r[m] == o[m + 1]);
            assert(o2.len() == n);
            assert(o2[0] == ii);
            assert(forall|m: int| 1 <= m < n ==> o2[m] == r[m - 1]);
            let h = o[0];
            assert(2 <= h < self.nodes@.len());
            assert(h != qi && h != ii && pi != HEAD as int && qi != HEAD as int);
            // Final state of the slots whose links were rewritten.
            assert(self.nodes@[HEAD as int] == (Node {
                next: i,
                ..olds.nodes@[HEAD as int]
            }));
            assert(self.nodes@[ii] == (Node {
                prev: HEAD,
                next: h as usize,
                ..olds.nodes@[ii]
            }));
            if pi == h {
                assert(j == 1);
                assert(self.nodes@[pi] == (Node { prev: i, next: q, ..olds.nodes@[pi] }));
            } else {
                assert(self.nodes@[h] == (Node { prev: i, ..olds.nodes@[h] }));
                assert(self.nodes@[pi] == (Node { next: q, ..olds.nodes@[pi] }));
            }
            assert(self.nodes@[qi] == (Node { prev: p, ..olds.nodes@[qi] }));
            assert(forall|s: int|
                0 <= s < self.nodes@.len() && s != pi && s != qi && s != HEAD as int && s != ii
                    && s != h ==> self.nodes@[s] == olds.nodes@[s]);
            assert forall|s: int| 0 <= s < self.nodes@.len() implies (#[trigger] self.nodes@[s]).key
                == olds.nodes@[s].key && self.nodes@[s].value == olds.nodes@[s].value by {}
            // The new order lists data slots, each once.
            assert forall|m: int| 0 <= m < n implies 2 <= #[trigger] o2[m]
                < self.nodes@.len() by {
                if m >= 1 {
                    assert(o2[m] == r[m - 1]);
                }
            }
            assert forall|m1: int, m2: int| 0 <= m1 < m2 < n implies o2[m1] != o2[m2] by {
                let t2 = if m2 - 1 < j { m2 - 1 } else { m2 };
                assert(o2[m2] == o[t2]);
                if m1 >= 1 {
                    let t1 = if m1 - 1 < j { m1 - 1 } else { m1 };
                    assert(o2[m1] == o[t1]);
                    assert(t1 != t2);
                } else {
                    assert(t2 != j);
                }
            }
            assert forall|s: int| 2 <= s < self.nodes@.len() implies o2.contains(s) by {
                assert(o.contains(s));
                let m = choose|m: int| 0 <= m < n && o[m] == s;
                if m == j {
                    assert(o2[0] == s);
                } else if m < j {
                    assert(o2[m + 1] == s);
                } else {
                    assert(o2[m] == s);
                }
            }
            // Every listed slot still holds its key and value.
            assert forall|m: int| 0 <= m < n implies (#[trigger] self.node_at(m)).key is Some
                && self.node_at(m).value is Some by {
                let t = if m == 0 { j } else if m - 1 < j { m - 1 } else { m };
                assert(o2[m] == o[t]);
                assert(olds.node_at(t).key is Some && olds.node_at(t).value is Some);
                assert(self.node_at(m).key == olds.nodes@[o[t]].key);
                assert(self.node_at(m).value == olds.nodes@[o[t]].value);
            }
            assert forall|m1: int, m2: int| 0 <= m1 < m2 < n implies self.node_at(
                m1,
            ).key.unwrap() != self.node_at(m2).key.unwrap() by {
                let t1 = if m1 == 0 { j } else if m1 - 1 < j { m1 - 1 } else { m1 };
                let t2 = if m2 - 1 < j { m2 - 1 } else { m2 };
                assert(o2[m1] == o[t1] && o2[m2] == o[t2]);
                assert(t1 != t2);
                if t1 < t2 {
                    assert(olds.node_at(t1).key.unwrap() != olds.node_at(t2).key.unwrap());
                } else {
                    assert(olds.node_at(t2).key.unwrap() != olds.node_at(t1).key.unwrap());
                }
                assert(self.node_at(m1).key == olds.node_at(t1).key);
                assert(self.node_at(m2).key == olds.node_at(t2).key);
            }
            // Sentinels are untouched data-wise.
            assert(self.nodes@[HEAD as int].key is None && self.nodes@[HEAD as int].value is None);
            assert(self.nodes@[TAIL as int].key is None && self.nodes@[TAIL as int].value is None);
            // The chain runs head -> o2[0] -> ... -> o2[n-1] -> tail.
            assert(self.nodes@[HEAD as int].next == o2[0]);
            if j == n - 1 {
                assert(qi == TAIL as int);
                assert(self.nodes@[TAIL as int].prev == p);
                assert(o2[n - 1] == r[n - 2]);
                assert(r[n - 2] == o[n - 2]);
                assert(pi == o[j - 1]);
            } else {
                assert(qi == o[j + 1]);
                assert(self.nodes@[TAIL as int] == olds.nodes@[TAIL as int]);
                assert(o2[n - 1] == r[n - 2]);
                assert(r[n - 2] == o[n - 1]);
            }
            assert(self.nodes@[TAIL as int].prev == o2[n - 1]);
            assert forall|m: int| 0 <= m < n implies (#[trigger] self.node_at(m)).next == (
            if m == n - 1 {
                TAIL as int
            } else {
                o2[m + 1]
            }) by {
                if m == 0 {
                    assert(self.node_at(0) == self.nodes@[ii]);
                    assert(o2[1] == r[0]);
                    assert(r[0] == o[0]);
                } else {
                    let t = if m - 1 < j { m - 1 } else { m };
                    let s = o[t];
                    assert(o2[m] == s);
                    assert(t != j);
                    if t == j - 1 {
                        assert(m == j);
                        assert(s == pi);
                        assert(self.nodes@[s].next == q);
                        if j == n - 1 {
                            assert(qi == TAIL as int);
                        } else {
                            assert(o2[m + 1] == r[m]);
                            assert(r[m] == o[m + 1]);
                            assert(qi == o[j + 1]);
                        }
                    } else {
                        assert(s != pi && s != ii && s != HEAD as int);
                        assert(self.nodes@[s].next == olds.nodes@[s].next);
                        assert(olds.node_at(t) == olds.nodes@[s]);
                        assert(olds.node_at(t).next == (if t == n - 1 {
                            TAIL as int
                        } else {
                            o[t + 1]
                        }));
                        if m == n - 1 {
                            assert(t == n - 1);
                        } else {
                            assert(t != n - 1);
                            assert(o2[m + 1] == r[m]);
                            if m < j {
                                assert(r[m] == o[m]);
                                assert(t + 1 == m);
                            } else {
                                assert(r[m] == o[m + 1]);
                                assert(t + 1 == m + 1);
                            }
                        }
                    }
                }
            }
            assert forall|m: int| 0 <= m < n implies (#[trigger] self.node_at(m)).prev == (
            if m == 0 {
                HEAD as int
            } else {
                o2[m - 1]
            }) by {
                if m == 0 {
                    assert(self.node_at(0) == self.nodes@[ii]);
                } else {
                    let t = if m - 1 < j { m - 1 } else { m };
                    let s = o[t];
                    assert(o2[m] == s);
                    assert(t != j);
                    if t == j + 1 {
                        assert(m == j + 1);
                        assert(s == qi);
                        assert(self.nodes@[s].prev == p);
                        assert(o2[m - 1] == r[j - 1]);
                        assert(r[j - 1] == o[j - 1]);
                        assert(pi == o[j - 1]);
                    } else if t == 0 {
                        assert(s == h);
                        assert(m == 1);
                        assert(self.nodes@[s].prev == i);
                        assert(o2[0] == ii);
                    } else {
                        assert(s != qi && s != h && s != ii && s != HEAD as int && s != TAIL as int);
                        assert(self.nodes@[s].prev == olds.nodes@[s].prev);
                        assert(olds.node_at(t) == olds.nodes@[s]);
                        assert(olds.node_at(t).prev == (if t == 0 {
                            HEAD as int
                        } else {
                            o[t - 1]
                        }));
                        assert(m - 1 >= 1);
                        assert(o2[m - 1] == r[m - 2]);
                        if m - 1 < j {
                            assert(r[m - 2] == o[m - 2]);
                            assert(t - 1 == m - 2);
                        } else {
                            assert(m >= j + 2);
                            assert(r[m - 2] == o[m - 1]);
                            assert(t - 1 == m - 1);
                        }
                    }
                }
            }
            assert(self.inv());
            assert forall|m: int| 0 <= m < n implies self@[m] == (seq![olds@[j]] + olds@.remove(
                j,
            ))[m] by {
                let t = if m == 0 { j } else if m - 1 < j { m - 1 } else { m };
                assert(self.order@[m] == o[t]);
                assert(self@[m] == (self.nodes@[o[t]].key.unwrap(), self.nodes@[o[t]].value.unwrap()));
                assert(self.nodes@[o[t]].key == olds.nodes@[o[t]].key && self.nodes@[o[t]].value
                    == olds.nodes@[o[t]].value);
                assert(olds@[t] == (olds.nodes@[o[t]].key.unwrap(),
                olds.nodes@[o[t]].value.unwrap()));
                if m >= 1 {
                    assert(olds@.remove(j)[m - 1] == olds@[t]);
                }
            }
            assert(self@ =~= seq![olds@[j]] + olds@.remove(j));
        }
    }

    /// A missing slot means a missing key: if no data slot holds `key`, the
    /// view holds no entry for it either.
    proof fn lemma_absent_key(&self, key: K)
        requires
            self.inv(),
            forall|i: int| 2 <= i < self.nodes@.len() ==> self.nodes@[i].key != Some(key),
        ensures
            !has_key(self@, key),
    {
        assert forall|j: int| 0 <= j < self@.len() implies self@[j].0 != key by {
            assert(2 <= self.order@[j] < self.nodes@.len());
            assert(self.nodes@[self.order@[j]].key != Some(key));
            assert(self.node_at(j).key is Some);
        }
    }

    /// Looks `key` up. A hit makes the entry the most-recently-used one and
    /// returns a reference to its value; a miss returns `None` and leaves the
    /// cache untouched.
    #[verifier::rlimit(100)]
    pub fn get(&mut self, key: &K) -> (r: Option<&V>)
        requires
            old(self).inv(),
            key_eq_decided::<K>(),
        ensures
            final(self).inv(),
            final(self).spec_capacity() == old(self).spec_capacity(),
            final(self)@ == get_result(old(self)@, *key),
            match r {
                Some(v) => has_key(old(self)@, *key) && *v == value_of(old(self)@, *key),
                None => !has_key(old(self)@, *key),
            },
    {
        let ghost olds = *self;
        match self.find_slot(key) {
            None => {
                proof {
                    self.lemma_absent_key(*key);
                }
                None
            },
            Some(i) => {
                let ghost j = self.lemma_slot_position(i as int);
                proof {
                    olds.lemma_inv_bounds();
                    lemma_key_pos(olds@, *key, j);
                }
                self.move_to_front(i, Ghost(j));
                proof {
                    assert(self@ == get_result(olds@, *key));
                    assert(self.node_at(0) == self.nodes@[i as int]);
                }
                match self.nodes[i].value.as_ref() {
                    Some(v) => Some(v),
                    None => {
                        proof {
                            assert(false);
                        }
                        None
                    },
                }
            },
        }
    }

    /// Stores `value` under `key`. An existing key is updated in place and
    /// becomes the most-recently-used entry; a new key is inserted at the
    /// front, evicting the least-recently-used entry when the cache is full.
    #[verifier::rlimit(100)]
    pub fn put(&mut self, key: K, value: V)
        requires
            old(self).inv(),
            key_eq_decided::<K>(),
        ensures
            final(self).inv(),
            final(self).spec_capacity() == old(self).spec_capacity(),
            final(self)@ == put_result(old(self)@, old(self).spec_capacity(), key, value),
    {
        let ghost olds = *self;
        let ghost o = self.order@;
        match self.find_slot(&key) {
            Some(i) => {
                let ghost j = self.lemma_slot_position(i as int);
                proof {
                    olds.lemma_inv_bounds();
                    lemma_key_pos(olds@, key, j);
                }
                self.move_to_front(i, Ghost(j));
                let ghost s1 = *self;
                let node = &mut self.nodes[i];
                node.value = Some(value);
                proof {
                    let o2 = self.order@;
                    let n = o2.len() as int;
                    let ii = i as int;
                    assert(o2 == s1.order@ && o2[0] == ii);
                    assert(self.nodes@ == s1.nodes@.update(ii, Node {
                        value: Some(value),
                        ..s1.nodes@[ii]
                    }));
                    assert forall|m: int| 0 <= m < n implies (#[trigger] self.node_at(m)) == (
                    if m == 0 {
                        Node { value: Some(value), ..s1.node_at(0) }
                    } else {
                        s1.node_at(m)
                    }) by {
                        if m != 0 {
                            assert(o2[0] != o2[m]);
                        }
                    }
                    assert(self.inv());
                    assert forall|m: int| 0 <= m < n implies self@[m] == (seq![(key, value)]
                        + olds@.remove(j))[m] by {
                        if m == 0 {
                            assert(self.node_at(0).key == s1.node_at(0).key);
                            assert(s1.node_at(0) == s1.nodes@[ii]);
                            assert(s1.nodes@[ii].key == olds.nodes@[ii].key);
                            assert(olds.nodes@[ii].key == Some(key));
                        } else {
                            assert(self@[m] == s1@[m]);
                            assert(s1@[m] == (seq![olds@[j]] + olds@.remove(j))[m]);
                        }
                    }
                    assert(self@ =~= seq![(key, value)] + olds@.remove(j));
                }
            },
            None => {
                proof {
                    self.lemma_absent_key(key);
                    olds.lemma_inv_bounds();
                }
                if self.size() >= self.capacity() {
                    // Full: unlink the least-recently-used entry and reuse its
                    // slot for the new one.
                    let ghost n = o.len() as int;
                    proof {
                        assert(n == self.cap as int);
                        assert(self.nodes@[TAIL as int].prev == o[n - 1]);
                        assert(self.node_at(n - 1) == self.nodes@[o[n - 1]]);
                        assert(self.node_at(n - 1).prev == (if n == 1 {
                            HEAD as int
                        } else {
                            o[n - 2]
                        }));
                        if n >= 2 {
                            assert(2 <= o[n - 2] < self.nodes@.len());
                            assert(o[n - 2] != o[n - 1]);
                        }
                    }
                    let e = remove_prev(&mut self.nodes, TAIL);
                    let ghost pp = if n == 1 { HEAD as int } else { o[n - 2] };
                    proof {
                        assert(e == o[n - 1]);
                        assert(self.nodes@[pp] == (Node { next: TAIL, ..olds.nodes@[pp] }));
                        assert(self.nodes@[TAIL as int] == (Node {
                            prev: pp as usize,
                            ..olds.nodes@[TAIL as int]
                        }));
                        assert(forall|s: int|
                            0 <= s < self.nodes@.len() && s != pp && s != TAIL as int
                                ==> self.nodes@[s] == olds.nodes@[s]);
                        if n == 1 {
                            assert(self.nodes@[HEAD as int].next == TAIL as int);
                        } else {
                            assert(self.nodes@[HEAD as int].next == o[0]);
                        }
                    }
                    let node = &mut self.nodes[e];
                    *node = new_data_node(key, value);
                    insert_after(&mut self.nodes, e, HEAD);
                    self.order = Ghost(seq![e as int] + o.drop_last());
                    proof {
                        let o2 = self.order@;
                        let ei = e as int;
                        let q0: int = if n == 1 { TAIL as int } else { o[0] };
                        assert(o2.len() == n);
                        assert(o2[0] == ei);
                        assert(forall|m: int| 1 <= m < n ==> o2[m] == o[m - 1]);
                        // Final state of the touched slots.
                        assert(self.nodes@[HEAD as int] == (Node {
                            next: e,
                            ..olds.nodes@[HEAD as int]
                        }));
                        assert(self.nodes@[ei].key == Some(key) && self.nodes@[ei].value == Some(
                            value,
                        ));
                        assert(self.nodes@[ei].prev == HEAD && self.nodes@[ei].next == q0);
                        if n == 1 {
                            assert(self.nodes@[TAIL as int] == (Node {
                                prev: e,
                                ..olds.nodes@[TAIL as int]
                            }));
                        } else {
                            if pp == q0 {
                                assert(n == 2);
                                assert(self.nodes@[q0] == (Node {
                                    prev: e,
                                    next: TAIL,
                                    ..olds.nodes@[q0]
                                }));
                            } else {
                                assert(self.nodes@[q0] == (Node { prev: e, ..olds.nodes@[q0] }));
                                assert(self.nodes@[pp] == (Node {
                                    next: TAIL,
                                    ..olds.nodes@[pp]
                                }));
                            }
                            assert(self.nodes@[TAIL as int] == (Node {
                                prev: pp as usize,
                                ..olds.nodes@[TAIL as int]
                            }));
                        }
                        assert(forall|s: int|
                            0 <= s < self.nodes@.len() && s != pp && s != TAIL as int && s != ei
                                && s != HEAD as int && s != q0 ==> self.nodes@[s]
                                == olds.nodes@[s]);
                        assert forall|s: int|
                            0 <= s < self.nodes@.len() && s != ei implies (#[trigger] self.nodes@[s]).key
                            == olds.nodes@[s].key && self.nodes@[s].value == olds.nodes@[s].value by {}
                        // The new order lists data slots, each once.
                        assert forall|m: int| 0 <= m < n implies 2 <= #[trigger] o2[m]
                            < self.nodes@.len() by {
                            if m >= 1 {
                                assert(o2[m] == o[m - 1]);
                            }
                        }
                        assert forall|m1: int, m2: int| 0 <= m1 < m2 < n implies o2[m1]
                            != o2[m2] by {
                            assert(o2[m2] == o[m2 - 1]);
                            if m1 >= 1 {
                                assert(o2[m1] == o[m1 - 1]);
                            } else {
                                assert(o[m2 - 1] != o[n - 1]);
                            }
                        }
                        assert forall|s: int| 2 <= s < self.nodes@.len() implies o2.contains(
                            s,
                        ) by {
                            assert(o.contains(s));
                            let m = choose|m: int| 0 <= m < n && o[m] == s;
                            if m == n - 1 {
                                assert(o2[0] == s);
                            } else {
                                assert(o2[m + 1] == s);
                            }
                        }
                        assert forall|m: int| 0 <= m < n implies (#[trigger] self.node_at(m)).key is Some
                            && self.node_at(m).value is Some by {
                            if m >= 1 {
                                assert(o2[m] == o[m - 1]);
                                assert(olds.node_at(m - 1).key is Some && olds.node_at(
                                    m - 1,
                                ).value is Some);
                                assert(self.node_at(m).key == olds.nodes@[o[m - 1]].key);
                            }
                        }
                        assert forall|m1: int, m2: int| 0 <= m1 < m2 < n implies self.node_at(
                            m1,
                        ).key.unwrap() != self.node_at(m2).key.unwrap() by {
                            assert(o2[m2] == o[m2 - 1]);
                            assert(self.node_at(m2).key == olds.node_at(m2 - 1).key);
                            if m1 == 0 {
                                assert(olds.nodes@[o[m2 - 1]].key != Some(key));
                                assert(olds.node_at(m2 - 1).key is Some);
                            } else {
                                assert(o2[m1] == o[m1 - 1]);
                                assert(self.node_at(m1).key == olds.node_at(m1 - 1).key);
                                assert(olds.node_at(m1 - 1).key.unwrap() != olds.node_at(
                                    m2 - 1,
                                ).key.unwrap());
                            }
                        }
                        // The chain runs head -> o2[0] -> ... -> o2[n-1] -> tail.
                        assert(self.nodes@[HEAD as int].next == o2[0]);
                        if n == 1 {
                            assert(self.nodes@[TAIL as int].prev == o2[n - 1]);
                        } else {
                            assert(self.nodes@[TAIL as int].prev == pp);
                            assert(o2[n - 1] == o[n - 2]);
                        }
                        assert forall|m: int| 0 <= m < n implies (#[trigger] self.node_at(m)).next
                            == (if m == n - 1 {
                            TAIL as int
                        } else {
                            o2[m + 1]
                        }) by {
                            if m == 0 {
                                assert(self.node_at(0) == self.nodes@[ei]);
                                if n >= 2 {
                                    assert(o2[1] == o[0]);
                                }
                            } else {
                                let s = o[m - 1];
                                assert(o2[m] == s);
                                assert(s != ei && s != HEAD as int && s != TAIL as int);
                                if m - 1 == n - 2 {
                                    assert(s == pp);
                                    assert(self.nodes@[s].next == TAIL);
                                } else {
                                    assert(s != pp);
                                    assert(self.nodes@[s].next == olds.nodes@[s].next);
                                    assert(olds.node_at(m - 1) == olds.nodes@[s]);
                                    assert(olds.node_at(m - 1).next == o[m]);
                                    assert(o2[m + 1] == o[m]);
                                }
                            }
                        }
                        assert forall|m: int| 0 <= m < n implies (#[trigger] self.node_at(m)).prev
                            == (if m == 0 {
                            HEAD as int
                        } else {
                            o2[m - 1]
                        }) by {
                            if m == 0 {
                                assert(self.node_at(0) == self.nodes@[ei]);
                            } else {
                                let s = o[m - 1];
                                assert(o2[m] == s);
                                if m == 1 {
                                    assert(s == q0);
                                    assert(self.nodes@[s].prev == e);
                                } else {
                                    assert(s != q0 && s != ei && s != HEAD as int && s != TAIL as int);
                                    assert(self.nodes@[s].prev == olds.nodes@[s].prev);
                                    assert(olds.node_at(m - 1) == olds.nodes@[s]);
                                    assert(olds.node_at(m - 1).prev == o[m - 2]);
                                    assert(o2[m - 1] == o[m - 2]);
                                }
                            }
                        }
                        assert(self.inv());
                        assert forall|m: int| 0 <= m < n implies self@[m] == (seq![(key, value)]
                            + olds@.drop_last())[m] by {
                            if m >= 1 {
                                assert(o2[m] == o[m - 1]);
                                assert(self.node_at(m).key == olds.node_at(m - 1).key
                                    && self.node_at(m).value == olds.node_at(m - 1).value);
                                assert(olds@[m - 1] == (olds.node_at(m - 1).key.unwrap(),
                                olds.node_at(m - 1).value.unwrap()));
                                assert(olds@.drop_last()[m - 1] == olds@[m - 1]);
                            }
                        }
                        assert(self@ =~= seq![(key, value)] + olds@.drop_last());
                        assert(olds@.len() == olds.spec_capacity());
                    }
                } else {
                    let i = self.nodes.len();
                    let ghost n = o.len() as int;
                    proof {
                        assert(n < self.cap as int);
                        assert(forall|m: int| 0 <= m < n ==> o[m] < i);
                    }
                    self.nodes.push(new_data_node(key, value));
                    proof {
                        assert(self.nodes@[HEAD as int].next == (if n == 0 {
                            TAIL as int
                        } else {
                            o[0]
                        }));
                    }
                    insert_after(&mut self.nodes, i, HEAD);
                    self.order = Ghost(seq![i as int] + o);
                    proof {
                        let o2 = self.order@;
                        let ii = i as int;
                        let q0: int = if n == 0 { TAIL as int } else { o[0] };
                        assert(o2.len() == n + 1);
                        assert(o2[0] == ii);
                        assert(forall|m: int| 1 <= m < n + 1 ==> o2[m] == o[m - 1]);
                        assert(self.nodes@.len() == n + 3);
                        // Final state of the touched slots.
                        assert(self.nodes@[HEAD as int] == (Node {
                            next: i,
                            ..olds.nodes@[HEAD as int]
                        }));
                        assert(self.nodes@[ii].key == Some(key) && self.nodes@[ii].value == Some(
                            value,
                        ));
                        assert(self.nodes@[ii].prev == HEAD && self.nodes@[ii].next == q0);
                        assert(self.nodes@[q0] == (Node { prev: i, ..olds.nodes@[q0] }));
                        assert(forall|s: int|
                            0 <= s < n + 2 && s != HEAD as int && s != q0 ==> self.nodes@[s]
                                == olds.nodes@[s]);
                        assert forall|s: int| 0 <= s < n + 2 implies (#[trigger] self.nodes@[s]).key
                            == olds.nodes@[s].key && self.nodes@[s].value
                            == olds.nodes@[s].value by {}
                        // The new order lists data slots, each once.
                        assert forall|m: int| 0 <= m < n + 1 implies 2 <= #[trigger] o2[m]
                            < self.nodes@.len() by {
                            if m >= 1 {
                                assert(o2[m] == o[m - 1]);
                            }
                        }
                        assert forall|m1: int, m2: int| 0 <= m1 < m2 < n + 1 implies o2[m1]
                            != o2[m2] by {
                            assert(o2[m2] == o[m2 - 1]);
                            if m1 >= 1 {
                                assert(o2[m1] == o[m1 - 1]);
                            }
                        }
                        assert forall|s: int| 2 <= s < self.nodes@.len() implies o2.contains(
                            s,
                        ) by {
                            if s == ii {
                                assert(o2[0] == s);
                            } else {
                                assert(o.contains(s));
                                let m = choose|m: int| 0 <= m < n && o[m] == s;
                                assert(o2[m + 1] == s);
                            }
                        }
                        assert forall|m: int| 0 <= m < n + 1 implies (#[trigger] self.node_at(
                            m,
                        )).key is Some && self.node_at(m).value is Some by {
                            if m >= 1 {
                                assert(o2[m] == o[m - 1]);
                                assert(olds.node_at(m - 1).key is Some && olds.node_at(
                                    m - 1,
                                ).value is Some);
                                assert(self.node_at(m).key == olds.nodes@[o[m - 1]].key);
                            }
                        }
                        assert forall|m1: int, m2: int| 0 <= m1 < m2 < n + 1 implies self.node_at(
                            m1,
                        ).key.unwrap() != self.node_at(m2).key.unwrap() by {
                            assert(o2[m2] == o[m2 - 1]);
                            assert(self.node_at(m2).key == olds.node_at(m2 - 1).key);
                            if m1 == 0 {
                                assert(olds.nodes@[o[m2 - 1]].key != Some(key));
                                assert(olds.node_at(m2 - 1).key is Some);
                            } else {
                                assert(o2[m1] == o[m1 - 1]);
                                assert(self.node_at(m1).key == olds.node_at(m1 - 1).key);
                                assert(olds.node_at(m1 - 1).key.unwrap() != olds.node_at(
                                    m2 - 1,
                                ).key.unwrap());
                            }
                        }
                        // The chain runs head -> o2[0] -> ... -> o2[n] -> tail.
                        assert(self.nodes@[HEAD as int].next == o2[0]);
                        if n == 0 {
                            assert(self.nodes@[TAIL as int].prev == o2[n]);
                        } else {
                            assert(q0 != TAIL as int);
                            assert(self.nodes@[TAIL as int] == olds.nodes@[TAIL as int]);
                            assert(o2[n] == o[n - 1]);
                        }
                        assert forall|m: int| 0 <= m < n + 1 implies (#[trigger] self.node_at(
                            m,
                        )).next == (if m == n {
                            TAIL as int
                        } else {
                            o2[m + 1]
                        }) by {
                            if m == 0 {
                                assert(self.node_at(0) == self.nodes@[ii]);
                                if n >= 1 {
                                    assert(o2[1] == o[0]);
                                }
                            } else {
                                let s = o[m - 1];
                                assert(o2[m] == s);
                                assert(s != ii && s != HEAD as int && s != TAIL as int);
                                assert(self.nodes@[s].next == olds.nodes@[s].next);
                                assert(olds.node_at(m - 1) == olds.nodes@[s]);
                                assert(olds.node_at(m - 1).next == (if m - 1 == n - 1 {
                                    TAIL as int
                                } else {
                                    o[m]
                                }));
                                if m < n {
                                    assert(o2[m + 1] == o[m]);
                                }
                            }
                        }
                        assert forall|m: int| 0 <= m < n + 1 implies (#[trigger] self.node_at(
                            m,
                        )).prev == (if m == 0 {
                            HEAD as int
                        } else {
                            o2[m - 1]
                        }) by {
                            if m == 0 {
                                assert(self.node_at(0) == self.nodes@[ii]);
                            } else if m == 1 {
                                assert(o2[1] == o[0] && o[0] == q0);
                                assert(self.nodes@[q0].prev == i);
                            } else {
                                let s = o[m - 1];
                                assert(o2[m] == s);
                                assert(s != q0 && s != ii && s != HEAD as int && s != TAIL as int);
                                assert(self.nodes@[s].prev == olds.nodes@[s].prev);
                                assert(olds.node_at(m - 1) == olds.nodes@[s]);
                                assert(olds.node_at(m - 1).prev == o[m - 2]);
                                assert(o2[m - 1] == o[m - 2]);
                            }
                        }
                        assert(self.inv());
                        assert forall|m: int| 0 <= m < n + 1 implies self@[m] == (seq![(key, value)]
                            + olds@)[m] by {
                            if m >= 1 {
                                assert(o2[m] == o[m - 1]);
                                assert(self.node_at(m).key == olds.node_at(m - 1).key
                                    && self.node_at(m).value == olds.node_at(m - 1).value);
                                assert(olds@[m - 1] == (olds.node_at(m - 1).key.unwrap(),
                                olds.node_at(m - 1).value.unwrap()));
                            }
                        }
                        assert(self@ =~= seq![(key, value)] + olds@);
                        assert(olds@.len() < olds.spec_capacity());
                    }
                }
            },
        }
    }
}

/// With distinct keys the entry holding `k` is unique: a position `j` found
/// to hold `k` is the position that `key_pos` speaks of.
pub proof fn lemma_key_pos<K, V>(s: Seq<(K, V)>, k: K, j: int)
    requires
        distinct_keys(s),
        0 <= j < s.len(),
        s[j].0 == k,
    ensures
        has_key(s, k),
        key_pos(s, k) == j,
        value_of(s, k) == s[j].1,
{
    assert(has_key(s, k));
    let j2 = key_pos(s, k);
    if j2 != j {
        if j2 < j {
            assert(s[j2].0 != s[j].0);
        } else {
            assert(s[j].0 != s[j2].0);
        }
    }
}

/// The size bound is kept by every operation: a store never grows the cache
/// beyond its capacity, and a lookup never changes its size.
pub proof fn lemma_size_bounded<K, V>(s: Seq<(K, V)>, cap: int, k: K, v: V)
    requires
        0 < cap,
        s.len() <= cap,
    ensures
        put_result(s, cap, k, v).len() <= cap,
        get_result(s, k).len() == s.len(),
{
    if has_key(s, k) {
        let j = key_pos(s, k);
        assert(0 <= j < s.len() && s[j].0 == k);
    }
}

/// Each operation keeps the cache model well formed: no key appears twice
/// afterward, and the size bound still holds.
pub proof fn lemma_distinct_preserved<K, V>(s: Seq<(K, V)>, cap: int, k: K, v: V)
    requires
        0 < cap,
        s.len() <= cap,
        distinct_keys(s),
    ensures
        distinct_keys(put_result(s, cap, k, v)),
        distinct_keys(get_result(s, k)),
        put_result(s, cap, k, v).len() <= cap,
        get_result(s, k).len() == s.len(),
{
    lemma_size_bounded(s, cap, k, v);
    if has_key(s, k) {
        let j = key_pos(s, k);
        assert(0 <= j < s.len() && s[j].0 == k);
        let rp = put_result(s, cap, k, v);
        let rg = get_result(s, k);
        assert(rp[0].0 == k && rg[0].0 == k);
        assert(forall|m: int| 1 <= m < s.len() ==> (#[trigger] rp[m]) == s.remove(j)[m - 1]);
        assert(forall|m: int| 1 <= m < s.len() ==> (#[trigger] rg[m]) == s.remove(j)[m - 1]);
        assert forall|m1: int, m2: int| 0 <= m1 < m2 < rp.len() implies rp[m1].0 != rp[m2].0
            && rg[m1].0 != rg[m2].0 by {
            let t2 = if m2 - 1 < j { m2 - 1 } else { m2 };
            assert(s.remove(j)[m2 - 1] == s[t2]);
            if m1 == 0 {
                assert(t2 != j);
                if t2 < j {
                    assert(s[t2].0 != s[j].0);
                } else {
                    assert(s[j].0 != s[t2].0);
                }
            } else {
                let t1 = if m1 - 1 < j { m1 - 1 } else { m1 };
                assert(s.remove(j)[m1 - 1] == s[t1]);
                assert(t1 < t2);
            }
        }
    } else if s.len() < cap {
        let rp = put_result(s, cap, k, v);
        assert(forall|m: int| 1 <= m < rp.len() ==> (#[trigger] rp[m]) == s[m - 1]);
        assert forall|m1: int, m2: int| 0 <= m1 < m2 < rp.len() implies rp[m1].0 != rp[m2].0 by {
            if m1 == 0 {
                assert(s[m2 - 1].0 != k);
            }
        }
    } else {
        let rp = put_result(s, cap, k, v);
        assert(forall|m: int| 1 <= m < rp.len() ==> (#[trigger] rp[m]) == s[m - 1]);
        assert forall|m1: int, m2: int| 0 <= m1 < m2 < rp.len() implies rp[m1].0 != rp[m2].0 by {
            if m1 == 0 {
                assert(s[m2 - 1].0 != k);
            }
        }
    }
}

/// A successful lookup and every store make `k` the most-recently-used key:
/// it stands at the front of the recency order afterward.
pub proof fn lemma_recency_front<K, V>(s: Seq<(K, V)>, cap: int, k: K, v: V)
    requires
        0 < cap,
        s.len() <= cap,
    ensures
        put_result(s, cap, k, v)[0].0 == k,
        has_key(s, k) ==> get_result(s, k)[0].0 == k,
{
    if has_key(s, k) {
        let j = key_pos(s, k);
        assert(0 <= j < s.len() && s[j].0 == k);
    }
}

/// Inserting a new key grows the cache by exactly one entry while below
/// capacity. At full capacity the size stays, precisely the key of the last
/// (least-recently-touched) entry is evicted, every other key survives, and
/// a subsequent lookup of the evicted key finds nothing and changes nothing.
pub proof fn lemma_put_new_key<K, V>(s: Seq<(K, V)>, cap: int, k: K, v: V)
    requires
        0 < cap,
        s.len() <= cap,
        distinct_keys(s),
        !has_key(s, k),
    ensures
        has_key(put_result(s, cap, k, v), k),
        s.len() < cap ==> put_result(s, cap, k, v).len() == s.len() + 1,
        s.len() == cap ==> {
            let r = put_result(s, cap, k, v);
            &&& r.len() == cap
            &&& has_key(s, s.last().0)
            &&& !has_key(r, s.last().0)
            &&& get_result(r, s.last().0) == r
            &&& forall|j: int| 0 <= j < s.len() - 1 ==> has_key(r, (#[trigger] s[j]).0)
        },
{
    let r = put_result(s, cap, k, v);
    assert(r[0].0 == k);
    if s.len() == cap {
        let e = s.last().0;
        assert(s[s.len() - 1].0 == e);
        assert(forall|m: int| 1 <= m < r.len() ==> (#[trigger] r[m]) == s[m - 1]);
        assert forall|m: int| 0 <= m < r.len() implies r[m].0 != e by {
            if m == 0 {
                assert(s[s.len() - 1].0 != k);
            } else {
                assert(r[m] == s[m - 1]);
                assert(s[m - 1].0 != s[s.len() - 1].0);
            }
        }
        assert forall|j: int| 0 <= j < s.len() - 1 implies has_key(r, (#[trigger] s[j]).0) by {
            assert(r[j + 1] == s[j]);
        }
    }
}

/// Storing under an existing key keeps the size unchanged and makes a lookup
/// of that key return exactly the new value.
pub proof fn lemma_update_existing<K, V>(s: Seq<(K, V)>, cap: int, k: K, v: V)
    requires
        0 < cap,
        s.len() <= cap,
        distinct_keys(s),
        has_key(s, k),
    ensures
        put_result(s, cap, k, v).len() == s.len(),
        has_key(put_result(s, cap, k, v), k),
        value_of(put_result(s, cap, k, v), k) == v,
{
    lemma_distinct_preserved(s, cap, k, v);
    let r = put_result(s, cap, k, v);
    let j = key_pos(s, k);
    assert(0 <= j < s.len() && s[j].0 == k);
    assert(r[0] == (k, v));
    lemma_key_pos(r, k, 0);
}

/// Every entry present after an operation was either the pair just stored or
/// was already present before it.
pub proof fn lemma_entries_carry_over<K, V>(s: Seq<(K, V)>, cap: int, k: K, v: V)
    requires
        0 < cap,
        s.len() <= cap,
    ensures
        forall|m: int|
            0 <= m < put_result(s, cap, k, v).len() ==> (#[trigger] put_result(s, cap, k, v)[m])
                == (k, v) || s.contains(put_result(s, cap, k, v)[m]),
        forall|m: int|
            0 <= m < get_result(s, k).len() ==> s.contains(#[trigger] get_result(s, k)[m]),
{
    let rp = put_result(s, cap, k, v);
    let rg = get_result(s, k);
    if has_key(s, k) {
        let j = key_pos(s, k);
        assert(0 <= j < s.len() && s[j].0 == k);
        assert forall|m: int| 0 <= m < rp.len() implies (#[trigger] rp[m]) == (k, v)
            || s.contains(rp[m]) by {
            if m >= 1 {
                let t = if m - 1 < j { m - 1 } else { m };
                assert(rp[m] == s.remove(j)[m - 1]);
                assert(s.remove(j)[m - 1] == s[t]);
            }
        }
        assert forall|m: int| 0 <= m < rg.len() implies s.contains(#[trigger] rg[m]) by {
            if m == 0 {
                assert(rg[0] == s[j]);
            } else {
                let t = if m - 1 < j { m - 1 } else { m };
                assert(rg[m] == s.remove(j)[m - 1]);
                assert(s.remove(j)[m - 1] == s[t]);
            }
        }
    } else {
        assert forall|m: int| 0 <= m < rp.len() implies (#[trigger] rp[m]) == (k, v)
            || s.contains(rp[m]) by {
            if m >= 1 {
                assert(rp[m] == s[m - 1]);
            }
        }
        assert(forall|m: int| 0 <= m < rg.len() ==> (#[trigger] rg[m]) == s[m]);
    }
}

/// One abstract cache operation: a lookup or a store.
pub enum CacheOp<K, V> {
    Lookup { key: K },
    Store { key: K, value: V },
}

/// The key an operation touches.
pub open spec fn op_key<K, V>(op: CacheOp<K, V>) -> K {
    match op {
        CacheOp::Lookup { key } => key,
        CacheOp::Store { key, value } => key,
    }
}

/// The recency sequence after one operation.
pub open spec fn apply_op<K, V>(s: Seq<(K, V)>, cap: int, op: CacheOp<K, V>) -> Seq<(K, V)> {
    match op {
        CacheOp::Lookup { key } => get_result(s, key),
        CacheOp::Store { key, value } => put_result(s, cap, key, value),
    }
}

/// The recency sequence after a whole run of operations, first one first.
pub open spec fn apply_ops<K, V>(s: Seq<(K, V)>, cap: int, ops: Seq<CacheOp<K, V>>) -> Seq<
    (K, V),
>
    decreases ops.len(),
{
    if ops.len() == 0 {
        s
    } else {
        apply_ops(apply_op(s, cap, ops[0]), cap, ops.drop_first())
    }
}

/// One operation on another key moves a resident key back by at most one
/// position; a key not yet at the last position of a full cache survives.
pub proof fn lemma_op_other_key<K, V>(s: Seq<(K, V)>, cap: int, op: CacheOp<K, V>, k: K)
    requires
        0 < cap,
        s.len() <= cap,
        distinct_keys(s),
        has_key(s, k),
        op_key(op) != k,
        key_pos(s, k) < cap - 1,
    ensures
        has_key(apply_op(s, cap, op), k),
        key_pos(apply_op(s, cap, op), k) <= key_pos(s, k) + 1,
{
    let p = key_pos(s, k);
    assert(0 <= p < s.len() && s[p].0 == k);
    let k2 = op_key(op);
    let r = apply_op(s, cap, op);
    if has_key(s, k2) {
        let p2 = key_pos(s, k2);
        assert(0 <= p2 < s.len() && s[p2].0 == k2);
        assert(p != p2);
        lemma_distinct_preserved(s, cap, k2, match op {
            CacheOp::Lookup { key } => s[p2].1,
            CacheOp::Store { key, value } => value,
        });
        if p < p2 {
            assert(r[p + 1] == s.remove(p2)[p]);
            assert(s.remove(p2)[p] == s[p]);
            lemma_key_pos(r, k, p + 1);
        } else {
            assert(r[p] == s.remove(p2)[p - 1]);
            assert(s.remove(p2)[p - 1] == s[p]);
            lemma_key_pos(r, k, p);
        }
    } else {
        match op {
            CacheOp::Lookup { key } => {
                assert(r == s);
                lemma_key_pos(r, k, p);
            },
            CacheOp::Store { key, value } => {
                lemma_distinct_preserved(s, cap, key, value);
                if s.len() < cap {
                    assert(r[p + 1] == s[p]);
                    lemma_key_pos(r, k, p + 1);
                } else {
                    assert(p < s.len() - 1);
                    assert(r[p + 1] == s.drop_last()[p]);
                    assert(s.drop_last()[p] == s[p]);
                    lemma_key_pos(r, k, p + 1);
                }
            },
        }
    }
}

/// The recency law, closed over time: a resident key is never evicted by a
/// run of operations on other keys shorter than the distance between its
/// position and the capacity. In particular the most-recently-used key
/// survives any run of fewer than `cap` such operations.
pub proof fn lemma_recency_protected<K, V>(
    s: Seq<(K, V)>,
    cap: int,
    ops: Seq<CacheOp<K, V>>,
    k: K,
)
    requires
        0 < cap,
        s.len() <= cap,
        distinct_keys(s),
        has_key(s, k),
        key_pos(s, k) + ops.len() < cap,
        forall|i: int| 0 <= i < ops.len() ==> op_key(#[trigger] ops[i]) != k,
    ensures
        has_key(apply_ops(s, cap, ops), k),
        key_pos(apply_ops(s, cap, ops), k) <= key_pos(s, k) + ops.len(),
    decreases ops.len(),
{
    if ops.len() > 0 {
        let op = ops[0];
        let s1 = apply_op(s, cap, op);
        lemma_op_other_key(s, cap, op, k);
        let k2 = op_key(op);
        lemma_distinct_preserved(s, cap, k2, match op {
            CacheOp::Lookup { key } => value_of(s, k2),
            CacheOp::Store { key, value } => value,
        });
        assert(forall|i: int|
            0 <= i < ops.drop_first().len() ==> op_key(#[trigger] ops.drop_first()[i]) != k);
        lemma_recency_protected(s1, cap, ops.drop_first(), k);
    }
}

/// The size bound and key distinctness hold after any run of operations.
pub proof fn lemma_ops_size_bounded<K, V>(s: Seq<(K, V)>, cap: int, ops: Seq<CacheOp<K, V>>)
    requires
        0 < cap,
        s.len() <= cap,
        distinct_keys(s),
    ensures
        apply_ops(s, cap, ops).len() <= cap,
        distinct_keys(apply_ops(s, cap, ops)),
    decreases ops.len(),
{
    if ops.len() > 0 {
        match ops[0] {
            CacheOp::Lookup { key } => lemma_distinct_preserved(s, cap, key, value_of(s, key)),
            CacheOp::Store { key, value } => lemma_distinct_preserved(s, cap, key, value),
        }
        lemma_ops_size_bounded(apply_op(s, cap, ops[0]), cap, ops.drop_first());
    }
}

/// The keys held by the first `p` entries of `s`.
pub open spec fn prefix_keys<K, V>(s: Seq<(K, V)>, p: int) -> Set<K> {
    Set::new(|x: K| exists|m: int| 0 <= m < p && s[m].0 == x)
}

/// With distinct keys, the first `p` entries hold exactly `p` distinct keys.
pub proof fn lemma_prefix_keys_card<K, V>(s: Seq<(K, V)>, p: int)
    requires
        distinct_keys(s),
        0 <= p <= s.len(),
    ensures
        prefix_keys(s, p).finite(),
        prefix_keys(s, p).len() == p,
    decreases p,
{
    if p == 0 {
        assert(prefix_keys(s, 0) =~= Set::<K>::empty());
    } else {
        lemma_prefix_keys_card(s, p - 1);
        assert forall|x: K| prefix_keys(s, p).contains(x) implies prefix_keys(s, p - 1).insert(
            s[p - 1].0,
        ).contains(x) by {
            let m = choose|m: int| 0 <= m < p && s[m].0 == x;
            if m < p - 1 {
                assert(prefix_keys(s, p - 1).contains(x));
            }
        }
        assert forall|x: K| prefix_keys(s, p - 1).insert(s[p - 1].0).contains(x) implies prefix_keys(
            s,
            p,
        ).contains(x) by {
            if prefix_keys(s, p - 1).contains(x) {
                let m = choose|m: int| 0 <= m < p - 1 && s[m].0 == x;
                assert(0 <= m < p && s[m].0 == x);
            } else {
                assert(s[p - 1].0 == x);
            }
        }
        assert(prefix_keys(s, p) =~= prefix_keys(s, p - 1).insert(s[p - 1].0));
        assert(!prefix_keys(s, p - 1).contains(s[p - 1].0)) by {
            if prefix_keys(s, p - 1).contains(s[p - 1].0) {
                let m = choose|m: int| 0 <= m < p - 1 && (#[trigger] s[m]).0 == s[p - 1].0;
                assert(s[m].0 != s[p - 1].0);
            }
        }
        vstd::set::axiom_set_insert_len(prefix_keys(s, p - 1), s[p - 1].0);
    }
}

/// One operation on another key — short of the one that would evict `k`
/// itself — keeps `k` resident, and every key ahead of `k` afterwards either
/// was ahead before or is the key just touched.
proof fn lemma_op_ahead_keys<K, V>(s: Seq<(K, V)>, cap: int, op: CacheOp<K, V>, k: K)
    requires
        0 < cap,
        s.len() <= cap,
        distinct_keys(s),
        has_key(s, k),
        op_key(op) != k,
        (op is Store && !has_key(s, op_key(op)) && s.len() == cap) ==> key_pos(s, k) < s.len()
            - 1,
    ensures
        has_key(apply_op(s, cap, op), k),
        prefix_keys(apply_op(s, cap, op), key_pos(apply_op(s, cap, op), k)).subset_of(
            prefix_keys(s, key_pos(s, k)).insert(op_key(op)),
        ),
{
    let p = key_pos(s, k);
    assert(0 <= p < s.len() && s[p].0 == k);
    let k2 = op_key(op);
    let r = apply_op(s, cap, op);
    lemma_distinct_preserved(s, cap, k2, match op {
        CacheOp::Lookup { key } => value_of(s, k2),
        CacheOp::Store { key, value } => value,
    });
    if has_key(s, k2) {
        let p2 = key_pos(s, k2);
        assert(0 <= p2 < s.len() && s[p2].0 == k2);
        assert(p != p2);
        assert(r[0].0 == k2);
        assert(forall|m: int| 1 <= m < s.len() ==> (#[trigger] r[m]) == s.remove(p2)[m - 1]);
        let pr = if p < p2 { p + 1 } else { p };
        assert(s.remove(p2)[pr - 1] == s[p]);
        lemma_key_pos(r, k, pr);
        assert forall|x: K| prefix_keys(r, pr).contains(x) implies prefix_keys(s, p).insert(
            k2,
        ).contains(x) by {
            let m = choose|m: int| 0 <= m < pr && r[m].0 == x;
            if m >= 1 {
                let t = if m - 1 < p2 { m - 1 } else { m };
                assert(s.remove(p2)[m - 1] == s[t]);
                assert(0 <= t < p && s[t].0 == x);
                assert(prefix_keys(s, p).contains(x));
            }
        }
    } else {
        match op {
            CacheOp::Lookup { key } => {
                assert(r == s);
                lemma_key_pos(r, k, p);
                assert forall|x: K| prefix_keys(r, p).contains(x) implies prefix_keys(s, p).insert(
                    k2,
                ).contains(x) by {
                    assert(prefix_keys(s, p).contains(x));
                }
            },
            CacheOp::Store { key, value } => {
                if s.len() < cap {
                    assert(forall|m: int| 1 <= m < r.len() ==> (#[trigger] r[m]) == s[m - 1]);
                    assert(r[p + 1] == s[p]);
                    lemma_key_pos(r, k, p + 1);
                    assert forall|x: K| prefix_keys(r, p + 1).contains(x) implies prefix_keys(
                        s,
                        p,
                    ).insert(k2).contains(x) by {
                        let m = choose|m: int| 0 <= m < p + 1 && r[m].0 == x;
                        if m >= 1 {
                            assert(0 <= m - 1 < p && s[m - 1].0 == x);
                            assert(prefix_keys(s, p).contains(x));
                        }
                    }
                } else {
                    assert(p < s.len() - 1);
                    assert(forall|m: int|
                        1 <= m < r.len() ==> (#[trigger] r[m]) == s.drop_last()[m - 1]);
                    assert(s.drop_last()[p] == s[p]);
                    assert(r[p + 1] == s[p]);
                    lemma_key_pos(r, k, p + 1);
                    assert forall|x: K| prefix_keys(r, p + 1).contains(x) implies prefix_keys(
                        s,
                        p,
                    ).insert(k2).contains(x) by {
                        let m = choose|m: int| 0 <= m < p + 1 && r[m].0 == x;
                        if m >= 1 {
                            assert(s.drop_last()[m - 1] == s[m - 1]);
                            assert(0 <= m - 1 < p && s[m - 1].0 == x);
                            assert(prefix_keys(s, p).contains(x));
                        }
                    }
                }
            },
        }
    }
}

/// The recency law in its counting form: a resident key `k` is not evicted
/// until `cap` other distinct keys have been touched. Concretely: if the
/// keys ahead of `k` all lie in a finite set `t` of fewer than `cap` keys
/// not containing `k`, and a run of operations touches only keys from `t`,
/// then `k` stays resident, with its predecessors still within `t`.
/// Immediately after `get(k)` or `put(k, _)` nothing stands ahead of `k`, so
/// `t` is then simply the set of other keys touched since.
pub proof fn lemma_recency_distinct_protected<K, V>(
    s: Seq<(K, V)>,
    cap: int,
    ops: Seq<CacheOp<K, V>>,
    k: K,
    t: Set<K>,
)
    requires
        0 < cap,
        s.len() <= cap,
        distinct_keys(s),
        has_key(s, k),
        prefix_keys(s, key_pos(s, k)).subset_of(t),
        forall|i: int| 0 <= i < ops.len() ==> t.contains(op_key(#[trigger] ops[i])),
        !t.contains(k),
        t.finite(),
        t.len() < cap,
    ensures
        has_key(apply_ops(s, cap, ops), k),
        prefix_keys(apply_ops(s, cap, ops), key_pos(apply_ops(s, cap, ops), k)).subset_of(t),
    decreases ops.len(),
{
    let p = key_pos(s, k);
    assert(0 <= p < s.len() && s[p].0 == k);
    if ops.len() == 0 {
    } else {
        let op = ops[0];
        let k2 = op_key(op);
        assert(t.contains(k2));
        assert(k2 != k);
        if op is Store && !has_key(s, k2) && s.len() == cap && p == s.len() - 1 {
            // Impossible: the p keys ahead of k and the fresh key are p + 1
            // distinct members of t, yet p + 1 == cap > t.len().
            lemma_prefix_keys_card(s, p);
            assert(!prefix_keys(s, p).contains(k2)) by {
                if prefix_keys(s, p).contains(k2) {
                    let m = choose|m: int| 0 <= m < p && s[m].0 == k2;
                    assert(has_key(s, k2));
                }
            }
            vstd::set::axiom_set_insert_len(prefix_keys(s, p), k2);
            assert(prefix_keys(s, p).insert(k2).subset_of(t));
            vstd::set_lib::lemma_len_subset(prefix_keys(s, p).insert(k2), t);
            assert(false);
        }
        lemma_op_ahead_keys(s, cap, op, k);
        lemma_distinct_preserved(s, cap, k2, match op {
            CacheOp::Lookup { key } => value_of(s, k2),
            CacheOp::Store { key, value } => value,
        });
        let s1 = apply_op(s, cap, op);
        assert forall|x: K| prefix_keys(s1, key_pos(s1, k)).contains(x) implies t.contains(
            x,
        ) by {
            assert(prefix_keys(s, p).insert(k2).contains(x));
        }
        assert(forall|i: int|
            0 <= i < ops.drop_first().len() ==> t.contains(op_key(
                #[trigger] ops.drop_first()[i],
            )));
        lemma_recency_distinct_protected(s1, cap, ops.drop_first(), k, t);
    }
}


fn new_empty_node<K, V>() -> (n: Node<K, V>)
    ensures
        n.key is None,
        n.value is None,
        n.next == 0,
        n.prev == 0,
{
    Node { key: None, value: None, next: 0, prev: 0 }
}

fn new_data_node<K, V>(key: K, value: V) -> (n: Node<K, V>)
    ensures
        n.key == Some(key),
        n.value == Some(value),
        n.next == 0,
        n.prev == 0,
{
    Node { key: Some(key), value: Some(value), next: 0, prev: 0 }
}

/// Makes `right` follow `left` in the chain, touching no other slot.
fn connect_two<K, V>(nodes: &mut Vec<Node<K, V>>, left: usize, right: usize)
    requires
        left < old(nodes)@.len(),
        right < old(nodes)@.len(),
        left != right,
    ensures
        final(nodes)@.len() == old(nodes)@.len(),
        final(nodes)@[left as int] == (Node { next: right, ..old(nodes)@[left as int] }),
        final(nodes)@[right as int] == (Node { prev: left, ..old(nodes)@[right as int] }),
        forall|m: int|
            0 <= m < old(nodes)@.len() && m != left && m != right ==> final(nodes)@[m] == old(
                nodes,
            )@[m],
{
    let n = &mut nodes[left];
    n.next = right;
    let n = &mut nodes[right];
    n.prev = left;
}

/// Unlinks slot `i` from the chain by joining its two neighbours; the links
/// stored in slot `i` itself are left as they were.
fn detach<K, V>(nodes: &mut Vec<Node<K, V>>, i: usize)
    requires
        i < old(nodes)@.len(),
        old(nodes)@[i as int].prev < old(nodes)@.len(),
        old(nodes)@[i as int].next < old(nodes)@.len(),
        old(nodes)@[i as int].prev != i,
        old(nodes)@[i as int].next != i,
        old(nodes)@[i as int].prev != old(nodes)@[i as int].next,
    ensures
        final(nodes)@.len() == old(nodes)@.len(),
        final(nodes)@[old(nodes)@[i as int].prev as int] == (Node {
            next: old(nodes)@[i as int].next,
            ..old(nodes)@[old(nodes)@[i as int].prev as int]
        }),
        final(nodes)@[old(nodes)@[i as int].next as int] == (Node {
            prev: old(nodes)@[i as int].prev,
            ..old(nodes)@[old(nodes)@[i as int].next as int]
        }),
        forall|m: int|
            0 <= m < old(nodes)@.len() && m != old(nodes)@[i as int].prev && m != old(
                nodes,
            )@[i as int].next ==> final(nodes)@[m] == old(nodes)@[m],
{
    let p = nodes[i].prev;
    let q = nodes[i].next;
    let n = &mut nodes[p];
    n.next = q;
    let n = &mut nodes[q];
    n.prev = p;
}

/// Links slot `i` into the chain immediately after slot `after`.
fn insert_after<K, V>(nodes: &mut Vec<Node<K, V>>, i: usize, after: usize)
    requires
        i < old(nodes)@.len(),
        after < old(nodes)@.len(),
        old(nodes)@[after as int].next < old(nodes)@.len(),
        i != after,
        i != old(nodes)@[after as int].next,
        after != old(nodes)@[after as int].next,
    ensures
        final(nodes)@.len() == old(nodes)@.len(),
        final(nodes)@[after as int] == (Node { next: i, ..old(nodes)@[after as int] }),
        final(nodes)@[i as int] == (Node {
            prev: after,
            next: old(nodes)@[after as int].next,
            ..old(nodes)@[i as int]
        }),
        final(nodes)@[old(nodes)@[after as int].next as int] == (Node {
            prev: i,
            ..old(nodes)@[old(nodes)@[after as int].next as int]
        }),
        forall|m: int|
            0 <= m < old(nodes)@.len() && m != i && m != after && m != old(
                nodes,
            )@[after as int].next ==> final(nodes)@[m] == old(nodes)@[m],
{
    let q = nodes[after].next;
    let n = &mut nodes[after];
    n.next = i;
    let n = &mut nodes[i];
    n.prev = after;
    n.next = q;
    let n = &mut nodes[q];
    n.prev = i;
}

/// Unlinks the slot standing immediately before slot `i` and returns its
/// index; the predecessor's predecessor is joined to `i`.
fn remove_prev<K, V>(nodes: &mut Vec<Node<K, V>>, i: usize) -> (r: usize)
    requires
        i < old(nodes)@.len(),
        old(nodes)@[i as int].prev < old(nodes)@.len(),
        old(nodes)@[old(nodes)@[i as int].prev as int].prev < old(nodes)@.len(),
        old(nodes)@[i as int].prev != i,
        old(nodes)@[old(nodes)@[i as int].prev as int].prev != old(nodes)@[i as int].prev,
        old(nodes)@[old(nodes)@[i as int].prev as int].prev != i,
    ensures
        r == old(nodes)@[i as int].prev,
        final(nodes)@.len() == old(nodes)@.len(),
        final(nodes)@[old(nodes)@[r as int].prev as int] == (Node {
            next: i,
            ..old(nodes)@[old(nodes)@[r as int].prev as int]
        }),
        final(nodes)@[i as int] == (Node {
            prev: old(nodes)@[r as int].prev,
            ..old(nodes)@[i as int]
        }),
        forall|m: int|
            0 <= m < old(nodes)@.len() && m != i && m != old(nodes)@[old(
                nodes,
            )@[i as int].prev as int].prev ==> final(nodes)@[m] == old(nodes)@[m],
{
    let p = nodes[i].prev;
    let pp = nodes[p].prev;
    let n = &mut nodes[pp];
    n.next = i;
    let n = &mut nodes[i];
    n.prev = pp;
    p
}

} // verus!
