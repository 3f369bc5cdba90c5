use vstd::prelude::*;
use vstd::pervasive::cloned;

use crate::cache::LruCache;
use crate::cache::get_result;
use crate::cache::has_key;
use crate::cache::put_result;
use crate::cache::key_eq_decided;
use crate::cache::key_pos;
use crate::cache::lemma_distinct_preserved;
use crate::cache::lemma_entries_carry_over;
use crate::cache::lemma_key_pos;
use crate::cache::value_of;

verus! {

// A memoization wrapper: one LRU cache composed with a wrapped function.
// A call first consults the cache; only a miss invokes the function, and the
// freshly computed result is stored under its input, subject to the cache's
// normal eviction policy.

/// Holds when cloning a `T` is known to reproduce the value exactly.
pub open spec fn clone_faithful<T: Clone>() -> bool {
    forall|a: T, b: T| #[trigger] cloned::<T>(a, b) ==> b == a
}

/// Holds when `f` is deterministic: any two outputs it can produce on the
/// same input are equal.
pub open spec fn deterministic<K, V, F: Fn(K) -> V>(f: F) -> bool {
    forall|x: K, y1: V, y2: V|
        call_ensures(f, (x,), y1) && call_ensures(f, (x,), y2) ==> y1 == y2
}

/// A memoized function: the wrapped function together with an LRU cache of
/// its past results.
#[verifier::reject_recursive_types(K)]
#[verifier::reject_recursive_types(V)]
pub struct Memo<K, V, F> where F: Fn(K) -> V {
    func: F,
    cache: LruCache<K, V>,
}

impl<K: Eq + Clone, V: Clone, F: Fn(K) -> V> Memo<K, V, F> {
    /// The wrapped function, for contracts to speak of.
    pub closed spec fn func_spec(&self) -> F {
        self.func
    }

    /// The cached input-output pairs, in recency order.
    pub closed spec fn entries(&self) -> Seq<(K, V)> {
        self.cache@
    }

    /// The fixed capacity of the backing cache.
    pub closed spec fn spec_capacity(&self) -> int {
        self.cache.spec_capacity()
    }

    /// The backing cache never holds more entries than its capacity, and
    /// holds each input at most once.
    pub proof fn lemma_inv_bounds(&self)
        requires
            self.inv(),
        ensures
            0 < self.spec_capacity(),
            self.entries().len() <= self.spec_capacity(),
            crate::cache::distinct_keys(self.entries()),
    {
        self.cache.lemma_inv_bounds();
    }

    /// Well-formedness: the cache is well formed, equality and cloning on the
    /// key and value types are exact, and every cached entry is an
    /// input-output pair of the wrapped function.
    pub closed spec fn inv(&self) -> bool {
        &&& self.cache.inv()
        &&& key_eq_decided::<K>()
        &&& clone_faithful::<K>()
        &&& clone_faithful::<V>()
        &&& forall|j: int|
            0 <= j < self.cache@.len() ==> call_ensures(
                self.func,
                ((#[trigger] self.cache@[j]).0,),
                self.cache@[j].1,
            )
    }

    /// Wraps `func` with a fresh LRU cache of the given positive capacity.
    pub fn new(func: F, cache_capacity: usize) -> (m: Self)
        requires
            cache_capacity > 0,
            key_eq_decided::<K>(),
            clone_faithful::<K>(),
            clone_faithful::<V>(),
        ensures
            m.inv(),
            m.func_spec() == func,
            m.entries() == Seq::<(K, V)>::empty(),
            m.spec_capacity() == cache_capacity,
    {
        Self { func, cache: LruCache::new(cache_capacity) }
    }

    /// Computes or recalls the wrapped function's output on `input`. A cached
    /// result is returned as it was stored, and the hit reorders the cache as
    /// a lookup does; a miss computes the result, stores it under `input`
    /// subject to the cache's normal eviction policy, and returns it. Either
    /// way the result is an output the wrapped function can produce on
    /// `input` — for a deterministic function, exactly its value there.
    pub fn call(&mut self, input: K) -> (r: V)
        requires
            old(self).inv(),
            call_requires(old(self).func_spec(), (input,)),
        ensures
            final(self).inv(),
            final(self).func_spec() == old(self).func_spec(),
            final(self).spec_capacity() == old(self).spec_capacity(),
            call_ensures(old(self).func_spec(), (input,), r),
            has_key(old(self).entries(), input) ==> r == value_of(old(self).entries(), input)
                && final(self).entries() == get_result(old(self).entries(), input),
            !has_key(old(self).entries(), input) ==> final(self).entries() == put_result(
                old(self).entries(),
                old(self).spec_capacity(),
                input,
                r,
            ),
            has_key(final(self).entries(), input),
            value_of(final(self).entries(), input) == r,
    {
        let ghost s = self.cache@;
        let ghost c0 = self.cache;
        let cached = self.cache.get(&input);
        match cached {
            Some(v) => {
                let out = v.clone();
                proof {
                    let j = key_pos(s, input);
                    assert(0 <= j < s.len() && s[j].0 == input);
                    assert(call_ensures(self.func, (s[j].0,), s[j].1));
                    assert(cloned::<V>(*v, out));
                    assert(out == value_of(s, input));
                    c0.lemma_inv_bounds();
                    lemma_entries_carry_over(
                        s,
                        self.cache.spec_capacity(),
                        input,
                        value_of(s, input),
                    );
                    assert forall|m: int| 0 <= m < self.cache@.len() implies call_ensures(
                        self.func,
                        ((#[trigger] self.cache@[m]).0,),
                        self.cache@[m].1,
                    ) by {
                        assert(s.contains(self.cache@[m]));
                        let j0 = choose|j0: int| 0 <= j0 < s.len() && s[j0] == self.cache@[m];
                        assert(call_ensures(self.func, (s[j0].0,), s[j0].1));
                    }
                    lemma_distinct_preserved(s, c0.spec_capacity(), input, value_of(s, input));
                    assert(self.cache@[0] == s[j]);
                    lemma_key_pos(self.cache@, input, 0);
                }
                out
            },
            None => {
                let x = input.clone();
                proof {
                    assert(cloned::<K>(input, x));
                }
                let out = (self.func)(x);
                let stored = out.clone();
                proof {
                    assert(cloned::<V>(out, stored));
                }
                let ghost s1 = self.cache@;
                self.cache.put(input, stored);
                proof {
                    assert(s1 == s);
                    c0.lemma_inv_bounds();
                    lemma_entries_carry_over(s, self.cache.spec_capacity(), input, stored);
                    assert forall|m: int| 0 <= m < self.cache@.len() implies call_ensures(
                        self.func,
                        ((#[trigger] self.cache@[m]).0,),
                        self.cache@[m].1,
                    ) by {
                        if self.cache@[m] == (input, stored) {
                            assert(call_ensures(self.func, (input,), stored));
                        } else {
                            assert(s.contains(self.cache@[m]));
                            let j0 = choose|j0: int|
                                0 <= j0 < s.len() && s[j0] == self.cache@[m];
                            assert(call_ensures(self.func, (s[j0].0,), s[j0].1));
                        }
                    }
                    lemma_distinct_preserved(s, c0.spec_capacity(), input, stored);
                    assert(self.cache@[0] == (input, stored));
                    lemma_key_pos(self.cache@, input, 0);
                }
                out
            },
        }
    }
}

/// Builds a memoized form of `func`, backed by a fresh LRU cache of the given
/// positive capacity.
pub fn create_memo<K: Eq + Clone, V: Clone, F: Fn(K) -> V>(func: F, cache_capacity: usize) -> (m:
    Memo<K, V, F>)
    requires
        cache_capacity > 0,
        key_eq_decided::<K>(),
        clone_faithful::<K>(),
        clone_faithful::<V>(),
    ensures
        m.inv(),
        m.func_spec() == func,
        m.entries() == Seq::<(K, V)>::empty(),
        m.spec_capacity() == cache_capacity,
{
    Memo::new(func, cache_capacity)
}

/// Memoization never changes the observable result: any two outputs that a
/// deterministic function can produce on one input — in particular what
/// `call` returns, cached or freshly computed, and what a direct invocation
/// returns — are equal.
pub proof fn lemma_memo_matches_function<K, V, F: Fn(K) -> V>(f: F, x: K, r1: V, r2: V)
    requires
        deterministic(f),
        call_ensures(f, (x,), r1),
        call_ensures(f, (x,), r2),
    ensures
        r1 == r2,
{
}

} // verus!
