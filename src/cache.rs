//! A byte-bounded, recency-ordered cache of response bodies.
//!
//! The entries are kept from least to most recently used. Inserting evicts
//! from the least recently used end until the new value fits; reading a key
//! moves it to the most recently used end. There is no time-based expiry.
use vstd::prelude::*;
use crate::keyed::{
    find, keys_unique, lemma_find_absent, lemma_find_bounds, lemma_find_index, lemma_push_fresh,
    lemma_remove_key, lemma_unique_remove, lookup, remove_key,
};

verus! {

/// The abstract content of a cache: `(key, bytes)` pairs, least recently
/// used first.
pub type CacheEntries = Seq<(Seq<char>, Seq<u8>)>;

/// Total number of value bytes held by `s`.
pub open spec fn total_size(s: CacheEntries) -> nat
    decreases s.len(),
{
    if s.len() == 0 {
        0
    } else {
        total_size(s.drop_last()) + s.last().1.len()
    }
}

/// Drops entries from the least recently used end until the rest holds at
/// most `budget` bytes.
pub open spec fn evict_until(s: CacheEntries, budget: nat) -> CacheEntries
    decreases s.len(),
{
    if s.len() == 0 || total_size(s) <= budget {
        s
    } else {
        evict_until(s.drop_first(), budget)
    }
}

/// The entries after storing `v` under `k` in a cache of `capacity` bytes.
/// A value larger than the whole capacity is refused and changes nothing.
pub open spec fn put_entries(s: CacheEntries, capacity: nat, k: Seq<char>, v: Seq<u8>) -> CacheEntries {
    if v.len() > capacity {
        s
    } else {
        evict_until(remove_key(s, k), (capacity - v.len()) as nat).push((k, v))
    }
}

/// The entries after reading `k`: a present key becomes the most recently used.
pub open spec fn touch_entries(s: CacheEntries, k: Seq<char>) -> CacheEntries {
    match find(s, k) {
        Some(i) => s.remove(i).push(s[i]),
        None => s,
    }
}

/// The entries after a run of puts, the first pair of `items` put first.
pub open spec fn put_all(s: CacheEntries, capacity: nat, items: CacheEntries) -> CacheEntries
    decreases items.len(),
{
    if items.len() == 0 {
        s
    } else {
        let rest = put_all(s, capacity, items.drop_last());
        put_entries(rest, capacity, items.last().0, items.last().1)
    }
}

/// Why a value could not be cached.
#[derive(Debug, Clone, Copy, PartialEq, Eq, Structural)]
pub enum CacheError {
    /// The value alone is larger than the cache's whole capacity.
    CapacityExceeded,
}

struct CacheEntry {
    key: String,
    value: Vec<u8>,
}

spec fn entry_view(e: CacheEntry) -> (Seq<char>, Seq<u8>) {
    (e.key@, e.value@)
}

pub struct BoundedCache {
    capacity: usize,
    size: usize,
    entries: Vec<CacheEntry>,
}

impl View for BoundedCache {
    type V = CacheEntries;

    closed spec fn view(&self) -> CacheEntries {
        self.entries@.map_values(|e: CacheEntry| entry_view(e))
    }
}

pub proof fn lemma_total_size_remove(s: CacheEntries, i: int)
    requires
        0 <= i < s.len(),
    ensures
        total_size(s.remove(i)) + s[i].1.len() == total_size(s),
    decreases s.len(),
{
    let r = s.remove(i);
    if i < s.len() - 1 {
        lemma_total_size_remove(s.drop_last(), i);
        assert(r.drop_last() =~= s.drop_last().remove(i));
        assert(r.last() == s.last());
    } else {
        assert(r =~= s.drop_last());
    }
}

pub proof fn lemma_evict_until(s: CacheEntries, budget: nat)
    requires
        keys_unique(s),
    ensures
        total_size(evict_until(s, budget)) <= budget,
        keys_unique(evict_until(s, budget)),
        evict_until(s, budget).len() <= s.len(),
        evict_until(s, budget) == s.subrange(s.len() - evict_until(s, budget).len(), s.len() as int),
    decreases s.len(),
{
    if s.len() == 0 || total_size(s) <= budget {
        assert(s.subrange(0, s.len() as int) =~= s);
    } else {
        let t = s.drop_first();
        assert(t =~= s.remove(0));
        lemma_unique_remove(s, 0);
        lemma_evict_until(t, budget);
        let e = evict_until(t, budget);
        assert(t.subrange(t.len() - e.len(), t.len() as int) =~= s.subrange(
            s.len() - e.len(),
            s.len() as int,
        ));
    }
}

/// Every entry sequence that a cache reaches from empty by puts holds
/// distinct keys and at most `capacity` bytes.
pub proof fn lemma_put_entries(s: CacheEntries, capacity: nat, k: Seq<char>, v: Seq<u8>)
    requires
        keys_unique(s),
        total_size(s) <= capacity,
    ensures
        keys_unique(put_entries(s, capacity, k, v)),
        total_size(put_entries(s, capacity, k, v)) <= capacity,
        v.len() <= capacity ==> lookup(put_entries(s, capacity, k, v), k) == Some(v),
{
    if v.len() <= capacity {
        let budget = (capacity - v.len()) as nat;
        lemma_remove_key(s, k, k);
        let r = remove_key(s, k);
        lemma_evict_until(r, budget);
        let e = evict_until(r, budget);
        assert forall|j: int| 0 <= j < e.len() implies e[j].0 != k by {
            lemma_find_bounds(r, k);
            assert(e[j] == r[r.len() - e.len() + j]);
        }
        lemma_find_absent(e, k);
        lemma_push_fresh(e, k, v, k);
        let p = e.push((k, v));
        assert(p.drop_last() =~= e);
    }
}

/// Cache bound: however many values are put, one after another, into an
/// empty cache, the bytes it holds never exceed its capacity.
pub proof fn lemma_put_all_within_capacity(capacity: nat, items: CacheEntries)
    ensures
        total_size(put_all(Seq::empty(), capacity, items)) <= capacity,
        keys_unique(put_all(Seq::empty(), capacity, items)),
    decreases items.len(),
{
    if items.len() > 0 {
        lemma_put_all_within_capacity(capacity, items.drop_last());
        lemma_put_entries(
            put_all(Seq::empty(), capacity, items.drop_last()),
            capacity,
            items.last().0,
            items.last().1,
        );
    }
}

pub proof fn lemma_total_size_uniform(s: CacheEntries, sz: nat)
    requires
        forall|i: int| 0 <= i < s.len() ==> (#[trigger] s[i]).1.len() == sz,
    ensures
        total_size(s) == s.len() * sz,
    decreases s.len(),
{
    if s.len() > 0 {
        let t = s.drop_last();
        assert forall|i: int| 0 <= i < t.len() implies (#[trigger] t[i]).1.len() == sz by {
            assert(t[i] == s[i]);
        }
        lemma_total_size_uniform(t, sz);
        let n = s.len();
        assert((n - 1) * sz + sz == n * sz) by (nonlinear_arith);
    }
}

/// Puts of distinct keys that all fit leave the cache holding exactly what
/// was put, in order.
proof fn lemma_put_all_no_eviction(capacity: nat, items: CacheEntries, sz: nat, m: int)
    requires
        keys_unique(items),
        forall|i: int| 0 <= i < items.len() ==> (#[trigger] items[i]).1.len() == sz,
        0 <= m <= items.len(),
        m * sz <= capacity,
    ensures
        put_all(Seq::empty(), capacity, items.take(m)) == items.take(m),
    decreases m,
{
    if m > 0 {
        let pre = items.take(m);
        let rest = items.take(m - 1);
        assert(pre.drop_last() =~= rest);
        assert((m - 1) * sz <= m * sz) by (nonlinear_arith)
            requires m > 0;
        lemma_put_all_no_eviction(capacity, items, sz, m - 1);
        let k = items[m - 1].0;
        let v = items[m - 1].1;
        assert(pre.last() == items[m - 1]);
        assert(sz <= m * sz) by (nonlinear_arith)
            requires m > 0;
        assert forall|j: int| 0 <= j < rest.len() implies rest[j].0 != k by {
            assert(rest[j] == items[j]);
        }
        lemma_find_absent(rest, k);
        assert forall|i: int| 0 <= i < rest.len() implies (#[trigger] rest[i]).1.len() == sz by {
            assert(rest[i] == items[i]);
        }
        lemma_total_size_uniform(rest, sz);
        assert((m - 1) * sz + sz == m * sz) by (nonlinear_arith);
        assert(evict_until(rest, (capacity - sz) as nat) == rest);
        assert(rest.push((k, v)) =~= pre);
    }
}

/// Least-recently-used order: in a cache with room for exactly `n` values
/// of one size, putting `n + 1` distinct keys with no read in between evicts
/// the first key put, and only that one.
pub proof fn lemma_lru_evicts_first(capacity: nat, items: CacheEntries, sz: nat)
    requires
        items.len() >= 1,
        keys_unique(items),
        sz > 0,
        forall|i: int| 0 <= i < items.len() ==> (#[trigger] items[i]).1.len() == sz,
        (items.len() - 1) * sz <= capacity,
        capacity < items.len() * sz,
    ensures
        put_all(Seq::empty(), capacity, items) == items.drop_first(),
{
    let n = items.len() - 1;
    lemma_put_all_no_eviction(capacity, items, sz, n);
    let pre = items.take(n);
    assert(items.drop_last() =~= pre);
    let k = items.last().0;
    let v = items.last().1;
    assert(items.last() == items[n]);
    assert(put_all(Seq::empty(), capacity, items) == put_entries(pre, capacity, k, v));
    assert(v.len() == sz);
    if n == 0 {
        assert(items.drop_first() =~= Seq::<(Seq<char>, Seq<u8>)>::empty());
        assert(pre =~= Seq::<(Seq<char>, Seq<u8>)>::empty());
        assert(items.len() * sz == sz) by (nonlinear_arith)
            requires items.len() == 1;
        assert(capacity < sz);
    } else {
        assert(sz <= n * sz) by (nonlinear_arith)
            requires n > 0;
        assert forall|j: int| 0 <= j < pre.len() implies pre[j].0 != k by {
            assert(pre[j] == items[j]);
        }
        lemma_find_absent(pre, k);
        assert forall|i: int| 0 <= i < pre.len() implies (#[trigger] pre[i]).1.len() == sz by {
            assert(pre[i] == items[i]);
        }
        lemma_total_size_uniform(pre, sz);
        let budget = (capacity - sz) as nat;
        assert(n * sz + sz == items.len() * sz) by (nonlinear_arith)
            requires n == items.len() - 1;
        let tail = pre.drop_first();
        assert forall|i: int| 0 <= i < tail.len() implies (#[trigger] tail[i]).1.len() == sz by {
            assert(tail[i] == items[i + 1]);
        }
        lemma_total_size_uniform(tail, sz);
        assert((n - 1) * sz + sz == n * sz) by (nonlinear_arith);
        assert(evict_until(tail, budget) == tail);
        assert(remove_key(pre, k) == pre);
        assert(total_size(pre) > budget);
        assert(evict_until(pre, budget) == tail);
        assert(tail.push((k, v)) =~= items.drop_first());
    }
}

impl BoundedCache {
    /// The fixed number of value bytes the cache may hold.
    pub closed spec fn capacity(&self) -> nat {
        self.capacity as nat
    }

    pub closed spec fn wf(&self) -> bool {
        &&& keys_unique(self@)
        &&& self.size == total_size(self@)
        &&& self.size <= self.capacity
    }

    /// An empty cache that holds at most `capacity` value bytes.
    pub fn new(capacity: usize) -> (r: BoundedCache)
        ensures
            r.wf(),
            r@ == Seq::<(Seq<char>, Seq<u8>)>::empty(),
            r.capacity() == capacity,
    {
        let r = BoundedCache { capacity, size: 0, entries: Vec::new() };
        assert(r@ =~= Seq::<(Seq<char>, Seq<u8>)>::empty());
        r
    }

    /// The number of value bytes held.
    pub fn size(&self) -> (r: usize)
        requires
            self.wf(),
        ensures
            r == total_size(self@),
    {
        self.size
    }

    /// The number of entries held.
    pub fn len(&self) -> (r: usize)
        ensures
            r == self@.len(),
    {
        self.entries.len()
    }

    pub fn capacity_bytes(&self) -> (r: usize)
        ensures
            r == self.capacity(),
    {
        self.capacity
    }

    /// The position of `key`, if held.
    fn position(&self, key: &String) -> (r: Option<usize>)
        requires
            self.wf(),
        ensures
            match r {
                Some(i) => find(self@, key@) == Some(i as int) && i < self@.len(),
                None => find(self@, key@) is None,
            },
    {
        let mut i: usize = 0;
        while i < self.entries.len()
            invariant
                self.wf(),
                i <= self.entries@.len(),
                forall|j: int| 0 <= j < i ==> #[trigger] self@[j].0 != key@,
            decreases self.entries@.len() - i,
        {
            if self.entries[i].key == *key {
                proof {
                    lemma_find_index(self@, i as int);
                }
                return Some(i);
            }
            i += 1;
        }
        proof {
            lemma_find_absent(self@, key@);
        }
        None
    }

    /// Takes out the entry at position `i`.
    fn remove_at(&mut self, i: usize) -> (e: CacheEntry)
        requires
            old(self).wf(),
            i < old(self)@.len(),
        ensures
            final(self).wf(),
            final(self).capacity == old(self).capacity,
            final(self)@ == old(self)@.remove(i as int),
            entry_view(e) == old(self)@[i as int],
    {
        let ghost s0 = self@;
        let e = self.entries.remove(i);
        proof {
            assert(self@ =~= s0.remove(i as int));
            lemma_total_size_remove(s0, i as int);
            lemma_unique_remove(s0, i as int);
        }
        self.size = self.size - e.value.len();
        e
    }

    /// Stores `value` under `key`, replacing any value already there and
    /// evicting least recently used entries until it fits; the new entry
    /// becomes the most recently used. A value larger than the capacity is
    /// refused with `CapacityExceeded` and the cache is left unchanged.
    pub fn put(&mut self, key: String, value: Vec<u8>) -> (r: Result<(), CacheError>)
        requires
            old(self).wf(),
        ensures
            final(self).wf(),
            final(self).capacity() == old(self).capacity(),
            final(self)@ == put_entries(old(self)@, old(self).capacity(), key@, value@),
            r is Err <==> value@.len() > old(self).capacity(),
            r is Err ==> r == Err::<(), CacheError>(CacheError::CapacityExceeded),
    {
        if value.len() > self.capacity {
            return Err(CacheError::CapacityExceeded);
        }
        let ghost s0 = self@;
        let ghost budget: nat = (self.capacity - value.len()) as nat;
        proof {
            lemma_find_bounds(s0, key@);
        }
        match self.position(&key) {
            Some(i) => {
                self.remove_at(i);
            },
            None => {},
        }
        let ghost removed = self@;
        assert(removed == remove_key(s0, key@));
        while self.size > self.capacity - value.len()
            invariant
                self.wf(),
                self.capacity == old(self).capacity,
                value.len() <= self.capacity,
                budget == self.capacity - value.len(),
                evict_until(self@, budget) == evict_until(removed, budget),
            decreases self@.len(),
        {
            let ghost before = self@;
            assert(before.len() > 0);
            self.remove_at(0);
            assert(before.remove(0) =~= before.drop_first());
        }
        let ghost kept = self@;
        assert(evict_until(kept, budget) == kept);
        proof {
            lemma_put_entries(s0, old(self).capacity(), key@, value@);
        }
        self.size = self.size + value.len();
        self.entries.push(CacheEntry { key, value });
        proof {
            assert(self@ =~= kept.push((key@, value@)));
            assert(self@.drop_last() =~= kept);
        }
        Ok(())
    }

    /// The bytes stored under `key`, if any; a present key becomes the most
    /// recently used. An absent key changes nothing.
    pub fn get(&mut self, key: &str) -> (r: Option<Vec<u8>>)
        requires
            old(self).wf(),
        ensures
            final(self).wf(),
            final(self).capacity() == old(self).capacity(),
            final(self)@ == touch_entries(old(self)@, key@),
            match lookup(old(self)@, key@) {
                Some(v) => r is Some && r->0@ == v,
                None => r is None,
            },
    {
        let ghost s0 = self@;
        let key = key.to_owned();
        match self.position(&key) {
            Some(i) => {
                let e = self.remove_at(i);
                let ghost rest = self@;
                let v = e.value.clone();
                proof {
                    assert(v@ =~= e.value@);
                    lemma_total_size_remove(s0, i as int);
                    lemma_unique_remove(s0, i as int);
                }
                self.size = self.size + e.value.len();
                self.entries.push(e);
                proof {
                    let t = rest.push(s0[i as int]);
                    assert(self@ =~= t);
                    assert(t.drop_last() =~= rest);
                    assert(keys_unique(t)) by {
                        assert forall|a: int, b: int|
                            0 <= a < t.len() && 0 <= b < t.len() && a != b implies t[a].0
                            != t[b].0 by {
                            if a < t.len() - 1 && b < t.len() - 1 {
                                assert(t[a] == rest[a] && t[b] == rest[b]);
                            } else if a < t.len() - 1 {
                                assert(t[a] == rest[a]);
                            } else {
                                assert(t[b] == rest[b]);
                            }
                        }
                    }
                }
                Some(v)
            },
            None => None,
        }
    }
}

} // verus!
