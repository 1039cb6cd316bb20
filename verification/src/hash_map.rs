//! A hash map: the typed, ergonomic front of the Robin Hood table.  Each
//! instance owns a seeded hashing policy; the key is hashed once per call.

use vstd::prelude::*;
use vstd::arithmetic::power2::is_pow2;
use crate::hash::{HashKey, random_seed};
use crate::table::{RobinHoodTable, InsertOutcome, MIN_CAP, MAX_CAP, occ, key_at};

verus! {

/// A map from keys to values with Robin Hood linear probing underneath.
/// A stored value is changed by inserting under the same key, which hands
/// the previous value back; no borrowing accessor mutates in place.
#[verifier::reject_recursive_types(K)]
pub struct HashMap<K, V> {
    table: RobinHoodTable<K, V>,
}

impl<K, V> View for HashMap<K, V> {
    type V = Map<K, V>;

    closed spec fn view(&self) -> Map<K, V> {
        self.table@
    }
}

impl<K: HashKey, V> HashMap<K, V> {
    /// Validity of the underlying table.
    pub closed spec fn wf(self) -> bool {
        self.table.wf()
    }

    /// The current number of buckets.
    pub closed spec fn spec_cap(self) -> int {
        self.table.spec_cap()
    }

    /// Whether bucket `i` holds an entry.
    pub closed spec fn spec_occupied(self, i: int) -> bool {
        occ(self.table.spec_buckets(), i)
    }

    /// The key stored in bucket `i` (meaningful only when occupied).
    pub closed spec fn spec_key_at(self, i: int) -> K {
        key_at(self.table.spec_buckets(), i)
    }

    /// An empty map with the minimum capacity and a fresh random seed, so
    /// that distinct instances probe in different orders.
    pub fn new() -> (m: Self)
        ensures
            m.wf(),
            m@ == Map::<K, V>::empty(),
            m.spec_cap() == MIN_CAP,
    {
        let t = RobinHoodTable::with_capacity_and_seed(MIN_CAP, random_seed());
        proof {
            assert(is_pow2(MIN_CAP as int)) by {
                vstd::arithmetic::power2::is_pow2_equiv(MIN_CAP as int);
                vstd::arithmetic::power2::lemma_pow2(2);
                vstd::arithmetic::power2::lemma2_to64();
                assert(vstd::arithmetic::power::pow(2, 2) == MIN_CAP as int);
            }
            assert(t.spec_cap() <= MIN_CAP as int);
        }
        HashMap { table: t }
    }

    /// An empty map with at least `n` buckets: the capacity is `n` rounded
    /// up to a power of two, no smaller than the minimum floor, and as
    /// small as those constraints allow.
    pub fn with_capacity(n: usize) -> (m: Self)
        requires
            n <= MAX_CAP,
        ensures
            m.wf(),
            m@ == Map::<K, V>::empty(),
            n <= m.spec_cap(),
            is_pow2(m.spec_cap()),
            forall|c: int| is_pow2(c) && n <= c && MIN_CAP <= c ==> m.spec_cap() <= c,
    {
        HashMap { table: RobinHoodTable::with_capacity_and_seed(n, random_seed()) }
    }

    /// Inserts a key/value pair, handing back the previous value if the
    /// key was present.  Fails explicitly, leaving the map unchanged, only
    /// when a needed resize exceeds what the allocator can provide.
    pub fn insert(&mut self, key: K, value: V) -> (r: InsertOutcome<V>)
        requires
            old(self).wf(),
        ensures
            final(self).wf(),
            (r is Ok) ==> final(self)@ == old(self)@.insert(key, value),
            (r is Ok) && old(self)@.contains_key(key) ==> (r->Ok_0 == Some(old(self)@[key])),
            (r is Ok) && !old(self)@.contains_key(key) ==> (r->Ok_0 is None),
            (r is Err) ==> *final(self) == *old(self),
            (r is Err) <==> (10 * (old(self)@.dom().len() + 1) > 9 * old(self).spec_cap() && 2 * old(self).spec_cap() > MAX_CAP),
    {
        self.table.insert(key, value)
    }

    /// Looks the key up.
    pub fn get<'a>(&'a self, k: &K) -> (r: Option<&'a V>)
        requires
            self.wf(),
        ensures
            match r {
                Some(v) => self@.contains_key(*k) && *v == self@[*k],
                None => !self@.contains_key(*k),
            },
    {
        self.table.get(k)
    }

    /// Removes the key, handing back its value if it was present.
    pub fn remove(&mut self, k: &K) -> (r: Option<V>)
        requires
            old(self).wf(),
        ensures
            final(self).wf(),
            final(self)@ == old(self)@.remove(*k),
            final(self).spec_cap() == old(self).spec_cap(),
            r == (if old(self)@.contains_key(*k) {
                Some(old(self)@[*k])
            } else {
                None::<V>
            }),
    {
        self.table.remove(k)
    }

    /// Whether the key is present.
    pub fn contains_key(&self, k: &K) -> (b: bool)
        requires
            self.wf(),
        ensures
            b == self@.contains_key(*k),
    {
        self.table.contains_key(k)
    }

    /// The number of entries.
    pub fn len(&self) -> (n: usize)
        requires
            self.wf(),
        ensures
            n == self@.dom().len(),
    {
        self.table.len()
    }

    /// Whether the map holds no entries.
    pub fn is_empty(&self) -> (b: bool)
        requires
            self.wf(),
        ensures
            b == (self@.dom().len() == 0),
    {
        self.table.is_empty()
    }

    /// The number of buckets currently allocated.
    pub fn capacity(&self) -> (c: usize)
        requires
            self.wf(),
        ensures
            c == self.spec_cap(),
    {
        self.table.capacity()
    }

    /// The entry in bucket `i`, if occupied: walking `i` from zero to
    /// `capacity()` enumerates every pair once, in raw bucket order, an
    /// order stable while the map is unmodified.
    pub fn entry_at<'a>(&'a self, i: usize) -> (r: Option<(&'a K, &'a V)>)
        requires
            self.wf(),
            (i as int) < self.spec_cap(),
        ensures
            (r matches Some(kv) ==> self.spec_occupied(i as int) && *kv.0 == self.spec_key_at(
                i as int,
            ) && self@.contains_key(*kv.0) && self@[*kv.0] == *kv.1),
            (r is None) ==> !self.spec_occupied(i as int),
    {
        self.table.entry_at(i)
    }

    /// Removes every entry; the capacity is retained for reuse.
    pub fn clear(&mut self)
        requires
            old(self).wf(),
        ensures
            final(self).wf(),
            final(self)@ == Map::<K, V>::empty(),
            final(self).spec_cap() == old(self).spec_cap(),
    {
        self.table.clear()
    }
}

} // verus!
