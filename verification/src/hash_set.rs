//! A hash set: each element is a key of an internal hash map whose value
//! type carries no data.

use vstd::prelude::*;
use vstd::arithmetic::power2::is_pow2;
use crate::hash::HashKey;
use crate::hash_map::HashMap;
use crate::table::{AllocError, MIN_CAP, MAX_CAP};

verus! {

/// What a set insertion returns: whether the element was newly added, or
/// the explicit growth failure.
pub type SetInsertOutcome = Result<bool, AllocError>;

/// A set of elements with Robin Hood linear probing underneath.
#[verifier::reject_recursive_types(T)]
pub struct HashSet<T> {
    map: HashMap<T, ()>,
}

impl<T> View for HashSet<T> {
    type V = Set<T>;

    closed spec fn view(&self) -> Set<T> {
        self.map@.dom()
    }
}

impl<T: HashKey> HashSet<T> {
    /// Validity of the underlying map.
    pub closed spec fn wf(self) -> bool {
        self.map.wf()
    }

    /// The current number of buckets.
    pub closed spec fn spec_cap(self) -> int {
        self.map.spec_cap()
    }

    /// Whether bucket `i` holds an element.
    pub closed spec fn spec_occupied(self, i: int) -> bool {
        self.map.spec_occupied(i)
    }

    /// The element stored in bucket `i` (meaningful only when occupied).
    pub closed spec fn spec_elem_at(self, i: int) -> T {
        self.map.spec_key_at(i)
    }

    /// An empty set with the minimum capacity and a fresh random seed.
    pub fn new() -> (s: Self)
        ensures
            s.wf(),
            s@ == Set::<T>::empty(),
            s.spec_cap() == MIN_CAP,
    {
        let m = HashMap::<T, ()>::new();
        proof {
            assert(m@.dom() =~= Set::<T>::empty());
        }
        HashSet { map: m }
    }

    /// An empty set with at least `n` buckets: the capacity is `n` rounded
    /// up to a power of two, no smaller than the minimum floor, and as
    /// small as those constraints allow.
    pub fn with_capacity(n: usize) -> (s: Self)
        requires
            n <= MAX_CAP,
        ensures
            s.wf(),
            s@ == Set::<T>::empty(),
            n <= s.spec_cap(),
            is_pow2(s.spec_cap()),
            forall|c: int| is_pow2(c) && n <= c && MIN_CAP <= c ==> s.spec_cap() <= c,
    {
        let m = HashMap::<T, ()>::with_capacity(n);
        proof {
            assert(m@.dom() =~= Set::<T>::empty());
        }
        HashSet { map: m }
    }

    /// Adds an element: true when it was newly added, false when it was
    /// already present (the stored element is unchanged).
    pub fn insert(&mut self, t: T) -> (r: SetInsertOutcome)
        requires
            old(self).wf(),
        ensures
            final(self).wf(),
            (r is Ok) ==> final(self)@ == old(self)@.insert(t),
            (r is Ok) ==> (r->Ok_0 == !old(self)@.contains(t)),
            (r is Err) ==> *final(self) == *old(self),
            (r is Err) <==> (10 * (old(self)@.len() + 1) > 9 * old(self).spec_cap() && 2 * old(self).spec_cap() > MAX_CAP),
    {
        let prev = self.map.insert(t, ());
        proof {
            assert(old(self)@.len() == old(self).map@.dom().len());
        }
        match prev {
            Ok(Some(_)) => Ok(false),
            Ok(None) => Ok(true),
            Err(e) => Err(e),
        }
    }

    /// Whether the element is present.
    pub fn contains(&self, t: &T) -> (b: bool)
        requires
            self.wf(),
        ensures
            b == self@.contains(*t),
    {
        self.map.contains_key(t)
    }

    /// Removes the element: true when it was present.
    pub fn remove(&mut self, t: &T) -> (b: bool)
        requires
            old(self).wf(),
        ensures
            final(self).wf(),
            final(self)@ == old(self)@.remove(*t),
            b == old(self)@.contains(*t),
    {
        let r = self.map.remove(t);
        proof {
            assert(self.map@.dom() =~= old(self).map@.dom().remove(*t));
        }
        match r {
            Some(_) => true,
            None => false,
        }
    }

    /// The number of buckets currently allocated.
    pub fn capacity(&self) -> (c: usize)
        requires
            self.wf(),
        ensures
            c == self.spec_cap(),
    {
        self.map.capacity()
    }

    /// The element in bucket `i`, if occupied: walking `i` from zero to
    /// `capacity()` enumerates every element once, in raw bucket order.
    pub fn element_at<'a>(&'a self, i: usize) -> (r: Option<&'a T>)
        requires
            self.wf(),
            (i as int) < self.spec_cap(),
        ensures
            (r matches Some(t) ==> self.spec_occupied(i as int) && *t == self.spec_elem_at(
                i as int,
            ) && self@.contains(*t)),
            (r is None) ==> !self.spec_occupied(i as int),
    {
        match self.map.entry_at(i) {
            Some((t, _)) => Some(t),
            None => None,
        }
    }

    /// The number of elements.
    pub fn len(&self) -> (n: usize)
        requires
            self.wf(),
        ensures
            n == self@.len(),
    {
        self.map.len()
    }

    /// Whether the set holds no elements.
    pub fn is_empty(&self) -> (b: bool)
        requires
            self.wf(),
        ensures
            b == (self@.len() == 0),
    {
        self.map.is_empty()
    }
}

} // verus!
