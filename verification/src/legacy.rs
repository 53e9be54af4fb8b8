//! A second façade over the cache core, exposing the same operations
//! under the all-capital type names.  Everything forwards to
//! [`crate::cache::LruCache`] and carries the same contracts.

use vstd::prelude::*;
use crate::cache::LruCache;
use crate::cache::LruCacheIter;
use crate::cache::has_key;
use crate::cache::key_index;
use crate::cache::values_of;

verus! {

/// A walk over an [`LRUCache`]'s values in recency order, most recently
/// used first.
pub struct LRUCacheIter<'a, V> {
    inner: LruCacheIter<'a, V>,
}

impl<'a, V> LRUCacheIter<'a, V> {
    /// Iterator validity; see [`LruCacheIter::wf`].
    pub closed spec fn wf(self) -> bool {
        self.inner.wf()
    }

    /// The values the walk has yet to produce, in order.
    pub closed spec fn remaining(self) -> Seq<V> {
        self.inner.remaining()
    }

    /// Produces the next value in recency order, or `None` once the
    /// walk is exhausted.
    pub fn next(&mut self) -> (r: Option<&'a V>)
        requires
            old(self).wf(),
        ensures
            final(self).wf(),
            (match r {
                Option::None => old(self).remaining().len() == 0 && final(self).remaining() == old(
                    self,
                ).remaining(),
                Option::Some(v) => {
                    &&& old(self).remaining().len() > 0
                    &&& *v == old(self).remaining()[0]
                    &&& final(self).remaining() == old(self).remaining().drop_first()
                },
            }),
    {
        self.inner.next()
    }
}

/// A fixed-capacity, key-addressable cache with least-recently-used
/// eviction; an alternative name for [`LruCache`], with the same
/// behaviour and the same contracts.
pub struct LRUCache<V> {
    inner: LruCache<V>,
}

impl<V> LRUCache<V> {
    /// Abstract view: the `(key, value)` pairs from most- to
    /// least-recently used.
    pub closed spec fn entries(self) -> Seq<(Seq<char>, V)> {
        self.inner.entries()
    }

    /// The number of entries currently held.
    pub open spec fn spec_len(self) -> nat {
        self.entries().len()
    }

    /// The fixed number of slots, chosen at construction.
    pub closed spec fn spec_capacity(self) -> nat {
        self.inner.spec_capacity()
    }

    /// Well-formedness; established by the constructor and preserved by
    /// every operation.
    pub closed spec fn inv(self) -> bool {
        self.inner.inv()
    }

    /// Creates an empty cache with room for `capacity` entries; zero
    /// capacity is rejected outright.
    pub fn new(capacity: usize) -> (r: Self)
        requires
            1 <= capacity,
        ensures
            r.inv(),
            r.entries() == Seq::<(Seq<char>, V)>::empty(),
            r.spec_capacity() == capacity as nat,
    {
        LRUCache { inner: LruCache::new(capacity) }
    }

    /// Stores `value` under `key`; see [`LruCache::set`].  An existing
    /// key keeps its recency position: only `get` refreshes recency.
    pub fn set(&mut self, key: String, value: V)
        requires
            old(self).inv(),
        ensures
            final(self).inv(),
            final(self).spec_capacity() == old(self).spec_capacity(),
            has_key(old(self).entries(), key@) ==> final(self).entries() == old(
                self,
            ).entries().update(key_index(old(self).entries(), key@), (key@, value)),
            !has_key(old(self).entries(), key@) && old(self).spec_len() < old(
                self,
            ).spec_capacity() ==> final(self).entries() == seq![(key@, value)] + old(
                self,
            ).entries(),
            !has_key(old(self).entries(), key@) && old(self).spec_len() >= old(
                self,
            ).spec_capacity() ==> final(self).entries() == seq![(key@, value)] + old(
                self,
            ).entries().drop_last(),
    {
        self.inner.set(key, value)
    }

    /// Looks `key` up; a hit moves the entry to the head of the recency
    /// order and returns a reference to its value.  See
    /// [`LruCache::get`].
    pub fn get<'a>(&'a mut self, key: &str) -> (r: Option<&'a V>)
        requires
            old(self).inv(),
        ensures
            final(self).inv(),
            final(self).spec_capacity() == old(self).spec_capacity(),
            r is Some <==> has_key(old(self).entries(), key@),
            !has_key(old(self).entries(), key@) ==> final(self).entries() == old(self).entries(),
            has_key(old(self).entries(), key@) ==> ({
                let p = key_index(old(self).entries(), key@);
                &&& *r->Some_0 == old(self).entries()[p].1
                &&& final(self).entries() == seq![(key@, old(self).entries()[p].1)] + old(
                    self,
                ).entries().remove(p)
            }),
    {
        self.inner.get(key)
    }

    /// Starts a walk over the values in recency order, most recently
    /// used first.
    pub fn iter<'a>(&'a self) -> (r: LRUCacheIter<'a, V>)
        requires
            self.inv(),
        ensures
            r.wf(),
            r.remaining() == values_of(self.entries()),
    {
        LRUCacheIter { inner: self.inner.iter() }
    }
}

} // verus!
