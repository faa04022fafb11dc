use crate::snapshot::{DirSnapshot, SnapshotModel};
use std::sync::Arc;
use vstd::prelude::*;

verus! {

#[verifier::external_type_specification]
#[verifier::external_body]
#[verifier::reject_recursive_types(K)]
#[verifier::reject_recursive_types(V)]
#[verifier::reject_recursive_types(S)]
pub struct ExLruCache<K: core::cmp::Eq + core::hash::Hash, V, S: core::hash::BuildHasher>(
    lru_cache::LruCache<K, V, S>,
);

/// The bounded listing cache: inode number to shared snapshot reference,
/// with strict least-recently-used eviction.
pub struct ListingCache {
    inner: lru_cache::LruCache<u64, Arc<DirSnapshot>>,
}

/// The entries a listing cache currently holds, most recently used first:
/// each pair is an inode number and the model of the snapshot cached for it.
pub uninterp spec fn lru_entries(c: &ListingCache) -> Seq<(u64, SnapshotModel)>;

/// The capacity the cache was created with.
pub uninterp spec fn lru_capacity(c: &ListingCache) -> nat;

/// Whether some entry of the cache sequence is keyed by `ino`.
pub open spec fn lru_contains(s: Seq<(u64, SnapshotModel)>, ino: u64) -> bool {
    exists|i: int| 0 <= i < s.len() && (#[trigger] s[i]).0 == ino
}

/// The cache sequence with every entry keyed by `ino` dropped and all
/// other entries left in their recency order.
pub open spec fn lru_purge(s: Seq<(u64, SnapshotModel)>, ino: u64) -> Seq<(u64, SnapshotModel)> {
    s.filter(|p: (u64, SnapshotModel)| p.0 != ino)
}

impl ListingCache {
    /// The cached entries, most recently used first.
    pub open spec fn entries(&self) -> Seq<(u64, SnapshotModel)> {
        lru_entries(self)
    }

    /// The fixed capacity of the cache.
    pub open spec fn cap(&self) -> nat {
        lru_capacity(self)
    }

    /// Relies on lru_cache::LruCache::new: a fresh cache is empty and holds
    /// at most `capacity` entries from then on.
    #[verifier::external_body]
    pub(crate) fn new(capacity: usize) -> (r: ListingCache)
        ensures
            lru_entries(&r) == Seq::<(u64, SnapshotModel)>::empty(),
            lru_capacity(&r) == capacity as nat,
    {
        ListingCache { inner: lru_cache::LruCache::new(capacity) }
    }

    /// Relies on lru_cache::LruCache::len: the number of entries held.
    #[verifier::external_body]
    pub(crate) fn len(&self) -> (r: usize)
        ensures
            r as int == lru_entries(self).len(),
    {
        self.inner.len()
    }

    /// Relies on lru_cache::LruCache::get_mut, which refreshes the entry it
    /// finds: a hit hands out the cached reference and moves that entry to
    /// the most recently used position; a miss changes nothing.
    #[verifier::external_body]
    pub(crate) fn get_promote(&mut self, ino: u64) -> (r: Option<Arc<DirSnapshot>>)
        ensures
            lru_capacity(final (self)) == lru_capacity(old(self)),
            match r {
                None => lru_entries(final (self)) == lru_entries(old(self)) && !lru_contains(
                    lru_entries(old(self)),
                    ino,
                ),
                Some(s) => exists|i: int|
                    0 <= i < lru_entries(old(self)).len() && (#[trigger] lru_entries(old(self))[i])
                        == (ino, s@) && lru_entries(final (self)) == seq![(ino, s@)] + lru_entries(
                        old(self),
                    ).remove(i),
            },
    {
        self.inner.get_mut(&ino).map(|v| v.clone())
    }

    /// Relies on lru_cache::LruCache::remove: drops the entry keyed by
    /// `ino`, if any, and leaves every other entry in its order.
    #[verifier::external_body]
    pub(crate) fn remove(&mut self, ino: u64) -> (r: Option<Arc<DirSnapshot>>)
        ensures
            lru_capacity(final (self)) == lru_capacity(old(self)),
            lru_entries(final (self)) == lru_purge(lru_entries(old(self)), ino),
            match r {
                Some(s) => lru_contains(lru_entries(old(self)), ino),
                None => !lru_contains(lru_entries(old(self)), ino),
            },
    {
        self.inner.remove(&ino)
    }

    /// Relies on lru_cache::LruCache::remove_lru: removes and returns the
    /// least recently used entry, the last in recency order.
    #[verifier::external_body]
    pub(crate) fn remove_lru(&mut self) -> (r: Option<(u64, Arc<DirSnapshot>)>)
        ensures
            lru_capacity(final (self)) == lru_capacity(old(self)),
            match r {
                None => lru_entries(old(self)).len() == 0 && lru_entries(final (self))
                    == lru_entries(old(self)),
                Some(p) => lru_entries(old(self)).len() > 0 && lru_entries(old(self)).last() == (
                    p.0,
                    p.1@,
                ) && lru_entries(final (self)) == lru_entries(old(self)).drop_last(),
            },
    {
        self.inner.remove_lru()
    }

    /// Relies on lru_cache::LruCache::insert: a key not yet present is
    /// inserted at the most recently used position, and below capacity no
    /// entry is evicted.
    #[verifier::external_body]
    pub(crate) fn insert(&mut self, ino: u64, snapshot: &Arc<DirSnapshot>)
        requires
            !lru_contains(lru_entries(old(self)), ino),
            lru_entries(old(self)).len() < lru_capacity(old(self)),
        ensures
            lru_capacity(final (self)) == lru_capacity(old(self)),
            lru_entries(final (self)) == seq![(ino, snapshot@)] + lru_entries(old(self)),
    {
        let _ = self.inner.insert(ino, snapshot.clone());
    }
}

} // verus!
