use crate::snapshot::{DirSnapshot, SnapshotModel};
use std::sync::Arc;
use vstd::prelude::*;

verus! {

/// The table of open directory handles: a concurrent slot allocator in
/// which every open handle holds one shared snapshot reference.
#[verifier::external_body]
pub struct HandleTable {
    inner: sharded_slab::Slab<Arc<DirSnapshot>>,
}

/// The live entries of a handle table: each slab key to the model of the
/// snapshot stored under it.
pub uninterp spec fn slab_entries(t: &HandleTable) -> Map<usize, SnapshotModel>;

impl HandleTable {
    /// The live entries of the table.
    pub open spec fn entries(&self) -> Map<usize, SnapshotModel> {
        slab_entries(self)
    }

    /// Relies on sharded_slab::Slab::new: a fresh slab holds no entries.
    #[verifier::external_body]
    pub(crate) fn new() -> (r: HandleTable)
        ensures
            slab_entries(&r) == (Map::<usize, SnapshotModel>::empty()),
    {
        HandleTable { inner: sharded_slab::Slab::new() }
    }

    /// Relies on sharded_slab::Slab::insert: on success the value is stored
    /// under a key that no live entry uses; `None` means the slab is full
    /// and nothing changed.
    #[verifier::external_body]
    pub(crate) fn insert(&mut self, snapshot: &Arc<DirSnapshot>) -> (r: Option<usize>)
        ensures
            match r {
                Some(key) => !slab_entries(old(self)).contains_key(key) && slab_entries(
                    final (self),
                ) == slab_entries(old(self)).insert(key, snapshot@),
                None => slab_entries(final (self)) == slab_entries(old(self)),
            },
    {
        self.inner.insert(snapshot.clone())
    }

    /// Relies on sharded_slab::Slab::get: hands out the value stored under a
    /// live key and `None` for a key no live entry uses.
    #[verifier::external_body]
    pub(crate) fn get(&self, key: usize) -> (r: Option<Arc<DirSnapshot>>)
        ensures
            match r {
                Some(s) => slab_entries(self).contains_key(key) && s@ == slab_entries(self)[key],
                None => !slab_entries(self).contains_key(key),
            },
    {
        self.inner.get(key).map(|e| e.clone())
    }

    /// Relies on sharded_slab::Slab::remove: drops the entry under the key
    /// and reports whether there was one.
    #[verifier::external_body]
    pub(crate) fn remove(&mut self, key: usize) -> (r: bool)
        ensures
            r == slab_entries(old(self)).contains_key(key),
            slab_entries(final (self)) == slab_entries(old(self)).remove(key),
    {
        self.inner.remove(key)
    }
}

} // verus!
