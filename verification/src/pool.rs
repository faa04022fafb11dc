use crate::cache::{lru_contains, lru_purge, ListingCache};
use crate::error::Error;
use crate::handles::HandleTable;
use crate::snapshot::{
    build_snapshot, entry_models, snapshot_wf, spec_name_map, DirEntry, DirSnapshot, EntryModel,
    SnapshotModel,
};
use std::sync::Arc;
use vstd::prelude::*;

verus! {

/// Configuration of the directory pool: the listing cache's capacity, a
/// positive number of distinct directories cached at once.
pub struct Config {
    lru_cache_size: usize,
}

impl Config {
    /// The configured cache capacity.
    pub closed spec fn capacity(&self) -> usize {
        self.lru_cache_size
    }

    /// A configuration with the given cache capacity.
    pub fn new(lru_cache_size: usize) -> (r: Config)
        requires
            lru_cache_size >= 1,
        ensures
            r.capacity() == lru_cache_size,
    {
        Config { lru_cache_size }
    }
}

/// One child record of a fetched listing after translation: either a
/// finished entry, or the mark that the raw record could not be translated.
#[derive(Debug, Clone)]
pub enum ChildItem {
    Entry(DirEntry),
    Malformed,
}

/// What one remote fetch of a directory reported: the directory's version
/// marker, if the response carried one, and its translated children, if the
/// response carried a children list.
pub struct FetchResponse {
    pub c_tag: Option<String>,
    pub children: Option<Vec<ChildItem>>,
}

/// Whether every child record of a fetched listing was translated.
pub open spec fn all_translated(items: Seq<ChildItem>) -> bool {
    forall|i: int| 0 <= i < items.len() ==> (#[trigger] items[i]) is Entry
}

/// The entry models of a fully translated children list, in fetch order.
pub open spec fn translated_models(items: Seq<ChildItem>) -> Seq<EntryModel> {
    items.map_values(
        |c: ChildItem|
            match c {
                ChildItem::Entry(e) => e@,
                ChildItem::Malformed => arbitrary(),
            },
    )
}

/// The model of the snapshot that a fully translated fetch yields.
pub open spec fn fetched_model(tag: Seq<char>, items: Seq<ChildItem>) -> SnapshotModel {
    SnapshotModel {
        c_tag: tag,
        entries: translated_models(items),
        name_map: spec_name_map(translated_models(items)),
    }
}

/// Whether two pool states hold the same cache and the same handles.
pub open spec fn same_pool(a: DirPool, b: DirPool) -> bool {
    &&& b.cache_entries() == a.cache_entries()
    &&& b.cache_cap() == a.cache_cap()
    &&& b.handle_entries() == a.handle_entries()
}

/// No two cache entries are keyed by the same inode number.
pub open spec fn distinct_inos(s: Seq<(u64, SnapshotModel)>) -> bool {
    forall|i: int, j: int| 0 <= i < j < s.len() ==> (#[trigger] s[i]).0 != (#[trigger] s[j]).0
}

/// Where the cache entry keyed by `ino` stands in recency order.
pub open spec fn cache_index_of(s: Seq<(u64, SnapshotModel)>, ino: u64) -> int {
    choose|i: int| 0 <= i < s.len() && (#[trigger] s[i]).0 == ino
}

/// How a cache in state `s` with capacity `cap` looks after a freshly
/// fetched snapshot `m` is stored for `ino`: a previous entry for `ino` is
/// replaced, the least recently used entry is evicted when the cache is
/// full, and the new entry becomes the most recently used.
pub open spec fn lru_store(
    s: Seq<(u64, SnapshotModel)>,
    cap: nat,
    ino: u64,
    m: SnapshotModel,
) -> Seq<(u64, SnapshotModel)> {
    let purged = lru_purge(s, ino);
    let room = if purged.len() == cap {
        purged.drop_last()
    } else {
        purged
    };
    seq![(ino, m)] + room
}

/// What `open` reports: a handle for the requested directory, or the word
/// that the listing is not cached and must first be fetched.
#[derive(Debug, PartialEq, Eq, Structural)]
pub enum OpenOutcome {
    Opened(u64),
    NeedsFetch,
}

/// The directory pool: the listing cache and the table of open handles,
/// composed behind the `open`/`read`/`free` surface.
pub struct DirPool {
    handles: HandleTable,
    cache: ListingCache,
    capacity: usize,
}

impl DirPool {
    /// The cached listings, most recently used first.
    pub closed spec fn cache_entries(&self) -> Seq<(u64, SnapshotModel)> {
        self.cache.entries()
    }

    /// The listing cache's capacity.
    pub closed spec fn cache_cap(&self) -> nat {
        self.cache.cap()
    }

    /// The open handles and the snapshots they reference.
    pub closed spec fn handle_entries(&self) -> Map<usize, SnapshotModel> {
        self.handles.entries()
    }

    /// The snapshot an open handle references, if the handle is live.
    pub open spec fn handle_snapshot(&self, fh: u64) -> Option<SnapshotModel> {
        if fh <= usize::MAX as u64 && self.handle_entries().contains_key(fh as usize) {
            Some(self.handle_entries()[fh as usize])
        } else {
            None
        }
    }

    /// The pool's invariant: the cache never exceeds its positive capacity
    /// and holds at most one listing per inode.
    pub closed spec fn wf(&self) -> bool {
        &&& self.cache.cap() >= 1
        &&& self.cache.entries().len() <= self.cache.cap()
        &&& distinct_inos(self.cache.entries())
        &&& self.capacity as nat == self.cache.cap()
    }

    /// A pool with an empty cache of the configured capacity and no open
    /// handles.
    pub fn new(config: Config) -> (r: DirPool)
        requires
            config.capacity() >= 1,
        ensures
            r.wf(),
            r.cache_entries().len() == 0,
            r.handle_entries() == (Map::<usize, SnapshotModel>::empty()),
            r.cache_cap() == config.capacity() as nat,
    {
        DirPool {
            handles: HandleTable::new(),
            cache: ListingCache::new(config.lru_cache_size),
            capacity: config.lru_cache_size,
        }
    }

    fn key_to_fh(key: usize) -> (r: u64)
        ensures
            r as int == key as int,
    {
        key as u64
    }

    fn fh_to_key(fh: u64) -> (r: Option<usize>)
        ensures
            match r {
                Some(key) => key as int == fh as int,
                None => fh > usize::MAX as u64,
            },
    {
        if fh <= usize::MAX as u64 {
            Some(fh as usize)
        } else {
            None
        }
    }

    /// Stores one shared snapshot reference in the handle table and returns
    /// the fresh handle, or reports the table as exhausted.
    fn allocate_handle(&mut self, snapshot: &Arc<DirSnapshot>) -> (r: Result<u64, Error>)
        ensures
            final (self).cache_entries() == old(self).cache_entries(),
            final (self).cache_cap() == old(self).cache_cap(),
            final (self).wf() == old(self).wf(),
            match r {
                Ok(fh) => fh <= usize::MAX as u64
                    && !old(self).handle_entries().contains_key(fh as usize)
                    && final (self).handle_entries()
                    == old(self).handle_entries().insert(fh as usize, snapshot@),
                Err(e) => e == Error::HandleSpaceExhausted
                    && final (self).handle_entries() == old(self).handle_entries(),
            },
    {
        match self.handles.insert(snapshot) {
            Some(key) => Ok(Self::key_to_fh(key)),
            None => Err(Error::HandleSpaceExhausted),
        }
    }

    /// Opens a directory against the cache alone. A cached listing is
    /// promoted to most recently used and a fresh handle to it is returned;
    /// an uncached one is reported as needing a remote fetch, with nothing
    /// changed. No remote access happens on a cache hit.
    pub fn open(&mut self, ino: u64) -> (r: Result<OpenOutcome, Error>)
        requires
            old(self).wf(),
        ensures
            final (self).wf(),
            final (self).cache_cap() == old(self).cache_cap(),
            !lru_contains(old(self).cache_entries(), ino) ==> ((r matches Ok(
                OpenOutcome::NeedsFetch,
            )) && final (self).cache_entries() == old(self).cache_entries() && final (self)
                .handle_entries() == old(self).handle_entries()),
            lru_contains(old(self).cache_entries(), ino) ==> ({
                let i = cache_index_of(old(self).cache_entries(), ino);
                let m = old(self).cache_entries()[i].1;
                &&& final (self).cache_entries() == seq![(ino, m)] + old(self).cache_entries().remove(i)
                &&& match r {
                    Ok(OpenOutcome::Opened(fh)) => fh <= usize::MAX as u64
                        && !old(self).handle_entries().contains_key(fh as usize)
                        && final (self).handle_entries()
                        == old(self).handle_entries().insert(fh as usize, m),
                    Err(e) => e == Error::HandleSpaceExhausted && final (self).handle_entries()
                        == old(self).handle_entries(),
                    _ => false,
                }
            }),
    {
        let ghost s0 = self.cache_entries();
        let hit = self.cache.get_promote(ino);
        match hit {
            Some(snapshot) => {
                proof {
                    let iw = choose|i: int|
                        0 <= i < s0.len() && (#[trigger] s0[i]) == (ino, snapshot@)
                            && self.cache_entries() == seq![(ino, snapshot@)] + s0.remove(i);
                    assert(0 <= iw < s0.len() && (#[trigger] s0[iw]).0 == ino);
                    let i0 = cache_index_of(s0, ino);
                    assert(0 <= i0 < s0.len() && s0[i0].0 == ino);
                    assert(i0 == iw);
                    lemma_promote_distinct(s0, iw);
                    assert(seq![s0[iw]] + s0.remove(iw) == seq![(ino, snapshot@)] + s0.remove(iw));
                }
                match self.allocate_handle(&snapshot) {
                    Ok(fh) => Ok(OpenOutcome::Opened(fh)),
                    Err(e) => Err(e),
                }
            },
            None => Ok(OpenOutcome::NeedsFetch),
        }
    }

    /// Completes an `open` that missed the cache, from what one remote
    /// fetch reported. A response without a version marker or a children
    /// list, or with an untranslatable child record, fails the call and
    /// leaves the pool untouched. Otherwise the snapshot built from the
    /// children, in their fetched order, replaces any cached listing for
    /// `ino` — evicting the least recently used entry when the cache is
    /// full — and a fresh handle to it is returned.
    #[verifier::loop_isolation(false)]
    pub fn open_fetched(&mut self, ino: u64, response: FetchResponse) -> (r: Result<u64, Error>)
        requires
            old(self).wf(),
        ensures
            final (self).wf(),
            final (self).cache_cap() == old(self).cache_cap(),
            response.c_tag is None ==> r == Err::<u64, Error>(Error::MissingVersionMarker)
                && same_pool(*old(self), *final (self)),
            response.c_tag is Some && response.children is None ==> r == Err::<u64, Error>(
                Error::MissingChildren,
            ) && same_pool(*old(self), *final (self)),
            response.c_tag is Some && response.children is Some && !all_translated(
                response.children.unwrap()@,
            ) ==> r == Err::<u64, Error>(Error::MalformedChild) && same_pool(
                *old(self),
                *final (self),
            ),
            response.c_tag is Some && response.children is Some && all_translated(
                response.children.unwrap()@,
            ) ==> ({
                let m = fetched_model(response.c_tag.unwrap()@, response.children.unwrap()@);
                &&& snapshot_wf(m)
                &&& final (self).cache_entries() == lru_store(
                    old(self).cache_entries(),
                    old(self).cache_cap(),
                    ino,
                    m,
                )
                &&& match r {
                    Ok(fh) => fh <= usize::MAX as u64 && !old(self).handle_entries().contains_key(
                        fh as usize,
                    ) && final (self).handle_entries() == old(self).handle_entries().insert(
                        fh as usize,
                        m,
                    ),
                    Err(e) => e == Error::HandleSpaceExhausted && final (self).handle_entries()
                        == old(self).handle_entries(),
                }
            }),
    {
        let FetchResponse { c_tag, children } = response;
        let tag = match c_tag {
            Some(t) => t,
            None => {
                return Err(Error::MissingVersionMarker);
            },
        };
        let items = match children {
            Some(c) => c,
            None => {
                return Err(Error::MissingChildren);
            },
        };
        let mut translated: Vec<DirEntry> = Vec::new();
        let mut i: usize = 0;
        while i < items.len()
            invariant
                i <= items.len(),
                translated@.len() == i as int,
                forall|j: int| 0 <= j < i as int ==> (#[trigger] items@[j]) is Entry,
                forall|j: int|
                    0 <= j < i as int ==> (#[trigger] translated@[j])@ == translated_models(
                        items@,
                    )[j],
            decreases items.len() - i,
        {
            match &items[i] {
                ChildItem::Entry(e) => {
                    translated.push(e.duplicate());
                },
                ChildItem::Malformed => {
                    proof {
                        assert(!(items@[i as int] is Entry));
                    }
                    return Err(Error::MalformedChild);
                },
            }
            i = i + 1;
        }
        proof {
            assert(entry_models(translated@) =~= translated_models(items@));
        }
        let ghost m = fetched_model(tag@, items@);
        let snapshot = build_snapshot(tag, translated);
        let arc = Arc::new(snapshot);
        proof {
            assert(arc@ == m);
        }
        let ghost s0 = self.cache_entries();
        let _ = self.cache.remove(ino);
        proof {
            lemma_purge_facts(s0, ino);
        }
        let ghost purged = self.cache_entries();
        if self.cache.len() == self.capacity {
            let _ = self.cache.remove_lru();
            proof {
                assert forall|a: int, b: int|
                    0 <= a < b < self.cache_entries().len() implies (#[trigger] self
                    .cache_entries()[a]).0 != (#[trigger] self.cache_entries()[b]).0 by {
                    assert(self.cache_entries()[a] == purged[a]);
                    assert(self.cache_entries()[b] == purged[b]);
                }
                assert forall|j: int|
                    0 <= j < self.cache_entries().len() implies (#[trigger] self
                    .cache_entries()[j]).0 != ino by {
                    assert(self.cache_entries()[j] == purged[j]);
                }
            }
        }
        self.cache.insert(ino, &arc);
        proof {
            let stored = self.cache_entries();
            assert(stored == lru_store(s0, old(self).cache_cap(), ino, m));
            assert forall|a: int, b: int|
                0 <= a < b < stored.len() implies (#[trigger] stored[a]).0 != (
            #[trigger] stored[b]).0 by {
                if a > 0 {
                    assert(stored[a] == stored.subrange(1, stored.len() as int)[a - 1]);
                }
                assert(stored[b] == stored.subrange(1, stored.len() as int)[b - 1]);
            }
        }
        self.allocate_handle(&arc)
    }

    /// Reads the open directory from `offset` to the end of its captured
    /// listing. An offset equal to the number of entries yields the empty
    /// sequence; one beyond it is an offset-out-of-range error; a handle
    /// that is not live is an invalid-handle error. The cache is never
    /// touched, so repeated reads of one handle always see one snapshot.
    #[verifier::loop_isolation(false)]
    pub fn read(&self, fh: u64, offset: u64) -> (r: Result<Vec<DirEntry>, Error>)
        ensures
            match spec_read(*self, fh, offset) {
                Ok(s) => r matches Ok(v) && entry_models(v@) == s,
                Err(e) => r == Err::<Vec<DirEntry>, Error>(e),
            },
    {
        let key = match Self::fh_to_key(fh) {
            Some(k) => k,
            None => {
                return Err(Error::InvalidHandle(fh));
            },
        };
        let snapshot = match self.handles.get(key) {
            Some(s) => s,
            None => {
                return Err(Error::InvalidHandle(fh));
            },
        };
        let total = snapshot.entries.len();
        if offset > total as u64 {
            return Err(Error::OffsetOutOfRange);
        }
        let ghost m = self.handle_snapshot(fh).unwrap();
        let mut out: Vec<DirEntry> = Vec::new();
        let mut i: usize = offset as usize;
        while i < total
            invariant
                offset as int <= i as int <= total as int,
                total as int == m.entries.len(),
                entry_models(snapshot.entries@) == m.entries,
                snapshot.entries@.len() == total as int,
                entry_models(out@) == m.entries.subrange(offset as int, i as int),
            decreases total - i,
        {
            let entry = snapshot.entries[i].duplicate();
            out.push(entry);
            proof {
                assert(entry_models(out@) =~= m.entries.subrange(offset as int, i as int + 1));
            }
            i = i + 1;
        }
        proof {
            assert(m.entries.subrange(offset as int, total as int) =~= m.entries.skip(
                offset as int,
            ));
        }
        Ok(out)
    }

    /// Closes an open handle. The handle is removed from the table, so
    /// every later `read` or `free` of it fails as invalid; the cache is
    /// untouched, and a snapshot it still holds stays served to future
    /// `open` calls.
    pub fn free(&mut self, fh: u64) -> (r: Result<(), Error>)
        ensures
            final (self).cache_entries() == old(self).cache_entries(),
            final (self).cache_cap() == old(self).cache_cap(),
            final (self).wf() == old(self).wf(),
            old(self).handle_snapshot(fh) is Some ==> r == Ok::<(), Error>(()) && final (self)
                .handle_entries() == old(self).handle_entries().remove(fh as usize),
            old(self).handle_snapshot(fh) is None ==> r == Err::<(), Error>(Error::InvalidHandle(
                fh,
            )) && final (self).handle_entries() == old(self).handle_entries(),
    {
        let key = match Self::fh_to_key(fh) {
            Some(k) => k,
            None => {
                return Err(Error::InvalidHandle(fh));
            },
        };
        if self.handles.remove(key) {
            Ok(())
        } else {
            proof {
                assert(old(self).handle_entries().remove(key) =~= old(self).handle_entries());
            }
            Err(Error::InvalidHandle(fh))
        }
    }
}

/// What `read` returns, as a function of the pool state, the handle and
/// the offset.
pub open spec fn spec_read(p: DirPool, fh: u64, offset: u64) -> Result<Seq<EntryModel>, Error> {
    match p.handle_snapshot(fh) {
        None => Err(Error::InvalidHandle(fh)),
        Some(m) => if offset > m.entries.len() {
            Err(Error::OffsetOutOfRange)
        } else {
            Ok(m.entries.skip(offset as int))
        },
    }
}

/// Two handles that reference the same snapshot read alike: at every
/// offset they yield the same entries, so a warm `open` hands out a
/// handle whose reads are structurally equal to those of every other
/// handle on that snapshot.
pub proof fn lemma_shared_snapshot_reads_alike(p: DirPool, fh1: u64, fh2: u64, offset: u64)
    requires
        p.handle_snapshot(fh1) is Some,
        p.handle_snapshot(fh1) == p.handle_snapshot(fh2),
    ensures
        spec_read(p, fh1, offset) == spec_read(p, fh2, offset),
{
}

/// Reading exactly at the end of a listing yields the empty sequence;
/// reading one past the end is an offset-out-of-range error.
pub proof fn lemma_read_pagination_end(p: DirPool, fh: u64, n: u64)
    requires
        p.handle_snapshot(fh) matches Some(m) && m.entries.len() == n,
        n < u64::MAX,
    ensures
        spec_read(p, fh, n) == Ok::<Seq<EntryModel>, Error>(Seq::empty()),
        spec_read(p, fh, (n + 1) as u64) == Err::<Seq<EntryModel>, Error>(Error::OffsetOutOfRange),
{
    let m = p.handle_snapshot(fh).unwrap();
    assert(m.entries.skip(n as int) =~= Seq::<EntryModel>::empty());
}

/// Once a handle is removed from the table — as `free` does — every later
/// `read` of it is an invalid-handle error, and so is a later `free`,
/// since the handle no longer references a snapshot.
pub proof fn lemma_free_invalidates_handle(p: DirPool, q: DirPool, fh: u64, offset: u64)
    requires
        fh <= usize::MAX as u64,
        q.handle_entries() == p.handle_entries().remove(fh as usize),
    ensures
        q.handle_snapshot(fh) is None,
        spec_read(q, fh, offset) == Err::<Seq<EntryModel>, Error>(Error::InvalidHandle(fh)),
{
}

/// Storing a fresh listing into a full cache evicts exactly the least
/// recently used entry: the new listing enters as most recently used, the
/// cache stays at capacity, the last entry's inode is no longer cached,
/// and every other inode still is.
pub proof fn lemma_cold_store_evicts_lru(
    s: Seq<(u64, SnapshotModel)>,
    cap: nat,
    ino: u64,
    m: SnapshotModel,
)
    requires
        distinct_inos(s),
        s.len() == cap,
        cap >= 1,
        !lru_contains(s, ino),
    ensures
        lru_store(s, cap, ino, m).len() == cap,
        lru_store(s, cap, ino, m)[0] == (ino, m),
        !lru_contains(lru_store(s, cap, ino, m), s.last().0),
        forall|i: int|
            0 <= i < s.len() - 1 ==> lru_contains(lru_store(s, cap, ino, m), (#[trigger] s[i]).0),
{
    lemma_purge_absent(s, ino);
    let t = lru_store(s, cap, ino, m);
    assert(t == seq![(ino, m)] + s.drop_last());
    assert forall|j: int| 0 <= j < t.len() implies (#[trigger] t[j]).0 != s.last().0 by {
        if j == 0 {
            assert(s[s.len() - 1].0 == s.last().0);
        } else {
            assert(t[j] == s[j - 1]);
        }
    }
    assert forall|i: int| 0 <= i < s.len() - 1 implies lru_contains(t, (#[trigger] s[i]).0) by {
        assert(t[i + 1] == s[i]);
    }
}

proof fn lemma_purge_absent(s: Seq<(u64, SnapshotModel)>, ino: u64)
    requires
        !lru_contains(s, ino),
    ensures
        lru_purge(s, ino) == s,
    decreases s.len(),
{
    reveal(Seq::filter);
    if s.len() > 0 {
        let dl = s.drop_last();
        assert forall|i: int| 0 <= i < dl.len() implies (#[trigger] dl[i]).0 != ino by {
            assert(dl[i] == s[i]);
        }
        lemma_purge_absent(dl, ino);
        assert(s[s.len() - 1].0 != ino);
        assert(dl.push(s.last()) =~= s);
    }
}

proof fn lemma_purge_facts(s: Seq<(u64, SnapshotModel)>, ino: u64)
    requires
        distinct_inos(s),
    ensures
        distinct_inos(lru_purge(s, ino)),
        lru_purge(s, ino).len() <= s.len(),
        !lru_contains(lru_purge(s, ino), ino),
        forall|j: int|
            0 <= j < lru_purge(s, ino).len() ==> exists|k: int|
                0 <= k < s.len() && s[k].0 == (#[trigger] lru_purge(s, ino)[j]).0,
    decreases s.len(),
{
    reveal(Seq::filter);
    if s.len() > 0 {
        let dl = s.drop_last();
        lemma_purge_facts(dl, ino);
        if s.last().0 != ino {
            assert(lru_purge(s, ino) == lru_purge(dl, ino).push(s.last()));
            let t = lru_purge(s, ino);
            let td = lru_purge(dl, ino);
            assert forall|j: int| 0 <= j < t.len() implies exists|k: int|
                0 <= k < s.len() && s[k].0 == (#[trigger] t[j]).0 by {
                if j < td.len() {
                    assert(t[j] == td[j]);
                    let k = choose|k: int| 0 <= k < dl.len() && dl[k].0 == (#[trigger] td[j]).0;
                    assert(s[k].0 == t[j].0);
                } else {
                    assert(t[j] == s.last());
                    assert(s[s.len() - 1].0 == t[j].0);
                }
            }
            assert forall|a: int, b: int| 0 <= a < b < t.len() implies (#[trigger] t[a]).0 != (
            #[trigger] t[b]).0 by {
                if b < td.len() {
                } else {
                    assert(t[a] == td[a]);
                    let k = choose|k: int| 0 <= k < dl.len() && dl[k].0 == (#[trigger] td[a]).0;
                    assert(s[k].0 == t[a].0);
                    assert(t[b] == s.last());
                }
            }
            assert forall|j: int| 0 <= j < t.len() implies (#[trigger] t[j]).0 != ino by {
                if j < td.len() {
                    assert(t[j] == td[j]);
                } else {
                    assert(t[j] == s.last());
                }
            }
        } else {
            assert(lru_purge(s, ino) == lru_purge(dl, ino));
        }
    }
}

proof fn lemma_promote_distinct(s: Seq<(u64, SnapshotModel)>, i: int)
    requires
        distinct_inos(s),
        0 <= i < s.len(),
    ensures
        distinct_inos(seq![s[i]] + s.remove(i)),
        (seq![s[i]] + s.remove(i)).len() == s.len(),
{
    s.remove_ensures(i);
    let t = seq![s[i]] + s.remove(i);
    assert forall|a: int, b: int| 0 <= a < b < t.len() implies (#[trigger] t[a]).0 != (
    #[trigger] t[b]).0 by {
        let ja = if a == 0 {
            i
        } else if a - 1 < i {
            a - 1
        } else {
            a
        };
        let jb = if b - 1 < i {
            b - 1
        } else {
            b
        };
        assert(t[a] == s[ja]);
        assert(t[b] == s[jb]);
        assert(ja != jb);
    }
}

} // verus!
