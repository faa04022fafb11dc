use dir_pool::error::Error;
use dir_pool::pool::{ChildItem, Config, DirPool, FetchResponse, OpenOutcome};
use dir_pool::snapshot::DirEntry;

fn child(ino: u64, name: &str, is_directory: bool) -> ChildItem {
    ChildItem::Entry(DirEntry { ino, name: name.to_owned(), is_directory })
}

fn response(tag: &str, children: Vec<ChildItem>) -> FetchResponse {
    FetchResponse { c_tag: Some(tag.to_owned()), children: Some(children) }
}

/// Opens `ino`, fetching `children` if the cache misses; returns the
/// handle and whether a fetch happened.
fn open_with_fetch(pool: &mut DirPool, ino: u64, tag: &str, children: Vec<ChildItem>) -> (u64, bool) {
    match pool.open(ino).unwrap() {
        OpenOutcome::Opened(fh) => (fh, false),
        OpenOutcome::NeedsFetch => {
            let fh = pool.open_fetched(ino, response(tag, children)).unwrap();
            (fh, true)
        }
    }
}

fn names(entries: &[DirEntry]) -> Vec<String> {
    entries.iter().map(|e| e.name.clone()).collect()
}

#[test]
fn warm_cache_opens_without_fetch() {
    let mut pool = DirPool::new(Config::new(4));
    let kids = vec![child(11, "b.txt", false), child(12, "a.txt", false)];
    let (fh1, fetched1) = open_with_fetch(&mut pool, 1, "tag-1", kids.clone());
    assert!(fetched1);
    let (fh2, fetched2) = open_with_fetch(&mut pool, 1, "tag-unused", vec![]);
    assert!(!fetched2, "second open of a cached inode must not fetch");
    let r1 = pool.read(fh1, 0).unwrap();
    let r2 = pool.read(fh2, 0).unwrap();
    assert_eq!(names(&r1), names(&r2));
    assert_eq!(r1.len(), 2);
}

#[test]
fn entries_keep_server_order() {
    let mut pool = DirPool::new(Config::new(2));
    let kids = vec![child(21, "b.txt", false), child(22, "a.txt", true), child(23, "c.txt", false)];
    let (fh, _) = open_with_fetch(&mut pool, 5, "tag-5", kids);
    let entries = pool.read(fh, 0).unwrap();
    assert_eq!(names(&entries), vec!["b.txt".to_owned(), "a.txt".to_owned(), "c.txt".to_owned()]);
    assert_eq!(entries[0].ino, 21);
    assert!(entries[1].is_directory);
}

#[test]
fn server_order_and_name_map_scenario() {
    let snapshot = dir_pool::snapshot::build_snapshot(
        "tag".to_owned(),
        vec![
            DirEntry { ino: 31, name: "b.txt".to_owned(), is_directory: false },
            DirEntry { ino: 32, name: "a.txt".to_owned(), is_directory: false },
        ],
    );
    assert_eq!(snapshot.entries[0].name, "b.txt");
    assert_eq!(snapshot.entries[1].name, "a.txt");
    assert_eq!(snapshot.name_index(&"a.txt".to_owned()), Some(1));
    assert_eq!(snapshot.name_index(&"b.txt".to_owned()), Some(0));
    assert_eq!(snapshot.name_index(&"missing".to_owned()), None);
    assert_eq!(snapshot.name_map.len(), snapshot.entries.len());
}

#[test]
fn read_at_end_is_empty_and_past_end_errors() {
    let mut pool = DirPool::new(Config::new(2));
    let kids = vec![child(41, "x", false), child(42, "y", false)];
    let (fh, _) = open_with_fetch(&mut pool, 9, "tag-9", kids);
    assert_eq!(pool.read(fh, 2).unwrap().len(), 0);
    assert_eq!(pool.read(fh, 3), Err(Error::OffsetOutOfRange));
    let tail = pool.read(fh, 1).unwrap();
    assert_eq!(names(&tail), vec!["y".to_owned()]);
}

#[test]
fn freed_handle_is_invalid() {
    let mut pool = DirPool::new(Config::new(2));
    let (fh, _) = open_with_fetch(&mut pool, 3, "tag-3", vec![child(51, "n", false)]);
    assert_eq!(pool.free(fh), Ok(()));
    assert_eq!(pool.read(fh, 0), Err(Error::InvalidHandle(fh)));
    assert_eq!(pool.free(fh), Err(Error::InvalidHandle(fh)));
}

#[test]
fn freeing_one_handle_keeps_others_open() {
    let mut pool = DirPool::new(Config::new(2));
    let (fh1, _) = open_with_fetch(&mut pool, 3, "tag-3", vec![child(51, "n", false)]);
    let (fh2, _) = open_with_fetch(&mut pool, 3, "tag-x", vec![]);
    assert_ne!(fh1, fh2);
    assert_eq!(pool.free(fh1), Ok(()));
    let entries = pool.read(fh2, 0).unwrap();
    assert_eq!(names(&entries), vec!["n".to_owned()]);
}

#[test]
fn lru_eviction_scenario_at_capacity_two() {
    let mut pool = DirPool::new(Config::new(2));
    let mut fetches = 0;
    let (_, f1) = open_with_fetch(&mut pool, 1, "t1", vec![child(61, "one", false)]);
    fetches += f1 as u32;
    let (_, f2) = open_with_fetch(&mut pool, 2, "t2", vec![child(62, "two", false)]);
    fetches += f2 as u32;
    // Opening inode 3 evicts inode 1, the least recently used.
    let (_, f3) = open_with_fetch(&mut pool, 3, "t3", vec![child(63, "three", false)]);
    fetches += f3 as u32;
    // Inode 1 was evicted, so this fetches again and evicts inode 2.
    let (_, f4) = open_with_fetch(&mut pool, 1, "t1b", vec![child(61, "one", false)]);
    fetches += f4 as u32;
    assert_eq!(fetches, 4, "the scenario needs exactly four fetches");
    // Inode 2 was evicted in turn; inode 3 is still cached.
    let (_, f5) = open_with_fetch(&mut pool, 3, "t3b", vec![]);
    assert!(!f5);
    let (_, f6) = open_with_fetch(&mut pool, 2, "t2b", vec![child(62, "two", false)]);
    assert!(f6, "re-opening the evicted inode must fetch exactly once more");
}

#[test]
fn eviction_touches_least_recently_accessed() {
    let mut pool = DirPool::new(Config::new(2));
    let (_, _) = open_with_fetch(&mut pool, 1, "t1", vec![child(71, "one", false)]);
    let (_, _) = open_with_fetch(&mut pool, 2, "t2", vec![child(72, "two", false)]);
    // Touch inode 1 so that inode 2 becomes the least recently used.
    let (_, f) = open_with_fetch(&mut pool, 1, "t1-warm", vec![]);
    assert!(!f);
    let (_, _) = open_with_fetch(&mut pool, 3, "t3", vec![child(73, "three", false)]);
    // Inode 1 must still be cached; inode 2 must be gone.
    let (_, warm) = open_with_fetch(&mut pool, 1, "t1-again", vec![]);
    assert!(!warm);
    let (_, cold) = open_with_fetch(&mut pool, 2, "t2-again", vec![child(72, "two", false)]);
    assert!(cold);
}

#[test]
fn missing_version_marker_fails_open() {
    let mut pool = DirPool::new(Config::new(2));
    assert_eq!(pool.open(8).unwrap(), OpenOutcome::NeedsFetch);
    let r = pool.open_fetched(
        8,
        FetchResponse { c_tag: None, children: Some(vec![child(81, "a", false)]) },
    );
    assert_eq!(r, Err(Error::MissingVersionMarker));
    // Nothing was cached by the failed open.
    assert_eq!(pool.open(8).unwrap(), OpenOutcome::NeedsFetch);
}

#[test]
fn missing_children_fails_open() {
    let mut pool = DirPool::new(Config::new(2));
    assert_eq!(pool.open(8).unwrap(), OpenOutcome::NeedsFetch);
    let r = pool.open_fetched(8, FetchResponse { c_tag: Some("t".to_owned()), children: None });
    assert_eq!(r, Err(Error::MissingChildren));
    assert_eq!(pool.open(8).unwrap(), OpenOutcome::NeedsFetch);
}

#[test]
fn malformed_child_fails_open_without_partial_state() {
    let mut pool = DirPool::new(Config::new(2));
    assert_eq!(pool.open(8).unwrap(), OpenOutcome::NeedsFetch);
    let r = pool.open_fetched(
        8,
        response("t", vec![child(81, "good", false), ChildItem::Malformed, child(82, "late", false)]),
    );
    assert_eq!(r, Err(Error::MalformedChild));
    // The failed fetch must not have cached a partial listing.
    assert_eq!(pool.open(8).unwrap(), OpenOutcome::NeedsFetch);
}

#[test]
fn replacing_a_cached_listing_serves_the_new_snapshot() {
    let mut pool = DirPool::new(Config::new(2));
    let (fh_old, _) = open_with_fetch(&mut pool, 4, "t-old", vec![child(91, "old", false)]);
    // A later fetch for the same inode replaces the cache entry.
    let fh_new = pool
        .open_fetched(4, response("t-new", vec![child(92, "new", false), child(93, "newer", false)]))
        .unwrap();
    let fresh = pool.read(fh_new, 0).unwrap();
    assert_eq!(names(&fresh), vec!["new".to_owned(), "newer".to_owned()]);
    // The session opened before the replacement still sees its snapshot.
    let stale = pool.read(fh_old, 0).unwrap();
    assert_eq!(names(&stale), vec!["old".to_owned()]);
}

#[test]
fn unknown_handle_is_invalid() {
    let pool = DirPool::new(Config::new(1));
    assert_eq!(pool.read(123, 0), Err(Error::InvalidHandle(123)));
}

#[test]
fn empty_directory_reads_empty() {
    let mut pool = DirPool::new(Config::new(1));
    let (fh, _) = open_with_fetch(&mut pool, 6, "t6", vec![]);
    assert_eq!(pool.read(fh, 0).unwrap().len(), 0);
    assert_eq!(pool.read(fh, 1), Err(Error::OffsetOutOfRange));
}
