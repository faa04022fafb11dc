use vstd::prelude::*;

verus! {

/// One child of a directory listing: a stable local inode number, the
/// display name reported by the remote service, and whether the child is
/// itself a directory. Immutable once built.
#[derive(Debug, Clone, PartialEq, Eq)]
pub struct DirEntry {
    pub ino: u64,
    pub name: String,
    pub is_directory: bool,
}

/// Mathematical model of a `DirEntry`.
pub ghost struct EntryModel {
    pub ino: u64,
    pub name: Seq<char>,
    pub is_directory: bool,
}

impl View for DirEntry {
    type V = EntryModel;

    open spec fn view(&self) -> EntryModel {
        EntryModel { ino: self.ino, name: self.name@, is_directory: self.is_directory }
    }
}

impl DirEntry {
    /// An explicit copy of the entry; the copy models the same entry.
    pub fn duplicate(&self) -> (r: DirEntry)
        ensures
            r@ == self@,
    {
        DirEntry { ino: self.ino, name: self.name.clone(), is_directory: self.is_directory }
    }
}

/// The models of a sequence of entries, in the same order.
pub open spec fn entry_models(entries: Seq<DirEntry>) -> Seq<EntryModel> {
    entries.map_values(|e: DirEntry| e@)
}

/// The name-to-index map that a sequence of entries induces: each name is
/// bound to the position of its last occurrence.
pub open spec fn spec_name_map(entries: Seq<EntryModel>) -> Map<Seq<char>, int>
    decreases entries.len(),
{
    if entries.len() == 0 {
        Map::empty()
    } else {
        spec_name_map(entries.drop_last()).insert(entries.last().name, entries.len() - 1)
    }
}

/// The map that a stored name-to-index association list denotes; a later
/// pair overrides an earlier one with the same name.
pub open spec fn assoc_view(pairs: Seq<(String, usize)>) -> Map<Seq<char>, int>
    decreases pairs.len(),
{
    if pairs.len() == 0 {
        Map::empty()
    } else {
        assoc_view(pairs.drop_last()).insert(pairs.last().0@, pairs.last().1 as int)
    }
}

/// A directory listing captured by one successful fetch: the version marker
/// the remote service reported, the children in the server's order, and a
/// name-to-index map over them. Never mutated after construction.
pub struct DirSnapshot {
    pub c_tag: String,
    pub entries: Vec<DirEntry>,
    pub name_map: Vec<(String, usize)>,
}

/// Mathematical model of a `DirSnapshot`.
pub ghost struct SnapshotModel {
    pub c_tag: Seq<char>,
    pub entries: Seq<EntryModel>,
    pub name_map: Map<Seq<char>, int>,
}

impl View for DirSnapshot {
    type V = SnapshotModel;

    open spec fn view(&self) -> SnapshotModel {
        SnapshotModel {
            c_tag: self.c_tag@,
            entries: entry_models(self.entries@),
            name_map: assoc_view(self.name_map@),
        }
    }
}

/// A snapshot is well formed when its stored name map is exactly the map
/// its entry sequence induces.
pub open spec fn snapshot_wf(m: SnapshotModel) -> bool {
    m.name_map == spec_name_map(m.entries)
}

/// No two entries carry the same name.
pub open spec fn distinct_names(entries: Seq<EntryModel>) -> bool {
    forall|i: int, j: int|
        0 <= i < j < entries.len() ==> (#[trigger] entries[i]).name != (#[trigger] entries[j]).name
}

proof fn lemma_assoc_view_matches(pairs: Seq<(String, usize)>, entries: Seq<EntryModel>)
    requires
        pairs.len() == entries.len(),
        forall|j: int|
            0 <= j < pairs.len() ==> (#[trigger] pairs[j]).0@ == entries[j].name && pairs[j].1 == j,
    ensures
        assoc_view(pairs) == spec_name_map(entries),
    decreases pairs.len(),
{
    if pairs.len() > 0 {
        lemma_assoc_view_matches(pairs.drop_last(), entries.drop_last());
    }
}

/// The name map of a listing with pairwise distinct names is an exact
/// inverse of the entry sequence: every entry's name is a key, it is bound
/// to that entry's index, there are no other keys, and there are exactly as
/// many keys as entries.
pub proof fn lemma_name_map_inverse(entries: Seq<EntryModel>)
    requires
        distinct_names(entries),
    ensures
        forall|i: int|
            0 <= i < entries.len() ==> spec_name_map(entries).contains_key(
                (#[trigger] entries[i]).name,
            ) && spec_name_map(entries)[entries[i].name] == i,
        forall|k: Seq<char>|
            #[trigger] spec_name_map(entries).contains_key(k) ==> exists|i: int|
                0 <= i < entries.len() && (#[trigger] entries[i]).name == k,
        spec_name_map(entries).dom().finite(),
        spec_name_map(entries).dom().len() == entries.len(),
    decreases entries.len(),
{
    if entries.len() > 0 {
        let prefix = entries.drop_last();
        let last = entries.last();
        lemma_name_map_inverse(prefix);
        assert(!spec_name_map(prefix).contains_key(last.name)) by {
            if spec_name_map(prefix).contains_key(last.name) {
                let i = choose|i: int| 0 <= i < prefix.len() && (#[trigger] prefix[i]).name
                    == last.name;
                assert(entries[i].name == entries[entries.len() - 1].name);
            }
        }
        assert forall|i: int| 0 <= i < entries.len() implies spec_name_map(entries).contains_key(
            (#[trigger] entries[i]).name,
        ) && spec_name_map(entries)[entries[i].name] == i by {
            if i < entries.len() - 1 {
                assert(prefix[i] == entries[i]);
                assert(entries[i].name != last.name);
            }
        }
        assert forall|k: Seq<char>| #[trigger] spec_name_map(entries).contains_key(k) implies exists|
            i: int,
        | 0 <= i < entries.len() && (#[trigger] entries[i]).name == k by {
            if k == last.name {
                assert(entries[entries.len() - 1].name == k);
            } else {
                let i = choose|i: int| 0 <= i < prefix.len() && (#[trigger] prefix[i]).name == k;
                assert(entries[i].name == k);
            }
        }
        assert(spec_name_map(entries).dom() =~= spec_name_map(prefix).dom().insert(last.name));
    } else {
        assert(spec_name_map(entries).dom() =~= Set::<Seq<char>>::empty());
    }
}

/// Builds the immutable snapshot for one fetched listing. The entries keep
/// exactly the order in which the children were handed in, and the stored
/// name map is the induced name-to-index map.
pub fn build_snapshot(c_tag: String, children: Vec<DirEntry>) -> (r: DirSnapshot)
    ensures
        r@.c_tag == c_tag@,
        r@.entries == entry_models(children@),
        snapshot_wf(r@),
{
    let ghost child_models = entry_models(children@);
    let mut name_map: Vec<(String, usize)> = Vec::new();
    let mut idx: usize = 0;
    while idx < children.len()
        invariant
            idx <= children.len(),
            name_map@.len() == idx as int,
            forall|j: int|
                0 <= j < idx as int ==> (#[trigger] name_map@[j]).0@ == children@[j]@.name
                    && name_map@[j].1 == j,
        decreases children.len() - idx,
    {
        let child_name = children[idx].name.clone();
        name_map.push((child_name, idx));
        idx = idx + 1;
    }
    proof {
        assert forall|j: int| 0 <= j < name_map@.len() implies (#[trigger] name_map@[j]).0@
            == child_models[j].name && name_map@[j].1 == j by {
            assert(child_models[j] == children@[j]@);
        }
        lemma_assoc_view_matches(name_map@, child_models);
    }
    DirSnapshot { c_tag, entries: children, name_map }
}

impl DirSnapshot {
    /// The position bound to `name` in the snapshot's name map, if the name
    /// occurs in the listing.
    pub fn name_index(&self, name: &String) -> (r: Option<usize>)
        requires
            snapshot_wf(self@),
        ensures
            match r {
                Some(i) => self@.name_map.contains_key(name@) && self@.name_map[name@] == i as int,
                None => !self@.name_map.contains_key(name@),
            },
    {
        let mut idx: usize = self.name_map.len();
        loop
            invariant
                idx <= self.name_map@.len(),
                assoc_view(self.name_map@) == self@.name_map,
                forall|j: int|
                    idx as int <= j < self.name_map@.len() ==> (#[trigger] self.name_map@[j]).0@
                        != name@,
            decreases idx,
        {
            if idx == 0 {
                proof {
                    lemma_assoc_no_key(self.name_map@, name@);
                }
                return None;
            }
            idx = idx - 1;
            if string_eq(&self.name_map[idx].0, name) {
                proof {
                    lemma_assoc_last_occurrence(self.name_map@, idx as int);
                }
                return Some(self.name_map[idx].1);
            }
        }
    }
}

/// Whether two strings hold the same characters.
fn string_eq(a: &String, b: &String) -> (r: bool)
    ensures
        r == (a@ == b@),
{
    a.eq(b)
}

proof fn lemma_assoc_no_key(pairs: Seq<(String, usize)>, k: Seq<char>)
    requires
        forall|j: int| 0 <= j < pairs.len() ==> (#[trigger] pairs[j]).0@ != k,
    ensures
        !assoc_view(pairs).contains_key(k),
    decreases pairs.len(),
{
    if pairs.len() > 0 {
        lemma_assoc_no_key(pairs.drop_last(), k);
    }
}

proof fn lemma_assoc_last_occurrence(pairs: Seq<(String, usize)>, i: int)
    requires
        0 <= i < pairs.len(),
        forall|j: int| i < j < pairs.len() ==> (#[trigger] pairs[j]).0@ != pairs[i].0@,
    ensures
        assoc_view(pairs).contains_key(pairs[i].0@),
        assoc_view(pairs)[pairs[i].0@] == pairs[i].1 as int,
    decreases pairs.len(),
{
    if i == pairs.len() - 1 {
    } else {
        lemma_assoc_last_occurrence(pairs.drop_last(), i);
    }
}

} // verus!
