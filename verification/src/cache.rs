//! The cache of content hashes used by the duplicate search: a file's hash is
//! reused while its size and modification time are unchanged. The cache holds
//! at most `MAX_ENTRIES` paths; a new path beyond that empties it first.
//!
//! Reading and writing `dupe_cache.json` is done by the caller, which feeds the
//! saved entries in with `load` and takes them out with `saved_entries`.
use vstd::prelude::*;
use vstd::hash_map::StringHashMap;

verus! {

/// Most paths the cache holds.
pub const MAX_ENTRIES: usize = 100_000;

/// What the cache records for a path.
pub struct CacheVal {
    pub size: u64,
    pub mtime_ms: u64,
    pub hash: String,
}

/// A path with its record.
pub struct CacheEntry {
    pub path: String,
    pub val: CacheVal,
}

/// `m` with the saved entries recorded in turn (later ones win).
pub open spec fn loaded(m: Map<Seq<char>, (u64, u64, Seq<char>)>, saved: Seq<CacheEntry>) -> Map<Seq<char>, (u64, u64, Seq<char>)>
    decreases saved.len(),
{
    if saved.len() == 0 {
        m
    } else {
        loaded(m, saved.drop_last()).insert(saved.last().path@, record_of(saved.last().val))
    }
}

/// A record as plain values: size, modification time, hash.
pub open spec fn record_of(v: CacheVal) -> (u64, u64, Seq<char>) {
    (v.size, v.mtime_ms, v.hash@)
}

/// The hash cache.
pub struct HashCache {
    entries: Vec<CacheEntry>,
    index: StringHashMap<usize>,
    dirty: bool,
}

impl HashCache {
    /// The entries and the index agree: each path is recorded once, at the
    /// position the index gives.
    pub closed spec fn wf(&self) -> bool {
        &&& self.index@.dom().finite()
        &&& self.index@.dom().len() == self.entries@.len()
        &&& forall|k: Seq<char>| #[trigger] self.index@.contains_key(k) ==> self.index@[k] < self.entries@.len()
                && self.entries@[self.index@[k] as int].path@ == k
        &&& forall|i: int| 0 <= i < self.entries@.len() ==> #[trigger] self.index@.contains_key(self.entries@[i].path@)
                && self.index@[self.entries@[i].path@] == i
    }

    /// The cache's contents: path to (size, modification time, hash).
    pub closed spec fn contents(&self) -> Map<Seq<char>, (u64, u64, Seq<char>)> {
        Map::new(|k: Seq<char>| self.index@.contains_key(k), |k: Seq<char>| record_of(self.entries@[self.index@[k] as int].val))
    }

    /// Number of paths held.
    pub closed spec fn count(&self) -> nat {
        self.entries@.len()
    }

    /// The number of paths held is the size of the contents.
    pub proof fn lemma_count_is_size(&self)
        requires
            self.wf(),
        ensures
            self.contents().dom().finite(),
            self.contents().dom().len() == self.count(),
    {
        assert(self.contents().dom() =~= self.index@.dom());
    }

    /// Changed since the last save.
    pub closed spec fn is_dirty(&self) -> bool {
        self.dirty
    }

    /// An empty cache.
    pub fn new() -> (c: HashCache)
        ensures
            c.wf(),
            c.contents() == Map::<Seq<char>, (u64, u64, Seq<char>)>::empty(),
            c.count() == 0,
            !c.is_dirty(),
    {
        let ghost e = Map::<Seq<char>, usize>::empty();
        assert(e.dom() =~= Set::<Seq<char>>::empty());
        let c = HashCache { entries: Vec::new(), index: StringHashMap::new(), dirty: false };
        assert(c.contents() =~= Map::<Seq<char>, (u64, u64, Seq<char>)>::empty());
        c
    }

    fn set(&mut self, path: &str, val: CacheVal)
        requires
            old(self).wf(),
        ensures
            final(self).wf(),
            final(self).contents() == old(self).contents().insert(path@, record_of(val)),
            final(self).count() == old(self).count() + (if old(self).contents().contains_key(path@) { 0int } else { 1 }),
            final(self).dirty == old(self).dirty,
    {
        match self.index.get(path) {
            Some(i) => {
                let i = *i;
                let ghost before = self.entries@;
                self.entries.set(i, CacheEntry { path: path.to_owned(), val });
                proof {
                    assert forall|j: int| 0 <= j < self.entries@.len() implies #[trigger] self.index@.contains_key(self.entries@[j].path@)
                        && self.index@[self.entries@[j].path@] == j by {
                        if j != i {
                            assert(self.entries@[j] == before[j]);
                        }
                    }
                    assert(self.contents() =~= old(self).contents().insert(path@, record_of(val)));
                }
            },
            None => {
                let n = self.entries.len();
                self.entries.push(CacheEntry { path: path.to_owned(), val });
                self.index.insert(path.to_owned(), n);
                proof {
                    assert(self.index@.dom() =~= old(self).index@.dom().insert(path@));
                    assert forall|k: Seq<char>| #[trigger] self.index@.contains_key(k) implies self.index@[k] < self.entries@.len()
                        && self.entries@[self.index@[k] as int].path@ == k by {
                        if k != path@ {
                            assert(old(self).index@.contains_key(k));
                        }
                    }
                    assert forall|j: int| 0 <= j < self.entries@.len() implies #[trigger] self.index@.contains_key(self.entries@[j].path@)
                        && self.index@[self.entries@[j].path@] == j by {
                        if j < n {
                            assert(old(self).index@.contains_key(old(self).entries@[j].path@));
                            assert(self.entries@[j] == old(self).entries@[j]);
                        }
                    }
                    assert(self.contents() =~= old(self).contents().insert(path@, record_of(val)));
                }
            },
        }
    }

    /// The hash recorded for a path, if its size and modification time are
    /// those recorded.
    pub fn get(&self, path: &str, size: u64, mtime_ms: u64) -> (r: Option<String>)
        requires
            self.wf(),
        ensures
            match r {
                Some(h) => self.contents().contains_key(path@) && self.contents()[path@] == (size, mtime_ms, h@),
                None => !(self.contents().contains_key(path@) && self.contents()[path@].0 == size
                    && self.contents()[path@].1 == mtime_ms),
            },
    {
        match self.index.get(path) {
            Some(i) => {
                let e = &self.entries[*i];
                if e.val.size == size && e.val.mtime_ms == mtime_ms {
                    Some(e.val.hash.clone())
                } else {
                    None
                }
            },
            None => None,
        }
    }

    /// Records a hash. A new path when the cache is full empties it first.
    pub fn put(&mut self, path: &str, size: u64, mtime_ms: u64, hash: String)
        requires
            old(self).wf(),
        ensures
            final(self).wf(),
            final(self).is_dirty(),
            old(self).count() == old(self).contents().dom().len(),
            final(self).contents() == put_effect(old(self).contents(), old(self).contents().dom().len(), path@, size, mtime_ms, hash@),
            final(self).count() <= MAX_ENTRIES || final(self).count() <= old(self).count(),
            final(self).count() == final(self).contents().dom().len(),
    {
        proof {
            self.lemma_count_is_size();
        }
        if self.entries.len() >= MAX_ENTRIES && !self.index.contains_key(path) {
            self.entries = Vec::new();
            self.index = StringHashMap::new();
            assert(self.index@.dom() =~= Set::<Seq<char>>::empty());
            assert(self.contents() =~= Map::<Seq<char>, (u64, u64, Seq<char>)>::empty());
        }
        self.set(path, CacheVal { size, mtime_ms, hash });
        self.dirty = true;
        proof {
            self.lemma_count_is_size();
        }
    }

    /// Takes in entries read from the saved cache (later ones win, see `loaded`).
    pub fn load(&mut self, saved: Vec<CacheEntry>)
        requires
            old(self).wf(),
        ensures
            final(self).wf(),
            final(self).is_dirty() == old(self).is_dirty(),
            final(self).contents() == loaded(old(self).contents(), saved@),
            final(self).count() == final(self).contents().dom().len(),
    {
        let mut i: usize = 0;
        while i < saved.len()
            invariant
                i <= saved.len(),
                self.wf(),
                self.dirty == old(self).dirty,
                self.contents() == loaded(old(self).contents(), saved@.take(i as int)),
            decreases saved.len() - i,
        {
            let e = &saved[i];
            let val = CacheVal { size: e.val.size, mtime_ms: e.val.mtime_ms, hash: e.val.hash.clone() };
            self.set(e.path.as_str(), val);
            assert(saved@.take(i + 1).drop_last() =~= saved@.take(i as int));
            i = i + 1;
        }
        assert(saved@.take(saved.len() as int) =~= saved@);
        proof {
            self.lemma_count_is_size();
        }
    }

    /// Every entry, for saving.
    pub fn saved_entries(&self) -> (r: Vec<CacheEntry>)
        requires
            self.wf(),
        ensures
            forall|k: Seq<char>| #[trigger] self.contents().contains_key(k) <==>
                exists|i: int| 0 <= i < r.len() && r@[i].path@ == k,
            forall|i: int| 0 <= i < r.len() ==> self.contents().contains_key(#[trigger] r@[i].path@)
                && self.contents()[r@[i].path@] == record_of(r@[i].val),
    {
        let mut r: Vec<CacheEntry> = Vec::new();
        let mut i: usize = 0;
        while i < self.entries.len()
            invariant
                i <= self.entries.len(),
                self.wf(),
                r.len() == i,
                forall|j: int| 0 <= j < i ==> #[trigger] r@[j].path@ == self.entries@[j].path@
                    && record_of(r@[j].val) == record_of(self.entries@[j].val),
            decreases self.entries.len() - i,
        {
            let e = &self.entries[i];
            r.push(CacheEntry {
                path: e.path.clone(),
                val: CacheVal { size: e.val.size, mtime_ms: e.val.mtime_ms, hash: e.val.hash.clone() },
            });
            i = i + 1;
        }
        proof {
            assert forall|k: Seq<char>| #[trigger] self.contents().contains_key(k) implies
                exists|j: int| 0 <= j < r.len() && r@[j].path@ == k by {
                let j = self.index@[k] as int;
                assert(r@[j].path@ == k);
            }
            assert forall|j: int| 0 <= j < r.len() implies self.contents().contains_key(#[trigger] r@[j].path@)
                && self.contents()[r@[j].path@] == record_of(r@[j].val) by {
                assert(self.index@.contains_key(self.entries@[j].path@));
            }
        }
        r
    }

    /// Whether the cache changed since the last save; clears the mark.
    pub fn take_dirty(&mut self) -> (d: bool)
        requires
            old(self).wf(),
        ensures
            d == old(self).is_dirty(),
            !final(self).is_dirty(),
            final(self).wf(),
            final(self).contents() == old(self).contents(),
    {
        let d = self.dirty;
        self.dirty = false;
        d
    }
}

/// The contents after recording `hash` for `path` in a cache holding `count`
/// paths: a new path when the cache is full empties it first.
pub open spec fn put_effect(before: Map<Seq<char>, (u64, u64, Seq<char>)>, count: nat, path: Seq<char>,
    size: u64, mtime_ms: u64, hash: Seq<char>) -> Map<Seq<char>, (u64, u64, Seq<char>)> {
    if count >= MAX_ENTRIES && !before.contains_key(path) {
        Map::<Seq<char>, (u64, u64, Seq<char>)>::empty().insert(path, (size, mtime_ms, hash))
    } else {
        before.insert(path, (size, mtime_ms, hash))
    }
}

/// A hash just recorded is found again for the same size and time, not for
/// another size or time; recording one path leaves every other path's record
/// as it was, unless the cache was full and had to be emptied; and a cache of
/// at most `MAX_ENTRIES` paths stays within that bound.
pub proof fn cache_put_then_get(before: Map<Seq<char>, (u64, u64, Seq<char>)>, path: Seq<char>,
    size: u64, mtime_ms: u64, hash: Seq<char>, other: Seq<char>)
    requires
        other != path,
        before.dom().finite(),
    ensures
        ({
            let after = put_effect(before, before.dom().len(), path, size, mtime_ms, hash);
            &&& after.contains_key(path) && after[path] == (size, mtime_ms, hash)
            &&& (before.dom().len() < MAX_ENTRIES || before.contains_key(path)) ==>
                (after.contains_key(other) == before.contains_key(other)
                && (before.contains_key(other) ==> after[other] == before[other]))
            &&& after.dom().finite()
            &&& before.dom().len() <= MAX_ENTRIES ==> after.dom().len() <= MAX_ENTRIES
        }),
{
    let after = put_effect(before, before.dom().len(), path, size, mtime_ms, hash);
    if before.dom().len() >= MAX_ENTRIES && !before.contains_key(path) {
        let e = Map::<Seq<char>, (u64, u64, Seq<char>)>::empty();
        assert(e.dom() =~= Set::<Seq<char>>::empty());
        assert(after.dom() =~= Set::<Seq<char>>::empty().insert(path));
    } else {
        assert(after.dom() =~= before.dom().insert(path));
    }
}

} // verus!
