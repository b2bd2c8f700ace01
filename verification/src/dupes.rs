//! Duplicate-file detection in three stages: files of equal size (smaller ones
//! and cloud placeholders left out), then equal FNV-1a hashes of their first
//! 4 KB, then equal MD5 digests of their whole content. For each group the copy
//! to keep is the newest one, or on a tie the one with the shortest path.
//!
//! Reading heads, hashing and caching digests is I/O done by the caller; each
//! stage here takes what was read and forms the groups.
use vstd::prelude::*;

use crate::order::{desc_order, is_desc_order, is_stable_desc_sort};
use crate::space::{utf8_len, utf8_width};
use crate::text::str_chars;
use crate::walker::{fnv64a, fnv64a_spec, WalkFile};

use crate::state::{cancel_requested, AppState};

verus! {

/// Files below this size (1 MiB) take no part.
pub const MIN_FILE_BYTES: u64 = 1024 * 1024;

/// At most this many files are hashed in full by one scan.
pub const MAX_HASHED_FILES: u64 = 50_000;

/// Bytes of a file's head hashed by the pre-screen.
pub const HEAD_BYTES: usize = 4096;

/// `groups` gathers the positions of `keys` that hold a key, one group per
/// distinct key (`gkeys[g]`), positions in increasing order, groups in order of
/// their first position; positions without a key are in no group.
pub open spec fn is_key_grouping<K>(keys: Seq<Option<K>>, gkeys: Seq<K>, groups: Seq<Seq<usize>>) -> bool {
    &&& gkeys.len() == groups.len()
    &&& forall|g: int| 0 <= g < groups.len() ==> #[trigger] groups[g].len() > 0
    &&& forall|g: int, a: int, b: int| 0 <= g < groups.len() && 0 <= a < b < groups[g].len()
            ==> #[trigger] groups[g][a] < #[trigger] groups[g][b]
    &&& forall|g: int, a: int| 0 <= g < groups.len() && 0 <= a < groups[g].len()
            ==> #[trigger] groups[g][a] < keys.len() && keys[groups[g][a] as int] == Some(gkeys[g])
    &&& forall|g1: int, g2: int| 0 <= g1 < g2 < groups.len() ==> gkeys[g1] != gkeys[g2]
    &&& forall|g1: int, g2: int| 0 <= g1 < g2 < groups.len() ==> groups[g1][0] < groups[g2][0]
    &&& forall|i: int| 0 <= i < keys.len() && (#[trigger] keys[i]) is Some
            ==> exists|g: int, a: int| 0 <= g < groups.len() && 0 <= a < groups[g].len() && #[trigger] groups[g][a] == i
}

proof fn lemma_grouping_step<K>(keys: Seq<Option<K>>, gkeys: Seq<K>, groups: Seq<Seq<usize>>, i: int, g: int)
    requires
        0 <= i < keys.len(),
        i <= usize::MAX,
        is_key_grouping(keys.take(i), gkeys, groups),
        keys[i] is Some,
        0 <= g < groups.len(),
        gkeys[g] == keys[i]->0,
    ensures
        is_key_grouping(keys.take(i + 1), gkeys, groups.update(g, groups[g].push(i as usize))),
{
    let k1 = keys.take(i + 1);
    let ng = groups.update(g, groups[g].push(i as usize));
    assert forall|h: int, a: int| 0 <= h < ng.len() && 0 <= a < ng[h].len()
        implies #[trigger] ng[h][a] < k1.len() && k1[ng[h][a] as int] == Some(gkeys[h]) by {
        if h == g && a == groups[g].len() {
        } else {
            assert(ng[h][a] == groups[h][a]);
            assert(keys.take(i)[groups[h][a] as int] == Some(gkeys[h]));
        }
    }
    assert forall|h: int, a: int, b: int| 0 <= h < ng.len() && 0 <= a < b < ng[h].len()
        implies #[trigger] ng[h][a] < #[trigger] ng[h][b] by {
        assert(ng[h][a] == groups[h][a]);
        if h == g && b == groups[g].len() {
            assert(groups[h][a] < i);
        } else {
            assert(ng[h][b] == groups[h][b]);
        }
    }
    assert forall|h1: int, h2: int| 0 <= h1 < h2 < ng.len() implies ng[h1][0] < ng[h2][0] by {
        assert(ng[h1][0] == groups[h1][0]);
        assert(ng[h2][0] == groups[h2][0]);
    }
    assert forall|j: int| 0 <= j < k1.len() && (#[trigger] k1[j]) is Some
        implies exists|h: int, a: int| 0 <= h < ng.len() && 0 <= a < ng[h].len() && #[trigger] ng[h][a] == j by {
        if j == i {
            assert(ng[g][groups[g].len() as int] == i);
        } else {
            assert(keys.take(i)[j] == k1[j]);
            let (h, a) = choose|h: int, a: int| 0 <= h < groups.len() && 0 <= a < groups[h].len() && #[trigger] groups[h][a] == j;
            assert(ng[h][a] == groups[h][a]);
        }
    }
}

proof fn lemma_grouping_new<K>(keys: Seq<Option<K>>, gkeys: Seq<K>, groups: Seq<Seq<usize>>, i: int)
    requires
        0 <= i < keys.len(),
        i <= usize::MAX,
        is_key_grouping(keys.take(i), gkeys, groups),
        keys[i] is Some,
        forall|g: int| 0 <= g < gkeys.len() ==> gkeys[g] != keys[i]->0,
    ensures
        is_key_grouping(keys.take(i + 1), gkeys.push(keys[i]->0), groups.push(seq![i as usize])),
{
    let k1 = keys.take(i + 1);
    let nk = gkeys.push(keys[i]->0);
    let ng = groups.push(seq![i as usize]);
    assert forall|h: int, a: int| 0 <= h < ng.len() && 0 <= a < ng[h].len()
        implies #[trigger] ng[h][a] < k1.len() && k1[ng[h][a] as int] == Some(nk[h]) by {
        if h < groups.len() {
            assert(keys.take(i)[groups[h][a] as int] == Some(gkeys[h]));
        }
    }
    assert forall|h1: int, h2: int| 0 <= h1 < h2 < ng.len() implies ng[h1][0] < ng[h2][0] by {
        assert(groups[h1][0] < i);
    }
    assert forall|j: int| 0 <= j < k1.len() && (#[trigger] k1[j]) is Some
        implies exists|h: int, a: int| 0 <= h < ng.len() && 0 <= a < ng[h].len() && #[trigger] ng[h][a] == j by {
        if j == i {
            assert(ng[groups.len() as int][0] == i);
        } else {
            assert(keys.take(i)[j] == k1[j]);
            let (h, a) = choose|h: int, a: int| 0 <= h < groups.len() && 0 <= a < groups[h].len() && #[trigger] groups[h][a] == j;
            assert(ng[h][a] == groups[h][a]);
        }
    }
}

/// Position of the first group key equal to `k`.
pub open spec fn first_key_index<K>(gkeys: Seq<K>, k: K) -> Option<int>
    decreases gkeys.len(),
{
    if gkeys.len() == 0 {
        None
    } else if gkeys[0] == k {
        Some(0)
    } else {
        match first_key_index(gkeys.skip(1), k) {
            Some(j) => Some(j + 1),
            None => None,
        }
    }
}

proof fn lemma_first_key_index<K>(gkeys: Seq<K>, k: K, g: int)
    requires
        0 <= g <= gkeys.len(),
        forall|h: int| 0 <= h < g ==> gkeys[h] != k,
        g < gkeys.len() ==> gkeys[g] == k,
    ensures
        first_key_index(gkeys, k) == (if g < gkeys.len() { Some(g) } else { None::<int> }),
    decreases gkeys.len(),
{
    if gkeys.len() > 0 && g > 0 {
        assert forall|h: int| 0 <= h < g - 1 implies gkeys.skip(1)[h] != k by {
            assert(gkeys.skip(1)[h] == gkeys[h + 1]);
        }
        lemma_first_key_index(gkeys.skip(1), k, g - 1);
    }
}

/// The grouping of positions by key, built position by position: a keyed
/// position joins the first group of its key, or opens a new group.
pub open spec fn key_groups<K>(keys: Seq<Option<K>>) -> (Seq<K>, Seq<Seq<usize>>)
    decreases keys.len(),
{
    if keys.len() == 0 {
        (Seq::empty(), Seq::empty())
    } else {
        let prev = key_groups(keys.drop_last());
        let i = (keys.len() - 1) as usize;
        match keys.last() {
            None => prev,
            Some(k) => match first_key_index(prev.0, k) {
                Some(g) => (prev.0, prev.1.update(g, prev.1[g].push(i))),
                None => (prev.0.push(k), prev.1.push(seq![i])),
            },
        }
    }
}

/// The grouping by key is exactly that: one group per distinct key, holding
/// in increasing order every position with that key, groups in order of their
/// first position, and no position without a key.
pub proof fn key_groups_partition<K>(keys: Seq<Option<K>>)
    requires
        keys.len() <= usize::MAX + 1,
    ensures
        is_key_grouping(keys, key_groups(keys).0, key_groups(keys).1),
    decreases keys.len(),
{
    if keys.len() == 0 {
    } else {
        let n = keys.len() - 1;
        key_groups_partition(keys.drop_last());
        assert(keys.take(n) =~= keys.drop_last());
        let prev = key_groups(keys.drop_last());
        assert(keys.take(n + 1) =~= keys);
        match keys.last() {
            None => {
                let k1 = keys;
                assert forall|j: int| 0 <= j < k1.len() && (#[trigger] k1[j]) is Some
                    implies exists|h: int, a: int| 0 <= h < prev.1.len() && 0 <= a < prev.1[h].len() && #[trigger] prev.1[h][a] == j by {
                    assert(keys.drop_last()[j] == k1[j]);
                }
                assert forall|h: int, a: int| 0 <= h < prev.1.len() && 0 <= a < prev.1[h].len()
                    implies #[trigger] prev.1[h][a] < k1.len() && k1[prev.1[h][a] as int] == Some(prev.0[h]) by {
                    assert(keys.drop_last()[prev.1[h][a] as int] == Some(prev.0[h]));
                }
            },
            Some(k) => {
                match first_key_index(prev.0, k) {
                    Some(g) => {
                        lemma_first_key_index_some(prev.0, k);
                        lemma_grouping_step(keys, prev.0, prev.1, n, g);
                    },
                    None => {
                        lemma_first_key_index_none(prev.0, k);
                        lemma_grouping_new(keys, prev.0, prev.1, n);
                    },
                }
            },
        }
    }
}

proof fn lemma_first_key_index_some<K>(gkeys: Seq<K>, k: K)
    ensures
        first_key_index(gkeys, k) matches Some(g) ==> 0 <= g < gkeys.len() && gkeys[g] == k,
    decreases gkeys.len(),
{
    if gkeys.len() > 0 && gkeys[0] != k {
        lemma_first_key_index_some(gkeys.skip(1), k);
    }
}

proof fn lemma_first_key_index_none<K>(gkeys: Seq<K>, k: K)
    ensures
        first_key_index(gkeys, k) is None ==> forall|g: int| 0 <= g < gkeys.len() ==> gkeys[g] != k,
    decreases gkeys.len(),
{
    if gkeys.len() > 0 && gkeys[0] != k {
        lemma_first_key_index_none(gkeys.skip(1), k);
        assert forall|g: int| 0 < g < gkeys.len() implies gkeys[g] == gkeys.skip(1)[g - 1] by {}
    }
}

/// The distinct integer keys and the positions holding each (see `key_groups`).
pub fn group_u64_keys(keys: &Vec<Option<u64>>) -> (r: (Vec<u64>, Vec<Vec<usize>>))
    ensures
        (r.0@, r.1@.map_values(|v: Vec<usize>| v@)) == key_groups(keys@),
{
    let mut gkeys: Vec<u64> = Vec::new();
    let mut groups: Vec<Vec<usize>> = Vec::new();
    let mut i: usize = 0;
    assert(keys@.take(0) =~= Seq::<Option<u64>>::empty());
    while i < keys.len()
        invariant
            i <= keys.len(),
            gkeys.len() == groups.len(),
            (gkeys@, groups@.map_values(|v: Vec<usize>| v@)) == key_groups(keys@.take(i as int)),
        decreases keys.len() - i,
    {
        let ghost gv = groups@.map_values(|v: Vec<usize>| v@);
        assert(keys@.take(i + 1).drop_last() =~= keys@.take(i as int));
        assert(keys@.take(i + 1).last() == keys@[i as int]);
        match keys[i] {
            None => {},
            Some(k) => {
                let mut g: usize = 0;
                while g < gkeys.len()
                    invariant
                        g <= gkeys.len(),
                        forall|h: int| 0 <= h < g ==> gkeys@[h] != k,
                    ensures
                        g <= gkeys.len(),
                        forall|h: int| 0 <= h < g ==> gkeys@[h] != k,
                        g < gkeys.len() ==> gkeys@[g as int] == k,
                    decreases gkeys.len() - g,
                {
                    if gkeys[g] == k {
                        break;
                    }
                    g = g + 1;
                }
                proof {
                    lemma_first_key_index(gkeys@, k, g as int);
                }
                if g < gkeys.len() {
                    groups[g].push(i);
                    proof {
                        assert(groups@.map_values(|v: Vec<usize>| v@) =~= gv.update(g as int, gv[g as int].push(i)));
                    }
                } else {
                    let mut v: Vec<usize> = Vec::new();
                    v.push(i);
                    gkeys.push(k);
                    groups.push(v);
                    proof {
                        assert(groups@.map_values(|v: Vec<usize>| v@) =~= gv.push(seq![i]));
                    }
                }
            },
        }
        i = i + 1;
    }
    assert(keys@.take(keys.len() as int) =~= keys@);
    (gkeys, groups)
}

/// The keys of a list of optional strings, by their characters.
pub open spec fn opt_views(keys: Seq<Option<String>>) -> Seq<Option<Seq<char>>> {
    keys.map_values(|o: Option<String>| match o {
        Some(s) => Some(s@),
        None => None,
    })
}

/// The distinct string keys and the positions holding each (see `key_groups`).
pub fn group_str_keys(keys: &Vec<Option<String>>) -> (r: (Vec<String>, Vec<Vec<usize>>))
    ensures
        (r.0@.map_values(|s: String| s@), r.1@.map_values(|v: Vec<usize>| v@)) == key_groups(opt_views(keys@)),
{
    let mut gkeys: Vec<String> = Vec::new();
    let mut groups: Vec<Vec<usize>> = Vec::new();
    let mut i: usize = 0;
    let ghost kv = opt_views(keys@);
    assert(kv.take(0) =~= Seq::<Option<Seq<char>>>::empty());
    while i < keys.len()
        invariant
            i <= keys.len(),
            kv == opt_views(keys@),
            gkeys.len() == groups.len(),
            (gkeys@.map_values(|s: String| s@), groups@.map_values(|v: Vec<usize>| v@)) == key_groups(kv.take(i as int)),
        decreases keys.len() - i,
    {
        let ghost gv = groups@.map_values(|v: Vec<usize>| v@);
        let ghost kk = gkeys@.map_values(|s: String| s@);
        assert(kv.take(i + 1).drop_last() =~= kv.take(i as int));
        assert(kv.take(i + 1).last() == kv[i as int]);
        match &keys[i] {
            None => {},
            Some(k) => {
                let mut g: usize = 0;
                while g < gkeys.len()
                    invariant
                        g <= gkeys.len(),
                        kk == gkeys@.map_values(|s: String| s@),
                        forall|h: int| 0 <= h < g ==> kk[h] != k@,
                    ensures
                        g <= gkeys.len(),
                        forall|h: int| 0 <= h < g ==> kk[h] != k@,
                        g < gkeys.len() ==> kk[g as int] == k@,
                    decreases gkeys.len() - g,
                {
                    if gkeys[g] == *k {
                        break;
                    }
                    g = g + 1;
                }
                proof {
                    lemma_first_key_index(kk, k@, g as int);
                }
                if g < gkeys.len() {
                    groups[g].push(i);
                    proof {
                        assert(groups@.map_values(|v: Vec<usize>| v@) =~= gv.update(g as int, gv[g as int].push(i)));
                    }
                } else {
                    let mut v: Vec<usize> = Vec::new();
                    v.push(i);
                    gkeys.push(k.clone());
                    groups.push(v);
                    proof {
                        assert(groups@.map_values(|v: Vec<usize>| v@) =~= gv.push(seq![i]));
                        assert(gkeys@.map_values(|s: String| s@) =~= kk.push(k@));
                    }
                }
            },
        }
        i = i + 1;
    }
    assert(kv.take(keys.len() as int) =~= kv);
    (gkeys, groups)
}

/// A file of a duplicate group.
pub struct DupeFile {
    pub path: String,
    pub size: u64,
    pub modified_ms: u64,
    pub is_cloud: bool,
}

impl DupeFile {
    /// A field-by-field copy.
    pub fn copy(&self) -> (r: DupeFile)
        ensures
            r == *self,
    {
        DupeFile { path: self.path.clone(), size: self.size, modified_ms: self.modified_ms, is_cloud: self.is_cloud }
    }
}

/// Files with the same content.
pub struct DupeGroup {
    /// MD5 of the content, in lower-case hex.
    pub hash: String,
    pub size: u64,
    pub files: Vec<DupeFile>,
    /// The copy recommended to keep.
    pub keep_index: usize,
}

impl DupeGroup {
    /// Bytes freed by removing every copy but one.
    pub fn wasted(&self) -> (w: u64)
        requires
            self.files.len() >= 1,
            self.size * (self.files.len() - 1) <= u64::MAX,
        ensures
            w == self.size * (self.files.len() - 1),
    {
        self.size * (self.files.len() as u64 - 1)
    }
}

/// Length of a path in UTF-8 bytes.
pub open spec fn byte_len(s: Seq<char>) -> int {
    utf8_len(s)
}

fn utf8_byte_len(s: &str) -> (n: u128)
    ensures
        n == byte_len(s@),
{
    let v = str_chars(s);
    let mut n: u128 = 0;
    let mut i: usize = 0;
    assert(v@.skip(0) =~= v@);
    while i < v.len()
        invariant
            i <= v.len(),
            v@ == s@,
            n <= 4 * i,
            n + utf8_len(v@.skip(i as int)) == utf8_len(v@),
        decreases v.len() - i,
    {
        assert(v@.skip(i as int).drop_first() =~= v@.skip(i + 1));
        let c = v[i];
        let u = c as u32;
        let w: u128 = if u < 0x80 { 1 } else if u < 0x800 { 2 } else if u < 0x10000 { 3 } else { 4 };
        assert(w == utf8_width(c));
        n = n + w;
        i = i + 1;
    }
    assert(v@.skip(v.len() as int) =~= Seq::<char>::empty());
    n
}

/// `b` is a better copy to keep than `a`: newer, or as new with a shorter path.
pub open spec fn keeps_over(b: DupeFile, a: DupeFile) -> bool {
    b.modified_ms > a.modified_ms || (b.modified_ms == a.modified_ms && byte_len(b.path@) < byte_len(a.path@))
}

/// The copy recommended to keep: the first of the best copies, where newer
/// is better and, on equal times, a shorter path (0 for an empty list).
pub fn pick_keep(files: &[DupeFile]) -> (r: usize)
    ensures
        files.len() == 0 ==> r == 0,
        files.len() > 0 ==> r < files.len(),
        forall|j: int| 0 <= j < r ==> keeps_over(files@[r as int], #[trigger] files@[j]),
        forall|j: int| r < j < files.len() ==> !keeps_over(#[trigger] files@[j], files@[r as int]),
{
    let mut best: usize = 0;
    let mut i: usize = 1;
    while i < files.len()
        invariant
            files.len() > 0 ==> best < i,
            files.len() == 0 ==> best == 0,
            1 <= i,
            i <= files.len() || files.len() == 0,
            forall|j: int| 0 <= j < best ==> keeps_over(files@[best as int], #[trigger] files@[j]),
            forall|j: int| best < j < i && j < files.len() ==> !keeps_over(#[trigger] files@[j], files@[best as int]),
        decreases files.len() - i,
    {
        let a = &files[best];
        let b = &files[i];
        let better = b.modified_ms > a.modified_ms
            || (b.modified_ms == a.modified_ms && utf8_byte_len(b.path.as_str()) < utf8_byte_len(a.path.as_str()));
        if better {
            proof {
                assert forall|j: int| 0 <= j < i implies keeps_over(files@[i as int], #[trigger] files@[j]) by {
                    if j < best {
                        assert(keeps_over(files@[best as int], files@[j]));
                    } else if j > best {
                        assert(!keeps_over(files@[j], files@[best as int]));
                    }
                }
            }
            best = i;
        }
        i = i + 1;
    }
    best
}

/// Result of a duplicate scan.
pub struct DupeScanSession {
    pub session_id: u32,
    pub drive: String,
    pub groups: Vec<DupeGroup>,
    pub walked_files: u64,
    pub hashed_files: u64,
    pub truncated: bool,
    pub done: bool,
}

impl DupeScanSession {
    /// A finished scan without groups (cancelled, or nothing found).
    pub fn empty(session_id: u32, drive: String, walked_files: u64, hashed_files: u64, truncated: bool) -> (r: DupeScanSession)
        ensures
            r.session_id == session_id && r.drive == drive && r.groups@.len() == 0,
            r.walked_files == walked_files && r.hashed_files == hashed_files,
            r.truncated == truncated && r.done,
    {
        DupeScanSession { session_id, drive, groups: Vec::new(), walked_files, hashed_files, truncated, done: true }
    }
}

/// Takes part in the search: at least 1 MiB and not a cloud placeholder.
pub open spec fn is_candidate(f: WalkFile) -> bool {
    f.size >= MIN_FILE_BYTES && !f.is_cloud
}

/// The size of each candidate file as its key; other files have none.
pub open spec fn size_keys(files: Seq<WalkFile>) -> Seq<Option<u64>> {
    files.map_values(|f: WalkFile| if is_candidate(f) { Some(f.size) } else { None })
}

/// The FNV-1a hash of each file's head as its key; unreadable files have none.
pub open spec fn head_keys(heads: Seq<Option<Vec<u8>>>) -> Seq<Option<u64>> {
    heads.map_values(|h: Option<Vec<u8>>| match h {
        Some(b) => Some(fnv64a_spec(b@)),
        None => None,
    })
}

/// The files at the given positions.
pub open spec fn members(files: Seq<WalkFile>, pos: Seq<usize>) -> Seq<WalkFile> {
    pos.map_values(|p: usize| files[p as int])
}

/// The groups of two or more positions, as lists of files, in order.
pub open spec fn multi_rows(files: Seq<WalkFile>, groups: Seq<Seq<usize>>) -> Seq<Seq<WalkFile>>
    decreases groups.len(),
{
    if groups.len() == 0 {
        Seq::empty()
    } else {
        let rest = multi_rows(files, groups.drop_last());
        if groups.last().len() >= 2 { rest.push(members(files, groups.last())) } else { rest }
    }
}

/// Space taken by a group of equal-size files: size times count.
pub open spec fn row_weight(row: Seq<WalkFile>) -> u64 {
    (row[0].size * row.len()) as u64
}

fn copy_files(v: &Vec<WalkFile>) -> (r: Vec<WalkFile>)
    ensures
        r@ == v@,
{
    let mut r: Vec<WalkFile> = Vec::new();
    let mut i: usize = 0;
    while i < v.len()
        invariant
            i <= v.len(),
            r@ == v@.take(i as int),
        decreases v.len() - i,
    {
        r.push(v[i].copy());
        assert(v@.take(i + 1) =~= v@.take(i as int).push(v@[i as int]));
        i = i + 1;
    }
    assert(v@.take(v.len() as int) =~= v@);
    r
}

/// The groups of two or more positions, as lists of files (see `multi_rows`).
fn rows_of(files: &Vec<WalkFile>, groups: &Vec<Vec<usize>>) -> (r: Vec<Vec<WalkFile>>)
    requires
        forall|g: int, a: int| 0 <= g < groups.len() && 0 <= a < groups@[g].len() ==> #[trigger] groups@[g]@[a] < files.len(),
    ensures
        r@.map_values(|v: Vec<WalkFile>| v@) == multi_rows(files@, groups@.map_values(|v: Vec<usize>| v@)),
{
    let ghost gv = groups@.map_values(|v: Vec<usize>| v@);
    let mut r: Vec<Vec<WalkFile>> = Vec::new();
    let mut g: usize = 0;
    while g < groups.len()
        invariant
            g <= groups.len(),
            gv == groups@.map_values(|v: Vec<usize>| v@),
            forall|h: int, a: int| 0 <= h < groups.len() && 0 <= a < groups@[h].len() ==> #[trigger] groups@[h]@[a] < files.len(),
            r@.map_values(|v: Vec<WalkFile>| v@) == multi_rows(files@, gv.take(g as int)),
        decreases groups.len() - g,
    {
        assert(gv.take(g + 1).drop_last() =~= gv.take(g as int));
        assert(gv.take(g + 1).last() == groups@[g as int]@);
        let pos = &groups[g];
        if pos.len() >= 2 {
            let mut row: Vec<WalkFile> = Vec::new();
            let mut a: usize = 0;
            while a < pos.len()
                invariant
                    a <= pos.len(),
                    pos@ == groups@[g as int]@,
                    forall|b: int| 0 <= b < pos.len() ==> #[trigger] pos@[b] < files.len(),
                    row@ == members(files@, pos@.take(a as int)),
                decreases pos.len() - a,
            {
                assert(groups@[g as int]@[a as int] < files.len());
                row.push(files[pos[a]].copy());
                assert(members(files@, pos@.take(a + 1)) =~= members(files@, pos@.take(a as int)).push(files@[pos@[a as int] as int]));
                a = a + 1;
            }
            assert(pos@.take(pos.len() as int) =~= pos@);
            let ghost before = r@.map_values(|v: Vec<WalkFile>| v@);
            r.push(row);
            assert(r@.map_values(|v: Vec<WalkFile>| v@) =~= before.push(members(files@, pos@)));
        }
        g = g + 1;
    }
    assert(gv.take(groups.len() as int) =~= gv);
    r
}

proof fn lemma_increasing_len(s: Seq<usize>, n: int)
    requires
        forall|a: int, b: int| 0 <= a < b < s.len() ==> #[trigger] s[a] < #[trigger] s[b],
        forall|a: int| 0 <= a < s.len() ==> #[trigger] s[a] < n,
        0 <= n,
    ensures
        s.len() <= n,
    decreases s.len(),
{
    if s.len() > 0 {
        let t = s.drop_last();
        assert forall|a: int| 0 <= a < t.len() implies #[trigger] t[a] < s.last() by {
            assert(s[a] < s[s.len() - 1]);
        }
        assert forall|a: int, b: int| 0 <= a < b < t.len() implies #[trigger] t[a] < #[trigger] t[b] by {
            assert(s[a] < s[b]);
        }
        lemma_increasing_len(t, s.last() as int);
        assert(s[s.len() - 1] < n);
    }
}

proof fn lemma_multi_rows_shape(files: Seq<WalkFile>, keys: Seq<Option<u64>>, gk: Seq<u64>, groups: Seq<Seq<usize>>, n: int)
    requires
        is_key_grouping(keys, gk, groups),
        keys.len() == files.len(),
        0 <= n <= groups.len(),
    ensures
        forall|t: int| 0 <= t < multi_rows(files, groups.take(n)).len() ==>
            2 <= (#[trigger] multi_rows(files, groups.take(n))[t]).len() <= files.len(),
        forall|t: int, b: int| 0 <= t < multi_rows(files, groups.take(n)).len()
            && 0 <= b < multi_rows(files, groups.take(n))[t].len() ==> files.contains(#[trigger] multi_rows(files, groups.take(n))[t][b]),
        forall|t: int, b: int| 0 <= t < multi_rows(files, groups.take(n)).len()
            && 0 <= b < multi_rows(files, groups.take(n))[t].len() ==> exists|i: int| 0 <= i < files.len()
                && (#[trigger] keys[i]) is Some && files[i] == #[trigger] multi_rows(files, groups.take(n))[t][b],
    decreases n,
{
    if n > 0 {
        assert(groups.take(n).drop_last() =~= groups.take(n - 1));
        lemma_multi_rows_shape(files, keys, gk, groups, n - 1);
        let last = groups[n - 1];
        assert(groups.take(n).last() == last);
        assert forall|a: int, b: int| 0 <= a < b < last.len() implies #[trigger] last[a] < #[trigger] last[b] by {
            assert(groups[n - 1][a] < groups[n - 1][b]);
        }
        assert forall|a: int| 0 <= a < last.len() implies #[trigger] last[a] < files.len() by {
            assert(groups[n - 1][a] < keys.len());
        }
        lemma_increasing_len(last, files.len() as int);
        let m = members(files, last);
        assert forall|b: int| 0 <= b < m.len() implies files.contains(#[trigger] m[b]) by {
            assert(m[b] == files[last[b] as int]);
        }
        let r = multi_rows(files, groups.take(n));
        let r0 = multi_rows(files, groups.take(n - 1));
        assert(r == if last.len() >= 2 { r0.push(m) } else { r0 });
        assert forall|t: int| 0 <= t < r.len() implies 2 <= (#[trigger] r[t]).len() <= files.len() by {
            if t < r0.len() {
                assert(r[t] == r0[t]);
            }
        }
        assert forall|t: int, b: int| 0 <= t < r.len() && 0 <= b < r[t].len() implies files.contains(#[trigger] r[t][b]) by {
            if t < r0.len() {
                assert(r[t] == r0[t]);
            } else {
                assert(r[t] == m);
            }
        }
        assert forall|t: int, b: int| 0 <= t < r.len() && 0 <= b < r[t].len() implies exists|i: int| 0 <= i < files.len()
            && (#[trigger] keys[i]) is Some && files[i] == #[trigger] r[t][b] by {
            if t < r0.len() {
                assert(r[t] == r0[t]);
            } else {
                assert(r[t] == m);
                let i = last[b] as int;
                assert(m[b] == files[i]);
                assert(groups[n - 1][b] < keys.len() && keys[groups[n - 1][b] as int] == Some(gk[n - 1]));
                assert(keys[i] is Some);
            }
        }
    } else {
        assert(groups.take(0) =~= Seq::<Seq<usize>>::empty());
    }
}

/// Candidate files grouped by size, groups of two or more only, the groups
/// taking the most space (size times count) first, ties in order of first
/// appearance; files within a group in walk order.
pub open spec fn size_rows(files: Seq<WalkFile>) -> Seq<Seq<WalkFile>> {
    multi_rows(files, key_groups(size_keys(files)).1)
}

/// The space each group of equal-size candidates takes fits in 64 bits.
pub open spec fn row_weights_fit(files: Seq<WalkFile>) -> bool {
    forall|t: int| 0 <= t < size_rows(files).len() ==> (#[trigger] size_rows(files)[t])[0].size * size_rows(files)[t].len() <= u64::MAX
}

/// Each row is the members of one of the groups.
proof fn lemma_multi_rows_groups(files: Seq<WalkFile>, groups: Seq<Seq<usize>>, n: int)
    requires
        0 <= n <= groups.len(),
    ensures
        forall|t: int| 0 <= t < multi_rows(files, groups.take(n)).len() ==> exists|g: int| 0 <= g < n
            && #[trigger] multi_rows(files, groups.take(n))[t] == members(files, groups[g]),
    decreases n,
{
    if n > 0 {
        assert(groups.take(n).drop_last() =~= groups.take(n - 1));
        lemma_multi_rows_groups(files, groups, n - 1);
        let r = multi_rows(files, groups.take(n));
        let r0 = multi_rows(files, groups.take(n - 1));
        assert(groups.take(n).last() == groups[n - 1]);
        assert forall|t: int| 0 <= t < r.len() implies exists|g: int| 0 <= g < n && #[trigger] r[t] == members(files, groups[g]) by {
            if t < r0.len() {
                assert(r[t] == r0[t]);
                let g = choose|g: int| 0 <= g < n - 1 && #[trigger] r0[t] == members(files, groups[g]);
                assert(r[t] == members(files, groups[g]));
            } else {
                assert(r[t] == members(files, groups[n - 1]));
            }
        }
    } else {
        assert(groups.take(0) =~= Seq::<Seq<usize>>::empty());
    }
}

/// Size groups are groups of two or more candidate files of one size: all
/// files of a group have the same size, and no group has fewer than two files.
pub proof fn size_groups_are_same_size_sets(files: Seq<WalkFile>)
    requires
        files.len() <= usize::MAX,
    ensures
        forall|t: int| 0 <= t < size_rows(files).len() ==> (#[trigger] size_rows(files)[t]).len() >= 2,
        forall|t: int, b: int, c: int| 0 <= t < size_rows(files).len() && 0 <= b < size_rows(files)[t].len()
            && 0 <= c < size_rows(files)[t].len() ==> (#[trigger] size_rows(files)[t][b]).size == (#[trigger] size_rows(files)[t][c]).size,
{
    let keys = size_keys(files);
    key_groups_partition(keys);
    let gk = key_groups(keys).0;
    let gv = key_groups(keys).1;
    assert(gv.take(gv.len() as int) =~= gv);
    lemma_multi_rows_shape(files, keys, gk, gv, gv.len() as int);
    lemma_multi_rows_groups(files, gv, gv.len() as int);
    let rows = size_rows(files);
    assert forall|t: int, b: int, c: int| 0 <= t < rows.len() && 0 <= b < rows[t].len() && 0 <= c < rows[t].len()
        implies (#[trigger] rows[t][b]).size == (#[trigger] rows[t][c]).size by {
        assert(multi_rows(files, gv.take(gv.len() as int))[t] == rows[t]);
        let g = choose|g: int| 0 <= g < gv.len() && #[trigger] multi_rows(files, gv.take(gv.len() as int))[t] == members(files, gv[g]);
        let m = members(files, gv[g]);
        assert(rows[t] == m);
        assert(gv[g][b] < keys.len() && keys[gv[g][b] as int] == Some(gk[g]));
        assert(gv[g][c] < keys.len() && keys[gv[g][c] as int] == Some(gk[g]));
        assert(m[b] == files[gv[g][b] as int]);
        assert(m[c] == files[gv[g][c] as int]);
    }
}

/// Only local files of at least 1 MiB are grouped by size: every file of every
/// size group is one of the walked files, is not a cloud placeholder and has at
/// least `MIN_FILE_BYTES`; so a placeholder never joins a group and is never
/// read or hashed.
pub proof fn size_groups_hold_only_local_large_files(files: Seq<WalkFile>)
    requires
        files.len() <= usize::MAX,
    ensures
        forall|t: int, b: int| 0 <= t < size_rows(files).len() && 0 <= b < size_rows(files)[t].len() ==>
            !(#[trigger] size_rows(files)[t][b]).is_cloud && size_rows(files)[t][b].size >= MIN_FILE_BYTES
            && files.contains(size_rows(files)[t][b]),
        forall|t: int, b: int, i: int| 0 <= t < size_rows(files).len() && 0 <= b < size_rows(files)[t].len()
            && 0 <= i < files.len() && (#[trigger] files[i]).is_cloud ==> #[trigger] size_rows(files)[t][b] != files[i],
{
    let keys = size_keys(files);
    key_groups_partition(keys);
    let gk = key_groups(keys).0;
    let gv = key_groups(keys).1;
    assert(gv.take(gv.len() as int) =~= gv);
    lemma_multi_rows_shape(files, keys, gk, gv, gv.len() as int);
    let rows = size_rows(files);
    assert forall|t: int, b: int| 0 <= t < rows.len() && 0 <= b < rows[t].len() implies
        !(#[trigger] rows[t][b]).is_cloud && rows[t][b].size >= MIN_FILE_BYTES && files.contains(rows[t][b]) by {
        assert(multi_rows(files, gv.take(gv.len() as int))[t][b] == rows[t][b]);
        let i = choose|i: int| 0 <= i < files.len() && (#[trigger] keys[i]) is Some && files[i] == rows[t][b];
        assert(keys[i] == (if is_candidate(files[i]) { Some(files[i].size) } else { None }));
    }
}

/// Stage one: candidate files of equal size (see `size_rows`), ordered by the
/// space each group takes, largest first.
pub fn size_groups(files: &Vec<WalkFile>) -> (r: Vec<Vec<WalkFile>>)
    requires
        row_weights_fit(files@),
    ensures
        is_stable_desc_sort(size_rows(files@), size_rows(files@).map_values(|row: Seq<WalkFile>| row_weight(row)),
            r@.map_values(|v: Vec<WalkFile>| v@)),
        forall|t: int, b: int| 0 <= t < r.len() && 0 <= b < r@[t].len() ==>
            !(#[trigger] r@[t]@[b]).is_cloud && r@[t]@[b].size >= MIN_FILE_BYTES,
        forall|t: int| 0 <= t < r.len() ==> (#[trigger] r@[t]).len() >= 2,
        forall|t: int, b: int, c: int| 0 <= t < r.len() && 0 <= b < r@[t].len() && 0 <= c < r@[t].len()
            ==> (#[trigger] r@[t]@[b]).size == (#[trigger] r@[t]@[c]).size,
{
    let mut keys: Vec<Option<u64>> = Vec::new();
    let mut i: usize = 0;
    while i < files.len()
        invariant
            i <= files.len(),
            keys@ == size_keys(files@).take(i as int),
        decreases files.len() - i,
    {
        let f = &files[i];
        keys.push(if f.size >= MIN_FILE_BYTES && !f.is_cloud { Some(f.size) } else { None });
        assert(keys@ =~= size_keys(files@).take(i + 1));
        i = i + 1;
    }
    assert(keys@ =~= size_keys(files@));
    let (gk, gs) = group_u64_keys(&keys);
    let ghost gv = gs@.map_values(|v: Vec<usize>| v@);
    proof {
        key_groups_partition(keys@);
        assert forall|g: int, a: int| 0 <= g < gs.len() && 0 <= a < gs@[g].len() implies #[trigger] gs@[g]@[a] < files.len() by {
            assert(gv[g][a] < keys@.len());
        }
        assert(gv.take(gv.len() as int) =~= gv);
        lemma_multi_rows_shape(files@, keys@, gk@, gv, gv.len() as int);
    }
    let rows = rows_of(files, &gs);
    let ghost rv = rows@.map_values(|v: Vec<WalkFile>| v@);
    let mut weights: Vec<u64> = Vec::new();
    let mut t: usize = 0;
    while t < rows.len()
        invariant
            t <= rows.len(),
            rv == rows@.map_values(|v: Vec<WalkFile>| v@),
            rv == size_rows(files@),
            forall|q: int| 0 <= q < rv.len() ==> 2 <= (#[trigger] rv[q]).len() <= files.len(),
            forall|q: int, b: int| 0 <= q < rv.len() && 0 <= b < rv[q].len() ==> files@.contains(#[trigger] rv[q][b]),
            row_weights_fit(files@),
            weights@ == rv.take(t as int).map_values(|row: Seq<WalkFile>| row_weight(row)),
        decreases rows.len() - t,
    {
        let row = &rows[t];
        assert(rv[t as int] == row@);
        let sz = row[0].size;
        let n = row.len() as u64;
        assert(size_rows(files@)[t as int][0].size * size_rows(files@)[t as int].len() <= u64::MAX);
        weights.push(sz * n);
        assert(weights@ =~= rv.take(t + 1).map_values(|row: Seq<WalkFile>| row_weight(row)));
        t = t + 1;
    }
    assert(rv.take(rows.len() as int) =~= rv);
    let order = desc_order(&weights);
    let mut out: Vec<Vec<WalkFile>> = Vec::new();
    let mut j: usize = 0;
    while j < order.len()
        invariant
            j <= order.len(),
            order.len() == weights.len() == rows.len(),
            is_desc_order(weights@, order@),
            rv == rows@.map_values(|v: Vec<WalkFile>| v@),
            out.len() == j,
            forall|q: int| 0 <= q < j ==> #[trigger] out@[q]@ == rv[order@[q] as int],
        decreases order.len() - j,
    {
        let o = order[j];
        out.push(copy_files(&rows[o]));
        j = j + 1;
    }
    let ghost ov = out@.map_values(|v: Vec<WalkFile>| v@);
    assert(is_desc_order(weights@, order@) && ov.len() == order@.len()
        && forall|q: int| 0 <= q < ov.len() ==> #[trigger] ov[q] == rv[order@[q] as int]);
    proof {
        size_groups_hold_only_local_large_files(files@);
        size_groups_are_same_size_sets(files@);
        assert forall|t: int, b: int| 0 <= t < out.len() && 0 <= b < out@[t].len() implies
            !(#[trigger] out@[t]@[b]).is_cloud && out@[t]@[b].size >= MIN_FILE_BYTES by {
            assert(ov[t] == rv[order@[t] as int]);
            assert(order@[t] < rv.len());
            assert(size_rows(files@)[order@[t] as int][b] == out@[t]@[b]);
        }
        assert forall|t: int| 0 <= t < out.len() implies (#[trigger] out@[t]).len() >= 2 by {
            assert(ov[t] == rv[order@[t] as int]);
            assert(order@[t] < rv.len());
        }
        assert forall|t: int, b: int, c: int| 0 <= t < out.len() && 0 <= b < out@[t].len() && 0 <= c < out@[t].len()
            implies (#[trigger] out@[t]@[b]).size == (#[trigger] out@[t]@[c]).size by {
            assert(ov[t] == rv[order@[t] as int]);
            assert(order@[t] < rv.len());
            assert(size_rows(files@)[order@[t] as int][b] == out@[t]@[b]);
            assert(size_rows(files@)[order@[t] as int][c] == out@[t]@[c]);
        }
    }
    out
}

/// Stage two: the files of one size group gathered by the FNV-1a hash of
/// their first 4 KB (`heads[i]` is what could be read of file `i`), groups of
/// two or more only, in order of first appearance.
pub fn prescreen_group(group: &Vec<WalkFile>, heads: &Vec<Option<Vec<u8>>>) -> (r: Vec<Vec<WalkFile>>)
    requires
        heads.len() == group.len(),
    ensures
        r@.map_values(|v: Vec<WalkFile>| v@) == multi_rows(group@, key_groups(head_keys(heads@)).1),
{
    let mut keys: Vec<Option<u64>> = Vec::new();
    let mut i: usize = 0;
    while i < heads.len()
        invariant
            i <= heads.len(),
            keys@ == head_keys(heads@).take(i as int),
        decreases heads.len() - i,
    {
        let k = match &heads[i] {
            Some(b) => Some(fnv64a(b.as_slice())),
            None => None,
        };
        keys.push(k);
        assert(keys@ =~= head_keys(heads@).take(i + 1));
        i = i + 1;
    }
    assert(keys@ =~= head_keys(heads@));
    let (gk, gs) = group_u64_keys(&keys);
    proof {
        key_groups_partition(keys@);
        let gv = gs@.map_values(|v: Vec<usize>| v@);
        assert forall|g: int, a: int| 0 <= g < gs.len() && 0 <= a < gs@[g].len() implies #[trigger] gs@[g]@[a] < group.len() by {
            assert(gv[g][a] < keys@.len());
        }
    }
    rows_of(group, &gs)
}

/// A walked file as a member of a duplicate group.
pub open spec fn as_dupe(f: WalkFile) -> DupeFile {
    DupeFile { path: f.path, size: f.size, modified_ms: f.modified_ms, is_cloud: f.is_cloud }
}

/// `r` is the recommended copy of `files` (see `pick_keep`).
pub open spec fn is_keep_choice(files: Seq<DupeFile>, r: usize) -> bool {
    &&& files.len() == 0 ==> r == 0
    &&& files.len() > 0 ==> r < files.len()
    &&& forall|j: int| 0 <= j < r ==> keeps_over(files[r as int], #[trigger] files[j])
    &&& forall|j: int| r < j < files.len() ==> !keeps_over(#[trigger] files[j], files[r as int])
}

/// `g` is the duplicate group of `files` with content hash `hash`: its files
/// newest first (ties in walk order) and the recommended copy chosen among them.
pub open spec fn is_made_group(g: DupeGroup, hash: Seq<char>, size: u64, files: Seq<WalkFile>) -> bool {
    &&& g.hash@ == hash
    &&& g.size == size
    &&& is_stable_desc_sort(files.map_values(|f: WalkFile| as_dupe(f)), files.map_values(|f: WalkFile| f.modified_ms), g.files@)
    &&& is_keep_choice(g.files@, g.keep_index)
}

/// The duplicate group of files found to share a content hash.
pub fn make_group(hash: String, size: u64, files: &Vec<WalkFile>) -> (g: DupeGroup)
    ensures
        is_made_group(g, hash@, size, files@),
{
    let ghost dv = files@.map_values(|f: WalkFile| as_dupe(f));
    let ghost mv = files@.map_values(|f: WalkFile| f.modified_ms);
    let mut times: Vec<u64> = Vec::new();
    let mut i: usize = 0;
    while i < files.len()
        invariant
            i <= files.len(),
            times@ == mv.take(i as int),
            mv == files@.map_values(|f: WalkFile| f.modified_ms),
        decreases files.len() - i,
    {
        times.push(files[i].modified_ms);
        assert(times@ =~= mv.take(i + 1));
        i = i + 1;
    }
    assert(times@ =~= mv);
    let order = desc_order(&times);
    let mut df: Vec<DupeFile> = Vec::new();
    let mut j: usize = 0;
    while j < order.len()
        invariant
            j <= order.len(),
            order.len() == times.len() == files.len(),
            is_desc_order(mv, order@),
            times@ == mv,
            dv == files@.map_values(|f: WalkFile| as_dupe(f)),
            df.len() == j,
            forall|q: int| 0 <= q < j ==> #[trigger] df@[q] == dv[order@[q] as int],
        decreases order.len() - j,
    {
        let f = &files[order[j]];
        df.push(DupeFile { path: f.path.clone(), size: f.size, modified_ms: f.modified_ms, is_cloud: f.is_cloud });
        j = j + 1;
    }
    assert(is_desc_order(mv, order@) && df@.len() == order@.len()
        && forall|q: int| 0 <= q < df@.len() ==> #[trigger] df@[q] == dv[order@[q] as int]);
    let keep_index = pick_keep(df.as_slice());
    DupeGroup { hash, size, files: df, keep_index }
}

/// The groups of two or more positions, with their keys.
pub open spec fn multi_keyed<K>(gkeys: Seq<K>, groups: Seq<Seq<usize>>) -> Seq<(K, Seq<usize>)>
    decreases groups.len(),
{
    if groups.len() == 0 || gkeys.len() != groups.len() {
        Seq::empty()
    } else {
        let rest = multi_keyed(gkeys.drop_last(), groups.drop_last());
        if groups.last().len() >= 2 { rest.push((gkeys.last(), groups.last())) } else { rest }
    }
}

/// Stage three: the files of one pre-screened group gathered by content hash
/// (`hashes[i]` is file `i`'s MD5, or `None` when it could not be read), groups
/// of two or more only, in order of first appearance, each made a duplicate group.
pub fn hash_groups(size: u64, files: &Vec<WalkFile>, hashes: &Vec<Option<String>>) -> (r: Vec<DupeGroup>)
    requires
        hashes.len() == files.len(),
    ensures
        ({
            let kg = key_groups(opt_views(hashes@));
            let mk = multi_keyed(kg.0, kg.1);
            &&& r.len() == mk.len()
            &&& forall|t: int| 0 <= t < r.len() ==> is_made_group(#[trigger] r@[t], mk[t].0, size, members(files@, mk[t].1))
        }),
{
    let (gk, gs) = group_str_keys(hashes);
    let ghost kv = gk@.map_values(|s: String| s@);
    let ghost gv = gs@.map_values(|v: Vec<usize>| v@);
    proof {
        key_groups_partition(opt_views(hashes@));
    }
    let mut r: Vec<DupeGroup> = Vec::new();
    let mut g: usize = 0;
    assert(kv.take(0) =~= Seq::<Seq<char>>::empty());
    while g < gs.len()
        invariant
            g <= gs.len(),
            gk.len() == gs.len(),
            kv == gk@.map_values(|s: String| s@),
            gv == gs@.map_values(|v: Vec<usize>| v@),
            is_key_grouping(opt_views(hashes@), kv, gv),
            opt_views(hashes@).len() == files.len(),
            r.len() == multi_keyed(kv.take(g as int), gv.take(g as int)).len(),
            forall|t: int| 0 <= t < r.len() ==> is_made_group(#[trigger] r@[t], multi_keyed(kv.take(g as int), gv.take(g as int))[t].0,
                size, members(files@, multi_keyed(kv.take(g as int), gv.take(g as int))[t].1)),
        decreases gs.len() - g,
    {
        assert(kv.take(g + 1).drop_last() =~= kv.take(g as int));
        assert(gv.take(g + 1).drop_last() =~= gv.take(g as int));
        assert(gv.take(g + 1).last() == gs@[g as int]@);
        assert(kv.take(g + 1).last() == gk@[g as int]@);
        let ghost before = multi_keyed(kv.take(g as int), gv.take(g as int));
        let pos = &gs[g];
        if pos.len() >= 2 {
            let mut row: Vec<WalkFile> = Vec::new();
            let mut a: usize = 0;
            while a < pos.len()
                invariant
                    a <= pos.len(),
                    pos@ == gv[g as int],
                    gv == gs@.map_values(|v: Vec<usize>| v@),
                    is_key_grouping(opt_views(hashes@), kv, gv),
                    opt_views(hashes@).len() == files.len(),
                    0 <= g < gv.len(),
                    row@ == members(files@, pos@.take(a as int)),
                decreases pos.len() - a,
            {
                assert(gv[g as int][a as int] < opt_views(hashes@).len());
                row.push(files[pos[a]].copy());
                assert(members(files@, pos@.take(a + 1)) =~= members(files@, pos@.take(a as int)).push(files@[pos@[a as int] as int]));
                a = a + 1;
            }
            assert(pos@.take(pos.len() as int) =~= pos@);
            let grp = make_group(gk[g].clone(), size, &row);
            r.push(grp);
            proof {
                let after = multi_keyed(kv.take(g + 1), gv.take(g + 1));
                assert(after == before.push((gk@[g as int]@, pos@)));
                assert forall|t: int| 0 <= t < r.len() implies is_made_group(#[trigger] r@[t], after[t].0, size, members(files@, after[t].1)) by {
                    if t < before.len() {
                        assert(after[t] == before[t]);
                    }
                }
            }
        }
        g = g + 1;
    }
    assert(kv.take(gs.len() as int) =~= kv);
    assert(gv.take(gs.len() as int) =~= gv);
    r
}

impl DupeGroup {
    /// A deep copy.
    pub fn copy(&self) -> (r: DupeGroup)
        ensures
            group_parts(r) == group_parts(*self),
    {
        let mut files: Vec<DupeFile> = Vec::new();
        let mut i: usize = 0;
        while i < self.files.len()
            invariant
                i <= self.files.len(),
                files@ == self.files@.take(i as int),
            decreases self.files.len() - i,
        {
            files.push(self.files[i].copy());
            assert(self.files@.take(i + 1) =~= self.files@.take(i as int).push(self.files@[i as int]));
            i = i + 1;
        }
        assert(self.files@.take(self.files.len() as int) =~= self.files@);
        DupeGroup { hash: self.hash.clone(), size: self.size, files, keep_index: self.keep_index }
    }
}

/// What a group holds: hash, size, files and recommended copy.
pub open spec fn group_parts(g: DupeGroup) -> (String, u64, Seq<DupeFile>, usize) {
    (g.hash, g.size, g.files@, g.keep_index)
}

/// Bytes freed by keeping one copy of a group.
pub open spec fn wasted_spec(g: DupeGroup) -> u64 {
    (g.size * (g.files@.len() - 1)) as u64
}

/// The duplicate groups ordered by the space they waste, largest first (ties in
/// their given order).
pub fn rank_groups(groups: &Vec<DupeGroup>) -> (r: Vec<DupeGroup>)
    requires
        forall|i: int| 0 <= i < groups.len() ==> (#[trigger] groups@[i]).files@.len() >= 1
            && groups@[i].size * (groups@[i].files@.len() - 1) <= u64::MAX,
    ensures
        is_stable_desc_sort(groups@.map_values(|g: DupeGroup| group_parts(g)), groups@.map_values(|g: DupeGroup| wasted_spec(g)),
            r@.map_values(|g: DupeGroup| group_parts(g))),
{
    let ghost wv = groups@.map_values(|g: DupeGroup| wasted_spec(g));
    let mut w: Vec<u64> = Vec::new();
    let mut i: usize = 0;
    while i < groups.len()
        invariant
            i <= groups.len(),
            wv == groups@.map_values(|g: DupeGroup| wasted_spec(g)),
            w@ == wv.take(i as int),
            forall|k: int| 0 <= k < groups.len() ==> (#[trigger] groups@[k]).files@.len() >= 1
                && groups@[k].size * (groups@[k].files@.len() - 1) <= u64::MAX,
        decreases groups.len() - i,
    {
        assert(groups@[i as int].files@.len() >= 1);
        w.push(groups[i].wasted());
        assert(w@ =~= wv.take(i + 1));
        i = i + 1;
    }
    assert(w@ =~= wv);
    let order = desc_order(&w);
    let mut out: Vec<DupeGroup> = Vec::new();
    let mut j: usize = 0;
    while j < order.len()
        invariant
            j <= order.len(),
            order.len() == w.len() == groups.len(),
            is_desc_order(wv, order@),
            w@ == wv,
            out.len() == j,
            forall|q: int| 0 <= q < j ==> group_parts(#[trigger] out@[q]) == group_parts(groups@[order@[q] as int]),
        decreases order.len() - j,
    {
        out.push(groups[order[j]].copy());
        j = j + 1;
    }
    let ghost ov = out@.map_values(|g: DupeGroup| group_parts(g));
    let ghost iv = groups@.map_values(|g: DupeGroup| group_parts(g));
    assert(is_desc_order(wv, order@) && ov.len() == order@.len()
        && forall|q: int| 0 <= q < ov.len() ==> #[trigger] ov[q] == iv[order@[q] as int]);
    out
}

/// What a duplicate scan result holds, field by field (groups by their parts).
pub open spec fn dupe_session_parts(s: DupeScanSession) -> (u32, String, Seq<(String, u64, Seq<DupeFile>, usize)>, u64, u64, bool, bool) {
    (s.session_id, s.drive, s.groups@.map_values(|g: DupeGroup| group_parts(g)), s.walked_files, s.hashed_files, s.truncated, s.done)
}

impl DupeScanSession {
    /// A deep copy.
    pub fn copy(&self) -> (r: DupeScanSession)
        ensures
            dupe_session_parts(r) == dupe_session_parts(*self),
    {
        let ghost gv = self.groups@.map_values(|g: DupeGroup| group_parts(g));
        let mut groups: Vec<DupeGroup> = Vec::new();
        let mut i: usize = 0;
        while i < self.groups.len()
            invariant
                i <= self.groups.len(),
                gv == self.groups@.map_values(|g: DupeGroup| group_parts(g)),
                groups@.map_values(|g: DupeGroup| group_parts(g)) == gv.take(i as int),
            decreases self.groups.len() - i,
        {
            let g = self.groups[i].copy();
            let ghost before = groups@;
            groups.push(g);
            proof {
                assert(gv[i as int] == group_parts(self.groups@[i as int]));
                assert(gv.take(i + 1) =~= gv.take(i as int).push(gv[i as int]));
                assert(groups@.map_values(|g: DupeGroup| group_parts(g)) =~= before.map_values(|g: DupeGroup| group_parts(g)).push(group_parts(g)));
            }
            i = i + 1;
        }
        assert(gv.take(self.groups.len() as int) =~= gv);
        DupeScanSession {
            session_id: self.session_id,
            drive: self.drive.clone(),
            groups,
            walked_files: self.walked_files,
            hashed_files: self.hashed_files,
            truncated: self.truncated,
            done: self.done,
        }
    }
}

/// The hashing budget of a duplicate scan: at most `MAX_HASHED_FILES` files
/// are hashed; once it is spent the scan stops and is marked truncated.
pub struct HashBudget {
    pub hashed: u64,
    pub truncated: bool,
}

impl HashBudget {
    /// Nothing hashed yet.
    pub fn new() -> (b: HashBudget)
        ensures
            b.hashed == 0 && !b.truncated,
    {
        HashBudget { hashed: 0, truncated: false }
    }

    /// Whether another file may be hashed; when not, the scan is marked truncated.
    pub fn allows_another(&mut self) -> (ok: bool)
        ensures
            ok == (old(self).hashed < MAX_HASHED_FILES),
            final(self).hashed == old(self).hashed,
            final(self).truncated == (old(self).truncated || !ok),
    {
        if self.hashed < MAX_HASHED_FILES {
            true
        } else {
            self.truncated = true;
            false
        }
    }

    /// Counts a file hashed (after `allows_another` allowed it).
    pub fn count(&mut self)
        requires
            old(self).hashed < MAX_HASHED_FILES,
        ensures
            final(self).hashed == old(self).hashed + 1,
            final(self).hashed <= MAX_HASHED_FILES,
            final(self).truncated == old(self).truncated,
    {
        self.hashed = self.hashed + 1;
    }
}

/// Asks a duplicate scan to stop.
pub fn cancel(state: &mut AppState, session_id: u32)
    requires
        old(state).wf(),
    ensures
        cancel_requested(*old(state), *final(state), session_id),
{
    state.request_cancel(session_id);
}

/// A copy of a finished duplicate scan, `None` when there is none under that id.
pub fn get_result(state: &AppState, session_id: u32) -> (r: Option<DupeScanSession>)
    requires
        state.wf(),
    ensures
        match r {
            Some(s) => state.dupe_sessions.at(session_id) is Some
                && dupe_session_parts(s) == dupe_session_parts(state.dupe_sessions.at(session_id).unwrap()),
            None => state.dupe_sessions.at(session_id) is None,
        },
{
    match state.dupe_sessions.get(session_id) {
        Some(s) => Some(s.copy()),
        None => None,
    }
}

} // verus!
