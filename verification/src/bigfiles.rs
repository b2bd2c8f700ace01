//! The large-file finder: files at or above a threshold, minus the ones the user
//! chose to ignore, largest first, at most `MAX_FILES` of them.
use vstd::prelude::*;

use crate::order::{desc_order, is_desc_order, is_stable_desc_sort};
use crate::text::{lower_chars, str_chars, to_lower};
use crate::util::{listed_in, normalize_path, normalize_path_spec};
use crate::space::{lemma_seq_sum_nonneg, lemma_seq_sum_push, lemma_seq_sum_split, lemma_sum_permuted, seq_sum};
use crate::walker::WalkFile;

use crate::state::{cancel_requested, AppState};

verus! {

/// Most files listed by one scan.
pub const MAX_FILES: usize = 20_000;

/// A large file as listed.
pub struct LargeFile {
    pub path: String,
    pub size: u64,
    pub modified_ms: u64,
    pub is_cloud: bool,
}

/// The result of a large-file scan.
pub struct LargeScanSession {
    pub session_id: u32,
    pub drive: String,
    pub files: Vec<LargeFile>,
    pub total_bytes: u64,
    pub truncated: bool,
    pub skipped_dirs: u64,
    pub done: bool,
}

/// A walked file as listed.
pub open spec fn as_large(w: WalkFile) -> LargeFile {
    LargeFile { path: w.path, size: w.size, modified_ms: w.modified_ms, is_cloud: w.is_cloud }
}

/// A walked file as listed.
pub fn to_large_file(w: &WalkFile) -> (f: LargeFile)
    ensures
        f == as_large(*w),
{
    LargeFile { path: w.path.clone(), size: w.size, modified_ms: w.modified_ms, is_cloud: w.is_cloud }
}

/// The size threshold in bytes for a threshold in MiB (saturating).
pub fn threshold_bytes(threshold_mb: u64) -> (b: u64)
    ensures
        b == (if threshold_mb * 1048576 <= u64::MAX { threshold_mb * 1048576 } else { u64::MAX as int }),
{
    match threshold_mb.checked_mul(1024 * 1024) {
        Some(b) => b,
        None => u64::MAX,
    }
}

/// How an ignored path is compared: normalised, then lower-cased.
pub open spec fn ignore_key(p: Seq<char>) -> Seq<char> {
    lower_chars(normalize_path_spec(p))
}

/// The comparison keys of the ignored paths.
pub fn ignored_keys(ignored: &Vec<String>) -> (r: Vec<String>)
    ensures
        r.len() == ignored.len(),
        forall|i: int| 0 <= i < r.len() ==> #[trigger] r@[i]@ == ignore_key(ignored@[i]@),
{
    let mut r: Vec<String> = Vec::new();
    let mut i: usize = 0;
    while i < ignored.len()
        invariant
            i <= ignored.len(),
            r.len() == i,
            forall|j: int| 0 <= j < i ==> #[trigger] r@[j]@ == ignore_key(ignored@[j]@),
        decreases ignored.len() - i,
    {
        let n = normalize_path(ignored[i].as_str());
        r.push(to_lower(n.as_str()));
        i = i + 1;
    }
    r
}

/// The file is on the ignore list (its lower-cased path is one of the keys).
pub open spec fn is_ignored(f: WalkFile, keys: Seq<String>) -> bool {
    listed_in(keys, lower_chars(f.path@))
}

/// The files not ignored, in order.
pub open spec fn not_ignored(files: Seq<WalkFile>, keys: Seq<String>) -> Seq<WalkFile>
    decreases files.len(),
{
    if files.len() == 0 {
        Seq::empty()
    } else {
        let rest = not_ignored(files.drop_last(), keys);
        if is_ignored(files.last(), keys) { rest } else { rest.push(files.last()) }
    }
}

fn is_listed(keys: &Vec<String>, k: &String) -> (b: bool)
    ensures
        b == listed_in(keys@, k@),
{
    let mut i: usize = 0;
    while i < keys.len()
        invariant
            i <= keys.len(),
            forall|j: int| 0 <= j < i ==> #[trigger] keys@[j]@ != k@,
        decreases keys.len() - i,
    {
        if keys[i] == *k {
            return true;
        }
        i = i + 1;
    }
    false
}

/// The sizes of the files, in order.
pub open spec fn file_sizes(files: Seq<WalkFile>) -> Seq<u64> {
    files.map_values(|f: WalkFile| f.size)
}

/// Sum of the sizes of listed files.
pub open spec fn large_total(fs: Seq<LargeFile>) -> int
    decreases fs.len(),
{
    if fs.len() == 0 { 0 } else { large_total(fs.drop_last()) + fs.last().size }
}

/// Total size of walked files.
pub open spec fn walk_total(fs: Seq<WalkFile>) -> int {
    seq_sum(fs.map_values(|f: WalkFile| f.size as int))
}

proof fn lemma_not_ignored_total(files: Seq<WalkFile>, keys: Seq<String>)
    ensures
        walk_total(not_ignored(files, keys)) <= walk_total(files),
    decreases files.len(),
{
    if files.len() > 0 {
        let d = files.drop_last();
        lemma_not_ignored_total(d, keys);
        let g = |f: WalkFile| f.size as int;
        assert(files.map_values(g) =~= d.map_values(g).push(files.last().size as int));
        lemma_seq_sum_push(d.map_values(g), files.last().size as int);
        let r0 = not_ignored(d, keys);
        if !is_ignored(files.last(), keys) {
            assert(not_ignored(files, keys).map_values(g) =~= r0.map_values(g).push(files.last().size as int));
            lemma_seq_sum_push(r0.map_values(g), files.last().size as int);
        }
    } else {
        assert(files.map_values(|f: WalkFile| f.size as int) =~= Seq::<int>::empty());
        assert(not_ignored(files, keys).map_values(|f: WalkFile| f.size as int) =~= Seq::<int>::empty());
    }
}

/// The final listing of a scan: files not ignored, largest first (ties in walk
/// order), cut to `MAX_FILES`; the listing is marked truncated when the walk
/// already dropped files or the cut removed some; and the total size listed.
pub fn finalize(files: &Vec<WalkFile>, keys: &Vec<String>, walk_truncated: bool) -> (r: (Vec<LargeFile>, bool, u64))
    requires
        walk_total(files@) <= u64::MAX,
    ensures
        exists|sorted: Seq<WalkFile>| #[trigger] is_stable_desc_sort(not_ignored(files@, keys@),
            file_sizes(not_ignored(files@, keys@)), sorted)
            && r.0@ == sorted.take(if sorted.len() > MAX_FILES { MAX_FILES as int } else { sorted.len() as int })
                .map_values(|f: WalkFile| as_large(f)),
        r.1 == (walk_truncated || not_ignored(files@, keys@).len() > MAX_FILES),
        r.2 == large_total(r.0@),
{
    let mut kept: Vec<WalkFile> = Vec::new();
    let mut i: usize = 0;
    while i < files.len()
        invariant
            i <= files.len(),
            kept@ == not_ignored(files@.take(i as int), keys@),
        decreases files.len() - i,
    {
        assert(files@.take(i + 1).drop_last() =~= files@.take(i as int));
        assert(files@.take(i + 1).last() == files@[i as int]);
        let low = to_lower(files[i].path.as_str());
        if !is_listed(keys, &low) {
            kept.push(files[i].copy());
        }
        i = i + 1;
    }
    assert(files@.take(files.len() as int) =~= files@);
    let ghost kv = kept@;
    let mut sizes: Vec<u64> = Vec::new();
    let mut j: usize = 0;
    while j < kept.len()
        invariant
            j <= kept.len(),
            sizes@ == kv.map_values(|f: WalkFile| f.size).take(j as int),
            kv == kept@,
        decreases kept.len() - j,
    {
        sizes.push(kept[j].size);
        assert(sizes@ =~= kv.map_values(|f: WalkFile| f.size).take(j + 1));
        j = j + 1;
    }
    assert(sizes@ =~= kv.map_values(|f: WalkFile| f.size));
    let order = desc_order(&sizes);
    let limit = if order.len() > MAX_FILES { MAX_FILES } else { order.len() };
    let ghost g = |j: usize| kv[j as int].size as int;
    let ghost ps = order@.map_values(g);
    proof {
        lemma_not_ignored_total(files@, keys@);
        lemma_sum_permuted(order@, g, kv.len() as int);
        assert(crate::order::index_range(0, kv.len() as int).map_values(g) =~= kv.map_values(|f: WalkFile| f.size as int));
        assert(seq_sum(ps) <= u64::MAX);
        assert(ps.take(0) =~= Seq::<int>::empty());
        lemma_seq_sum_nonneg(ps);
    }
    let mut out: Vec<LargeFile> = Vec::new();
    let mut total: u64 = 0;
    let mut q: usize = 0;
    while q < limit
        invariant
            q <= limit <= order.len(),
            limit <= MAX_FILES,
            order.len() == sizes.len() == kept.len(),
            is_desc_order(sizes@, order@),
            kv == kept@,
            ps == order@.map_values(g),
            g == (|j: usize| kv[j as int].size as int),
            seq_sum(ps) <= u64::MAX,
            out.len() == q,
            forall|t: int| 0 <= t < q ==> #[trigger] out@[t] == as_large(kv[order@[t] as int]),
            total == large_total(out@),
            total == seq_sum(ps.take(q as int)),
        decreases limit - q,
    {
        let f = &kept[order[q]];
        let ghost before = out@;
        proof {
            assert(ps.take(q + 1) =~= ps.take(q as int).push(ps[q as int]));
            lemma_seq_sum_push(ps.take(q as int), ps[q as int]);
            lemma_seq_sum_split(ps, q + 1);
            assert forall|t: int| 0 <= t < ps.skip(q + 1).len() implies #[trigger] ps.skip(q + 1)[t] >= 0 by {}
            lemma_seq_sum_nonneg(ps.skip(q + 1));
        }
        out.push(to_large_file(f));
        total = total + f.size;
        assert(out@.drop_last() =~= before);
        q = q + 1;
    }
    proof {
        let sorted = Seq::new(order@.len(), |t: int| kv[order@[t] as int]);
        assert(file_sizes(kv) =~= sizes@);
        assert(is_stable_desc_sort(kv, file_sizes(kv), sorted)) by {
            assert(is_desc_order(sizes@, order@) && sorted.len() == order@.len()
                && forall|t: int| 0 <= t < sorted.len() ==> #[trigger] sorted[t] == kv[order@[t] as int]);
        }
        assert(out@ =~= sorted.take(limit as int).map_values(|f: WalkFile| as_large(f)));
    }
    (out, walk_truncated || kept.len() > MAX_FILES, total)
}

impl LargeScanSession {
    /// A finished scan.
    pub fn new(session_id: u32, drive: String, files: Vec<LargeFile>, total_bytes: u64, truncated: bool,
        skipped_dirs: u64) -> (s: LargeScanSession)
        ensures
            s.session_id == session_id && s.drive == drive && s.files == files,
            s.total_bytes == total_bytes && s.truncated == truncated && s.skipped_dirs == skipped_dirs && s.done,
    {
        LargeScanSession { session_id, drive, files, total_bytes, truncated, skipped_dirs, done: true }
    }
}

impl LargeFile {
    /// A field-by-field copy.
    pub fn copy(&self) -> (r: LargeFile)
        ensures
            r == *self,
    {
        LargeFile { path: self.path.clone(), size: self.size, modified_ms: self.modified_ms, is_cloud: self.is_cloud }
    }
}

/// What a scan result holds, field by field.
pub open spec fn large_parts(s: LargeScanSession) -> (u32, String, Seq<LargeFile>, u64, bool, u64, bool) {
    (s.session_id, s.drive, s.files@, s.total_bytes, s.truncated, s.skipped_dirs, s.done)
}

impl LargeScanSession {
    /// A deep copy.
    pub fn copy(&self) -> (r: LargeScanSession)
        ensures
            large_parts(r) == large_parts(*self),
    {
        let mut files: Vec<LargeFile> = Vec::new();
        let mut i: usize = 0;
        while i < self.files.len()
            invariant
                i <= self.files.len(),
                files@ == self.files@.take(i as int),
            decreases self.files.len() - i,
        {
            files.push(self.files[i].copy());
            assert(self.files@.take(i + 1) =~= self.files@.take(i as int).push(self.files@[i as int]));
            i = i + 1;
        }
        assert(self.files@.take(self.files.len() as int) =~= self.files@);
        LargeScanSession {
            session_id: self.session_id,
            drive: self.drive.clone(),
            files,
            total_bytes: self.total_bytes,
            truncated: self.truncated,
            skipped_dirs: self.skipped_dirs,
            done: self.done,
        }
    }
}

/// Asks a large-file scan to stop.
pub fn cancel(state: &mut AppState, session_id: u32)
    requires
        old(state).wf(),
    ensures
        cancel_requested(*old(state), *final(state), session_id),
{
    state.request_cancel(session_id);
}

/// A copy of a finished large-file scan, `None` when there is none under that id.
pub fn get_result(state: &AppState, session_id: u32) -> (r: Option<LargeScanSession>)
    requires
        state.wf(),
    ensures
        match r {
            Some(s) => state.big_sessions.at(session_id) is Some
                && large_parts(s) == large_parts(state.big_sessions.at(session_id).unwrap()),
            None => state.big_sessions.at(session_id) is None,
        },
{
    match state.big_sessions.get(session_id) {
        Some(s) => Some(s.copy()),
        None => None,
    }
}

} // verus!
