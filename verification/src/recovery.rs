//! The recovery area: index entries of removed files, expiry, self-healing of
//! batches that lost their index, restore destinations and permanent removal.
//!
//! Each drive keeps its area at `X:\$DiskClear\Recovery\<batch>\` with an
//! `index.json`; the file-system work is done by the caller, which hands the
//! index contents and what it found on disk to the functions here.
use vstd::prelude::*;

use crate::category::{join_path, join_spec};
use crate::order::{desc_order, is_desc_order, is_stable_desc_sort};
use crate::text::{lemma_dec_digits_injective, dec_padded, push_dec, rfind_char, slice_of, str_chars, string_from_chars};
use crate::util::{drive_root_of, drive_root_spec, listed_in, ascii_upper, drive_letter_of, is_drive_absolute, is_sep, normalize_path, normalize_path_spec};

verus! {

/// Directory of a drive's recovery area, relative to the drive root.
pub const DIR_NAME: &'static str = "$DiskClear\\Recovery";

/// Recovery area under `%LOCALAPPDATA%` when a drive root is not writable.
pub const FALLBACK: &'static str = "DiskClear\\Recovery";

/// Name of the index file of a recovery area.
pub const INDEX_FILE: &'static str = "index.json";

/// One removed file kept in the recovery area.
pub struct RecoveryEntry {
    pub id: String,
    pub batch_id: String,
    pub original_path: String,
    pub recovery_path: String,
    pub size: u64,
    pub deleted_at_ms: u64,
    pub expires_at_ms: u64,
    pub category_id: String,
    pub drive: String,
}

impl Default for RecoveryEntry {
    fn default() -> (r: RecoveryEntry)
        ensures
            r.id@ == Seq::<char>::empty(),
            r.batch_id@ == Seq::<char>::empty(),
            r.original_path@ == Seq::<char>::empty(),
            r.recovery_path@ == Seq::<char>::empty(),
            r.size == 0 && r.deleted_at_ms == 0 && r.expires_at_ms == 0,
            r.category_id@ == Seq::<char>::empty(),
            r.drive@ == Seq::<char>::empty(),
    {
        RecoveryEntry {
            id: String::new(),
            batch_id: String::new(),
            original_path: String::new(),
            recovery_path: String::new(),
            size: 0,
            deleted_at_ms: 0,
            expires_at_ms: 0,
            category_id: String::new(),
            drive: String::new(),
        }
    }
}

impl RecoveryEntry {
    /// A field-by-field copy.
    pub fn copy(&self) -> (r: RecoveryEntry)
        ensures
            r == *self,
    {
        RecoveryEntry {
            id: self.id.clone(),
            batch_id: self.batch_id.clone(),
            original_path: self.original_path.clone(),
            recovery_path: self.recovery_path.clone(),
            size: self.size,
            deleted_at_ms: self.deleted_at_ms,
            expires_at_ms: self.expires_at_ms,
            category_id: self.category_id.clone(),
            drive: self.drive.clone(),
        }
    }
}

/// The index of one recovery area.
pub struct RecoveryIndex {
    pub entries: Vec<RecoveryEntry>,
}

/// The index file of a recovery area root.
pub fn index_path(root: &str) -> (r: String)
    ensures
        r@ == crate::category::join_spec(root@, "index.json"@),
{
    crate::category::join_path(root, INDEX_FILE)
}

/// The entries of `s` that satisfy `keep`, in order.
pub open spec fn filter_entries(s: Seq<RecoveryEntry>, keep: spec_fn(RecoveryEntry) -> bool) -> Seq<RecoveryEntry>
    decreases s.len(),
{
    if s.len() == 0 {
        Seq::empty()
    } else {
        let rest = filter_entries(s.drop_last(), keep);
        if keep(s.last()) { rest.push(s.last()) } else { rest }
    }
}

/// Not yet expired at `now`.
pub open spec fn unexpired(now: u64) -> spec_fn(RecoveryEntry) -> bool {
    |e: RecoveryEntry| e.expires_at_ms > now
}

/// Expired at `now`.
pub open spec fn expired_at(now: u64) -> spec_fn(RecoveryEntry) -> bool {
    |e: RecoveryEntry| !(e.expires_at_ms > now)
}

/// Splits entries into those kept (expiry after `now`) and those expired, each in
/// their original order.
pub fn split_expired(entries: &Vec<RecoveryEntry>, now: u64) -> (r: (Vec<RecoveryEntry>, Vec<RecoveryEntry>))
    ensures
        r.0@ == filter_entries(entries@, unexpired(now)),
        r.1@ == filter_entries(entries@, expired_at(now)),
{
    let mut keep: Vec<RecoveryEntry> = Vec::new();
    let mut gone: Vec<RecoveryEntry> = Vec::new();
    let mut i: usize = 0;
    while i < entries.len()
        invariant
            i <= entries.len(),
            keep@ == filter_entries(entries@.take(i as int), unexpired(now)),
            gone@ == filter_entries(entries@.take(i as int), expired_at(now)),
        decreases entries.len() - i,
    {
        let e = entries[i].copy();
        proof {
            assert(entries@.take(i + 1).drop_last() =~= entries@.take(i as int));
            assert(entries@.take(i + 1).last() == entries@[i as int]);
        }
        if e.expires_at_ms > now {
            keep.push(e);
        } else {
            gone.push(e);
        }
        i = i + 1;
    }
    assert(entries@.take(entries.len() as int) =~= entries@);
    (keep, gone)
}

/// `id` is one of `ids`.
pub open spec fn id_listed(ids: Seq<String>, id: Seq<char>) -> bool {
    exists|k: int| 0 <= k < ids.len() && #[trigger] ids[k]@ == id
}

/// Whether an id is among the listed ones.
pub fn id_listed_exec(ids: &[String], id: &String) -> (b: bool)
    ensures
        b == id_listed(ids@, id@),
{
    let mut k: usize = 0;
    while k < ids.len()
        invariant
            k <= ids.len(),
            forall|j: int| 0 <= j < k ==> #[trigger] ids@[j]@ != id@,
        decreases ids.len() - k,
    {
        if ids[k] == *id {
            return true;
        }
        k = k + 1;
    }
    false
}

/// The entry's id is listed.
pub open spec fn listed_by(ids: Seq<String>) -> spec_fn(RecoveryEntry) -> bool {
    |e: RecoveryEntry| id_listed(ids, e.id@)
}

/// The entry's id is not listed.
pub open spec fn not_listed_by(ids: Seq<String>) -> spec_fn(RecoveryEntry) -> bool {
    |e: RecoveryEntry| !id_listed(ids, e.id@)
}

/// Permanent removal from one index: the entries whose id is listed are
/// removed (and returned, for their files to be deleted); the others stay in order.
pub fn purge(index: &RecoveryIndex, entry_ids: &[String]) -> (r: (RecoveryIndex, Vec<RecoveryEntry>))
    ensures
        r.0.entries@ == filter_entries(index.entries@, not_listed_by(entry_ids@)),
        r.1@ == filter_entries(index.entries@, listed_by(entry_ids@)),
{
    let entries = &index.entries;
    let mut keep: Vec<RecoveryEntry> = Vec::new();
    let mut removed: Vec<RecoveryEntry> = Vec::new();
    let mut i: usize = 0;
    while i < entries.len()
        invariant
            i <= entries.len(),
            keep@ == filter_entries(entries@.take(i as int), not_listed_by(entry_ids@)),
            removed@ == filter_entries(entries@.take(i as int), listed_by(entry_ids@)),
        decreases entries.len() - i,
    {
        let e = entries[i].copy();
        proof {
            assert(entries@.take(i + 1).drop_last() =~= entries@.take(i as int));
            assert(entries@.take(i + 1).last() == entries@[i as int]);
        }
        if id_listed_exec(entry_ids, &e.id) {
            removed.push(e);
        } else {
            keep.push(e);
        }
        i = i + 1;
    }
    assert(entries@.take(entries.len() as int) =~= entries@);
    (RecoveryIndex { entries: keep }, removed)
}

/// The ids of all entries of all indexes, index by index: what "empty the
/// recovery areas" hands to `purge`.
pub fn purge_all(indexes: &Vec<RecoveryIndex>) -> (ids: Vec<String>)
    ensures
        ids.len() == all_entries(indexes@).len(),
        forall|k: int| 0 <= k < ids.len() ==> #[trigger] ids@[k]@ == all_entries(indexes@)[k].id@,
{
    let all = concat_entries(indexes);
    let mut ids: Vec<String> = Vec::new();
    let mut i: usize = 0;
    while i < all.len()
        invariant
            i <= all.len(),
            all@ == all_entries(indexes@),
            ids.len() == i,
            forall|k: int| 0 <= k < i ==> #[trigger] ids@[k]@ == all@[k].id@,
        decreases all.len() - i,
    {
        ids.push(all[i].id.clone());
        i = i + 1;
    }
    ids
}

/// The entries of all indexes, index after index.
pub open spec fn all_entries(indexes: Seq<RecoveryIndex>) -> Seq<RecoveryEntry>
    decreases indexes.len(),
{
    if indexes.len() == 0 { Seq::empty() } else { all_entries(indexes.drop_last()) + indexes.last().entries@ }
}

fn concat_entries(indexes: &Vec<RecoveryIndex>) -> (r: Vec<RecoveryEntry>)
    ensures
        r@ == all_entries(indexes@),
{
    let mut r: Vec<RecoveryEntry> = Vec::new();
    let mut i: usize = 0;
    while i < indexes.len()
        invariant
            i <= indexes.len(),
            r@ == all_entries(indexes@.take(i as int)),
        decreases indexes.len() - i,
    {
        let es = &indexes[i].entries;
        let ghost before = r@;
        let mut j: usize = 0;
        while j < es.len()
            invariant
                j <= es.len(),
                r@ == before + es@.take(j as int),
            decreases es.len() - j,
        {
            r.push(es[j].copy());
            assert(es@.take(j + 1) =~= es@.take(j as int).push(es@[j as int]));
            assert(r@ =~= before + es@.take(j + 1));
            j = j + 1;
        }
        proof {
            assert(es@.take(es.len() as int) =~= es@);
            assert(indexes@.take(i + 1).drop_last() =~= indexes@.take(i as int));
            assert(indexes@.take(i + 1).last() == indexes@[i as int]);
        }
        i = i + 1;
    }
    assert(indexes@.take(indexes.len() as int) =~= indexes@);
    r
}

/// Sum of the sizes of entries.
pub open spec fn size_sum(es: Seq<RecoveryEntry>) -> int
    decreases es.len(),
{
    if es.len() == 0 { 0 } else { size_sum(es.drop_last()) + es.last().size }
}

/// Total bytes held in the recovery areas whose indexes are given.
pub fn total_size(indexes: &Vec<RecoveryIndex>) -> (t: u64)
    requires
        size_sum(all_entries(indexes@)) <= u64::MAX,
    ensures
        t == size_sum(all_entries(indexes@)),
{
    let all = concat_entries(indexes);
    let mut t: u64 = 0;
    let mut i: usize = 0;
    while i < all.len()
        invariant
            i <= all.len(),
            size_sum(all@) <= u64::MAX,
            t == size_sum(all@.take(i as int)),
        decreases all.len() - i,
    {
        proof {
            assert(all@.take(i + 1).drop_last() =~= all@.take(i as int));
            lemma_size_sum_prefix(all@, i + 1);
        }
        t = t + all[i].size;
        i = i + 1;
    }
    assert(all@.take(all.len() as int) =~= all@);
    t
}

proof fn lemma_size_sum_prefix(es: Seq<RecoveryEntry>, k: int)
    requires
        0 <= k <= es.len(),
    ensures
        size_sum(es.take(k)) <= size_sum(es),
    decreases es.len(),
{
    if k < es.len() {
        assert(es.drop_last().take(k) =~= es.take(k));
        lemma_size_sum_prefix(es.drop_last(), k);
    } else {
        assert(es.take(k) =~= es);
    }
}

/// All entries of all recovery areas, newest deletion first (ties keep their order).
pub fn list_all(indexes: &Vec<RecoveryIndex>) -> (r: Vec<RecoveryEntry>)
    ensures
        is_stable_desc_sort(all_entries(indexes@), all_entries(indexes@).map_values(|e: RecoveryEntry| e.deleted_at_ms), r@),
{
    let all = concat_entries(indexes);
    let mut keys: Vec<u64> = Vec::new();
    let mut i: usize = 0;
    while i < all.len()
        invariant
            i <= all.len(),
            keys@ == all@.take(i as int).map_values(|e: RecoveryEntry| e.deleted_at_ms),
        decreases all.len() - i,
    {
        keys.push(all[i].deleted_at_ms);
        assert(all@.take(i + 1) =~= all@.take(i as int).push(all@[i as int]));
        assert(keys@ =~= all@.take(i + 1).map_values(|e: RecoveryEntry| e.deleted_at_ms));
        i = i + 1;
    }
    assert(all@.take(all.len() as int) =~= all@);
    let order = desc_order(&keys);
    let mut out: Vec<RecoveryEntry> = Vec::new();
    let mut j: usize = 0;
    while j < order.len()
        invariant
            j <= order.len(),
            order.len() == keys.len() == all.len(),
            is_desc_order(keys@, order@),
            out.len() == j,
            forall|q: int| 0 <= q < j ==> #[trigger] out@[q] == all@[order@[q] as int],
        decreases order.len() - j,
    {
        let o = order[j];
        out.push(all[o].copy());
        j = j + 1;
    }
    assert(is_desc_order(keys@, order@) && out@.len() == order@.len()
        && forall|q: int| 0 <= q < out@.len() ==> #[trigger] out@[q] == all@[order@[q] as int]);
    out
}

/// The directory part of a path: everything before its last separator (after
/// dropping trailing separators), keeping the root separator of `X:\` and `\`;
/// `None` for an empty path, a bare root or drive, and `Some("")` for a single
/// relative name.
pub open spec fn parent_spec(p: Seq<char>) -> Option<Seq<char>> {
    let t = strip_trailing_seps(p);
    let is_root = (t.len() == 0 && p.len() > 0) || (t.len() == 2 && is_drive_absolute(p) && t == p.take(2));
    if t.len() == 0 || is_root || (t.len() == 2 && t[1] == ':') {
        None
    } else {
        match last_sep(t) {
            None => Some(Seq::empty()),
            Some(i) => {
                let head = strip_trailing_seps(t.take(i));
                if head.len() == 0 {
                    Some(t.take(1))
                } else if head.len() == 2 && head[1] == ':' {
                    Some(t.take(3))
                } else {
                    Some(head)
                }
            },
        }
    }
}

/// `s` without trailing `\` and `/`.
pub open spec fn strip_trailing_seps(s: Seq<char>) -> Seq<char>
    decreases s.len(),
{
    if s.len() > 0 && is_sep(s.last()) { strip_trailing_seps(s.drop_last()) } else { s }
}

/// Position of the last separator.
pub open spec fn last_sep(s: Seq<char>) -> Option<int>
    decreases s.len(),
{
    if s.len() == 0 {
        None
    } else if is_sep(s.last()) {
        Some(s.len() - 1)
    } else {
        last_sep(s.drop_last())
    }
}

/// The last component: what follows the last separator (after dropping trailing separators).
pub open spec fn file_name_spec(p: Seq<char>) -> Seq<char> {
    let t = strip_trailing_seps(p);
    match last_sep(t) {
        None => t,
        Some(i) => t.skip(i + 1),
    }
}

fn strip_trailing_seps_exec(s: &[char]) -> (r: Vec<char>)
    ensures
        r@ == strip_trailing_seps(s@),
        r@.len() <= s@.len(),
        r@ == s@.take(r@.len() as int),
{
    let mut b = s.len();
    assert(s@.take(b as int) =~= s@);
    while b > 0 && (s[b - 1] == '\\' || s[b - 1] == '/')
        invariant
            b <= s.len(),
            strip_trailing_seps(s@.take(b as int)) == strip_trailing_seps(s@),
        decreases b,
    {
        assert(s@.take(b as int).drop_last() =~= s@.take(b - 1));
        b = b - 1;
    }
    let r = slice_of(s, 0, b);
    assert(r@ =~= s@.take(b as int));
    r
}

fn last_sep_exec(s: &[char]) -> (r: Option<usize>)
    ensures
        match r {
            Some(i) => last_sep(s@) == Some(i as int) && i < s.len(),
            None => last_sep(s@) is None,
        },
{
    let mut b = s.len();
    assert(s@.take(b as int) =~= s@);
    while b > 0 && !(s[b - 1] == '\\' || s[b - 1] == '/')
        invariant
            b <= s.len(),
            last_sep(s@.take(b as int)) == last_sep(s@),
        decreases b,
    {
        assert(s@.take(b as int).drop_last() =~= s@.take(b - 1));
        b = b - 1;
    }
    if b == 0 {
        assert(s@.take(0) =~= Seq::<char>::empty());
        None
    } else {
        Some(b - 1)
    }
}

/// The parent directory of a path (see `parent_spec`).
pub fn parent_of(p: &[char]) -> (r: Option<Vec<char>>)
    ensures
        match r {
            Some(v) => parent_spec(p@) == Some(v@),
            None => parent_spec(p@) is None,
        },
{
    let t = strip_trailing_seps_exec(p);
    let drive_abs = p.len() >= 3 && (('a' <= p[0] && p[0] <= 'z') || ('A' <= p[0] && p[0] <= 'Z')) && p[1] == ':' && (p[2] == '\\' || p[2] == '/');
    let is_root = (t.len() == 0 && p.len() > 0) || (t.len() == 2 && drive_abs);
    proof {
        if t.len() == 2 && drive_abs {
            assert(t@ =~= p@.take(2));
        }
    }
    if t.len() == 0 || is_root || (t.len() == 2 && t[1] == ':') {
        return None;
    }
    match last_sep_exec(&t) {
        None => Some(Vec::new()),
        Some(i) => {
            let head0 = slice_of(&t, 0, i);
            assert(head0@ =~= t@.take(i as int));
            let head = strip_trailing_seps_exec(&head0);
            if head.len() == 0 {
                let v = slice_of(&t, 0, 1);
                assert(v@ =~= t@.take(1));
                Some(v)
            } else if head.len() == 2 && head[1] == ':' {
                assert(t@.len() >= 3) by {
                    assert(head@.len() <= i);
                }
                let v = slice_of(&t, 0, 3);
                assert(v@ =~= t@.take(3));
                Some(v)
            } else {
                Some(head)
            }
        },
    }
}

/// The last component of a path (see `file_name_spec`).
pub fn file_name_of(p: &[char]) -> (r: Vec<char>)
    ensures
        r@ == file_name_spec(p@),
{
    let t = strip_trailing_seps_exec(p);
    match last_sep_exec(&t) {
        None => t,
        Some(i) => {
            let v = slice_of(&t, i + 1, t.len());
            assert(v@ =~= t@.skip(i + 1));
            v
        },
    }
}

/// The batch directory of an entry, normalised; `None` when its path has no parent.
pub open spec fn batch_dir_spec(recovery_path: Seq<char>) -> Option<Seq<char>> {
    match parent_spec(recovery_path) {
        Some(d) => Some(normalize_path_spec(d)),
        None => None,
    }
}

/// Some entry among the first `n` lives in batch directory `d`.
pub open spec fn has_batch_dir(entries: Seq<RecoveryEntry>, n: int, d: Seq<char>) -> bool {
    exists|i: int| 0 <= i < n && #[trigger] batch_dir_spec(entries[i].recovery_path@) == Some(d)
}

/// The normalised batch directories of the entries (one per entry that has one).
pub fn known_batch_dirs(entries: &Vec<RecoveryEntry>) -> (r: Vec<String>)
    ensures
        forall|d: Seq<char>| #[trigger] listed_in(r@, d) <==> has_batch_dir(entries@, entries@.len() as int, d),
{
    let mut r: Vec<String> = Vec::new();
    let mut i: usize = 0;
    while i < entries.len()
        invariant
            i <= entries.len(),
            forall|d: Seq<char>| #[trigger] listed_in(r@, d) <==> has_batch_dir(entries@, i as int, d),
        decreases entries.len() - i,
    {
        let p = str_chars(entries[i].recovery_path.as_str());
        let ghost before = r@;
        match parent_of(&p) {
            Some(d) => {
                let n = crate::util::normalize_chars(&d);
                r.push(string_from_chars(&n));
                proof {
                    assert forall|dd: Seq<char>| #[trigger] listed_in(r@, dd) <==> has_batch_dir(entries@, i + 1, dd) by {
                        if listed_in(r@, dd) {
                            let k = choose|k: int| 0 <= k < r.len() && #[trigger] r@[k]@ == dd;
                            if k < before.len() {
                                assert(listed_in(before, dd));
                                let j = choose|j: int| 0 <= j < i && #[trigger] batch_dir_spec(entries@[j].recovery_path@) == Some(dd);
                                assert(batch_dir_spec(entries@[j].recovery_path@) == Some(dd));
                            } else {
                                assert(batch_dir_spec(entries@[i as int].recovery_path@) == Some(dd));
                            }
                        }
                        if has_batch_dir(entries@, i + 1, dd) {
                            let j = choose|j: int| 0 <= j < i + 1 && #[trigger] batch_dir_spec(entries@[j].recovery_path@) == Some(dd);
                            if j < i {
                                assert(has_batch_dir(entries@, i as int, dd));
                                assert(listed_in(before, dd));
                                let k = choose|k: int| 0 <= k < before.len() && #[trigger] before[k]@ == dd;
                                assert(r@[k] == before[k]);
                            } else {
                                assert(r@[r.len() - 1]@ == dd);
                            }
                        }
                    }
                }
            },
            None => {
                proof {
                    assert forall|dd: Seq<char>| #[trigger] listed_in(r@, dd) <==> has_batch_dir(entries@, i + 1, dd) by {
                        if has_batch_dir(entries@, i + 1, dd) {
                            let j = choose|j: int| 0 <= j < i + 1 && #[trigger] batch_dir_spec(entries@[j].recovery_path@) == Some(dd);
                            assert(j < i);
                            assert(has_batch_dir(entries@, i as int, dd));
                        }
                        if listed_in(r@, dd) {
                            assert(has_batch_dir(entries@, i as int, dd));
                            let j = choose|j: int| 0 <= j < i && #[trigger] batch_dir_spec(entries@[j].recovery_path@) == Some(dd);
                            assert(batch_dir_spec(entries@[j].recovery_path@) == Some(dd));
                        }
                    }
                }
            },
        }
        i = i + 1;
    }
    r
}

/// A batch directory on disk (normalised) that no index entry refers to.
pub open spec fn is_orphan_spec(dir: Seq<char>, known: Seq<String>) -> bool {
    dir.len() > 0 && !listed_in(known, dir)
}

/// Whether a batch directory found on disk is an orphan (non-empty normalised
/// path not among the known batch directories).
pub fn is_orphan_batch(dir: &str, known: &Vec<String>) -> (b: bool)
    ensures
        b == is_orphan_spec(normalize_path_spec(dir@), known@),
{
    let n = normalize_path(dir);
    if n.as_str().is_empty() {
        return false;
    }
    let mut k: usize = 0;
    while k < known.len()
        invariant
            k <= known.len(),
            n@ == normalize_path_spec(dir@),
            n@.len() > 0,
            forall|j: int| 0 <= j < k ==> #[trigger] known@[j]@ != n@,
        decreases known.len() - k,
    {
        if known[k] == n {
            return false;
        }
        k = k + 1;
    }
    true
}

/// Original path recorded for a self-healed entry.
pub open spec fn healed_original() -> Seq<char> {
    "未知（索引缺失，已自愈登记）"@
}

/// `e` is the entry registered for a file found in an orphan batch: id
/// `heal-<n>` where `n = stamp ^ seq`, batch named after the file's directory,
/// drive letter of the path (upper case, or empty), category `unknown`, original
/// path unknown, and an expiry `retention_ms` after `now`.
pub open spec fn healed_spec(e: RecoveryEntry, path: Seq<char>, size: u64, now: u64, retention_ms: u64, stamp: u64, seq: u64) -> bool {
    &&& e.id@ == "heal-"@ + dec_padded((stamp ^ seq) as nat, 0)
    &&& e.batch_id@ == (match parent_spec(path) {
            Some(d) => file_name_spec(d),
            None => Seq::<char>::empty(),
        })
    &&& e.original_path@ == healed_original()
    &&& e.recovery_path@ == path
    &&& e.size == size
    &&& e.deleted_at_ms == now
    &&& e.expires_at_ms == now + retention_ms
    &&& e.category_id@ == "unknown"@
    &&& e.drive@ == (if is_drive_absolute(path) { seq![ascii_upper(path[0])] } else { Seq::<char>::empty() })
}

/// The entry registered for a file found in an orphan batch (see `healed_spec`).
pub fn healed_entry(path: &str, size: u64, now: u64, retention_ms: u64, stamp: u64, seq: u64) -> (e: RecoveryEntry)
    requires
        now + retention_ms <= u64::MAX,
    ensures
        healed_spec(e, path@, size, now, retention_ms, stamp, seq),
{
    let p = str_chars(path);
    let batch = match parent_of(&p) {
        Some(d) => file_name_of(&d),
        None => Vec::new(),
    };
    let drive = match drive_letter_of(path) {
        Some(d) => d,
        None => String::new(),
    };
    let mut id = str_chars("heal-");
    push_dec(&mut id, stamp ^ seq, 0);
    RecoveryEntry {
        id: string_from_chars(&id),
        batch_id: string_from_chars(&batch),
        original_path: "未知（索引缺失，已自愈登记）".to_owned(),
        recovery_path: path.to_owned(),
        size,
        deleted_at_ms: now,
        expires_at_ms: now + retention_ms,
        category_id: "unknown".to_owned(),
        drive,
    }
}

/// Milliseconds in a retention period of `days` days.
pub fn retention_ms(days: u32) -> (r: u64)
    ensures
        r == days * 86_400_000,
{
    days as u64 * 86_400_000
}

/// The recovery-area roots to try, in order, for a file: `X:\$DiskClear\Recovery`
/// on the file's drive, then `DiskClear\Recovery` under `local_app_data` when that
/// is set; `None` for a path without a drive (not a local disk path).
pub fn recovery_root_candidates(for_file: &str, local_app_data: &str) -> (r: Option<Vec<String>>)
    ensures
        match r {
            None => drive_root_spec(for_file@) is None,
            Some(v) => drive_root_spec(for_file@) is Some && v.len() == (if local_app_data@.len() == 0 { 1int } else { 2int })
                && v@[0]@ == join_spec(drive_root_spec(for_file@)->0, DIR_NAME@)
                && (local_app_data@.len() > 0 ==> v@[1]@ == join_spec(local_app_data@, FALLBACK@)),
        },
{
    match drive_root_of(for_file) {
        None => None,
        Some(d) => {
            let mut v: Vec<String> = Vec::new();
            v.push(join_path(d.as_str(), DIR_NAME));
            if !local_app_data.is_empty() {
                v.push(join_path(local_app_data, FALLBACK));
            }
            Some(v)
        },
    }
}

/// Where `Path::starts_with` holds: `base`'s components are a prefix of `path`'s.
pub uninterp spec fn path_has_prefix(path: Seq<char>, base: Seq<char>) -> bool;

/// `std::path::Path::starts_with`, compared component by component. Its result
/// is named by `path_has_prefix` and depends on the two paths alone.
#[verifier::external_body]
fn path_starts_with(path: &str, base: &str) -> (b: bool)
    ensures
        b == path_has_prefix(path@, base@),
{
    std::path::Path::new(path).starts_with(base)
}

/// Index of the first root that `path` lies under.
pub open spec fn first_root_of(path: Seq<char>, roots: Seq<String>) -> Option<int> {
    if exists|k: int| 0 <= k < roots.len() && #[trigger] path_has_prefix(path, roots[k]@) {
        Some(choose|k: int| 0 <= k < roots.len() && path_has_prefix(path, #[trigger] roots[k]@)
            && forall|j: int| 0 <= j < k ==> !#[trigger] path_has_prefix(path, roots[j]@))
    } else {
        None
    }
}

/// The recovery-area root an entry's index lives in: the first existing root that
/// its recovery path lies under; else the area on its drive; else the path itself.
pub open spec fn root_for_spec(recovery_path: Seq<char>, roots: Seq<String>) -> Seq<char> {
    match first_root_of(recovery_path, roots) {
        Some(k) => roots[k]@,
        None => match drive_root_spec(recovery_path) {
            Some(d) => join_spec(d, DIR_NAME@),
            None => recovery_path,
        },
    }
}

/// The recovery-area root whose index records an entry (see `root_for_spec`).
pub fn root_for_entry(recovery_path: &str, roots: &Vec<String>) -> (r: String)
    ensures
        r@ == root_for_spec(recovery_path@, roots@),
{
    let mut k: usize = 0;
    while k < roots.len()
        invariant
            k <= roots.len(),
            forall|j: int| 0 <= j < k ==> !#[trigger] path_has_prefix(recovery_path@, roots@[j]@),
        decreases roots.len() - k,
    {
        if path_starts_with(recovery_path, roots[k].as_str()) {
            proof {
                let w = choose|q: int| 0 <= q < roots.len() && path_has_prefix(recovery_path@, #[trigger] roots@[q]@)
                    && forall|j: int| 0 <= j < q ==> !#[trigger] path_has_prefix(recovery_path@, roots@[j]@);
                assert(0 <= k < roots.len() && path_has_prefix(recovery_path@, roots@[k as int]@)
                    && forall|j: int| 0 <= j < k ==> !#[trigger] path_has_prefix(recovery_path@, roots@[j]@));
                if w < k {
                    assert(!path_has_prefix(recovery_path@, roots@[w]@));
                } else if w > k {
                    assert(!path_has_prefix(recovery_path@, roots@[k as int]@));
                }
            }
            return roots[k].clone();
        }
        k = k + 1;
    }
    match drive_root_of(recovery_path) {
        Some(d) => join_path(d.as_str(), DIR_NAME),
        None => recovery_path.to_owned(),
    }
}

/// `filter_entries` of a sequence with one more entry.
pub proof fn lemma_filter_push(s: Seq<RecoveryEntry>, keep: spec_fn(RecoveryEntry) -> bool, e: RecoveryEntry)
    ensures
        filter_entries(s.push(e), keep) == (if keep(e) { filter_entries(s, keep).push(e) } else { filter_entries(s, keep) }),
{
    assert(s.push(e).drop_last() =~= s);
}

/// Nothing is kept when no entry satisfies the predicate.
pub proof fn lemma_filter_none(s: Seq<RecoveryEntry>, keep: spec_fn(RecoveryEntry) -> bool)
    requires
        forall|k: int| 0 <= k < s.len() ==> !keep(#[trigger] s[k]),
    ensures
        filter_entries(s, keep) == Seq::<RecoveryEntry>::empty(),
    decreases s.len(),
{
    if s.len() > 0 {
        assert forall|k: int| 0 <= k < s.drop_last().len() implies !keep(#[trigger] s.drop_last()[k]) by {
            assert(s.drop_last()[k] == s[k]);
        }
        lemma_filter_none(s.drop_last(), keep);
        assert(!keep(s[s.len() - 1]));
    }
}

/// Every kept entry satisfies the predicate and occurs in the input.
pub proof fn lemma_filter_members(s: Seq<RecoveryEntry>, keep: spec_fn(RecoveryEntry) -> bool)
    ensures
        filter_entries(s, keep).len() <= s.len(),
        forall|k: int| 0 <= k < filter_entries(s, keep).len() ==> keep(#[trigger] filter_entries(s, keep)[k])
            && s.contains(filter_entries(s, keep)[k]),
    decreases s.len(),
{
    if s.len() > 0 {
        lemma_filter_members(s.drop_last(), keep);
        let f = filter_entries(s, keep);
        let f0 = filter_entries(s.drop_last(), keep);
        assert forall|k: int| 0 <= k < f.len() implies keep(#[trigger] f[k]) && s.contains(f[k]) by {
            if k < f0.len() {
                assert(f[k] == f0[k]);
                assert(keep(f0[k]) && s.drop_last().contains(f0[k]));
                let j = choose|j: int| 0 <= j < s.drop_last().len() && s.drop_last()[j] == f0[k];
                assert(s[j] == f0[k]);
            } else {
                assert(f[k] == s.last());
                assert(s[s.len() - 1] == s.last());
            }
        }
    }
}

/// Every entry that satisfies the predicate is kept.
pub proof fn lemma_filter_complete(s: Seq<RecoveryEntry>, keep: spec_fn(RecoveryEntry) -> bool, i: int)
    requires
        0 <= i < s.len(),
        keep(s[i]),
    ensures
        filter_entries(s, keep).contains(s[i]),
    decreases s.len(),
{
    let f = filter_entries(s, keep);
    if i == s.len() - 1 {
        assert(f[f.len() - 1] == s[i]);
    } else {
        assert(s.drop_last()[i] == s[i]);
        lemma_filter_complete(s.drop_last(), keep, i);
        let f0 = filter_entries(s.drop_last(), keep);
        let j = choose|j: int| 0 <= j < f0.len() && f0[j] == s[i];
        assert(f[j] == f0[j]);
    }
}

/// A predicate and its negation split the input: the two parts' lengths add up.
pub proof fn lemma_filter_split_len(s: Seq<RecoveryEntry>, keep: spec_fn(RecoveryEntry) -> bool, drop: spec_fn(RecoveryEntry) -> bool)
    requires
        forall|e: RecoveryEntry| #[trigger] drop(e) == !keep(e),
    ensures
        filter_entries(s, keep).len() + filter_entries(s, drop).len() == s.len(),
    decreases s.len(),
{
    if s.len() > 0 {
        lemma_filter_split_len(s.drop_last(), keep, drop);
        assert(drop(s.last()) == !keep(s.last()));
    }
}

/// Filtering twice by the same predicate changes nothing.
pub proof fn lemma_filter_idempotent(s: Seq<RecoveryEntry>, keep: spec_fn(RecoveryEntry) -> bool)
    ensures
        filter_entries(filter_entries(s, keep), keep) == filter_entries(s, keep),
    decreases s.len(),
{
    if s.len() > 0 {
        lemma_filter_idempotent(s.drop_last(), keep);
        let f0 = filter_entries(s.drop_last(), keep);
        if keep(s.last()) {
            lemma_filter_push(f0, keep, s.last());
        }
    }
}

/// Permanent removal partitions an index: every entry is either kept (its id not
/// listed) or handed back for deletion (its id listed), none is lost or
/// duplicated, and removing the same ids again removes nothing more.
pub proof fn purge_partitions_index(entries: Seq<RecoveryEntry>, ids: Seq<String>)
    ensures
        filter_entries(entries, not_listed_by(ids)).len() + filter_entries(entries, listed_by(ids)).len() == entries.len(),
        forall|k: int| 0 <= k < filter_entries(entries, not_listed_by(ids)).len()
            ==> !id_listed(ids, (#[trigger] filter_entries(entries, not_listed_by(ids))[k]).id@),
        forall|k: int| 0 <= k < filter_entries(entries, listed_by(ids)).len()
            ==> id_listed(ids, (#[trigger] filter_entries(entries, listed_by(ids))[k]).id@),
        forall|i: int| 0 <= i < entries.len() && id_listed(ids, (#[trigger] entries[i]).id@)
            ==> filter_entries(entries, listed_by(ids)).contains(entries[i]),
        forall|i: int| 0 <= i < entries.len() && !id_listed(ids, (#[trigger] entries[i]).id@)
            ==> filter_entries(entries, not_listed_by(ids)).contains(entries[i]),
        filter_entries(filter_entries(entries, not_listed_by(ids)), listed_by(ids)) == Seq::<RecoveryEntry>::empty(),
{
    let kept = filter_entries(entries, not_listed_by(ids));
    lemma_filter_split_len(entries, not_listed_by(ids), listed_by(ids));
    lemma_filter_members(entries, not_listed_by(ids));
    lemma_filter_members(entries, listed_by(ids));
    assert forall|i: int| 0 <= i < entries.len() && id_listed(ids, (#[trigger] entries[i]).id@)
        implies filter_entries(entries, listed_by(ids)).contains(entries[i]) by {
        lemma_filter_complete(entries, listed_by(ids), i);
    }
    assert forall|i: int| 0 <= i < entries.len() && !id_listed(ids, (#[trigger] entries[i]).id@)
        implies filter_entries(entries, not_listed_by(ids)).contains(entries[i]) by {
        lemma_filter_complete(entries, not_listed_by(ids), i);
    }
    assert forall|k: int| 0 <= k < kept.len() implies !listed_by(ids)(#[trigger] kept[k]) by {
        assert(not_listed_by(ids)(kept[k]));
    }
    lemma_filter_none(kept, listed_by(ids));
}

/// How many of the purged entries were actually deleted: `gone[k]` says whether
/// the file of the `k`-th removed entry no longer exists after its deletion.
pub fn purged_count(gone: &Vec<bool>) -> (n: usize)
    ensures
        n == count_true(gone@),
{
    let mut n: usize = 0;
    let mut k: usize = 0;
    while k < gone.len()
        invariant
            k <= gone.len(),
            n == count_true(gone@.take(k as int)),
            n <= k,
        decreases gone.len() - k,
    {
        assert(gone@.take(k + 1).drop_last() =~= gone@.take(k as int));
        if gone[k] {
            n = n + 1;
        }
        k = k + 1;
    }
    assert(gone@.take(gone.len() as int) =~= gone@);
    n
}

/// Every entry of every index occurs among the entries of all indexes.
pub proof fn lemma_all_entries_has(indexes: Seq<RecoveryIndex>, i: int, j: int)
    requires
        0 <= i < indexes.len(),
        0 <= j < indexes[i].entries@.len(),
    ensures
        all_entries(indexes).contains(indexes[i].entries@[j]),
    decreases indexes.len(),
{
    let prev = all_entries(indexes.drop_last());
    if i == indexes.len() - 1 {
        assert(all_entries(indexes)[prev.len() + j] == indexes[i].entries@[j]);
    } else {
        assert(indexes.drop_last()[i] == indexes[i]);
        lemma_all_entries_has(indexes.drop_last(), i, j);
        let k = choose|k: int| 0 <= k < prev.len() && prev[k] == indexes[i].entries@[j];
        assert(all_entries(indexes)[k] == prev[k]);
    }
}

/// Indexes with no entries hold no entries together.
pub proof fn lemma_all_entries_empty(indexes: Seq<RecoveryIndex>)
    requires
        forall|i: int| 0 <= i < indexes.len() ==> (#[trigger] indexes[i]).entries@.len() == 0,
    ensures
        all_entries(indexes) == Seq::<RecoveryEntry>::empty(),
    decreases indexes.len(),
{
    if indexes.len() > 0 {
        assert forall|i: int| 0 <= i < indexes.drop_last().len() implies (#[trigger] indexes.drop_last()[i]).entries@.len() == 0 by {
            assert(indexes.drop_last()[i] == indexes[i]);
        }
        lemma_all_entries_empty(indexes.drop_last());
        assert(indexes[indexes.len() - 1].entries@.len() == 0);
        assert(all_entries(indexes) =~= Seq::<RecoveryEntry>::empty());
    }
}

/// A filter that every entry passes keeps the whole sequence.
pub proof fn lemma_filter_all(s: Seq<RecoveryEntry>, keep: spec_fn(RecoveryEntry) -> bool)
    requires
        forall|k: int| 0 <= k < s.len() ==> keep(#[trigger] s[k]),
    ensures
        filter_entries(s, keep) == s,
    decreases s.len(),
{
    if s.len() > 0 {
        assert forall|k: int| 0 <= k < s.drop_last().len() implies keep(#[trigger] s.drop_last()[k]) by {
            assert(s.drop_last()[k] == s[k]);
        }
        lemma_filter_all(s.drop_last(), keep);
        assert(keep(s[s.len() - 1]));
        assert(filter_entries(s, keep) =~= s);
    }
}

/// Emptying the recovery areas: purging the ids that `purge_all` lists removes
/// every entry of every index and keeps none, so the removed entries number as
/// many as were listed; and once each index holds what purge kept, nothing is
/// listed any more and the areas hold zero bytes.
pub proof fn purge_all_empties_every_index(indexes: Seq<RecoveryIndex>, ids: Seq<String>, after: Seq<RecoveryIndex>)
    requires
        ids.len() == all_entries(indexes).len(),
        forall|k: int| 0 <= k < ids.len() ==> #[trigger] ids[k]@ == all_entries(indexes)[k].id@,
        after.len() == indexes.len(),
        forall|i: int| 0 <= i < after.len() ==>
            (#[trigger] after[i]).entries@ == filter_entries(indexes[i].entries@, not_listed_by(ids)),
    ensures
        forall|i: int| 0 <= i < indexes.len() ==>
            filter_entries((#[trigger] indexes[i]).entries@, listed_by(ids)) == indexes[i].entries@,
        forall|i: int| 0 <= i < indexes.len() ==>
            filter_entries((#[trigger] indexes[i]).entries@, not_listed_by(ids)) == Seq::<RecoveryEntry>::empty(),
        all_entries(after) == Seq::<RecoveryEntry>::empty(),
        size_sum(all_entries(after)) == 0,
{
    let all = all_entries(indexes);
    assert forall|i: int| 0 <= i < indexes.len() implies
        filter_entries((#[trigger] indexes[i]).entries@, listed_by(ids)) == indexes[i].entries@
        && filter_entries(indexes[i].entries@, not_listed_by(ids)) == Seq::<RecoveryEntry>::empty() by {
        let es = indexes[i].entries@;
        assert forall|j: int| 0 <= j < es.len() implies listed_by(ids)(#[trigger] es[j]) by {
            lemma_all_entries_has(indexes, i, j);
            let k = choose|k: int| 0 <= k < all.len() && all[k] == es[j];
            assert(ids[k]@ == es[j].id@);
        }
        lemma_filter_all(es, listed_by(ids));
        assert forall|j: int| 0 <= j < es.len() implies !not_listed_by(ids)(#[trigger] es[j]) by {
            assert(listed_by(ids)(es[j]));
        }
        lemma_filter_none(es, not_listed_by(ids));
    }
    assert forall|i: int| 0 <= i < after.len() implies (#[trigger] after[i]).entries@.len() == 0 by {
        assert(filter_entries(indexes[i].entries@, not_listed_by(ids)) == Seq::<RecoveryEntry>::empty());
    }
    lemma_all_entries_empty(after);
}

/// A maintenance pass is not repeated by a second one at the same time: after
/// expired entries are dropped and the files of orphan batches registered, every
/// entry outlives that time (so nothing expires again), and the batch
/// directory of every entry, the newly registered ones included, is known, so
/// it is not taken for an orphan again whatever its spelling on disk.
pub proof fn maintenance_settles(keep: Seq<RecoveryEntry>, files: Seq<OrphanFile>, healed: Seq<RecoveryEntry>,
    now: u64, retention_ms: u64, stamp: u64, known: Seq<String>)
    requires
        forall|i: int| 0 <= i < keep.len() ==> unexpired(now)(#[trigger] keep[i]),
        retention_ms > 0,
        healed.len() == keep.len() + files.len(),
        healed.take(keep.len() as int) == keep,
        forall|j: int| 0 <= j < files.len() ==> healed_spec(#[trigger] healed[keep.len() + j], files[j].path@,
            files[j].size, now, retention_ms, stamp, (keep.len() + j) as u64),
        forall|d: Seq<char>| #[trigger] listed_in(known, d) <==> has_batch_dir(healed, healed.len() as int, d),
    ensures
        filter_entries(healed, unexpired(now)) == healed,
        filter_entries(healed, expired_at(now)) == Seq::<RecoveryEntry>::empty(),
        forall|i: int, on_disk: Seq<char>| #![trigger healed[i], normalize_path_spec(on_disk)] 0 <= i < healed.len() && parent_spec(healed[i].recovery_path@) is Some
            && normalize_path_spec(on_disk) == normalize_path_spec(parent_spec(healed[i].recovery_path@)->0)
            ==> !is_orphan_spec(normalize_path_spec(on_disk), known),
{
    assert forall|i: int| 0 <= i < healed.len() implies unexpired(now)(#[trigger] healed[i]) by {
        if i < keep.len() {
            assert(healed.take(keep.len() as int)[i] == healed[i]);
        } else {
            let j = i - keep.len();
            assert(healed_spec(healed[keep.len() + j], files[j].path@, files[j].size, now, retention_ms, stamp,
                (keep.len() + j) as u64));
        }
    }
    lemma_filter_all(healed, unexpired(now));
    assert forall|i: int| 0 <= i < healed.len() implies !expired_at(now)(#[trigger] healed[i]) by {
        assert(unexpired(now)(healed[i]));
    }
    lemma_filter_none(healed, expired_at(now));
    assert forall|i: int, on_disk: Seq<char>| #![trigger healed[i], normalize_path_spec(on_disk)] 0 <= i < healed.len() && parent_spec(healed[i].recovery_path@) is Some
        && normalize_path_spec(on_disk) == normalize_path_spec(parent_spec(healed[i].recovery_path@)->0)
        implies !is_orphan_spec(normalize_path_spec(on_disk), known) by {
        known_batch_is_not_orphan(healed, known, i, on_disk);
    }
}

/// Permanent removal goes by exact id: every removed entry's id equals one of
/// the given ids, every kept entry's id equals none of them, every entry whose
/// id equals a given id is removed and every other entry is kept, the kept
/// ones in their order. An id that merely begins like a listed one (`B-10`
/// beside `B-1`) is not removed.
pub proof fn purge_matches_ids_exactly(entries: Seq<RecoveryEntry>, ids: Seq<String>)
    ensures
        forall|k: int| 0 <= k < filter_entries(entries, listed_by(ids)).len() ==> exists|j: int| 0 <= j < ids.len()
            && ids[j]@ == (#[trigger] filter_entries(entries, listed_by(ids))[k]).id@,
        forall|k: int, j: int| 0 <= k < filter_entries(entries, not_listed_by(ids)).len() && 0 <= j < ids.len()
            ==> #[trigger] ids[j]@ != (#[trigger] filter_entries(entries, not_listed_by(ids))[k]).id@,
        forall|i: int, j: int| 0 <= i < entries.len() && 0 <= j < ids.len() && #[trigger] ids[j]@ == (#[trigger] entries[i]).id@
            ==> filter_entries(entries, listed_by(ids)).contains(entries[i]),
        forall|i: int| 0 <= i < entries.len() && (forall|j: int| 0 <= j < ids.len() ==> #[trigger] ids[j]@ != entries[i].id@)
            ==> filter_entries(entries, not_listed_by(ids)).contains(#[trigger] entries[i]),
{
    purge_partitions_index(entries, ids);
    let removed = filter_entries(entries, listed_by(ids));
    let kept = filter_entries(entries, not_listed_by(ids));
    assert forall|k: int| 0 <= k < removed.len() implies exists|j: int| 0 <= j < ids.len()
        && ids[j]@ == (#[trigger] removed[k]).id@ by {
        assert(id_listed(ids, removed[k].id@));
    }
    assert forall|k: int, j: int| 0 <= k < kept.len() && 0 <= j < ids.len()
        implies #[trigger] ids[j]@ != (#[trigger] kept[k]).id@ by {
        assert(!id_listed(ids, kept[k].id@));
    }
    assert forall|i: int, j: int| 0 <= i < entries.len() && 0 <= j < ids.len() && #[trigger] ids[j]@ == (#[trigger] entries[i]).id@
        implies removed.contains(entries[i]) by {
        assert(id_listed(ids, entries[i].id@));
    }
}

/// Expiry at `now` partitions an index: kept entries expire after `now`, removed
/// ones at or before it, none is lost; and a second pass at the same `now` keeps
/// everything the first one kept and removes nothing.
pub proof fn expiry_partitions_index(entries: Seq<RecoveryEntry>, now: u64)
    ensures
        filter_entries(entries, unexpired(now)).len() + filter_entries(entries, expired_at(now)).len() == entries.len(),
        forall|k: int| 0 <= k < filter_entries(entries, unexpired(now)).len()
            ==> (#[trigger] filter_entries(entries, unexpired(now))[k]).expires_at_ms > now,
        forall|k: int| 0 <= k < filter_entries(entries, expired_at(now)).len()
            ==> (#[trigger] filter_entries(entries, expired_at(now))[k]).expires_at_ms <= now,
        filter_entries(filter_entries(entries, unexpired(now)), unexpired(now)) == filter_entries(entries, unexpired(now)),
        filter_entries(filter_entries(entries, unexpired(now)), expired_at(now)) == Seq::<RecoveryEntry>::empty(),
{
    let kept = filter_entries(entries, unexpired(now));
    lemma_filter_split_len(entries, unexpired(now), expired_at(now));
    lemma_filter_members(entries, unexpired(now));
    lemma_filter_members(entries, expired_at(now));
    lemma_filter_idempotent(entries, unexpired(now));
    assert forall|k: int| 0 <= k < kept.len() implies !expired_at(now)(#[trigger] kept[k]) by {
        assert(unexpired(now)(kept[k]));
    }
    lemma_filter_none(kept, expired_at(now));
}

/// A batch directory that an index entry lives in is never taken for an orphan,
/// whatever the spelling (`\\?\` prefix, `/`) under which it is found on disk.
pub proof fn known_batch_is_not_orphan(entries: Seq<RecoveryEntry>, known: Seq<String>, i: int, on_disk: Seq<char>)
    requires
        forall|d: Seq<char>| #[trigger] listed_in(known, d) <==> has_batch_dir(entries, entries.len() as int, d),
        0 <= i < entries.len(),
        parent_spec(entries[i].recovery_path@) is Some,
        normalize_path_spec(on_disk) == normalize_path_spec(parent_spec(entries[i].recovery_path@)->0),
    ensures
        !is_orphan_spec(normalize_path_spec(on_disk), known),
{
    let d = normalize_path_spec(on_disk);
    assert(batch_dir_spec(entries[i].recovery_path@) == Some(d));
    assert(has_batch_dir(entries, entries.len() as int, d));
    assert(listed_in(known, d));
}

/// The entries gathered under one recovery-area root.
pub struct RootGroup {
    pub root: String,
    pub entries: Vec<RecoveryEntry>,
}

/// The entry's index lives under root `r`.
pub open spec fn in_root(roots: Seq<String>, r: Seq<char>) -> spec_fn(RecoveryEntry) -> bool {
    |e: RecoveryEntry| root_for_spec(e.recovery_path@, roots) == r
}

/// Some group is for root `r`.
pub open spec fn has_group(g: Seq<RootGroup>, r: Seq<char>) -> bool {
    exists|i: int| 0 <= i < g.len() && #[trigger] g[i].root@ == r
}

/// Routes new entries to the recovery-area root whose index they are inserted
/// into (`root_for_spec`): one group per root, in order of first appearance,
/// each holding its entries in input order; each group is then appended to its
/// root's index with `extend_index`.
pub fn insert_entries(entries: &Vec<RecoveryEntry>, roots: &Vec<String>) -> (g: Vec<RootGroup>)
    ensures
        forall|i: int, j: int| 0 <= i < j < g.len() ==> g@[i].root@ != g@[j].root@,
        forall|i: int| 0 <= i < g.len() ==> #[trigger] g@[i].entries@ == filter_entries(entries@, in_root(roots@, g@[i].root@)),
        forall|k: int| 0 <= k < entries.len() ==> has_group(g@, root_for_spec(#[trigger] entries@[k].recovery_path@, roots@)),
        forall|i: int| 0 <= i < g.len() ==> #[trigger] g@[i].entries@.len() > 0,
{
    let mut g: Vec<RootGroup> = Vec::new();
    let mut i: usize = 0;
    while i < entries.len()
        invariant
            i <= entries.len(),
            forall|a: int, b: int| 0 <= a < b < g.len() ==> g@[a].root@ != g@[b].root@,
            forall|a: int| 0 <= a < g.len() ==> #[trigger] g@[a].entries@ == filter_entries(entries@.take(i as int), in_root(roots@, g@[a].root@)),
            forall|k: int| 0 <= k < i ==> has_group(g@, root_for_spec(#[trigger] entries@[k].recovery_path@, roots@)),
            forall|a: int| 0 <= a < g.len() ==> #[trigger] g@[a].entries@.len() > 0,
        decreases entries.len() - i,
    {
        let e = entries[i].copy();
        let r = root_for_entry(e.recovery_path.as_str(), roots);
        let ghost old_g = g@;
        let ghost pre = entries@.take(i as int);
        proof {
            assert(entries@.take(i + 1) =~= pre.push(entries@[i as int]));
        }
        let mut a: usize = 0;
        while a < g.len()
            invariant
                a <= g.len(),
                forall|b: int| 0 <= b < a ==> #[trigger] g@[b].root@ != r@,
            ensures
                a <= g.len(),
                forall|b: int| 0 <= b < a ==> #[trigger] g@[b].root@ != r@,
                a < g.len() ==> g@[a as int].root@ == r@,
            decreases g.len() - a,
        {
            if g[a].root == r {
                break;
            }
            a = a + 1;
        }
        if a < g.len() {
            proof {
                lemma_filter_push(pre, in_root(roots@, r@), e);
            }
            g[a].entries.push(e);
            proof {
                assert forall|b: int| 0 <= b < g.len() implies #[trigger] g@[b].entries@ == filter_entries(entries@.take(i + 1), in_root(roots@, g@[b].root@)) by {
                    lemma_filter_push(pre, in_root(roots@, g@[b].root@), entries@[i as int]);
                    if b != a {
                        assert(g@[b] == old_g[b]);
                    }
                }
                assert forall|k: int| 0 <= k < i + 1 implies has_group(g@, root_for_spec(#[trigger] entries@[k].recovery_path@, roots@)) by {
                    if k < i {
                        let b = choose|b: int| 0 <= b < old_g.len() && #[trigger] old_g[b].root@ == root_for_spec(entries@[k].recovery_path@, roots@);
                        assert(g@[b].root == old_g[b].root);
                    } else {
                        assert(g@[a as int].root@ == r@);
                    }
                }
                assert forall|x: int, y: int| 0 <= x < y < g.len() implies g@[x].root@ != g@[y].root@ by {
                    assert(g@[x].root == old_g[x].root);
                    assert(g@[y].root == old_g[y].root);
                }
            }
        } else {
            proof {
                assert forall|k: int| 0 <= k < pre.len() implies !in_root(roots@, r@)(#[trigger] pre[k]) by {
                    assert(pre[k] == entries@[k]);
                    if in_root(roots@, r@)(pre[k]) {
                        assert(has_group(g@, root_for_spec(entries@[k].recovery_path@, roots@)));
                        let b = choose|b: int| 0 <= b < g.len() && #[trigger] g@[b].root@ == r@;
                        assert(g@[b].root@ != r@);
                    }
                }
                lemma_filter_none(pre, in_root(roots@, r@));
                lemma_filter_push(pre, in_root(roots@, r@), e);
            }
            let mut v: Vec<RecoveryEntry> = Vec::new();
            v.push(e);
            g.push(RootGroup { root: r, entries: v });
            proof {
                assert forall|b: int| 0 <= b < g.len() implies #[trigger] g@[b].entries@ == filter_entries(entries@.take(i + 1), in_root(roots@, g@[b].root@)) by {
                    if b < old_g.len() {
                        assert(g@[b] == old_g[b]);
                        lemma_filter_push(pre, in_root(roots@, g@[b].root@), entries@[i as int]);
                    }
                }
                assert forall|k: int| 0 <= k < i + 1 implies has_group(g@, root_for_spec(#[trigger] entries@[k].recovery_path@, roots@)) by {
                    if k < i {
                        let b = choose|b: int| 0 <= b < old_g.len() && #[trigger] old_g[b].root@ == root_for_spec(entries@[k].recovery_path@, roots@);
                        assert(g@[b] == old_g[b]);
                    } else {
                        assert(g@[old_g.len() as int].root@ == r@);
                    }
                }
            }
        }
        i = i + 1;
    }
    assert(entries@.take(entries.len() as int) =~= entries@);
    g
}

/// Appends new entries to an index.
pub fn extend_index(index: &mut RecoveryIndex, entries: Vec<RecoveryEntry>)
    ensures
        final(index).entries@ == old(index).entries@ + entries@,
{
    let mut entries = entries;
    index.entries.append(&mut entries);
}

/// A file found in an orphan batch: its normalised path and size.
pub struct OrphanFile {
    pub path: String,
    pub size: u64,
}

/// Self-healing: the kept entries followed by one entry per file found in orphan
/// batches, the `j`-th numbered `keep.len() + j` (see `healed_spec`). The healed
/// entries get pairwise distinct ids.
pub fn heal_entries(keep: Vec<RecoveryEntry>, files: &Vec<OrphanFile>, now: u64, retention_ms: u64, stamp: u64) -> (r: Vec<RecoveryEntry>)
    requires
        now + retention_ms <= u64::MAX,
        keep.len() + files.len() <= u64::MAX,
    ensures
        r.len() == keep.len() + files.len(),
        r@.take(keep.len() as int) == keep@,
        forall|j: int| 0 <= j < files.len() ==> healed_spec(#[trigger] r@[keep.len() + j], files@[j].path@, files@[j].size,
            now, retention_ms, stamp, (keep.len() + j) as u64),
        forall|a: int, b: int| keep.len() <= a < b < r.len() ==> r@[a].id@ != r@[b].id@,
{
    let n0 = keep.len();
    let mut r = keep;
    let ghost kept = r@;
    let mut j: usize = 0;
    while j < files.len()
        invariant
            j <= files.len(),
            n0 == kept.len(),
            n0 + files.len() <= u64::MAX,
            now + retention_ms <= u64::MAX,
            r.len() == n0 + j,
            r@.take(n0 as int) == kept,
            forall|q: int| 0 <= q < j ==> healed_spec(#[trigger] r@[n0 + q], files@[q].path@, files@[q].size,
                now, retention_ms, stamp, (n0 + q) as u64),
        decreases files.len() - j,
    {
        let seq = r.len() as u64;
        let e = healed_entry(files[j].path.as_str(), files[j].size, now, retention_ms, stamp, seq);
        let ghost before = r@;
        r.push(e);
        proof {
            assert(r@.take(n0 as int) =~= before.take(n0 as int));
            assert forall|q: int| 0 <= q < j + 1 implies healed_spec(#[trigger] r@[n0 + q], files@[q].path@, files@[q].size,
                now, retention_ms, stamp, (n0 + q) as u64) by {
                assert(r@[n0 + q] == if q < j { before[n0 + q] } else { e });
            }
        }
        j = j + 1;
    }
    proof {
        assert forall|a: int, b: int| n0 <= a < b < r.len() implies r@[a].id@ != r@[b].id@ by {
            let qa = a - n0;
            let qb = b - n0;
            assert(healed_spec(r@[n0 + qa], files@[qa].path@, files@[qa].size, now, retention_ms, stamp, (n0 + qa) as u64));
            assert(healed_spec(r@[n0 + qb], files@[qb].path@, files@[qb].size, now, retention_ms, stamp, (n0 + qb) as u64));
            let x = (n0 + qa) as u64;
            let y = (n0 + qb) as u64;
            assert(x != y);
            assert((stamp ^ x) != (stamp ^ y)) by (bit_vector)
                requires x != y;
            lemma_dec_digits_injective((stamp ^ x) as nat, (stamp ^ y) as nat);
            if r@[a].id@ == r@[b].id@ {
                reveal_strlit("heal-");
                assert(dec_padded((stamp ^ x) as nat, 0) =~= r@[a].id@.skip(5));
                assert(dec_padded((stamp ^ y) as nat, 0) =~= r@[b].id@.skip(5));
            }
        }
    }
    r
}

/// Positions of the entries whose id is listed, in increasing order.
pub fn restore_targets(index: &RecoveryIndex, entry_ids: &[String]) -> (r: Vec<usize>)
    ensures
        forall|a: int, b: int| 0 <= a < b < r.len() ==> r@[a] < r@[b],
        forall|a: int| 0 <= a < r.len() ==> #[trigger] r@[a] < index.entries.len(),
        forall|k: int| 0 <= k < index.entries.len() ==> (id_listed(entry_ids@, (#[trigger] index.entries@[k]).id@)
            <==> r@.contains(k as usize)),
{
    let mut r: Vec<usize> = Vec::new();
    let mut k: usize = 0;
    while k < index.entries.len()
        invariant
            k <= index.entries.len(),
            forall|a: int, b: int| 0 <= a < b < r.len() ==> r@[a] < r@[b],
            forall|a: int| 0 <= a < r.len() ==> #[trigger] r@[a] < k,
            forall|q: int| 0 <= q < k ==> (id_listed(entry_ids@, (#[trigger] index.entries@[q]).id@)
                <==> r@.contains(q as usize)),
        decreases index.entries.len() - k,
    {
        let ghost before = r@;
        if id_listed_exec(entry_ids, &index.entries[k].id) {
            r.push(k);
            proof {
                assert(r@[r.len() - 1] == k);
                assert forall|q: int| 0 <= q < k + 1 implies (id_listed(entry_ids@, (#[trigger] index.entries@[q]).id@)
                    <==> r@.contains(q as usize)) by {
                    if q < k {
                        if r@.contains(q as usize) {
                            let a = choose|a: int| 0 <= a < r.len() && r@[a] == q as usize;
                            assert(a < before.len());
                            assert(before[a] == q as usize);
                        }
                        if before.contains(q as usize) {
                            let a = choose|a: int| 0 <= a < before.len() && before[a] == q as usize;
                            assert(r@[a] == q as usize);
                        }
                    }
                }
            }
        } else {
            proof {
                assert forall|q: int| 0 <= q < k + 1 implies (id_listed(entry_ids@, (#[trigger] index.entries@[q]).id@)
                    <==> r@.contains(q as usize)) by {
                    if q == k && r@.contains(q as usize) {
                        let a = choose|a: int| 0 <= a < r.len() && r@[a] == q as usize;
                        assert(r@[a] < k);
                    }
                }
            }
        }
        k = k + 1;
    }
    r
}

/// The entries that stay in an index after a restore: those not moved back whose
/// recovery path is still set, in order.
pub open spec fn survivors(es: Seq<RecoveryEntry>, moved: Seq<bool>) -> Seq<RecoveryEntry>
    decreases es.len(),
{
    if es.len() == 0 || moved.len() != es.len() {
        Seq::empty()
    } else {
        let rest = survivors(es.drop_last(), moved.drop_last());
        if !moved.last() && es.last().recovery_path@.len() > 0 { rest.push(es.last()) } else { rest }
    }
}

/// Number of `true` flags.
pub open spec fn count_true(flags: Seq<bool>) -> nat
    decreases flags.len(),
{
    if flags.len() == 0 { 0 } else { count_true(flags.drop_last()) + if flags.last() { 1nat } else { 0nat } }
}

/// After a restore pass over an index, with `moved[k]` telling whether entry `k`
/// was moved back: the number restored, and the index to write back (`None` when
/// nothing was moved and the index is left as it is).
pub fn restore(index: &RecoveryIndex, moved: &Vec<bool>) -> (r: (usize, Option<RecoveryIndex>))
    requires
        moved.len() == index.entries.len(),
    ensures
        r.0 == count_true(moved@),
        r.1 is None <==> r.0 == 0,
        match r.1 {
            Some(ix) => ix.entries@ == survivors(index.entries@, moved@),
            None => true,
        },
{
    let es = &index.entries;
    let mut out: Vec<RecoveryEntry> = Vec::new();
    let mut n: usize = 0;
    let mut k: usize = 0;
    while k < es.len()
        invariant
            k <= es.len(),
            moved.len() == es.len(),
            n == count_true(moved@.take(k as int)),
            n <= k,
            out@ == survivors(es@.take(k as int), moved@.take(k as int)),
        decreases es.len() - k,
    {
        proof {
            assert(es@.take(k + 1).drop_last() =~= es@.take(k as int));
            assert(moved@.take(k + 1).drop_last() =~= moved@.take(k as int));
            assert(es@.take(k + 1).last() == es@[k as int]);
            assert(moved@.take(k + 1).last() == moved@[k as int]);
        }
        if moved[k] {
            n = n + 1;
        } else if !es[k].recovery_path.as_str().is_empty() {
            out.push(es[k].copy());
        }
        k = k + 1;
    }
    assert(es@.take(es.len() as int) =~= es@);
    assert(moved@.take(moved.len() as int) =~= moved@);
    if n == 0 {
        (0, None)
    } else {
        (n, Some(RecoveryIndex { entries: out }))
    }
}

/// A restore pass leaves no moved entry in the index: every surviving entry came
/// from a position that was not moved and still has a recovery path, every such
/// position survives, and the survivors and the moved entries together are never
/// more than the index held.
pub proof fn restore_converges(es: Seq<RecoveryEntry>, moved: Seq<bool>)
    requires
        moved.len() == es.len(),
    ensures
        survivors(es, moved).len() + count_true(moved) <= es.len(),
        forall|t: int| 0 <= t < survivors(es, moved).len() ==> exists|k: int| 0 <= k < es.len() && !moved[k]
            && es[k].recovery_path@.len() > 0 && #[trigger] survivors(es, moved)[t] == es[k],
        forall|k: int| 0 <= k < es.len() && !moved[k] && (#[trigger] es[k]).recovery_path@.len() > 0
            ==> survivors(es, moved).contains(es[k]),
    decreases es.len(),
{
    if es.len() > 0 {
        let e0 = es.drop_last();
        let m0 = moved.drop_last();
        restore_converges(e0, m0);
        let s = survivors(es, moved);
        let s0 = survivors(e0, m0);
        assert forall|t: int| 0 <= t < s.len() implies exists|k: int| 0 <= k < es.len() && !moved[k]
            && es[k].recovery_path@.len() > 0 && #[trigger] s[t] == es[k] by {
            if t < s0.len() {
                assert(s[t] == s0[t]);
                let k = choose|k: int| 0 <= k < e0.len() && !m0[k] && e0[k].recovery_path@.len() > 0 && #[trigger] s0[t] == e0[k];
                assert(es[k] == e0[k] && moved[k] == m0[k]);
            } else {
                assert(s[t] == es[es.len() - 1]);
            }
        }
        assert forall|k: int| 0 <= k < es.len() && !moved[k] && (#[trigger] es[k]).recovery_path@.len() > 0
            implies s.contains(es[k]) by {
            if k < es.len() - 1 {
                assert(e0[k] == es[k] && m0[k] == moved[k]);
                assert(s0.contains(e0[k]));
                let t = choose|t: int| 0 <= t < s0.len() && s0[t] == e0[k];
                assert(s[t] == s0[t]);
            } else {
                assert(s[s.len() - 1] == es[k]);
            }
        }
    }
}

/// Position of the last `c` in `s`.
pub open spec fn last_pos(s: Seq<char>, c: char) -> Option<int>
    decreases s.len(),
{
    if s.len() == 0 {
        None
    } else if s.last() == c {
        Some(s.len() - 1)
    } else {
        last_pos(s.drop_last(), c)
    }
}

proof fn lemma_last_pos(s: Seq<char>, c: char, r: Option<int>)
    requires
        match r {
            Some(i) => 0 <= i < s.len() && s[i] == c && forall|j: int| i < j < s.len() ==> s[j] != c,
            None => forall|j: int| 0 <= j < s.len() ==> s[j] != c,
        },
    ensures
        last_pos(s, c) == r,
    decreases s.len(),
{
    if s.len() > 0 {
        match r {
            Some(i) => {
                if i < s.len() - 1 {
                    assert(s[s.len() - 1] != c);
                    lemma_last_pos(s.drop_last(), c, r);
                }
            },
            None => {
                assert(s[s.len() - 1] != c);
                lemma_last_pos(s.drop_last(), c, r);
            },
        }
    }
}

/// The last component of a path as `Path::file_name` gives it: `None` for an
/// empty path, a root, a bare drive or a trailing `..`.
pub open spec fn path_file_name(p: Seq<char>) -> Option<Seq<char>> {
    let t = strip_trailing_seps(p);
    let n = file_name_spec(p);
    if n.len() == 0 || n == ".."@ || (last_sep(t) is None && t.len() == 2 && t[1] == ':') {
        None
    } else {
        Some(n)
    }
}

/// The file name of a path (see `path_file_name`).
pub fn path_file_name_of(p: &[char]) -> (r: Option<Vec<char>>)
    ensures
        match r {
            Some(n) => path_file_name(p@) == Some(n@),
            None => path_file_name(p@) is None,
        },
{
    let t = strip_trailing_seps_exec(p);
    let n = file_name_of(p);
    let last = last_sep_exec(&t);
    let dots = str_chars("..");
    proof {
        reveal_strlit("..");
    }
    let is_dots = n.len() == 2 && n[0] == '.' && n[1] == '.';
    assert(is_dots == (n@ == ".."@)) by {
        if n@ == ".."@ {
            assert(n@[0] == '.' && n@[1] == '.');
        }
        if is_dots {
            assert(n@ =~= dots@);
        }
    }
    if n.len() == 0 || is_dots || (last.is_none() && t.len() == 2 && t[1] == ':') {
        None
    } else {
        Some(n)
    }
}

/// A file name split as `Path::file_stem` and `Path::extension` split it: at the
/// last `.`, unless the name is `..`, has no `.`, or its only `.` leads it.
pub open spec fn stem_and_ext(name: Seq<char>) -> (Seq<char>, Option<Seq<char>>) {
    if name == ".."@ {
        (name, None)
    } else {
        match last_pos(name, '.') {
            Some(i) => if i == 0 { (name, None) } else { (name.take(i), Some(name.skip(i + 1))) },
            None => (name, None),
        }
    }
}

/// Where a restored file goes when its original path is taken: next to it, as
/// `<stem> (恢复)<.ext>`, or, when that is taken too, `<stem> (恢复-<stamp>)<.ext>`;
/// the directory is the original's parent, or `C:\` when it has none.
pub open spec fn restore_alt_spec(dest: Seq<char>, stamp: Option<u64>) -> Seq<char> {
    let parent = match parent_spec(dest) {
        Some(d) => d,
        None => "C:\\"@,
    };
    let (stem, ext) = match path_file_name(dest) {
        Some(n) => stem_and_ext(n),
        None => (Seq::<char>::empty(), None),
    };
    let dot_ext = match ext {
        Some(e) => seq!['.'] + e,
        None => Seq::<char>::empty(),
    };
    let label = match stamp {
        None => " (恢复)"@,
        Some(t) => " (恢复-"@ + dec_padded(t as nat, 0) + ")"@,
    };
    join_spec(parent, stem + label + dot_ext)
}

/// The stem and the `.ext` (empty when there is none) of a path's file name.
fn stem_and_dot_ext(p: &[char]) -> (r: (Vec<char>, Vec<char>))
    ensures
        r.0@ == (match path_file_name(p@) { Some(n) => stem_and_ext(n).0, None => Seq::<char>::empty() }),
        r.1@ == (match path_file_name(p@) {
            Some(n) => match stem_and_ext(n).1 { Some(e) => seq!['.'] + e, None => Seq::<char>::empty() },
            None => Seq::<char>::empty(),
        }),
{
    let t = strip_trailing_seps_exec(p);
    let n = file_name_of(p);
    let last = last_sep_exec(&t);
    let dots = str_chars("..");
    proof {
        reveal_strlit("..");
    }
    let is_dots = n.len() == 2 && n[0] == '.' && n[1] == '.';
    assert(is_dots == (n@ == ".."@)) by {
        if n@ == ".."@ {
            assert(n@[0] == '.' && n@[1] == '.');
        }
        if is_dots {
            assert(n@ =~= dots@);
        }
    }
    if n.len() == 0 || is_dots || (last.is_none() && t.len() == 2 && t[1] == ':') {
        return (Vec::new(), Vec::new());
    }
    let dot = rfind_char(&n, '.');
    proof {
        lemma_last_pos(n@, '.', match dot { Some(i) => Some(i as int), None => None });
    }
    match dot {
        Some(i) => {
            if i == 0 {
                (n, Vec::new())
            } else {
                let stem = slice_of(&n, 0, i);
                let dot_ext = slice_of(&n, i, n.len());
                assert(stem@ =~= n@.take(i as int));
                assert(dot_ext@ =~= seq!['.'] + n@.skip(i + 1));
                (stem, dot_ext)
            }
        },
        None => (n, Vec::new()),
    }
}

/// The path a restored file is given when its original path is taken (see
/// `restore_alt_spec`).
pub fn restore_alt_path(dest: &str, stamp: Option<u64>) -> (r: String)
    ensures
        r@ == restore_alt_spec(dest@, stamp),
{
    let p = str_chars(dest);
    let parent: Vec<char> = match parent_of(&p) {
        Some(d) => d,
        None => str_chars("C:\\"),
    };
    let (stem, dot_ext) = stem_and_dot_ext(&p);
    let mut name = stem;
    match stamp {
        None => {
            let l = str_chars(" (恢复)");
            name.extend_from_slice(&l);
        },
        Some(ts) => {
            let l = str_chars(" (恢复-");
            name.extend_from_slice(&l);
            push_dec(&mut name, ts, 0);
            name.push(')');
        },
    }
    let ghost before_ext = name@;
    name.extend_from_slice(&dot_ext);
    proof {
        reveal_strlit(")");
        match stamp {
            Some(ts) => {
                assert(before_ext =~= stem@ + (" (恢复-"@ + dec_padded(ts as nat, 0) + ")"@));
            },
            None => {},
        }
    }
    let ps = string_from_chars(&parent);
    let ns = string_from_chars(&name);
    join_path(ps.as_str(), ns.as_str())
}

} // verus!
