//! Cleaning decisions: which scanned files may be moved to the recovery area,
//! how a batch and its files are named, what is recorded for each moved file,
//! and the size-graded policy for deleting one large file.
//!
//! The moves themselves (rename with one retry) are file-system work done by the
//! caller, which reports each outcome back through `CleanResult::apply`.
use vstd::prelude::*;

use crate::calendar::{civil_date, civil_from_days, lemma_civil_date_unique};
use crate::category::{join_path, join_spec, roots_for, roots_for_spec, RootEnv};
use crate::recovery::{count_true, parent_of, parent_spec, path_file_name, survivors, RecoveryEntry};
use crate::text::{
    dec_padded, is_prefix, lower_chars, push_dec, starts_with, str_chars, string_from_chars, to_lower,
};
use crate::util::{
    ascii_upper, drive_letter_of, is_drive_absolute, normalize_path, normalize_path_spec, replace_char,
    replace_char_exec,
};

verus! {

/// Largest file moved to the recovery area (5 GiB); larger ones can only be
/// deleted permanently, after an explicit confirmation.
pub const RECOVERY_MAX_FILE_BYTES: u64 = 5 * 1024 * 1024 * 1024;

/// Tally of one cleaning run.
pub struct CleanResult {
    pub batch_id: String,
    pub freed_bytes: u64,
    pub moved_count: u64,
    pub skipped_locked: u64,
    pub skipped_missing: u64,
    pub rejected_unsafe: u64,
    pub errors: Vec<String>,
    pub recovery_bytes: u64,
}

impl Default for CleanResult {
    fn default() -> (r: CleanResult)
        ensures
            r.batch_id@ == Seq::<char>::empty(),
            r.freed_bytes == 0 && r.moved_count == 0 && r.skipped_locked == 0,
            r.skipped_missing == 0 && r.rejected_unsafe == 0 && r.recovery_bytes == 0,
            r.errors@.len() == 0,
    {
        CleanResult {
            batch_id: String::new(),
            freed_bytes: 0,
            moved_count: 0,
            skipped_locked: 0,
            skipped_missing: 0,
            rejected_unsafe: 0,
            errors: Vec::new(),
            recovery_bytes: 0,
        }
    }
}

/// How a path is compared with a root: `/` read as `\`, lower-cased.
pub open spec fn path_key(p: Seq<char>) -> Seq<char> {
    lower_chars(replace_char(p, '/', '\\'))
}

/// A root's comparison key: its path key ending in `\`.
pub open spec fn root_key(r: Seq<char>) -> Seq<char> {
    let k = path_key(r);
    if k.len() > 0 && k.last() == '\\' { k } else { k.push('\\') }
}

/// `p` lies strictly inside directory `r` (lexically: the root's key, ending in
/// `\`, is a prefix of the path's key).
pub open spec fn under_root(p: Seq<char>, r: Seq<char>) -> bool {
    is_prefix(root_key(r), path_key(p))
}

/// `p` lies under one of the roots.
pub open spec fn under_any_root_spec(p: Seq<char>, roots: Seq<Seq<char>>) -> bool {
    exists|k: int| 0 <= k < roots.len() && #[trigger] under_root(p, roots[k])
}

fn key_of(p: &str) -> (r: Vec<char>)
    ensures
        r@ == path_key(p@),
{
    let c = str_chars(p);
    let rep = replace_char_exec(&c, '/', '\\');
    let s = string_from_chars(&rep);
    let l = to_lower(s.as_str());
    str_chars(l.as_str())
}

/// Whether a path lies under any of the roots (see `under_root`).
pub fn under_any_root(path: &str, roots: &[String]) -> (b: bool)
    ensures
        b == under_any_root_spec(path@, roots@.map_values(|s: String| s@)),
{
    let ps = key_of(path);
    let ghost rv = roots@.map_values(|s: String| s@);
    let mut k: usize = 0;
    while k < roots.len()
        invariant
            k <= roots.len(),
            ps@ == path_key(path@),
            rv == roots@.map_values(|s: String| s@),
            forall|j: int| 0 <= j < k ==> !#[trigger] under_root(path@, rv[j]),
        decreases roots.len() - k,
    {
        let mut rs = key_of(roots[k].as_str());
        if !(rs.len() > 0 && rs[rs.len() - 1] == '\\') {
            rs.push('\\');
        }
        assert(rs@ == root_key(rv[k as int]));
        if starts_with(&ps, &rs) {
            assert(under_root(path@, rv[k as int]));
            return true;
        }
        k = k + 1;
    }
    false
}

/// The time stamp `YYYYMMDD_HHMMSS` (UTC) of a moment given in milliseconds
/// since 1970-01-01.
pub open spec fn stamp_spec(ms: u64) -> Seq<char> {
    let secs = ms / 1000;
    let date = civil_date((secs / 86400) as int);
    let rem = secs % 86400;
    dec_padded(date.0 as nat, 4) + dec_padded(date.1 as nat, 2) + dec_padded(date.2 as nat, 2) + "_"@
        + dec_padded((rem / 3600) as nat, 2) + dec_padded(((rem % 3600) / 60) as nat, 2) + dec_padded((rem % 60) as nat, 2)
}

fn push_stamp(out: &mut Vec<char>, ms: u64)
    ensures
        final(out)@ == old(out)@ + stamp_spec(ms),
{
    let secs = ms / 1000;
    let days = secs / 86400;
    let (y, mo, d) = civil_from_days(days as i64);
    proof {
        lemma_civil_date_unique(days as int, y as int, mo as int, d as int);
    }
    let rem = secs % 86400;
    let ghost start = out@;
    push_dec(out, y as u64, 4);
    push_dec(out, mo as u64, 2);
    push_dec(out, d as u64, 2);
    out.push('_');
    push_dec(out, rem / 3600, 2);
    push_dec(out, (rem % 3600) / 60, 2);
    push_dec(out, rem % 60, 2);
    proof {
        reveal_strlit("_");
        assert(out@ =~= start + stamp_spec(ms));
    }
}

/// The `YYYYMMDD_HHMMSS` stamp of a moment (see `stamp_spec`).
pub fn chrono_stamp(ms: u64) -> (s: String)
    ensures
        s@ == stamp_spec(ms),
{
    let mut v: Vec<char> = Vec::new();
    push_stamp(&mut v, ms);
    assert(v@ =~= stamp_spec(ms));
    string_from_chars(&v)
}

/// A batch id: the stamp of its start, `_`, and a number drawn from a counter
/// so that two batches of the same second differ.
pub fn batch_id(now_ms: u64, counter: u32) -> (s: String)
    ensures
        s@ == stamp_spec(now_ms) + "_"@ + dec_padded(counter as nat, 0),
{
    let mut v: Vec<char> = Vec::new();
    push_stamp(&mut v, now_ms);
    v.push('_');
    push_dec(&mut v, counter as u64, 0);
    proof {
        reveal_strlit("_");
        assert(v@ =~= stamp_spec(now_ms) + "_"@ + dec_padded(counter as nat, 0));
    }
    string_from_chars(&v)
}

} // verus!

verus! {

/// The name a file gets inside its batch directory: its number padded to four
/// digits, `_`, and its file name (`unnamed` when the path has none).
pub open spec fn display_name_spec(seq: u64, path: Seq<char>) -> Seq<char> {
    dec_padded(seq as nat, 4) + "_"@ + (match path_file_name(path) {
        Some(n) => n,
        None => "unnamed"@,
    })
}

/// Where a file goes in the recovery area: `<root>\<batch>\<display name>`.
pub open spec fn recovery_dest_spec(root: Seq<char>, batch: Seq<char>, seq: u64, path: Seq<char>) -> Seq<char> {
    join_spec(join_spec(root, batch), display_name_spec(seq, path))
}

/// The batch directory of a batch under a recovery-area root.
pub fn batch_dir(root: &str, batch: &str) -> (r: String)
    ensures
        r@ == join_spec(root@, batch@),
{
    join_path(root, batch)
}

/// The recovery-area path of the `seq`-th file of a batch (see `recovery_dest_spec`).
pub fn recovery_dest(root: &str, batch: &str, seq: u64, path: &str) -> (r: String)
    ensures
        r@ == recovery_dest_spec(root@, batch@, seq, path@),
{
    let dir = batch_dir(root, batch);
    let mut name: Vec<char> = Vec::new();
    push_dec(&mut name, seq, 4);
    name.push('_');
    let p = str_chars(path);
    let ghost head = name@;
    match crate::recovery::path_file_name_of(&p) {
        Some(n) => name.extend_from_slice(&n),
        None => {
            let u = str_chars("unnamed");
            name.extend_from_slice(&u);
        },
    }
    proof {
        reveal_strlit("_");
        assert(name@ =~= display_name_spec(seq, path@));
    }
    let ns = string_from_chars(&name);
    join_path(dir.as_str(), ns.as_str())
}

/// Drive letter recorded for a moved file: that of its path, upper case, or `C`.
pub open spec fn drive_or_c(path: Seq<char>) -> Seq<char> {
    if is_drive_absolute(path) { seq![ascii_upper(path[0])] } else { "C"@ }
}

/// `e` is the recovery entry of the `seq`-th file of a batch, moved from `path`
/// to `dest`: id `<batch>-<seq>`, the original path as given (the recycle bin's
/// recorded one) or else the normalised path, the normalised destination, and an
/// expiry `retention_ms` after `now`.
pub open spec fn moved_entry_spec(e: RecoveryEntry, path: Seq<char>, size: u64, cat_id: Seq<char>,
    original: Option<Seq<char>>, batch: Seq<char>, seq: u64, dest: Seq<char>, now: u64, retention_ms: u64) -> bool {
    &&& e.id@ == batch + "-"@ + dec_padded(seq as nat, 0)
    &&& e.batch_id@ == batch
    &&& e.original_path@ == (match original {
            Some(o) => o,
            None => normalize_path_spec(path),
        })
    &&& e.recovery_path@ == normalize_path_spec(dest)
    &&& e.size == size
    &&& e.deleted_at_ms == now
    &&& e.expires_at_ms == now + retention_ms
    &&& e.category_id@ == cat_id
    &&& e.drive@ == drive_or_c(path)
}

/// The recovery entry recorded for a file moved to the recovery area (see
/// `moved_entry_spec`).
pub fn moved_entry(path: &str, size: u64, cat_id: &str, original: Option<String>, batch: &str, seq: u64,
    dest: &str, now: u64, retention_ms: u64) -> (e: RecoveryEntry)
    requires
        now + retention_ms <= u64::MAX,
    ensures
        moved_entry_spec(e, path@, size, cat_id@, match original { Some(o) => Some(o@), None => None },
            batch@, seq, dest@, now, retention_ms),
{
    let mut id = str_chars(batch);
    id.push('-');
    push_dec(&mut id, seq, 0);
    proof {
        reveal_strlit("-");
        assert(id@ =~= batch@ + "-"@ + dec_padded(seq as nat, 0));
    }
    let drive = match drive_letter_of(path) {
        Some(d) => d,
        None => "C".to_owned(),
    };
    let original_path = match original {
        Some(o) => o,
        None => normalize_path(path),
    };
    RecoveryEntry {
        id: string_from_chars(&id),
        batch_id: batch.to_owned(),
        original_path,
        recovery_path: normalize_path(dest),
        size,
        deleted_at_ms: now,
        expires_at_ms: now + retention_ms,
        category_id: cat_id.to_owned(),
        drive,
    }
}

/// What a cleaning run does with one listed file.
#[derive(PartialEq, Eq, Structural, Clone, Copy, Debug)]
pub enum CleanAction {
    /// The file no longer exists.
    SkipMissing,
    /// The file lies outside its category's roots: refused.
    RejectUnsafe,
    /// The file lies under a protected (white-listed) directory; counted as locked.
    SkipProtected,
    /// The file is moved to the recovery area.
    Move,
}

/// The decision for a file of category `cat_id` in a cleaning run: it must still
/// exist; it must lie under the category's roots on drive C or on its own drive
/// (recycle-bin files are exempt, their roots follow the drive); and it must not
/// lie under a white-listed directory.
pub open spec fn clean_action_spec(exists: bool, path: Seq<char>, cat_id: Seq<char>, env: RootEnv,
    whitelist: Seq<Seq<char>>) -> CleanAction {
    if !exists {
        CleanAction::SkipMissing
    } else if !under_any_root_spec(path, roots_for_spec(cat_id, "C"@, env)) && cat_id != "recycle"@
        && !under_any_root_spec(path, roots_for_spec(cat_id, drive_or_c(path), env)) {
        CleanAction::RejectUnsafe
    } else if under_any_root_spec(path, whitelist) {
        CleanAction::SkipProtected
    } else {
        CleanAction::Move
    }
}

fn eq_text(a: &str, b: &str) -> (r: bool)
    ensures
        r == (a@ == b@),
{
    let x = str_chars(a);
    let y = str_chars(b);
    if x.len() != y.len() {
        return false;
    }
    let r = starts_with(&x, &y);
    assert(r ==> x@ =~= y@) by {
        if r {
            assert(x@.take(y@.len() as int) =~= x@);
        }
    }
    assert(x@ == y@ ==> r) by {
        if x@ == y@ {
            assert(x@.take(y@.len() as int) =~= x@);
        }
    }
    r
}

/// The decision for one file of a cleaning run (see `clean_action_spec`).
pub fn clean_action(exists: bool, path: &str, cat_id: &str, env: &RootEnv, whitelist: &Vec<String>) -> (a: CleanAction)
    ensures
        a == clean_action_spec(exists, path@, cat_id@, *env, whitelist@.map_values(|s: String| s@)),
{
    if !exists {
        return CleanAction::SkipMissing;
    }
    let roots_c = roots_for(cat_id, "C", env);
    proof {
        reveal_strlit("C");
    }
    if !under_any_root(path, roots_c.as_slice()) && !eq_text(cat_id, "recycle") {
        let drive = match drive_letter_of(path) {
            Some(d) => d,
            None => "C".to_owned(),
        };
        let roots_d = roots_for(cat_id, drive.as_str(), env);
        if !under_any_root(path, roots_d.as_slice()) {
            return CleanAction::RejectUnsafe;
        }
    }
    if under_any_root(path, whitelist.as_slice()) {
        CleanAction::SkipProtected
    } else {
        CleanAction::Move
    }
}

/// The decision for a file picked for removal among duplicates: it must still
/// exist, and directories and cloud placeholders (whose removal would reach the
/// cloud copy) are refused.
pub fn duplicate_action(exists: bool, is_dir: bool, is_cloud_placeholder: bool) -> (a: CleanAction)
    ensures
        a == (if !exists { CleanAction::SkipMissing } else if is_dir || is_cloud_placeholder {
            CleanAction::RejectUnsafe
        } else {
            CleanAction::Move
        }),
{
    if !exists {
        CleanAction::SkipMissing
    } else if is_dir || is_cloud_placeholder {
        CleanAction::RejectUnsafe
    } else {
        CleanAction::Move
    }
}

/// What became of one file of a cleaning run.
pub enum CleanOutcome {
    Missing,
    Unsafe,
    /// In use (both attempts failed) or protected.
    Locked,
    /// Moved to the recovery area, freeing this many bytes.
    Moved(u64),
    /// Could not be moved; the message says why.
    Failed(String),
}

impl CleanResult {
    /// Counts one file's outcome.
    pub fn apply(&mut self, outcome: CleanOutcome)
        requires
            match outcome {
                CleanOutcome::Missing => old(self).skipped_missing < u64::MAX,
                CleanOutcome::Unsafe => old(self).rejected_unsafe < u64::MAX,
                CleanOutcome::Locked => old(self).skipped_locked < u64::MAX,
                CleanOutcome::Moved(n) => old(self).freed_bytes + n <= u64::MAX && old(self).moved_count < u64::MAX,
                CleanOutcome::Failed(_) => true,
            },
        ensures
            final(self).batch_id == old(self).batch_id,
            final(self).recovery_bytes == old(self).recovery_bytes,
            final(self).skipped_missing == old(self).skipped_missing + (if outcome is Missing { 1int } else { 0 }),
            final(self).rejected_unsafe == old(self).rejected_unsafe + (if outcome is Unsafe { 1int } else { 0 }),
            final(self).skipped_locked == old(self).skipped_locked + (if outcome is Locked { 1int } else { 0 }),
            final(self).moved_count == old(self).moved_count + (if outcome is Moved { 1int } else { 0 }),
            final(self).freed_bytes == old(self).freed_bytes + (match outcome { CleanOutcome::Moved(n) => n as int, _ => 0 }),
            final(self).errors@ == (match outcome {
                CleanOutcome::Failed(m) => old(self).errors@.push(m),
                _ => old(self).errors@,
            }),
    {
        match outcome {
            CleanOutcome::Missing => self.skipped_missing = self.skipped_missing + 1,
            CleanOutcome::Unsafe => self.rejected_unsafe = self.rejected_unsafe + 1,
            CleanOutcome::Locked => self.skipped_locked = self.skipped_locked + 1,
            CleanOutcome::Moved(n) => {
                self.freed_bytes = self.freed_bytes + n;
                self.moved_count = self.moved_count + 1;
            },
            CleanOutcome::Failed(m) => self.errors.push(m),
        }
    }
}

/// The message recorded when no recovery area can be created for a file.
pub fn no_recovery_area_message(path: &str) -> (m: String)
    ensures
        m@ == "无法创建恢复区："@ + path@,
{
    let mut v = str_chars("无法创建恢复区：");
    let p = str_chars(path);
    v.extend_from_slice(&p);
    string_from_chars(&v)
}

/// The message recorded when a batch directory cannot be created.
pub fn no_batch_dir_message(dir: &str) -> (m: String)
    ensures
        m@ == "无法创建批次目录："@ + dir@,
{
    let mut v = str_chars("无法创建批次目录：");
    let p = str_chars(dir);
    v.extend_from_slice(&p);
    string_from_chars(&v)
}

} // verus!

verus! {

/// How a large file is deleted.
#[derive(PartialEq, Eq, Structural, Clone, Copy, Debug)]
pub enum LargePlan {
    /// Moved to the recovery area (undoable).
    Recover,
    /// Removed for good.
    Permanent,
}

/// The deletion policy for one large file: a missing file or a directory is an
/// error; up to 5 GiB the file goes to the recovery area; above that it is
/// removed permanently only when that was explicitly confirmed.
pub fn large_delete_plan(exists: bool, is_dir: bool, size: u64, allow_permanent: bool) -> (r: Result<LargePlan, String>)
    ensures
        !exists ==> (r matches Err(m) && m@ == "文件不存在或已被删除"@),
        exists && is_dir ==> (r matches Err(m) && m@ == "不支持删除目录，请在大文件结果中仅选择文件"@),
        exists && !is_dir && size <= RECOVERY_MAX_FILE_BYTES ==> r == Ok::<LargePlan, String>(LargePlan::Recover),
        exists && !is_dir && size > RECOVERY_MAX_FILE_BYTES && allow_permanent ==> r == Ok::<LargePlan, String>(LargePlan::Permanent),
        exists && !is_dir && size > RECOVERY_MAX_FILE_BYTES && !allow_permanent
            ==> (r matches Err(m) && m@ == "文件超过 5GB，无法移入恢复区；请确认后选择永久删除"@),
{
    if !exists {
        return Err("文件不存在或已被删除".to_owned());
    }
    if is_dir {
        return Err("不支持删除目录，请在大文件结果中仅选择文件".to_owned());
    }
    if size <= RECOVERY_MAX_FILE_BYTES {
        Ok(LargePlan::Recover)
    } else if allow_permanent {
        Ok(LargePlan::Permanent)
    } else {
        Err("文件超过 5GB，无法移入恢复区；请确认后选择永久删除".to_owned())
    }
}

/// The error when moving a large file to the recovery area failed.
pub fn recover_failed_message(skipped_locked: u64) -> (m: String)
    ensures
        m@ == "移入恢复区失败（可能被占用或磁盘空间不足），跳过 "@ + dec_padded(skipped_locked as nat, 0) + " 个文件"@,
{
    let mut v = str_chars("移入恢复区失败（可能被占用或磁盘空间不足），跳过 ");
    push_dec(&mut v, skipped_locked, 0);
    let t = str_chars(" 个文件");
    v.extend_from_slice(&t);
    string_from_chars(&v)
}

/// The result of deleting one large file.
pub struct LargeDeleteOutcome {
    /// `recovered` or `permanent`.
    pub mode: String,
    pub freed_bytes: u64,
    pub recovery_bytes: u64,
}

impl LargeDeleteOutcome {
    /// The outcome of a deletion carried out by `plan`.
    pub fn new(plan: LargePlan, freed_bytes: u64, recovery_bytes: u64) -> (r: LargeDeleteOutcome)
        ensures
            r.mode@ == (if plan == LargePlan::Recover { "recovered"@ } else { "permanent"@ }),
            r.freed_bytes == freed_bytes,
            r.recovery_bytes == recovery_bytes,
    {
        let mode = match plan {
            LargePlan::Recover => "recovered".to_owned(),
            LargePlan::Permanent => "permanent".to_owned(),
        };
        LargeDeleteOutcome { mode, freed_bytes, recovery_bytes }
    }
}

/// `s` without every leading repetition of `p` (std `trim_start_matches`).
pub open spec fn trim_start_all(s: Seq<char>, p: Seq<char>) -> Seq<char>
    decreases s.len(),
{
    if p.len() > 0 && is_prefix(p, s) { trim_start_all(s.skip(p.len() as int), p) } else { s }
}

/// `s` without every leading repetition of `p`.
pub fn trim_start_all_exec(s: &[char], p: &[char]) -> (r: Vec<char>)
    ensures
        r@ == trim_start_all(s@, p@),
{
    let mut a: usize = 0;
    assert(s@.skip(0) =~= s@);
    while p.len() > 0 && p.len() <= s.len() - a && crate::text::matches_at(s, p, a)
        invariant
            a <= s.len(),
            trim_start_all(s@.skip(a as int), p@) == trim_start_all(s@, p@),
        decreases s.len() - a,
    {
        proof {
            assert(s@.skip(a as int).take(p@.len() as int) =~= s@.subrange(a as int, a + p@.len()));
            assert(s@.skip(a as int).skip(p@.len() as int) =~= s@.skip(a + p@.len()));
        }
        a = a + p.len();
    }
    proof {
        if p@.len() > 0 && is_prefix(p@, s@.skip(a as int)) {
            assert(s@.skip(a as int).take(p@.len() as int) =~= s@.subrange(a as int, a + p@.len()));
        }
    }
    let r = crate::text::slice_of(s, a, s.len());
    assert(r@ =~= s@.skip(a as int));
    r
}

/// Name of the `$I` metadata file that goes with a recycle-bin `$R` file.
pub open spec fn recycle_meta_name(name: Seq<char>) -> Seq<char> {
    "$I"@ + trim_start_all(name, "$R"@)
}

/// The `$I` metadata path of a recycle-bin `$R` path: the same directory, the
/// name's leading `$R`s replaced by `$I`; `None` for a path without a parent.
pub fn recycle_meta_path(r_path: &str) -> (r: Option<String>)
    ensures
        match r {
            Some(m) => parent_spec(r_path@) matches Some(d) && m@ == join_spec(d, recycle_meta_name(
                match path_file_name(r_path@) { Some(n) => n, None => Seq::<char>::empty() })),
            None => parent_spec(r_path@) is None,
        },
{
    let p = str_chars(r_path);
    match parent_of(&p) {
        None => None,
        Some(d) => {
            let name = match crate::recovery::path_file_name_of(&p) {
                Some(n) => n,
                None => Vec::new(),
            };
            let pr = str_chars("$R");
            let trimmed = trim_start_all_exec(&name, &pr);
            let mut m = str_chars("$I");
            m.extend_from_slice(&trimmed);
            let ds = string_from_chars(&d);
            let ms = string_from_chars(&m);
            Some(join_path(ds.as_str(), ms.as_str()))
        },
    }
}

/// The original path recorded for a cleaned file: for the recycle bin, the one
/// read from the `$I` metadata when it could be read; otherwise the path itself.
pub fn original_path_for(cat_id: &str, path: &str, meta_original: Option<String>) -> (r: String)
    ensures
        r@ == (if cat_id@ == "recycle"@ && parent_spec(path@) is Some && meta_original is Some {
            meta_original->0@
        } else {
            path@
        }),
{
    if eq_text(cat_id, "recycle") {
        let p = str_chars(path);
        if parent_of(&p).is_some() {
            if let Some(o) = meta_original {
                return o;
            }
        }
    }
    path.to_owned()
}

} // verus!

verus! {

/// A cleaning run only ever moves a file that exists, lies under its category's
/// roots (on drive C or on its own drive; the recycle bin excepted) and under
/// no white-listed directory; every other file is counted, never moved.
pub proof fn clean_moves_only_rooted_files(exists: bool, path: Seq<char>, cat_id: Seq<char>, env: RootEnv,
    whitelist: Seq<Seq<char>>)
    ensures
        clean_action_spec(exists, path, cat_id, env, whitelist) == CleanAction::Move ==> {
            &&& exists
            &&& cat_id == "recycle"@ || under_any_root_spec(path, roots_for_spec(cat_id, "C"@, env))
                || under_any_root_spec(path, roots_for_spec(cat_id, drive_or_c(path), env))
            &&& !under_any_root_spec(path, whitelist)
        },
        clean_action_spec(exists, path, cat_id, env, whitelist) == CleanAction::SkipMissing <==> !exists,
{
}

/// Two batches started in the same millisecond with different counter values
/// get different ids, and within a batch files with different numbers get
/// different entry ids.
pub proof fn batch_and_entry_ids_differ(now_ms: u64, a: u32, b: u32, batch: Seq<char>, x: u64, y: u64)
    ensures
        a != b ==> stamp_spec(now_ms) + "_"@ + dec_padded(a as nat, 0) != stamp_spec(now_ms) + "_"@ + dec_padded(b as nat, 0),
        x != y ==> batch + "-"@ + dec_padded(x as nat, 0) != batch + "-"@ + dec_padded(y as nat, 0),
{
    crate::text::lemma_dec_digits_injective(a as nat, b as nat);
    crate::text::lemma_dec_digits_injective(x as nat, y as nat);
    let p = stamp_spec(now_ms) + "_"@;
    let q = batch + "-"@;
    if a != b && p + dec_padded(a as nat, 0) == p + dec_padded(b as nat, 0) {
        assert((p + dec_padded(a as nat, 0)).skip(p.len() as int) =~= dec_padded(a as nat, 0));
        assert((p + dec_padded(b as nat, 0)).skip(p.len() as int) =~= dec_padded(b as nat, 0));
    }
    if x != y && q + dec_padded(x as nat, 0) == q + dec_padded(y as nat, 0) {
        assert((q + dec_padded(x as nat, 0)).skip(q.len() as int) =~= dec_padded(x as nat, 0));
        assert((q + dec_padded(y as nat, 0)).skip(q.len() as int) =~= dec_padded(y as nat, 0));
    }
}


/// No flag set counts zero.
proof fn lemma_count_none(flags: Seq<bool>)
    requires
        forall|k: int| 0 <= k < flags.len() ==> !#[trigger] flags[k],
    ensures
        count_true(flags) == 0,
    decreases flags.len(),
{
    if flags.len() > 0 {
        assert forall|k: int| 0 <= k < flags.drop_last().len() implies !#[trigger] flags.drop_last()[k] by {
            assert(flags.drop_last()[k] == flags[k]);
        }
        lemma_count_none(flags.drop_last());
        assert(!flags[flags.len() - 1]);
    }
}

/// A large file moved to the recovery area comes back: the entry recorded for it
/// (category `large`) keeps its size and its normalised path as the place to
/// restore to; once it is added to an index, restoring it (and nothing else)
/// counts one restored file and leaves the index as it was before.
pub proof fn large_file_round_trip(e: RecoveryEntry, path: Seq<char>, size: u64, batch: Seq<char>, seq: u64,
    dest: Seq<char>, now: u64, retention_ms: u64, before: Seq<RecoveryEntry>, moved: Seq<bool>)
    requires
        size <= RECOVERY_MAX_FILE_BYTES,
        moved_entry_spec(e, path, size, "large"@, None, batch, seq, dest, now, retention_ms),
        moved.len() == before.len() + 1,
        moved[before.len() as int],
        forall|k: int| 0 <= k < before.len() ==> !#[trigger] moved[k],
    ensures
        e.original_path@ == normalize_path_spec(path),
        e.size == size,
        e.category_id@ == "large"@,
        count_true(moved) == 1,
        survivors(before.push(e), moved) == survivors(before, moved.take(before.len() as int)),
{
    let head = moved.take(before.len() as int);
    assert(moved.drop_last() =~= head);
    assert forall|k: int| 0 <= k < head.len() implies !#[trigger] head[k] by {
        assert(head[k] == moved[k]);
    }
    lemma_count_none(head);
    assert(before.push(e).drop_last() =~= before);
}

} // verus!
