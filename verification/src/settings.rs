//! User settings and the edits made to them (the file `settings.json` itself is
//! read and written by the caller).
use vstd::prelude::*;

use crate::util::listed_in;

verus! {

/// The user's settings.
pub struct Settings {
    /// Days entries stay in the recovery area (1-30, 7 by default).
    pub recovery_retention_days: u32,
    /// Directories the cleaner never touches.
    pub whitelist_dirs: Vec<String>,
    /// What to do with files above 4 GB on FAT32 (`skip` or `confirm_delete`).
    pub fat32_policy: String,
    /// Large-file threshold in MiB (100 by default).
    pub large_file_threshold_mb: u64,
    /// Scan threads (1-8, 4 by default).
    pub scan_threads: u32,
    /// `system`, `light` or `dark`.
    pub theme: String,
    /// Files the large-file list no longer shows.
    pub ignored_files: Vec<String>,
}

impl Default for Settings {
    fn default() -> (s: Settings)
        ensures
            s.recovery_retention_days == 7,
            s.whitelist_dirs@.len() == 0,
            s.fat32_policy@ == "skip"@,
            s.large_file_threshold_mb == 100,
            s.scan_threads == 4,
            s.theme@ == "system"@,
            s.ignored_files@.len() == 0,
    {
        Settings {
            recovery_retention_days: 7,
            whitelist_dirs: Vec::new(),
            fat32_policy: "skip".to_owned(),
            large_file_threshold_mb: 100,
            scan_threads: 4,
            theme: "system".to_owned(),
            ignored_files: Vec::new(),
        }
    }
}

impl Settings {
    /// Adds a file to the ignore list unless it is already there.
    pub fn add_ignored_file(&mut self, path: String)
        ensures
            final(self).ignored_files@ == (if listed_in(old(self).ignored_files@, path@) {
                old(self).ignored_files@
            } else {
                old(self).ignored_files@.push(path)
            }),
            final(self).recovery_retention_days == old(self).recovery_retention_days,
            final(self).whitelist_dirs == old(self).whitelist_dirs,
            final(self).fat32_policy == old(self).fat32_policy,
            final(self).large_file_threshold_mb == old(self).large_file_threshold_mb,
            final(self).scan_threads == old(self).scan_threads,
            final(self).theme == old(self).theme,
    {
        let mut i: usize = 0;
        while i < self.ignored_files.len()
            invariant
                i <= self.ignored_files.len(),
                self.ignored_files == old(self).ignored_files,
                forall|j: int| 0 <= j < i ==> #[trigger] self.ignored_files@[j]@ != path@,
            decreases self.ignored_files.len() - i,
        {
            if self.ignored_files[i] == path {
                return;
            }
            i = i + 1;
        }
        self.ignored_files.push(path);
    }

    /// Empties the ignore list.
    pub fn clear_ignored_files(&mut self)
        ensures
            final(self).ignored_files@.len() == 0,
            final(self).recovery_retention_days == old(self).recovery_retention_days,
            final(self).whitelist_dirs == old(self).whitelist_dirs,
            final(self).fat32_policy == old(self).fat32_policy,
            final(self).large_file_threshold_mb == old(self).large_file_threshold_mb,
            final(self).scan_threads == old(self).scan_threads,
            final(self).theme == old(self).theme,
    {
        self.ignored_files.clear();
    }
}

/// Adding a file to the ignore list twice is the same as adding it once.
pub proof fn add_ignored_idempotent(list: Seq<String>, path: String)
    ensures
        ({
            let once = if listed_in(list, path@) { list } else { list.push(path) };
            let twice = if listed_in(once, path@) { once } else { once.push(path) };
            &&& twice == once
            &&& listed_in(once, path@)
        }),
{
    if !listed_in(list, path@) {
        let once = list.push(path);
        assert(once[list.len() as int]@ == path@);
    }
}

} // verus!
