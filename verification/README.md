# DiskClear (verified core)

DiskClear is a Windows disk cleaner: it scans cleaning categories (temporary
files, recycle bin, browser caches, update cache, logs, thumbnail caches),
moves what the user cleans into a per-drive recovery area from which it can be
restored until it expires, finds large and duplicate files, shows where the
space of a drive goes, and helps uninstall programs and their remains.

- `src/` is the library, verified with Verus: the cleaning rules and safety
  checks, the recovery-area index logic (expiry, self-healing, restore, purge),
  the duplicate-detection stages, the large-file listing, the space tree and its
  aggregation, the uninstall-string parsing and remains search, the session
  state, and the text, path and date helpers they rest on.
- `tests/` runs the library on concrete inputs.
- `app/` is the desktop side: file-system, registry and process access, worker
  threads, settings and index files, and the commands the user interface calls.
