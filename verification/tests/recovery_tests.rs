use diskclear::recovery::{
    extend_index, heal_entries, healed_entry, index_path, insert_entries, is_orphan_batch, known_batch_dirs, list_all,
    purge, purge_all, purged_count, recovery_root_candidates, restore, restore_alt_path, restore_targets, retention_ms,
    root_for_entry, split_expired, total_size, OrphanFile, RecoveryEntry, RecoveryIndex,
};

fn entry(id: &str, batch: &str, rec: &str, deleted: u64, expires: u64, size: u64) -> RecoveryEntry {
    RecoveryEntry {
        id: id.to_string(),
        batch_id: batch.to_string(),
        original_path: format!(r"C:\orig\{}", id),
        recovery_path: rec.to_string(),
        size,
        deleted_at_ms: deleted,
        expires_at_ms: expires,
        category_id: "temp".to_string(),
        drive: "C".to_string(),
    }
}

fn ids(es: &[RecoveryEntry]) -> Vec<&str> {
    es.iter().map(|e| e.id.as_str()).collect()
}

#[test]
fn index_path_is_inside_root() {
    assert_eq!(index_path(r"D:\$DiskClear\Recovery"), r"D:\$DiskClear\Recovery\index.json");
}

#[test]
fn expiry_partitions_entries() {
    let es = vec![
        entry("a", "b", r"D:\R\b\1", 0, 100, 1),
        entry("b", "b", r"D:\R\b\2", 0, 50, 1),
        entry("c", "b", r"D:\R\b\3", 0, 101, 1),
    ];
    let (keep, gone) = split_expired(&es, 100);
    assert_eq!(ids(&keep), vec!["c"]);
    assert_eq!(ids(&gone), vec!["a", "b"]);
}

#[test]
fn purge_removes_listed_ids_only() {
    let ix = RecoveryIndex {
        entries: vec![entry("e1", "b", r"D:\R\b\1", 0, 9, 1), entry("e2", "b", r"D:\R\b\2", 0, 9, 1)],
    };
    let (left, removed) = purge(&ix, &["e2".to_string(), "zz".to_string()]);
    assert_eq!(ids(&left.entries), vec!["e1"]);
    assert_eq!(ids(&removed), vec!["e2"]);
}

#[test]
fn all_ids_totals_and_listing_across_roots() {
    let a = RecoveryIndex { entries: vec![entry("a1", "b", r"C:\R\b\1", 10, 9, 5), entry("a2", "b", r"C:\R\b\2", 30, 9, 6)] };
    let b = RecoveryIndex { entries: vec![entry("b1", "b", r"D:\R\b\1", 20, 9, 7)] };
    let ixs = vec![a, b];
    assert_eq!(purge_all(&ixs), vec!["a1".to_string(), "a2".to_string(), "b1".to_string()]);
    assert_eq!(total_size(&ixs), 18);
    assert_eq!(ids(&list_all(&ixs)), vec!["a2", "b1", "a1"]);
}

#[test]
fn recovery_roundtrip_restore_and_purge() {
    // Restore pass: the listed entry is found and, once moved back, leaves the index.
    let ix = RecoveryIndex { entries: vec![entry("e1", "batch1", r"D:\R\batch1\0001_a.txt", 0, 9, 5)] };
    let targets = restore_targets(&ix, &["e1".to_string()]);
    assert_eq!(targets, vec![0]);
    let (n, after) = restore(&ix, &vec![true]);
    assert_eq!(n, 1);
    assert!(after.unwrap().entries.is_empty());
    // A failed move leaves the index untouched.
    let (n0, unchanged) = restore(&ix, &vec![false]);
    assert_eq!(n0, 0);
    assert!(unchanged.is_none());
    // Purge pass.
    let ix2 = RecoveryIndex { entries: vec![entry("e2", "batch2", r"D:\R\batch2\0001_b.txt", 0, 9, 5)] };
    let (left, removed) = purge(&ix2, &["e2".to_string()]);
    assert_eq!(removed.len(), 1);
    assert!(left.entries.is_empty());
}

#[test]
fn maintenance_must_not_duplicate_known_batches() {
    let es = vec![entry("e-ok", "batchY", r"D:\$DiskClear\Recovery\batchY\0001_x.bin", 0, u64::MAX, 4)];
    let (keep, expired) = split_expired(&es, 1000);
    assert_eq!(expired.len(), 0, "未过期的条目不应被清除");
    let known = known_batch_dirs(&keep);
    assert!(!is_orphan_batch(r"\\?\D:\$DiskClear\Recovery\batchY", &known), "正常批次被误判为孤儿并重复登记");
    assert!(is_orphan_batch(r"D:\$DiskClear\Recovery\batchX", &known));
    let healed = heal_entries(keep, &vec![], 1000, 10, 7);
    assert_eq!(ids(&healed), vec!["e-ok"]);
}

#[test]
fn maintenance_removes_expired_entries() {
    let es = vec![entry("e-old", "batchZ", r"D:\R\batchZ\0001_old.bin", 0, 500, 3)];
    let (keep, expired) = split_expired(&es, 1500);
    assert_eq!(expired.len(), 1);
    assert!(keep.is_empty());
}

#[test]
fn orphan_self_heal_rebuilds_entries() {
    let files = vec![OrphanFile { path: r"D:\$DiskClear\Recovery\batchX\0001_junk.tmp".to_string(), size: 1 }];
    let healed = heal_entries(vec![], &files, 1000, 86_400_000, 6);
    assert_eq!(healed.len(), 1);
    let e = &healed[0];
    assert_eq!(e.id, "heal-6");
    assert_eq!(e.batch_id, "batchX");
    assert_eq!(e.original_path, "未知（索引缺失，已自愈登记）");
    assert_eq!(e.size, 1);
    assert_eq!(e.expires_at_ms, 1000 + 86_400_000);
    assert_eq!(e.category_id, "unknown");
    assert_eq!(e.drive, "D");
    let two = vec![
        OrphanFile { path: r"D:\R\b\1".to_string(), size: 1 },
        OrphanFile { path: r"D:\R\b\2".to_string(), size: 2 },
    ];
    let h2 = heal_entries(vec![entry("k", "b", r"D:\R\b\0", 0, 9, 1)], &two, 0, 0, 1);
    assert_eq!(ids(&h2), vec!["k", "heal-0", "heal-3"]);
}

#[test]
fn healed_entry_without_drive() {
    let e = healed_entry(r"rel\x", 3, 5, 5, 0, 0);
    assert_eq!(e.drive, "");
    assert_eq!(e.expires_at_ms, 10);
}

#[test]
fn retention_in_ms() {
    assert_eq!(retention_ms(7), 604_800_000);
    assert_eq!(retention_ms(0), 0);
}

#[test]
fn root_candidates_and_entry_roots() {
    assert_eq!(
        recovery_root_candidates(r"d:\x\y.txt", r"C:\Users\u\AppData\Local"),
        Some(vec![r"D:\$DiskClear\Recovery".to_string(), r"C:\Users\u\AppData\Local\DiskClear\Recovery".to_string()])
    );
    assert_eq!(recovery_root_candidates(r"d:\x", ""), Some(vec![r"D:\$DiskClear\Recovery".to_string()]));
    assert_eq!(recovery_root_candidates(r"rel\x", ""), None);
    let roots = vec![r"E:\$DiskClear\Recovery".to_string()];
    assert_eq!(root_for_entry(r"E:\$DiskClear\Recovery\b\1", &roots), r"E:\$DiskClear\Recovery");
    assert_eq!(root_for_entry(r"F:\$DiskClear\Recovery\b\1", &roots), r"F:\$DiskClear\Recovery");
}

#[test]
fn insert_entries_groups_by_root() {
    let roots = vec![r"C:\$DiskClear\Recovery".to_string()];
    let es = vec![
        entry("1", "b", r"C:\$DiskClear\Recovery\b\1", 0, 9, 1),
        entry("2", "b", r"D:\$DiskClear\Recovery\b\2", 0, 9, 1),
        entry("3", "b", r"C:\$DiskClear\Recovery\b\3", 0, 9, 1),
    ];
    let groups = insert_entries(&es, &roots);
    assert_eq!(groups.len(), 2);
    assert_eq!(groups[0].root, r"C:\$DiskClear\Recovery");
    assert_eq!(ids(&groups[0].entries), vec!["1", "3"]);
    assert_eq!(groups[1].root, r"D:\$DiskClear\Recovery");
    let mut ix = RecoveryIndex { entries: vec![entry("0", "b", r"C:\x", 0, 9, 1)] };
    extend_index(&mut ix, groups[0].entries.iter().map(|e| e.copy()).collect());
    assert_eq!(ids(&ix.entries), vec!["0", "1", "3"]);
}

#[test]
fn restore_alt_path_names_copy() {
    assert_eq!(restore_alt_path(r"C:\d\report.docx", None), r"C:\d\report (恢复).docx");
    assert_eq!(restore_alt_path(r"C:\d\report.docx", Some(42)), r"C:\d\report (恢复-42).docx");
    assert_eq!(restore_alt_path(r"C:\d\noext", None), r"C:\d\noext (恢复)");
}

#[test]
fn purging_all_ids_empties_every_area() {
    let a = RecoveryIndex { entries: vec![entry("a1", "b", r"C:\R\b\1", 10, 9, 5), entry("a2", "b", r"C:\R\b\2", 30, 9, 6)] };
    let b = RecoveryIndex { entries: vec![entry("b1", "b", r"D:\R\b\1", 20, 9, 7)] };
    let ixs = vec![a, b];
    let all = purge_all(&ixs);
    let mut after = Vec::new();
    let mut removed_total = 0;
    for ix in &ixs {
        let (left, removed) = purge(ix, &all);
        assert!(left.entries.is_empty());
        removed_total += removed.len();
        after.push(left);
    }
    assert_eq!(removed_total, 3);
    assert!(list_all(&after).is_empty());
    assert_eq!(total_size(&after), 0);
}

#[test]
fn purged_count_counts_deleted_files_only() {
    assert_eq!(purged_count(&vec![]), 0);
    assert_eq!(purged_count(&vec![true, false, true]), 2);
    assert_eq!(purged_count(&vec![false]), 0);
}
