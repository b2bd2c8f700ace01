use diskclear::calendar::civil_from_days;
use diskclear::category::RootEnv;
use diskclear::recovery::{extend_index, restore, restore_targets, RecoveryIndex};
use diskclear::clean::{
    batch_id, chrono_stamp, clean_action, duplicate_action, large_delete_plan, moved_entry, no_batch_dir_message,
    no_recovery_area_message, original_path_for, recover_failed_message, recovery_dest, recycle_meta_path,
    under_any_root, CleanAction, CleanOutcome, CleanResult, LargeDeleteOutcome, LargePlan,
};

fn env() -> RootEnv {
    RootEnv {
        local_app_data: r"C:\Users\u\AppData\Local".to_string(),
        system_drive: "C:".to_string(),
        temp: r"C:\Users\u\AppData\Local\Temp".to_string(),
        browser_roots: vec![],
    }
}

#[test]
fn under_root_checks_prefix() {
    let roots = vec![r"C:\Windows\Temp".to_string()];
    assert!(under_any_root(r"C:\Windows\Temp\a.tmp", &roots));
    assert!(under_any_root(r"c:/windows/temp/sub/b.log", &roots));
    assert!(!under_any_root(r"C:\Windows\TempXYZ\a", &roots));
    assert!(!under_any_root(r"D:\Windows\Temp\a", &roots));
}

#[test]
fn civil_from_days_known_dates() {
    assert_eq!(civil_from_days(0), (1970, 1, 1));
    assert_eq!(civil_from_days(19_000), (2022, 1, 8));
}

#[test]
fn civil_from_days_leap_day() {
    // 2000-02-29 is day 11016 after the epoch.
    assert_eq!(civil_from_days(11_016), (2000, 2, 29));
    assert_eq!(civil_from_days(-1), (1969, 12, 31));
}

#[test]
fn stamp_and_batch_id_format() {
    assert_eq!(chrono_stamp(0), "19700101_000000");
    let ms = 19_000u64 * 86_400_000 + 3_661_000;
    assert_eq!(chrono_stamp(ms), "20220108_010101");
    assert_eq!(batch_id(ms, 42), "20220108_010101_42");
}

#[test]
fn recovery_dest_numbers_files() {
    assert_eq!(
        recovery_dest(r"D:\$DISKCLEAR", "b1", 3, r"C:\x\file.txt"),
        r"D:\$DISKCLEAR\b1\0003_file.txt"
    );
    assert_eq!(recovery_dest(r"D:\R", "b", 12345, r"C:\x\y.bin"), r"D:\R\b\12345_y.bin");
}

#[test]
fn moved_entry_records_origin_and_expiry() {
    let e = moved_entry(r"d:\data\a.txt", 10, "temp", None, "B", 7, r"D:\$DISKCLEAR\B\0007_a.txt", 1000, 500);
    assert_eq!(e.id, "B-7");
    assert_eq!(e.batch_id, "B");
    assert_eq!(e.original_path, r"d:\data\a.txt");
    assert_eq!(e.size, 10);
    assert_eq!(e.deleted_at_ms, 1000);
    assert_eq!(e.expires_at_ms, 1500);
    assert_eq!(e.category_id, "temp");
    assert_eq!(e.drive, "D");
    let r = moved_entry(r"x\a.txt", 1, "recycle", Some(r"E:\orig.txt".to_string()), "B", 1, r"C:\R\B\0001_a.txt", 0, 0);
    assert_eq!(r.original_path, r"E:\orig.txt");
    assert_eq!(r.drive, "C");
}

#[test]
fn clean_action_decides_each_file() {
    let wl = vec![r"C:\Users\u\AppData\Local\Temp\keep".to_string()];
    let e = env();
    assert_eq!(clean_action(false, r"C:\Users\u\AppData\Local\Temp\a.tmp", "temp", &e, &wl), CleanAction::SkipMissing);
    assert_eq!(clean_action(true, r"C:\Users\u\AppData\Local\Temp\a.tmp", "temp", &e, &wl), CleanAction::Move);
    assert_eq!(clean_action(true, r"C:\Users\u\Documents\a.doc", "temp", &e, &wl), CleanAction::RejectUnsafe);
    assert_eq!(clean_action(true, r"C:\Users\u\AppData\Local\Temp\keep\x", "temp", &e, &wl), CleanAction::SkipProtected);
    assert_eq!(clean_action(true, r"D:\$Recycle.Bin\S-1\$R1.txt", "recycle", &e, &wl), CleanAction::Move);
}

#[test]
fn duplicate_action_refuses_dirs_and_placeholders() {
    assert_eq!(duplicate_action(false, false, false), CleanAction::SkipMissing);
    assert_eq!(duplicate_action(true, true, false), CleanAction::RejectUnsafe);
    assert_eq!(duplicate_action(true, false, true), CleanAction::RejectUnsafe);
    assert_eq!(duplicate_action(true, false, false), CleanAction::Move);
}

#[test]
fn clean_result_counts_outcomes() {
    let mut r = CleanResult::default();
    r.apply(CleanOutcome::Missing);
    r.apply(CleanOutcome::Unsafe);
    r.apply(CleanOutcome::Locked);
    r.apply(CleanOutcome::Moved(100));
    r.apply(CleanOutcome::Moved(50));
    r.apply(CleanOutcome::Failed("x".to_string()));
    assert_eq!(r.skipped_missing, 1);
    assert_eq!(r.rejected_unsafe, 1);
    assert_eq!(r.skipped_locked, 1);
    assert_eq!(r.moved_count, 2);
    assert_eq!(r.freed_bytes, 150);
    assert_eq!(r.errors, vec!["x".to_string()]);
}

#[test]
fn large_delete_policy_levels() {
    let five_gb = 5u64 * 1024 * 1024 * 1024;
    assert_eq!(large_delete_plan(false, false, 1, false), Err("文件不存在或已被删除".to_string()));
    assert_eq!(
        large_delete_plan(true, true, 1, true),
        Err("不支持删除目录，请在大文件结果中仅选择文件".to_string())
    );
    assert_eq!(large_delete_plan(true, false, five_gb, false), Ok(LargePlan::Recover));
    assert_eq!(large_delete_plan(true, false, five_gb + 1, true), Ok(LargePlan::Permanent));
    assert_eq!(
        large_delete_plan(true, false, five_gb + 1, false),
        Err("文件超过 5GB，无法移入恢复区；请确认后选择永久删除".to_string())
    );
    let o = LargeDeleteOutcome::new(LargePlan::Recover, 7, 9);
    assert_eq!(o.mode, "recovered");
    assert_eq!(LargeDeleteOutcome::new(LargePlan::Permanent, 1, 2).mode, "permanent");
}

#[test]
fn messages_name_the_path() {
    assert_eq!(no_recovery_area_message(r"C:\a"), r"无法创建恢复区：C:\a");
    assert_eq!(no_batch_dir_message(r"D:\R\b"), r"无法创建批次目录：D:\R\b");
    assert_eq!(recover_failed_message(2), "移入恢复区失败（可能被占用或磁盘空间不足），跳过 2 个文件");
}

#[test]
fn recycle_meta_path_pairs_r_with_i() {
    assert_eq!(recycle_meta_path(r"D:\$Recycle.Bin\S-1\$RAB12.txt"), Some(r"D:\$Recycle.Bin\S-1\$IAB12.txt".to_string()));
    assert_eq!(original_path_for("recycle", r"D:\$Recycle.Bin\S-1\$RAB12.txt", Some(r"D:\doc.txt".to_string())), r"D:\doc.txt");
    assert_eq!(original_path_for("temp", r"C:\t\a", Some(r"D:\doc.txt".to_string())), r"C:\t\a");
}

#[test]
fn batch_and_entry_ids_differ_by_counter() {
    assert_ne!(batch_id(5_000, 1), batch_id(5_000, 11));
    let a = moved_entry(r"C:\t\a", 1, "temp", None, "B", 1, r"C:\R\B\0001_a", 0, 0);
    let b = moved_entry(r"C:\t\a", 1, "temp", None, "B", 11, r"C:\R\B\0011_a", 0, 0);
    assert_ne!(a.id, b.id);
}

#[test]
fn large_file_entry_restores_to_its_path() {
    let e = moved_entry(r"D:/Videos/big.mkv", 4096, "large", None, "20240101-000000-1", 1,
        r"D:\DiskClear_Recovery\20240101-000000-1\0001_big.mkv", 1000, 86_400_000);
    assert_eq!(e.original_path, r"D:\Videos\big.mkv");
    assert_eq!(e.size, 4096);
    assert_eq!(e.category_id, "large");
    let id = e.id.clone();
    let mut ix = RecoveryIndex { entries: vec![] };
    extend_index(&mut ix, vec![e]);
    let targets = restore_targets(&ix, &[id]);
    assert_eq!(targets, vec![0]);
    let (n, left) = restore(&ix, &vec![true]);
    assert_eq!(n, 1);
    assert!(left.unwrap().entries.is_empty());
}
