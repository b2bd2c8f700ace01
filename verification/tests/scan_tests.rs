use diskclear::category::{categories, RootEnv};
use diskclear::scan::{
    category_result, decode_utf16_nul, parse_recycle_meta, recycle_data_path, scan_plan, walk_step, warnings_for,
    FileEntry, ScanSession, WalkStep,
};

fn build_meta_v(version: u64, size: u64, original: &str) -> Vec<u8> {
    let mut b = Vec::new();
    b.extend_from_slice(&version.to_le_bytes());
    b.extend_from_slice(&size.to_le_bytes());
    b.extend_from_slice(&0u64.to_le_bytes());
    let units: Vec<u16> = original.encode_utf16().collect();
    if version == 1 {
        let mut fixed = units.clone();
        fixed.resize(260, 0);
        for u in fixed {
            b.extend_from_slice(&u.to_le_bytes());
        }
    } else {
        b.extend_from_slice(&(units.len() as u32).to_le_bytes());
        for u in units {
            b.extend_from_slice(&u.to_le_bytes());
        }
    }
    b
}

fn env() -> RootEnv {
    RootEnv {
        local_app_data: r"C:\Users\u\AppData\Local".to_string(),
        system_drive: "C:".to_string(),
        temp: r"C:\Users\u\AppData\Local\Temp".to_string(),
        browser_roots: vec![r"C:\Users\u\AppData\Local\Google\Chrome\User Data\Default\Cache".to_string()],
    }
}

#[test]
fn parse_recycle_meta_v2() {
    let (size, original) = parse_recycle_meta(&build_meta_v(2, 12345, r"D:\docs\报告.docx")).unwrap();
    assert_eq!(size, 12345);
    assert_eq!(original, r"D:\docs\报告.docx");
}

#[test]
fn parse_recycle_meta_v1() {
    let (size, original) = parse_recycle_meta(&build_meta_v(1, 999, r"C:\a.txt")).unwrap();
    assert_eq!(size, 999);
    assert_eq!(original, r"C:\a.txt");
}

#[test]
fn parse_recycle_meta_garbage() {
    assert!(parse_recycle_meta(&[0u8; 10]).is_none());
    assert!(parse_recycle_meta(&[]).is_none());
}

#[test]
fn parse_recycle_meta_rejects_other_versions_and_short_names() {
    assert!(parse_recycle_meta(&build_meta_v(5, 1, "x")).is_none());
    let mut short = build_meta_v(2, 1, "abc");
    short.truncate(short.len() - 2);
    assert!(parse_recycle_meta(&short).is_none());
    let v1 = build_meta_v(1, 1, "x");
    assert!(parse_recycle_meta(&v1[..100]).is_none());
}

#[test]
fn decode_utf16_stops_at_nul_and_rejects_lone_surrogates() {
    assert_eq!(decode_utf16_nul(&[0x41, 0, 0x42, 0, 0, 0, 0x43, 0]), Some("AB".to_string()));
    assert_eq!(decode_utf16_nul(&[0x00, 0xD8, 0x41, 0x00]), None);
    assert_eq!(decode_utf16_nul(&[0x3D, 0xD8, 0x00, 0xDE]), Some("😀".to_string()));
}

#[test]
fn recycle_data_path_pairs_i_with_r() {
    assert_eq!(recycle_data_path(r"D:\$Recycle.Bin\S-1", "$IAB.txt"), Some(r"D:\$Recycle.Bin\S-1\$RAB.txt".to_string()));
    assert_eq!(recycle_data_path(r"D:\$Recycle.Bin\S-1", "desktop.ini"), None);
}

#[test]
fn walk_step_rules() {
    let cats = categories();
    let thumb = &cats[5];
    assert_eq!(walk_step(thumb, true, false, false, false, "sub"), WalkStep::Descend);
    assert_eq!(walk_step(thumb, true, true, false, false, "junction"), WalkStep::Skip);
    assert_eq!(walk_step(thumb, false, false, true, false, "thumbcache_1.db"), WalkStep::Take);
    assert_eq!(walk_step(thumb, false, false, true, true, "thumbcache_1.db"), WalkStep::Skip);
    assert_eq!(walk_step(thumb, false, false, true, false, "other.txt"), WalkStep::Skip);
}

#[test]
fn warnings_per_category() {
    let none: Vec<String> = vec![];
    let two = vec!["Chrome".to_string(), "Edge".to_string()];
    assert_eq!(
        warnings_for("browser", true, &two, false),
        (Some("检测到浏览器正在运行（Chrome、Edge），运行中被锁定的缓存文件将自动跳过".to_string()), false)
    );
    assert_eq!(warnings_for("browser", true, &none, false), (None, false));
    assert_eq!(
        warnings_for("update", false, &none, true),
        (Some("需要管理员权限才能清理 Windows 更新缓存".to_string()), true)
    );
    assert_eq!(
        warnings_for("update", true, &none, true),
        (Some("Windows 更新服务运行中，被占用的文件将自动跳过".to_string()), false)
    );
    assert_eq!(warnings_for("update", true, &none, false), (None, false));
    assert_eq!(
        warnings_for("logs", false, &none, false),
        (Some("非管理员模式下部分系统日志无法删除，将自动跳过".to_string()), false)
    );
    assert_eq!(warnings_for("temp", false, &none, false), (None, false));
}

#[test]
fn category_result_sums_files() {
    let cats = categories();
    let entries = vec![
        FileEntry { path: "a".to_string(), size: 10 },
        FileEntry { path: "b".to_string(), size: 32 },
    ];
    let r = category_result(&cats[3], &entries, false, &vec![], false);
    assert_eq!(r.id, "update");
    assert_eq!(r.risk, "medium");
    assert_eq!(r.file_count, 2);
    assert_eq!(r.total_size, 42);
    assert!(r.needs_admin && r.disabled);
}

#[test]
fn scan_plan_other_drive_has_only_recycle_bin() {
    let p = scan_plan("D", &env());
    assert_eq!(p.len(), 1);
    assert_eq!(p[0].index, 1);
    assert_eq!(p[0].roots, vec![r"D:\$Recycle.Bin".to_string()]);
    let c = scan_plan("c", &env());
    assert_eq!(c.iter().map(|t| t.index).collect::<Vec<_>>(), vec![0, 1, 2, 3, 4, 5]);
}

#[test]
fn scan_session_collects_categories() {
    let cats = categories();
    let mut s = ScanSession::new(3, "C".to_string());
    s.add_category(&cats[0], vec![FileEntry { path: "a".to_string(), size: 5 }], true, &vec![], false);
    s.add_category(&cats[4], vec![FileEntry { path: "b".to_string(), size: 7 }], true, &vec![], false);
    assert_eq!(s.found_totals(), (2, 12));
    s.finish(false);
    assert!(s.done && !s.cancelled);
    let files = s.files_of("logs").unwrap();
    assert_eq!(files.len(), 1);
    assert_eq!(files[0].path, "b");
    assert!(s.files_of("browser").is_none());
}
