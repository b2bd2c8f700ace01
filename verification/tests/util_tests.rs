use diskclear::util::{
    drive_info_from, drive_letter_of, drive_root_of, drive_type_name, long_path, normalize_path, running_browsers,
    running_process_set, wuauserv_running,
};

#[test]
fn long_path_prefixes_absolute() {
    assert_eq!(long_path(r"C:\a\b.txt"), r"\\?\C:\a\b.txt");
    assert_eq!(long_path(r"\\server\share\a"), r"\\?\UNC\server\share\a");
    assert_eq!(long_path(r"\\?\C:\already.txt"), r"\\?\C:\already.txt");
}

#[test]
fn long_path_leaves_relative_paths() {
    assert_eq!(long_path(r"rel\a.txt"), r"rel\a.txt");
}

#[test]
fn drive_root_extracts_letter() {
    assert_eq!(drive_root_of(r"c:\Users\x\y"), Some(r"C:\".to_string()));
    assert_eq!(drive_root_of("relative\\path"), None);
}

#[test]
fn drive_letter_is_upper_case() {
    assert_eq!(drive_letter_of(r"d:\x"), Some("D".to_string()));
    assert_eq!(drive_letter_of(r"x"), None);
}

#[test]
fn normalize_path_strips_verbatim_prefix() {
    assert_eq!(normalize_path(r"\\?\C:\a\b"), r"C:\a\b");
    assert_eq!(normalize_path(r"C:\a\b"), r"C:\a\b");
}

#[test]
fn drive_info_skips_network_and_optical() {
    let d = drive_info_from(2, true, 100, 30, 3, "NTFS".to_string()).unwrap();
    assert_eq!(d.letter, "C");
    assert_eq!(d.used_bytes, 70);
    assert_eq!(d.drive_type, "fixed");
    assert_eq!(d.fs_name, "NTFS");
    assert!(drive_info_from(3, true, 100, 30, 4, String::new()).is_none());
    assert!(drive_info_from(3, true, 100, 30, 5, String::new()).is_none());
    assert!(drive_info_from(3, false, 100, 30, 3, String::new()).is_none());
    assert!(drive_info_from(3, true, 0, 0, 3, String::new()).is_none());
    assert_eq!(drive_type_name(2), "removable");
    assert_eq!(drive_type_name(99), "unknown");
}

#[test]
fn running_browsers_from_tasklist() {
    let out = "\"Chrome.exe\",\"1\",\"Console\"\r\n\"firefox.exe\",\"2\",\"Console\"\r\n\"chrome.exe\",\"3\",\"Console\"\r\n";
    let mut procs = running_process_set(out);
    procs.sort();
    assert_eq!(procs, vec!["chrome.exe".to_string(), "firefox.exe".to_string()]);
    assert_eq!(running_browsers(out), vec!["Chrome".to_string(), "Firefox".to_string()]);
    assert!(running_browsers("").is_empty());
}

#[test]
fn wuauserv_running_reads_state() {
    assert!(wuauserv_running("SERVICE_NAME: wuauserv\n STATE : 4 RUNNING\n"));
    assert!(!wuauserv_running("SERVICE_NAME: wuauserv\n STATE : 1 STOPPED\n"));
}
