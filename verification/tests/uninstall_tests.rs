use diskclear::uninstall::{
    dir_match_reason, env_refs, expand_env, format_install_date, install_location_dir, is_self, list_installed_apps,
    normalize_msi_args, normalize_text, parse_uninstall_string, parse_uwp_output, publisher_tokens, rank_residues,
    registry_app, scan_residues, split_args, uninstall_command, uninstall_probes, uwp_remove_script, InstalledApp,
    RegistryApp, ResidueCandidate, ResiduePick, MAX_RESIDUES,
};

/// Splits as if none of the probed paths existed on disk.
fn parse_no_files(s: &str) -> Option<(String, String)> {
    let probes = vec![false; uninstall_probes(s).len()];
    parse_uninstall_string(s, &probes)
}

#[test]
fn parse_uninstall_string_quoted_with_args() {
    let (p, a) = parse_no_files(r#""C:\Program Files\App\unins000.exe" /SILENT /LANG=zh"#).unwrap();
    assert_eq!(p, r"C:\Program Files\App\unins000.exe");
    assert_eq!(a, "/SILENT /LANG=zh");
}

#[test]
fn parse_uninstall_string_msiexec() {
    let (p, a) = parse_no_files(r"MsiExec.exe /I{A1B2C3D4-0000-1111-2222-333344445555}").unwrap();
    assert_eq!(p, "MsiExec.exe");
    assert_eq!(normalize_msi_args(&a), "/X{A1B2C3D4-0000-1111-2222-333344445555}");
    assert_eq!(normalize_msi_args("/X{GUID}"), "/X{GUID}");
    assert_eq!(normalize_msi_args(" /I {GUID} "), "/X {GUID}");
}

#[test]
fn parse_uninstall_string_unquoted_with_spaces() {
    // The prefix that names an existing file is the program.
    let s = r"C:\My App Tools\tool.exe --quiet";
    let probes: Vec<bool> = uninstall_probes(s).iter().map(|p| p == r"C:\My App Tools\tool.exe").collect();
    let (p, a) = parse_uninstall_string(s, &probes).unwrap();
    assert_eq!(p, r"C:\My App Tools\tool.exe");
    assert_eq!(a, "--quiet");
}

#[test]
fn parse_uninstall_string_no_space_fallback() {
    let (p, a) = parse_no_files(r"C:\Nothing\Here\un.exe").unwrap();
    assert_eq!(p, r"C:\Nothing\Here\un.exe");
    assert_eq!(a, "");
    assert!(parse_no_files("   ").is_none());
}

#[test]
fn unquoted_without_existing_prefix_splits_at_first_space() {
    let (p, a) = parse_no_files(r"C:\Prog\un.exe /S /X").unwrap();
    assert_eq!(p, r"C:\Prog\un.exe");
    assert_eq!(a, "/S /X");
}

#[test]
fn split_args_respects_quotes() {
    let v = split_args(r#"/SILENT /DIR="C:\Program Files\App""#);
    assert_eq!(v, vec!["/SILENT", "/DIR=C:\\Program Files\\App"]);
}

#[test]
fn normalize_text_keeps_cjk_drops_punct() {
    assert_eq!(normalize_text("AVG Antivirus 2024!"), "avgantivirus2024");
    assert_eq!(normalize_text("腾讯 会议（Pro）"), "腾讯会议pro");
}

#[test]
fn publisher_tokens_filter_generic_words() {
    assert_eq!(publisher_tokens("VideoLAN Organization"), vec!["videolan"]);
    assert!(publisher_tokens("Microsoft Corporation").is_empty());
    assert_eq!(publisher_tokens("7-Zip Development Team"), vec!["development"]);
}

#[test]
fn dir_match_reason_rules() {
    assert_eq!(dir_match_reason("avgantivirus", "avg", &[]), None);
    assert_eq!(dir_match_reason("avg", "avg", &[]), Some("名称匹配"));
    assert_eq!(dir_match_reason("microsoftvscode", "vscode", &[]), Some("名称匹配"));
    assert_eq!(dir_match_reason("videolan", "vlc", &["videolan".to_string()]), Some("发布者匹配"));
    assert_eq!(dir_match_reason("nothing", "xyz", &[]), None);
    assert_eq!(dir_match_reason("a", "a", &[]), Some("名称匹配"));
    assert_eq!(dir_match_reason("ab", "a", &[]), None);
}

#[test]
fn expand_env_resolves_defined_and_keeps_unknown() {
    let s = "%DC_TEST_VAR_XYZ%\\a";
    assert_eq!(env_refs(s), vec!["DC_TEST_VAR_XYZ".to_string()]);
    assert_eq!(expand_env(s, &vec![Some("C:/tmp".to_string())]), "C:/tmp\\a");
    let u = "%DC_NO_SUCH_VAR_QQ%\\a";
    assert_eq!(expand_env(u, &vec![None]), "%DC_NO_SUCH_VAR_QQ%\\a");
}

#[test]
fn format_install_date_compacts() {
    assert_eq!(format_install_date("20250103"), "2025-01-03");
    assert_eq!(format_install_date("unknown"), "unknown");
}

#[test]
fn is_self_recognises_this_application() {
    assert!(is_self("DiskClear 2.0"));
    assert!(is_self("盘清"));
    assert!(!is_self("VLC media player"));
}

#[test]
fn uninstall_command_normalises_msi_and_splits() {
    let (p, a) = uninstall_command(r"MsiExec.exe /I{G}", &vec![false, false]).unwrap();
    assert_eq!(p, "MsiExec.exe");
    assert_eq!(a, vec!["/X{G}".to_string()]);
    assert_eq!(uninstall_command("  ", &vec![]), Err("无法解析卸载命令".to_string()));
}

#[test]
fn uwp_remove_script_needs_package_name() {
    assert_eq!(uwp_remove_script(" Pkg_1.0 "), Ok("Remove-AppxPackage -Package 'Pkg_1.0'".to_string()));
    assert_eq!(uwp_remove_script("  "), Err("缺少 UWP 包标识（PackageFullName）".to_string()));
}

fn reg(sub: &str, name: &str, version: &str, un: &str) -> RegistryApp {
    RegistryApp {
        key_path: r"SOFTWARE\Microsoft\Windows\CurrentVersion\Uninstall".to_string(),
        sub: sub.to_string(),
        system_component: None,
        display_name: Some(name.to_string()),
        uninstall_string: Some(un.to_string()),
        version: Some(version.to_string()),
        publisher: Some("Pub".to_string()),
        install_date: Some("20240102".to_string()),
        estimated_size_kb: Some(2),
        install_location: Some(r"%ROOT%\App\".to_string()),
        location_env: vec![Some(r"D:\Apps".to_string())],
    }
}

#[test]
fn registry_app_reads_and_filters() {
    let a = registry_app(&reg("k1", " Zed ", "1.0", "un.exe")).unwrap();
    assert_eq!(a.id, r"SOFTWARE\Microsoft\Windows\CurrentVersion\Uninstall\k1");
    assert_eq!(a.name, "Zed");
    assert_eq!(a.install_date, "2024-01-02");
    assert_eq!(a.estimated_size, 2048);
    assert_eq!(a.install_location, r"D:\Apps\App");
    assert!(!a.is_uwp);
    let mut sys = reg("k2", "Zed", "1.0", "un.exe");
    sys.system_component = Some(1);
    assert!(registry_app(&sys).is_none());
    assert!(registry_app(&reg("k3", "KB123 Security Update", "1", "un.exe")).is_none());
    assert!(registry_app(&reg("k4", "Zed", "1", "  ")).is_none());
    assert!(registry_app(&reg("k5", "DiskClear", "1", "un.exe")).is_none());
}

#[test]
fn list_installed_apps_dedups_and_sorts_by_name() {
    let records = vec![
        reg("k1", "beta", "1", "b.exe"),
        reg("k2", "Alpha", "1", "a.exe"),
        reg("k3", "BETA", "1", "b.exe"),
    ];
    let uwp = parse_uwp_output("N:Gamma\tP:CN=G\tL:C:\\G\tF:Gamma_1.0_x64\tV:1.0\nnoise\n");
    assert_eq!(uwp.len(), 1);
    assert_eq!(uwp[0].id, "uwp:Gamma_1.0_x64");
    let apps: Vec<InstalledApp> = list_installed_apps(&records, &uwp);
    let names: Vec<&str> = apps.iter().map(|a| a.name.as_str()).collect();
    assert_eq!(names, vec!["Alpha", "beta", "Gamma"]);
}

#[test]
fn scan_roots_for_match_finds_and_excludes() {
    let roots = vec![r"C:\PF".to_string()];
    let dirs = vec![
        ResidueCandidate { path: r"C:\PF\AVG Antivirus".to_string(), dir_name: "AVG Antivirus".to_string() },
        ResidueCandidate { path: r"C:\PF\Nothing".to_string(), dir_name: "Nothing".to_string() },
    ];
    let picks = scan_residues("AVG Antivirus", "AVG Technologies", None, &roots, &dirs);
    assert_eq!(picks.len(), 1, "应只命中 AVG Antivirus");
    assert!(picks[0].path.contains("AVG Antivirus"));
    assert_eq!(picks[0].reason, "名称匹配");
    let out = rank_residues(&picks, &vec![100]);
    assert_eq!(out[0].size, 100);
    assert_eq!(out[0].reason, "名称匹配");

    let out2 = scan_residues(" Totally Unrelated ", "AVG Technologies", None, &roots, &dirs);
    assert!(out2.is_empty(), "名称无关时不应误报");

    let out3 = scan_residues("DiskClear 盘清", "DiskClear", None, &roots, &dirs);
    assert!(out3.is_empty());
}

#[test]
fn residues_include_install_location_once() {
    let roots = vec![r"C:\PF".to_string()];
    let dirs = vec![ResidueCandidate { path: r"c:\pf\vlc".to_string(), dir_name: "VLC".to_string() }];
    let il = install_location_dir(r" C:\PF\VLC\ ");
    assert_eq!(il, Some(r"C:\PF\VLC".to_string()));
    let picks = scan_residues("VLC", "VideoLAN", il, &roots, &dirs);
    assert_eq!(picks.len(), 1);
    assert_eq!(picks[0].reason, "注册表安装位置");
    let outside = scan_residues("VLC", "VideoLAN", Some(r"E:\VLC".to_string()), &roots, &vec![]);
    assert!(outside.is_empty());
}

#[test]
fn residues_capped_and_ranked_by_size() {
    let roots = vec![r"C:\PF".to_string()];
    let dirs: Vec<ResidueCandidate> = (0..60)
        .map(|i| ResidueCandidate { path: format!(r"C:\PF\zedit{}", i), dir_name: format!("zedit{}", i) })
        .collect();
    let picks = scan_residues("Zedit", "", None, &roots, &dirs);
    assert_eq!(picks.len(), MAX_RESIDUES);
    let sizes: Vec<u64> = (0..picks.len() as u64).collect();
    let ranked = rank_residues(&picks, &sizes);
    assert_eq!(ranked[0].size, MAX_RESIDUES as u64 - 1);
    assert_eq!(ranked[MAX_RESIDUES - 1].size, 0);
    let p = ResiduePick { path: "x".to_string(), reason: "y".to_string() };
    assert_eq!(rank_residues(&vec![p], &vec![3])[0].path, "x");
}
