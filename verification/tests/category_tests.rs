use diskclear::category::{categories, matches_name, roots_for, CategoryDef, NameMatch, Risk, RootEnv};

fn env() -> RootEnv {
    RootEnv {
        local_app_data: r"C:\Users\u\AppData\Local".to_string(),
        system_drive: "C:".to_string(),
        temp: r"C:\Users\u\AppData\Local\Temp".to_string(),
        browser_roots: vec![],
    }
}

#[test]
fn thumbnail_matcher_only_cache_db() {
    let cat = CategoryDef {
        id: "thumbnail",
        name: "缩略图缓存",
        desc: "",
        risk: Risk::Low,
        needs_admin: false,
        name_match: NameMatch::CacheDb(&["thumbcache_", "iconcache_"]),
    };
    assert!(matches_name(&cat, "thumbcache_1024.db"));
    assert!(matches_name(&cat, "iconcache_768.db"));
    assert!(!matches_name(&cat, "other.db"));
    assert!(!matches_name(&cat, "thumbstore.idx"));
}

#[test]
fn recycle_root_uses_selected_drive() {
    let roots = roots_for("recycle", "D", &env());
    assert_eq!(roots[0], r"D:\$Recycle.Bin");
}

#[test]
fn cache_db_match_ignores_case() {
    let cat = CategoryDef {
        id: "thumbnail",
        name: "缩略图缓存",
        desc: "",
        risk: Risk::Low,
        needs_admin: false,
        name_match: NameMatch::CacheDb(&["thumbcache_"]),
    };
    assert!(matches_name(&cat, "ThumbCache_32.DB"));
}

#[test]
fn any_matcher_takes_every_file() {
    let cats = categories();
    assert_eq!(cats.len(), 6);
    let any = cats.iter().find(|c| matches!(c.name_match, NameMatch::Any)).unwrap();
    assert!(matches_name(any, "whatever.bin"));
}

#[test]
fn temp_roots_only_on_system_drive() {
    let on_c = roots_for("temp", "C", &env());
    assert_eq!(on_c, vec![r"C:\Users\u\AppData\Local\Temp".to_string(), r"C:\Windows\Temp".to_string()]);
    let on_d = roots_for("temp", "D", &env());
    assert!(on_d.is_empty());
}
