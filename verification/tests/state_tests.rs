use diskclear::bigfiles::{self, LargeFile, LargeScanSession};
use diskclear::commands::{get_dupe_scan_result, get_large_scan_result, get_scan_result};
use diskclear::dupes::{self, DupeScanSession};
use diskclear::scan::{cancel_scan, ScanSession};
use diskclear::space;
use diskclear::state::{AppState, SessionStore};

#[test]
fn sessions_get_increasing_ids() {
    let mut st = AppState::new();
    assert_eq!(st.begin_session(), 1);
    assert_eq!(st.begin_session(), 2);
    assert!(!st.is_cancelled(1));
    assert_eq!(st.next_session, 3);
}

#[test]
fn cancel_sets_only_registered_flags() {
    let mut st = AppState::new();
    let id = st.begin_session();
    cancel_scan(&mut st, id);
    assert!(st.is_cancelled(id));
    cancel_scan(&mut st, 99);
    assert!(!st.is_cancelled(99));
    let other = st.begin_session();
    bigfiles::cancel(&mut st, other);
    assert!(st.is_cancelled(other));
    let d = st.begin_session();
    dupes::cancel(&mut st, d);
    let s = st.begin_session();
    space::cancel(&mut st, s);
    assert!(st.is_cancelled(d) && st.is_cancelled(s));
}

#[test]
fn store_keeps_newest_sessions() {
    let mut s: SessionStore<u32> = SessionStore::new();
    for id in 1..=5u32 {
        s.evict_oldest(3);
        s.insert(id, id * 10);
    }
    assert_eq!(s.len(), 3);
    assert!(s.get(2).is_none());
    assert_eq!(s.get(3), Some(&30));
    assert_eq!(s.get(5), Some(&50));
    s.insert(5, 7);
    assert_eq!(s.get(5), Some(&7));
    assert_eq!(s.len(), 3);
}

#[test]
fn scan_result_reports_cancel_flag() {
    let mut st = AppState::new();
    let id = st.begin_session();
    let mut sess = ScanSession::new(id, "C".to_string());
    sess.finish(false);
    st.sessions.insert(id, sess);
    let r = get_scan_result(&st, id).ok().unwrap();
    assert_eq!(r.session_id, id);
    assert!(r.done && !r.cancelled);
    cancel_scan(&mut st, id);
    assert!(get_scan_result(&st, id).ok().unwrap().cancelled);
    assert_eq!(get_scan_result(&st, 77).err(), Some("会话不存在".to_string()));
}

#[test]
fn large_and_dupe_results_are_copies() {
    let mut st = AppState::new();
    let files = vec![LargeFile { path: "a".to_string(), size: 9, modified_ms: 1, is_cloud: false }];
    st.big_sessions.insert(4, LargeScanSession::new(4, "D".to_string(), files, 9, false, 0));
    let r = get_large_scan_result(&st, 4).ok().unwrap();
    assert_eq!(r.files[0].path, "a");
    assert_eq!(r.total_bytes, 9);
    assert!(bigfiles::get_result(&st, 5).is_none());
    assert_eq!(get_large_scan_result(&st, 5).err(), Some("扫描会话不存在".to_string()));

    st.dupe_sessions.insert(6, DupeScanSession::empty(6, "E".to_string(), 3, 1, false));
    let d = get_dupe_scan_result(&st, 6).ok().unwrap();
    assert_eq!(d.drive, "E");
    assert_eq!(d.walked_files, 3);
    assert_eq!(get_dupe_scan_result(&st, 7).err(), Some("扫描会话不存在".to_string()));
    assert!(space::get_result(&st, 1).is_none());
    assert!(space::get_dir_detail(&st, 1, r"C:\").is_none());
}

#[test]
fn new_state_has_a_clean_empty_cache() {
    let mut st = AppState::new();
    assert!(!st.hash_cache.take_dirty());
    assert!(st.hash_cache.saved_entries().is_empty());
}
