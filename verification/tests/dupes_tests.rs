use diskclear::dupes::{
    group_u64_keys, hash_groups, make_group, pick_keep, prescreen_group, rank_groups, size_groups, DupeFile, DupeGroup,
    DupeScanSession, HashBudget, MAX_HASHED_FILES, MIN_FILE_BYTES,
};
use diskclear::walker::WalkFile;

fn f(path: &str, mtime: u64) -> DupeFile {
    DupeFile { path: path.to_string(), size: 10, modified_ms: mtime, is_cloud: false }
}

fn w(path: &str, size: u64, mtime: u64) -> WalkFile {
    WalkFile { path: path.to_string(), size, modified_ms: mtime, is_cloud: false }
}

#[test]
fn keep_prefers_newest_mtime_then_shortest_path() {
    let files = vec![
        f(r"C:\a\very\long\path\file.txt", 100),
        f(r"C:\b\file.txt", 300),
        f(r"C:\c\file.txt", 200),
    ];
    assert_eq!(pick_keep(&files), 1);

    let tie = vec![f(r"C:\aaaa\bbbb\file.txt", 100), f(r"C:\short.txt", 100)];
    assert_eq!(pick_keep(&tie), 1);
}

#[test]
fn wasted_is_size_times_extra_copies() {
    let g = DupeGroup { hash: "x".into(), size: 1000, files: vec![f("a", 1), f("b", 2), f("c", 3)], keep_index: 0 };
    assert_eq!(g.wasted(), 2000);
}

#[test]
fn pick_keep_counts_path_bytes_not_chars() {
    // Two CJK characters take 6 bytes; the ASCII name is 5 bytes long.
    let files = vec![f("文档", 5), f("abcde", 5)];
    assert_eq!(pick_keep(&files), 1);
    assert_eq!(pick_keep(&[]), 0);
}

#[test]
fn group_keys_in_first_appearance_order() {
    let (keys, groups) = group_u64_keys(&vec![Some(5), None, Some(3), Some(5), Some(3), Some(7)]);
    assert_eq!(keys, vec![5, 3, 7]);
    assert_eq!(groups, vec![vec![0, 3], vec![2, 4], vec![5]]);
}

#[test]
fn size_groups_keep_multi_candidate_sizes_largest_first() {
    let m = MIN_FILE_BYTES;
    let files = vec![
        w("a", m, 1),
        w("b", 2 * m, 1),
        w("c", m, 1),
        w("d", 2 * m, 1),
        w("e", 3 * m, 1),
        w("tiny1", 10, 1),
        w("tiny2", 10, 1),
    ];
    let groups = size_groups(&files);
    assert_eq!(groups.len(), 2);
    assert_eq!(groups[0].iter().map(|x| x.path.as_str()).collect::<Vec<_>>(), vec!["b", "d"]);
    assert_eq!(groups[1].iter().map(|x| x.path.as_str()).collect::<Vec<_>>(), vec!["a", "c"]);
}

#[test]
fn prescreen_groups_by_head_hash() {
    let m = MIN_FILE_BYTES;
    let group = vec![w("a", m, 1), w("b", m, 1), w("c", m, 1)];
    let heads = vec![Some(b"xx".to_vec()), Some(b"yy".to_vec()), Some(b"xx".to_vec())];
    let r = prescreen_group(&group, &heads);
    assert_eq!(r.len(), 1);
    assert_eq!(r[0].iter().map(|x| x.path.as_str()).collect::<Vec<_>>(), vec!["a", "c"]);
    let unreadable = vec![None, None, None];
    assert!(prescreen_group(&group, &unreadable).is_empty());
}

#[test]
fn hash_groups_make_groups_newest_first() {
    let m = MIN_FILE_BYTES;
    let files = vec![w("a", m, 1), w("b", m, 3), w("c", m, 2), w("d", m, 9)];
    let hashes = vec![Some("h1".to_string()), Some("h1".to_string()), Some("h1".to_string()), None];
    let g = hash_groups(m, &files, &hashes);
    assert_eq!(g.len(), 1);
    assert_eq!(g[0].hash, "h1");
    assert_eq!(g[0].files.iter().map(|x| x.path.as_str()).collect::<Vec<_>>(), vec!["b", "c", "a"]);
    assert_eq!(g[0].keep_index, 0);
}

#[test]
fn make_group_keeps_newest() {
    let g = make_group("h".to_string(), 5, &vec![w("old", 5, 1), w("new", 5, 2)]);
    assert_eq!(g.files[g.keep_index].path, "new");
    assert_eq!(g.size, 5);
}

#[test]
fn rank_groups_by_wasted_space() {
    let small = DupeGroup { hash: "s".into(), size: 10, files: vec![f("a", 1), f("b", 1)], keep_index: 0 };
    let big = DupeGroup { hash: "b".into(), size: 10, files: vec![f("a", 1), f("b", 1), f("c", 1)], keep_index: 0 };
    let r = rank_groups(&vec![small, big]);
    assert_eq!(r.iter().map(|g| g.hash.as_str()).collect::<Vec<_>>(), vec!["b", "s"]);
}

#[test]
fn empty_session_is_done() {
    let s = DupeScanSession::empty(4, "C".to_string(), 10, 2, true);
    assert!(s.done && s.truncated && s.groups.is_empty());
    assert_eq!(s.walked_files, 10);
}

#[test]
fn hash_budget_stops_at_limit() {
    let mut b = HashBudget::new();
    assert!(b.allows_another());
    b.count();
    assert_eq!(b.hashed, 1);
    b.hashed = MAX_HASHED_FILES;
    assert!(!b.allows_another());
    assert!(b.truncated);
}
