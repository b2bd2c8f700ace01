use diskclear::walker::{
    fnv64a, md5_hex, walk_entry, worker_count, Collector, EntryAction, Md5Stream, WalkCounters, WalkFile, WalkMsg,
    WalkQueue,
};

#[test]
fn fnv64a_known_vectors() {
    assert_eq!(fnv64a(b""), 0xcbf2_9ce4_8422_2325);
    assert_eq!(fnv64a(b"a"), 0xaf63_dc4c_8601_ec8c);
    assert_eq!(fnv64a(b"foobar"), 0x85944171f73967e8);
}

#[test]
fn md5_known_vector() {
    assert_eq!(md5_hex(b"abc"), "900150983cd24fb0d6963f7d28e17f72");
}

#[test]
fn md5_stream_matches_one_shot() {
    let mut s = Md5Stream::new();
    s.update(b"a");
    s.update(b"bc");
    assert_eq!(s.finish_hex(), md5_hex(b"abc"));
    assert_eq!(md5_hex(b""), "d41d8cd98f00b204e9800998ecf8427e");
}

#[test]
fn worker_count_is_clamped() {
    assert_eq!(worker_count(0), 1);
    assert_eq!(worker_count(4), 4);
    assert_eq!(worker_count(100), 16);
}

#[test]
fn walk_queue_finishes_when_all_dirs_done() {
    let mut q = WalkQueue::new(vec!["A".to_string()]);
    assert!(!q.is_done());
    let d = q.take().unwrap();
    assert_eq!(d, "A");
    q.discover("A\\b".to_string());
    q.finish();
    assert!(!q.is_done());
    assert_eq!(q.take().as_deref(), Some("A\\b"));
    assert!(q.take().is_none());
    q.finish();
    assert!(q.is_done());
}

#[test]
fn walk_entry_actions() {
    assert_eq!(walk_entry(true, false, false, false, 0, 10), EntryAction::Enqueue);
    assert_eq!(walk_entry(true, false, false, true, 0, 10), EntryAction::Skip);
    assert_eq!(walk_entry(true, false, true, false, 0, 10), EntryAction::Skip);
    assert_eq!(walk_entry(false, true, false, false, 10, 10), EntryAction::Report);
    assert_eq!(walk_entry(false, true, false, false, 9, 10), EntryAction::Count);
    assert_eq!(walk_entry(false, true, true, false, 99, 10), EntryAction::Skip);
}

#[test]
fn counters_and_collector() {
    let mut c = WalkCounters::new();
    c.count_file(5);
    c.count_file(7);
    c.skip_dir();
    assert_eq!(c.files_seen, 2);
    assert_eq!(c.bytes_seen, 12);
    assert_eq!(c.skipped_dirs, 1);

    let mut col = Collector::new();
    col.receive(WalkMsg::File(WalkFile { path: "a".to_string(), size: 1, modified_ms: 0, is_cloud: false }), 1);
    col.receive(WalkMsg::File(WalkFile { path: "b".to_string(), size: 1, modified_ms: 0, is_cloud: false }), 1);
    col.receive(WalkMsg::Done, 1);
    assert_eq!(col.files.len(), 1);
    assert!(col.truncated);
    assert!(col.all_done(1));
    assert!(!col.all_done(2));
}
