use diskclear::arena::{Arena, SpaceSession};

#[test]
fn build_and_accumulate_subtree() {
    let mut a = Arena::new("C:".to_string(), r"C:\");
    let app = a.add_dir(0, "app".to_string(), r"C:\app");
    let data = a.add_dir(app, "data".to_string(), r"C:\app\data");
    a.add_file(0, "root.bin", 100);
    a.add_file(app, "a.txt", 200);
    a.add_file(data, "b.bin", 400);
    let s = SpaceSession::finish(1, "C".to_string(), a, 2, 0);
    let r = s.get_result();
    assert_eq!(r.total_bytes, 700);
    assert_eq!(r.file_count, 3);
    assert_eq!(r.dir_count, 3);
    let app_dto = &r.root.children[0];
    assert_eq!(app_dto.name, "app");
    assert_eq!(app_dto.size, 600);
    assert_eq!(app_dto.children[0].size, 400);
}

#[test]
fn merged_subtrees_add_up() {
    let mut a = Arena::new("D:".to_string(), r"D:\");
    a.add_file(0, "x.mkv", 5);
    let mut sub = Arena::new("big".to_string(), r"D:\big");
    let inner = sub.add_dir(0, "in".to_string(), r"D:\big\in");
    sub.add_file(inner, "y.iso", 50);
    sub.add_file(0, "z.jpg", 7);
    a.merge(&sub);
    let s = SpaceSession::finish(2, "D".to_string(), a, 2, 1);
    let r = s.get_result();
    assert_eq!(r.total_bytes, 62);
    assert_eq!(r.file_count, 3);
    assert_eq!(r.skipped_dirs, 1);
    let d = s.get_dir_detail(r"d:\BIG").unwrap();
    assert_eq!(d.size, 57);
    assert_eq!(d.dominant, 5);
    assert_eq!(d.children.len(), 1);
    assert_eq!(d.children[0].path, r"D:\big\in");
    assert!(s.get_dir_detail(r"D:\nowhere").is_none());
}
