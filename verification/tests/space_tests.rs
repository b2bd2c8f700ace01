use diskclear::space::{dominant_of, file_category, is_excluded_dir, node_to_dto, space_step, NodeData, SpaceStep, MAX_CHILDREN};

#[test]
fn file_category_maps_extensions() {
    assert_eq!(file_category("movie.mkv"), 1);
    assert_eq!(file_category("photo.JPG"), 2);
    assert_eq!(file_category("song.flac"), 3);
    assert_eq!(file_category("arch.7z"), 4);
    assert_eq!(file_category("disk.iso"), 5);
    assert_eq!(file_category("setup.exe"), 6);
    assert_eq!(file_category("readme.md"), 7);
    assert_eq!(file_category("unknown.xyz"), 0);
    assert_eq!(file_category("noext"), 0);
    assert_eq!(file_category("data.0f3a9b2c1d"), 0);
}

#[test]
fn file_category_hidden_name_is_other() {
    assert_eq!(file_category(".mkv"), 0);
}

#[test]
fn dominant_of_picks_largest_category() {
    let cats = [10, 5, 0, 0, 0, 0, 0, 0];
    assert_eq!(dominant_of(&cats), 0);
    let cats2 = [1, 2, 9, 0, 0, 0, 0, 0];
    assert_eq!(dominant_of(&cats2), 2);
}

#[test]
fn dominant_of_ties_go_to_first() {
    assert_eq!(dominant_of(&[0, 4, 4, 0, 0, 0, 0, 0]), 1);
}

#[test]
fn dto_depth_limit_and_has_children() {
    let mut nodes = Vec::new();
    nodes.push(NodeData { name: "root".into(), path: "C:\\".into(), parent: 0, ..Default::default() });
    for name in ["a", "b", "c", "d"].iter() {
        let idx = nodes.len();
        let parent = idx - 1;
        nodes.push(NodeData {
            name: name.to_string(),
            path: format!(r"C:\{}", name),
            parent,
            size: 10,
            file_count: 1,
            ..Default::default()
        });
        nodes[parent].children.push(idx);
    }
    let dto = node_to_dto(&nodes, 0, 0);
    let a = &dto.children[0];
    let b = &a.children[0];
    let c = &b.children[0];
    assert_eq!(c.name, "c");
    assert!(c.children.is_empty(), "超过 SERIALIZE_DEPTH 不应展开");
    assert!(c.has_children, "但应标记 has_children");
}

#[test]
fn dto_merges_overflow_into_other() {
    let mut nodes = Vec::new();
    nodes.push(NodeData { name: "root".into(), path: "C:\\".into(), parent: 0, ..Default::default() });
    let total = MAX_CHILDREN + 5;
    for i in 0..total {
        let idx = nodes.len();
        nodes.push(NodeData {
            name: format!("d{}", i),
            path: format!(r"C:\d{}", i),
            parent: 0,
            size: (i + 1) as u64,
            file_count: 1,
            ..Default::default()
        });
        nodes[0].children.push(idx);
    }
    nodes[0].size = (1..=total as u64).sum();
    nodes[0].file_count = total as u64;
    let dto = node_to_dto(&nodes, 0, 0);
    assert_eq!(dto.children.len(), MAX_CHILDREN, "应保留 MAX_CHILDREN-1 个 + 其他");
    let other = dto.children.last().unwrap();
    assert_eq!(other.name, "其他");
    assert!(!other.has_children);
    let expected_rest: u64 = (1..=6u64).sum();
    assert_eq!(other.size, expected_rest);
    let kept: u64 = dto.children[..MAX_CHILDREN - 1].iter().map(|c| c.size).sum();
    assert_eq!(kept + dto.children.last().unwrap().size, dto.size);
}

#[test]
fn is_excluded_dir_names() {
    assert!(is_excluded_dir("$Recycle.Bin"));
    assert!(is_excluded_dir("$DISKCLEAR"));
    assert!(is_excluded_dir("System Volume Information"));
    assert!(!is_excluded_dir("Program Files"));
}

#[test]
fn dto_children_add_up_to_children() {
    let mut nodes = Vec::new();
    nodes.push(NodeData { name: "root".into(), path: "C:\\".into(), parent: 0, ..Default::default() });
    for (i, size) in [5u64, 9, 2].iter().enumerate() {
        nodes.push(NodeData {
            name: format!("k{}", i),
            path: format!(r"C:\k{}", i),
            parent: 0,
            size: *size,
            file_count: 2,
            ..Default::default()
        });
        nodes[0].children.push(i + 1);
    }
    nodes[0].size = 16;
    nodes[0].file_count = 6;
    let dto = node_to_dto(&nodes, 0, 0);
    assert_eq!(dto.children.iter().map(|c| c.size).collect::<Vec<_>>(), vec![9, 5, 2]);
    assert_eq!(dto.children.iter().map(|c| c.size).sum::<u64>(), 16);
    assert_eq!(dto.children.iter().map(|c| c.file_count).sum::<u64>(), 6);
}

#[test]
fn space_step_rules() {
    assert_eq!(space_step(false, true, false, true, false, false, "link"), SpaceStep::SkipLink { counted: true });
    assert_eq!(space_step(false, false, true, false, false, true, "f"), SpaceStep::SkipLink { counted: false });
    assert_eq!(space_step(false, false, false, true, true, false, "$RECYCLE.BIN"), SpaceStep::Excluded);
    assert_eq!(space_step(false, false, false, true, true, false, "Users"), SpaceStep::Dir);
    assert_eq!(space_step(false, false, false, false, false, true, "a.txt"), SpaceStep::File);
    assert_eq!(space_step(true, false, true, true, true, false, "junction"), SpaceStep::Other);
    assert_eq!(space_step(true, false, true, false, false, true, "dedup.bin"), SpaceStep::File);
    assert_eq!(space_step(true, false, false, true, true, false, "System Volume Information"), SpaceStep::Other);
}
