use electrolysis::calendar::utc_timestamp;
use electrolysis::mapper::{
    diff_maps, split_typed_path, DiffStatus, FileNode, ProjectMap, ProjectMeta,
};

#[test]
fn utc_timestamp_format() {
    let ts = utc_timestamp();
    // Basic shape: "YYYY-MM-DDTHH:MM:SSZ"
    assert_eq!(ts.len(), 20);
    assert!(ts.ends_with('Z'));
    assert_eq!(&ts[4..5], "-");
}

#[test]
fn split_typed_path_works() {
    let (isa, path) = split_typed_path("PBXFileReference[MyApp.xcodeproj/Sources/Foo.swift]");
    assert_eq!(isa, "PBXFileReference");
    assert_eq!(path, "MyApp.xcodeproj/Sources/Foo.swift");
}

#[test]
fn diff_identical_maps_reports_no_changes() {
    // Minimal maps with one file each.
    let node = FileNode {
        uuid: "AA".into(), isa: "PBXGroup".into(), name: "Root".into(),
        path: None, source_tree: None, file_type: None, children: vec![],
    };
    let map = ProjectMap {
        version: "1".into(),
        generated: "2026-01-01T00:00:00Z".into(),
        project: ProjectMeta { name: "Test".into(), configurations: vec![] },
        targets: vec![],
        file_tree: node.clone(),
        uuid_table: vec![],
    };
    let diff = diff_maps(&map, &map);
    assert_eq!(diff.status, DiffStatus::Identical);
}
