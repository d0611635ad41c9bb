use electrolysis::mapper::{
    diff_maps, BuildFileMap, BuildPhaseMap, DiffStatus, FileNode, ProjectMap, ProjectMeta,
    TargetMap, UuidRecord,
};
use electrolysis::report::{report, Change};

fn node(isa: &str, name: &str, children: Vec<FileNode>) -> FileNode {
    FileNode {
        uuid: format!("U{name}"),
        isa: isa.to_string(),
        name: name.to_string(),
        path: None,
        source_tree: None,
        file_type: None,
        children,
    }
}

fn map(targets: Vec<TargetMap>, tree: FileNode, rows: &[(&str, &str)]) -> ProjectMap {
    ProjectMap {
        version: "1".to_string(),
        generated: "2026-01-01T00:00:00Z".to_string(),
        project: ProjectMeta { name: "App".to_string(), configurations: vec![] },
        targets,
        file_tree: tree,
        uuid_table: rows
            .iter()
            .map(|(u, p)| {
                (u.to_string(), UuidRecord { isa: "PBXGroup".to_string(), path: p.to_string() })
            })
            .collect(),
    }
}

fn target(name: &str, file: &str) -> TargetMap {
    TargetMap {
        uuid: format!("U{name}"),
        name: name.to_string(),
        product_name: name.to_string(),
        product_type: None,
        configurations: vec![],
        dependencies: vec![],
        build_phases: vec![BuildPhaseMap {
            uuid: "P".to_string(),
            phase_type: "PBXSourcesBuildPhase".to_string(),
            name: None,
            files: vec![BuildFileMap {
                uuid: "B".to_string(),
                path: file.to_string(),
                settings: None,
            }],
        }],
    }
}

fn old_map() -> ProjectMap {
    map(
        vec![target("App", "a.swift")],
        node("PBXGroup", "Root", vec![node("PBXFileReference", "a.swift", vec![])]),
        &[("11", "App/Root"), ("22", "App/Root/a.swift")],
    )
}

fn new_map() -> ProjectMap {
    map(
        vec![target("App", "b.swift"), target("Tests", "b.swift")],
        node("PBXGroup", "Root", vec![node("PBXFileReference", "b.swift", vec![])]),
        &[("33", "App/Root"), ("44", "App/Root/b.swift")],
    )
}

#[test]
fn differences_are_found_and_reported() {
    let d = diff_maps(&old_map(), &new_map());
    assert_eq!(d.status, DiffStatus::HasChanges);
    assert_eq!(d.added.targets, ["Tests"]);
    assert!(d.removed.targets.is_empty());
    assert_eq!(d.uuid_changes.len(), 1);
    assert_eq!(d.uuid_changes[0].old_uuid, "11");
    assert_eq!(d.uuid_changes[0].new_uuid, "33");

    let rows = report(&d);
    assert!(rows[0].heading && rows[0].change == Change::Added);
    assert_eq!(rows[0].text, "added targets");
    assert!(!rows[1].heading);
    assert_eq!(rows[1].text, "Tests");
    let last = rows.last().unwrap();
    assert_eq!(last.change, Change::Renumbered);
    assert_eq!(last.text, "11 → 33  (App/Root)");
    assert_eq!(rows[rows.len() - 2].text, "UUID changes");
}

#[test]
fn what_is_added_one_way_is_removed_the_other() {
    let there = diff_maps(&old_map(), &new_map());
    let back = diff_maps(&new_map(), &old_map());
    assert_eq!(there.added.targets, back.removed.targets);
    assert_eq!(there.added.files, back.removed.files);
    assert_eq!(there.removed.files, back.added.files);
    assert_eq!(there.added.build_phase_entries, back.removed.build_phase_entries);
    assert_eq!(there.removed.build_phase_entries, back.added.build_phase_entries);
}

#[test]
fn equal_maps_have_nothing_to_report() {
    let d = diff_maps(&old_map(), &old_map());
    assert_eq!(d.status, DiffStatus::Identical);
    assert!(report(&d).is_empty());
}

#[test]
fn uuid_changes_are_told_backwards_with_their_paths() {
    let there = diff_maps(&old_map(), &new_map());
    let back = diff_maps(&new_map(), &old_map());
    assert_eq!(there.uuid_changes.len(), 1);
    assert_eq!(back.uuid_changes.len(), 1);
    assert_eq!(there.uuid_changes[0].path, back.uuid_changes[0].path);
    assert_eq!(there.uuid_changes[0].old_uuid, back.uuid_changes[0].new_uuid);
    assert_eq!(there.uuid_changes[0].new_uuid, back.uuid_changes[0].old_uuid);
}
