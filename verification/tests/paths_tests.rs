use electrolysis::paths::{
    default_map_path, directory, extension, file_name, file_stem, infer_project_name, join, parent,
    with_extension,
};
use std::path::Path;

const PATHS: [&str; 16] = [
    "",
    "/",
    "a",
    "a/",
    "a/b",
    "/a",
    "/a/b.c",
    "a//b",
    "a/./b",
    "..",
    "a/..",
    ".hidden",
    "a/.hidden.txt",
    "App.xcodeproj/project.pbxproj",
    "./x",
    "a.b.c",
];

#[test]
fn paths_are_taken_apart_like_std() {
    for p in PATHS {
        let path = Path::new(p);
        assert_eq!(file_name(p).as_deref(), path.file_name().and_then(|s| s.to_str()), "{p:?}");
        assert_eq!(file_stem(p).as_deref(), path.file_stem().and_then(|s| s.to_str()), "{p:?}");
        assert_eq!(extension(p).as_deref(), path.extension().and_then(|s| s.to_str()), "{p:?}");
        assert_eq!(parent(p).as_deref(), path.parent().and_then(|d| d.to_str()), "{p:?}");
    }
}

#[test]
fn paths_are_put_together_like_std() {
    for p in PATHS {
        let path = Path::new(p);
        assert_eq!(with_extension(p, "bak"), path.with_extension("bak").to_str().unwrap(), "{p:?}");
        assert_eq!(join(p, "x.y"), path.join("x.y").to_str().unwrap(), "{p:?}");
    }
}

#[test]
fn project_names_come_from_the_bundle() {
    assert_eq!(infer_project_name("/x/App.xcodeproj/project.pbxproj"), "App.xcodeproj");
    assert_eq!(infer_project_name("project.pbxproj"), "Project.xcodeproj");
    assert_eq!(infer_project_name("/project.pbxproj"), "Project.xcodeproj");
}

#[test]
fn maps_stand_beside_the_bundle() {
    assert_eq!(directory("/x/App.xcodeproj/project.pbxproj"), "/x/App.xcodeproj");
    assert_eq!(default_map_path("/x/App.xcodeproj"), "/x/App.electrolysis-map.json");
}
