use electrolysis::merge_driver::apply_electrolysis;

#[test]
fn apply_electrolysis_on_minimal_project() {
    // Well-formed minimal project with mainGroup pointing to the root group.
    let src = r#"// !$*UTF8*$!
{
    archiveVersion = 1;
    classes = {};
    objectVersion = 56;
    objects = {
        BBBBBBBBBBBBBBBBBBBBBBBB /* Project object */ = {
            isa = PBXProject;
            mainGroup = CCCCCCCCCCCCCCCCCCCCCCCC;
            targets = (
            );
        };
        CCCCCCCCCCCCCCCCCCCCCCCC /* root */ = {
            isa = PBXGroup;
            children = (
                AAAAAAAAAAAAAAAAAAAAAAAA /* file.swift */,
            );
            sourceTree = "<group>";
        };
        AAAAAAAAAAAAAAAAAAAAAAAA /* file.swift */ = {
            isa = PBXFileReference;
            path = file.swift;
            sourceTree = "<group>";
        };
    };
    rootObject = BBBBBBBBBBBBBBBBBBBBBBBB;
}
"#;
    // The name of the bundle comes from the path.
    let pbxproj = "/work/Test.xcodeproj/project.pbxproj";

    let result = apply_electrolysis(src, pbxproj).unwrap();

    // After uniquify+sort the UUIDs should be deterministic (32-char uppercase).
    assert!(result.contains("/* file.swift */"));
    // The old 24-char UUID should be gone.
    assert!(!result.contains("BBBBBBBBBBBBBBBBBBBBBBBB"));
    assert!(!result.contains("AAAAAAAAAAAAAAAAAAAAAAAA"));
    assert!(!result.contains("CCCCCCCCCCCCCCCCCCCCCCCC"));
}
