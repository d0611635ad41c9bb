use electrolysis::sanitizer::{
    brace_delta, dedup_list_items, dedup_object_declarations, drop_trailing_garbage,
    ensure_pbxproject_target_attributes, remove_orphan_object_bodies, remove_orphan_sections,
    resolve_conflicts, sanitize,
};

#[test]
fn conflicts_keep_our_side() {
    let text = "a\n<<<<<<< HEAD\nb\n=======\nc\n>>>>>>> x\nd\n";
    let (out, n) = resolve_conflicts(text);
    assert_eq!(out, "a\nb\nd\n");
    assert_eq!(n, 1);
    assert_eq!(resolve_conflicts(&out), (out.clone(), 0));
}

#[test]
fn braces_in_strings_and_comments_do_not_count() {
    assert_eq!(brace_delta("a = {"), 1);
    assert_eq!(brace_delta("};"), -1);
    assert_eq!(brace_delta("a = \"{{\";"), 0);
    assert_eq!(brace_delta("{ a = {"), 2);
}

fn objects(body: &str) -> String {
    format!("{{\n\tobjects = {{\n{body}\t}};\n\trootObject = AAAAAAAAAAAAAAAAAAAAAAAA;\n}}\n")
}

#[test]
fn repaired_objects_are_repaired_once() {
    let one = "\t\tAAAAAAAAAAAAAAAAAAAAAAAA /* x */ = {\n\t\t\tisa = PBXGroup;\n\t\t};\n";
    let text = objects(&format!("{one}{one}"));
    let (out, n) = dedup_object_declarations(&text);
    assert_eq!(out, objects(one));
    assert_eq!(n, 3);
    assert_eq!(dedup_object_declarations(&out), (out.clone(), 0));
}

#[test]
fn repaired_lists_are_repaired_once() {
    let item = "\t\t\t\tAAAAAAAAAAAAAAAAAAAAAAAA /* x */,\n";
    let text = format!("\t\t\tchildren = (\n{item}{item}\t\t\t);\n");
    let (out, n) = dedup_list_items(&text);
    assert_eq!(out, format!("\t\t\tchildren = (\n{item}\t\t\t);\n"));
    assert_eq!(n, 1);
    assert_eq!(dedup_list_items(&out), (out.clone(), 0));
}

#[test]
fn sound_text_is_left_alone() {
    let text = objects(
        "\t\tAAAAAAAAAAAAAAAAAAAAAAAA /* x */ = {\n\t\t\tisa = PBXGroup;\n\t\t\tchildren = (\n\t\t\t);\n\t\t};\n",
    );
    assert_eq!(remove_orphan_sections(&text), (text.clone(), 0));
    assert_eq!(remove_orphan_object_bodies(&text), (text.clone(), 0));
    assert_eq!(ensure_pbxproject_target_attributes(&text), (text.clone(), false));
    assert_eq!(drop_trailing_garbage(&text), text);
    let (out, stats) = sanitize(&text);
    assert_eq!(out, text);
    assert_eq!(stats.conflict_hunks_resolved, 0);
    assert_eq!(stats.duplicate_objects_removed, 0);
    assert!(!stats.target_attributes_wrapper_added);
}

#[test]
fn the_wrapper_is_added_once() {
    let text = objects(
        "/* Begin PBXProject section */\n\t\tAAAAAAAAAAAAAAAAAAAAAAAA /* Project object */ = {\n\t\t\tisa = PBXProject;\n\t\t\tattributes = {\n\t\t\t\tLastUpgradeCheck = 1500;\n\t\t\t};\n\t\t};\n/* End PBXProject section */\n",
    );
    let (out, added) = ensure_pbxproject_target_attributes(&text);
    assert!(added);
    assert_eq!(out.matches("TargetAttributes").count(), 1);
    assert_eq!(ensure_pbxproject_target_attributes(&out), (out.clone(), false));
}

#[test]
fn what_follows_the_project_is_dropped() {
    let text = objects("");
    let out = drop_trailing_garbage(&format!("{text}garbage\n\t}};\n"));
    assert_eq!(out.trim_end(), text.trim_end());
    assert_eq!(drop_trailing_garbage(&out), out);
}
