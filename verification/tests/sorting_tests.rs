use electrolysis::sorter::{
    entry_sort_key, extract_main_group_uuid, sort, sort_list_sections, sort_multiline_pbx_section,
    sort_pbx_sections, sort_with, ListKind, SectionKey,
};

const A: &str = "AAAAAAAAAAAAAAAAAAAAAAAA";
const B: &str = "BBBBBBBBBBBBBBBBBBBBBBBB";
const C: &str = "CCCCCCCCCCCCCCCCCCCCCCCC";

fn children(names: &[(&str, &str)]) -> String {
    let items: String = names.iter().map(|(u, n)| format!("\t\t\t\t{u} /* {n} */,\n")).collect();
    format!("\t\t\tchildren = (\n{items}\t\t\t);\n")
}

#[test]
fn directories_come_before_files() {
    let text = children(&[(A, "b.swift"), (B, "Zoo"), (C, "A.swift")]);
    let out = sort_list_sections(&text, ListKind::Children, "");
    assert_eq!(out.text, children(&[(B, "Zoo"), (C, "A.swift"), (A, "b.swift")]));
    assert_eq!((out.sorted, out.dropped), (1, 0));
    let again = sort_list_sections(&out.text, ListKind::Children, "");
    assert_eq!(again.text, out.text);
}

#[test]
fn the_main_group_is_left_unsorted() {
    let text = format!(
        "\t\tmainGroup = {A};\n\t\t{A} = {{\n\t\t\tisa = PBXGroup;\n{}\t\t}};\n",
        children(&[(C, "z"), (B, "a")])
    );
    assert_eq!(extract_main_group_uuid(&text).as_deref(), Some(A));
    assert_eq!(sort(&text).0, text);
    let sorted = sort_with(&text, true).0;
    assert_eq!(sorted, text.replace(&children(&[(C, "z"), (B, "a")]),
        &children(&[(B, "a"), (C, "z")])));
}

#[test]
fn lines_of_a_section_are_sorted_by_comment() {
    let line = |u: &str, n: &str| format!("\t\t{u} /* {n} */ = {{isa = PBXFileReference; }};\n");
    let begin = "/* Begin PBXFileReference section */\n";
    let end = "/* End PBXFileReference section */\n";
    let text = format!("{begin}{}{}{}{end}", line(B, "b"), line(A, "a"), line(B, "b"));
    let out = sort_pbx_sections(&text);
    assert_eq!(out.text, format!("{begin}{}{}{end}", line(A, "a"), line(B, "b")));
    assert_eq!((out.sorted, out.dropped), (1, 1));
    assert_eq!(sort_pbx_sections(&out.text).text, out.text);
}

fn entry(u: &str, n: &str) -> String {
    format!("\t\t{u} /* {n} */ = {{\n\t\t\tisa = PBXGroup;\n\t\t\tname = {n};\n\t\t}};\n")
}

#[test]
fn entries_of_a_section_are_sorted_without_duplicates() {
    let begin = "/* Begin PBXGroup section */\n";
    let end = "/* End PBXGroup section */\n";
    let text = format!("{begin}{}{}{}{end}", entry(B, "b"), entry(A, "a"), entry(B, "b"));
    let out = sort_multiline_pbx_section(&text, "PBXGroup", SectionKey::Comment);
    assert_eq!(out.text, format!("{begin}{}{}{end}", entry(A, "a"), entry(B, "b")));
    assert_eq!(out.dropped, 1);
    let again = sort_multiline_pbx_section(&out.text, "PBXGroup", SectionKey::Comment);
    assert_eq!(again.text, out.text);
}

#[test]
fn keys_of_entries_are_lower_case() {
    let e = entry(A, "Zed");
    assert_eq!(entry_sort_key(SectionKey::Comment, &e, None, None), "zed");
    assert_eq!(
        entry_sort_key(SectionKey::BaseConfiguration, &e, Some("Pods.xcconfig".to_string()), None),
        "pods.xcconfig"
    );
    assert_eq!(
        entry_sort_key(SectionKey::Target, &e, None, Some("App".to_string())),
        "app"
    );
}

#[test]
fn text_without_lists_is_left_alone() {
    for text in ["", "\n", "a\nb", "a\nb\n"] {
        assert_eq!(sort(text).0, text);
    }
}

#[test]
fn configurations_and_dependencies_are_sorted_by_the_names_in_their_fields() {
    let config = |u: char, base: &str| {
        format!(
            "\t\t{} /* Debug */ = {{\n\t\t\tisa = XCBuildConfiguration;\n\t\t\tbaseConfigurationReference = {} {base};\n\t\t}};\n",
            u.to_string().repeat(24),
            "F".repeat(24)
        )
    };
    let text = format!(
        "/* Begin XCBuildConfiguration section */\n{}{}{}/* End XCBuildConfiguration section */\n",
        config('A', "/*  zeta.xcconfig  */"),
        config('B', "/* */ /* Mid.xcconfig */"),
        config('C', "/*alpha.xcconfig*/"),
    );
    let (sorted, stats) = sort(&text);
    assert_eq!(stats.xc_build_configs_sorted, 1);
    let at = |u: &str| sorted.find(&u.repeat(24)).unwrap();
    assert!(at("B") < at("C") && at("C") < at("A"));
    let dependency = |u: char, target: &str| {
        format!(
            "\t\t{} /* PBXTargetDependency */ = {{\n\t\t\tisa = PBXTargetDependency;\n\t\t\ttarget = {} /* {target} */;\n\t\t}};\n",
            u.to_string().repeat(24),
            "F".repeat(24)
        )
    };
    let text = format!(
        "/* Begin PBXTargetDependency section */\n{}{}/* End PBXTargetDependency section */\n",
        dependency('A', "Lib"),
        dependency('B', "App"),
    );
    let (sorted, stats) = sort(&text);
    assert_eq!(stats.pbx_target_dependencies_sorted, 1);
    assert!(sorted.find(&"B".repeat(24)).unwrap() < sorted.find(&"A".repeat(24)).unwrap());
}
