use electrolysis::cli::runs_again;
use electrolysis::config::Config;
use electrolysis::filesystem::{Disk, Failure, FileSystem, Recorded};
use electrolysis::logger::NullLogger;
use electrolysis::mapper::{
    build_map, diff_maps, split_typed_path, DiffStatus, FileNode, MapDiff, ProjectMap, ProjectMeta,
};
use electrolysis::parser;
use electrolysis::pipeline::{InMemoryFileSystem, Pipeline, PipelineOutcome};
use electrolysis::sanitizer::{drop_trailing_garbage, sanitize};
use electrolysis::scheme_updater::{
    remap_blueprint_identifiers, repair_orphan_blueprint_identifiers, update_shared_schemes,
};
use electrolysis::sorter::sort;
use electrolysis::table::{Table, TextSet};
use electrolysis::uniquifier::build_unique_map;

const PATH: &str = "/Test.xcodeproj/project.pbxproj";
const A: &str = "AAAAAAAAAAAAAAAAAAAAAAAAAAAAAAAA";
const B: &str = "BBBBBBBBBBBBBBBBBBBBBBBBBBBBBBBB";

fn encode(map: &ProjectMap) -> Result<String, Failure> {
    Ok(format!("{map:?}"))
}

fn table(rows: &[(&str, &str)]) -> Table<String> {
    let mut t = Table::new();
    for (k, v) in rows {
        t.set(k.to_string(), v.to_string());
    }
    t
}

fn project(main: &str, child: &str) -> String {
    format!(
        "// !$*UTF8*$!\n{{\n\tobjects = {{\n/* Begin PBXFileReference section */\n\t\t{child} /* a.swift */ = {{isa = PBXFileReference; path = a.swift; }};\n/* End PBXFileReference section */\n/* Begin PBXGroup section */\n\t\t{main} /* root */ = {{\n\t\t\tisa = PBXGroup;\n\t\t\tchildren = (\n\t\t\t\t{child} /* a.swift */,\n\t\t\t);\n\t\t}};\n/* End PBXGroup section */\n/* Begin PBXProject section */\n\t\t{root} /* Project object */ = {{\n\t\t\tisa = PBXProject;\n\t\t\tattributes = {{\n\t\t\t}};\n\t\t\tmainGroup = {main};\n\t\t\ttargets = (\n\t\t\t);\n\t\t}};\n/* End PBXProject section */\n\t}};\n\trootObject = {root};\n}}\n",
        root = "DDDDDDDDDDDDDDDDDDDDDDDD",
    )
}

fn sample() -> String {
    project("CCCCCCCCCCCCCCCCCCCCCCCC", "EEEEEEEEEEEEEEEEEEEEEEEE")
}

fn process(config: &Config, fs: InMemoryFileSystem) -> (Result<PipelineOutcome, Failure>, InMemoryFileSystem) {
    let logger = NullLogger;
    let mut pipeline = Pipeline::new(config, fs, &logger);
    let r = pipeline.process(PATH, encode);
    (r, pipeline.fs)
}

fn with_text(text: &str) -> InMemoryFileSystem {
    let mut fs = InMemoryFileSystem::new();
    fs.insert(PATH.to_string(), text.to_string());
    fs
}

#[test]
fn a_repaired_text_that_is_no_project_is_not_stored() {
    let text = "{\n<<<<<<< HEAD\n";
    let config = Config { sanitize_only: true, ..Config::default() };
    let (r, fs) = process(&config, with_text(text));
    assert!(r.is_err());
    assert_eq!(fs.get(PATH).unwrap(), text);
}

#[test]
fn a_second_run_finds_nothing_to_do() {
    for config in [
        Config::default(),
        Config { sanitize_only: true, ..Config::default() },
        Config { sort_only: true, ..Config::default() },
        Config { unique_only: true, ..Config::default() },
    ] {
        let (r, fs) = process(&config, with_text(&sample()));
        assert!(matches!(r, Ok(PipelineOutcome::Modified)));
        let once = fs.get(PATH).unwrap().to_string();
        let (r, fs) = process(&config, fs);
        assert!(matches!(r, Ok(PipelineOutcome::Clean)));
        assert_eq!(fs.get(PATH).unwrap(), once);
    }
}

#[test]
fn nested_brackets_of_a_typed_path_are_kept() {
    let (isa, path) = split_typed_path("PBXBuildFile[/PBXFileReference[x]]");
    assert_eq!(isa, "PBXBuildFile");
    assert_eq!(path, "/PBXFileReference[x]");
    assert_eq!(split_typed_path("name"), ("name".to_string(), String::new()));
}

#[test]
fn an_identifier_is_repaired_where_it_stands() {
    let names = table(&[("App", "U")]);
    let mut known = TextSet::new();
    known.insert("U".to_string());
    for written in ["BlueprintIdentifier= \"Z\"", "BlueprintIdentifier=\"Z\"", "BlueprintIdentifier  =\n\"Z\""] {
        let xml = format!(
            "<BuildableReference\n {written}\n BlueprintName = \"App\"\n Note = \"Z\"\n ReferencedContainer = \"container:App.xcodeproj\">"
        );
        let (out, n) = repair_orphan_blueprint_identifiers(&xml, &names, &known, "App.xcodeproj");
        assert_eq!(n, 1);
        assert_eq!(out, xml.replace(written, "BlueprintIdentifier = \"U\""));
        let again = repair_orphan_blueprint_identifiers(&out, &names, &known, "App.xcodeproj");
        assert_eq!(again, (out, 0));
    }
}

#[test]
fn an_identifier_with_its_new_uuid_is_left_alone() {
    let xml = format!("<X BlueprintIdentifier=\"{A}\">");
    let map = table(&[(A, A)]);
    let place = "/App.xcodeproj/xcshareddata/xcschemes/App.xcscheme";
    let mut fs = InMemoryFileSystem::new();
    fs.insert(place.to_string(), xml.clone());
    let stats = update_shared_schemes("/App.xcodeproj", &map, &mut fs, &NullLogger).unwrap();
    assert_eq!(stats.files_scanned, 1);
    assert_eq!(stats.files_modified, 0);
    assert_eq!(stats.identifiers_replaced, 0);
    assert_eq!(fs.get(place).unwrap(), xml);
    let renamed = remap_blueprint_identifiers(&xml, &table(&[(A, B)]));
    assert_eq!(renamed, (format!("<X BlueprintIdentifier = \"{B}\">"), 1));
}

#[test]
fn every_mapped_identifier_of_an_old_scheme_is_rewritten() {
    let map = table(&[(A, A), (B, A)]);
    let xml = format!("<X BlueprintIdentifier=\"{A}\">\n<Y BlueprintIdentifier=\"{B}\">");
    let new = format!("<X BlueprintIdentifier = \"{A}\">\n<Y BlueprintIdentifier = \"{A}\">");
    assert_eq!(remap_blueprint_identifiers(&xml, &map), (new.clone(), 2));
    let place = "/App.xcodeproj/xcshareddata/xcschemes/App.xcscheme";
    let mut fs = InMemoryFileSystem::new();
    fs.insert(place.to_string(), xml);
    let stats = update_shared_schemes("/App.xcodeproj", &map, &mut fs, &NullLogger).unwrap();
    assert_eq!(stats.files_modified, 1);
    assert_eq!(stats.identifiers_replaced, 2);
    assert_eq!(fs.get(place).unwrap(), new);
}

#[test]
fn paths_are_compared_by_their_components() {
    let mut fs = InMemoryFileSystem::new();
    fs.insert("/a/b".to_string(), "1".to_string());
    assert_eq!(fs.get("/a//b").as_deref(), Some("1"));
    assert_eq!(fs.get("/a/./b/").as_deref(), Some("1"));
    assert_eq!(fs.get("a/b"), None);
    assert_eq!(fs.get("/a/x/../b"), None);
    fs.insert("/a/./b".to_string(), "2".to_string());
    assert_eq!(fs.get("/a/b").as_deref(), Some("2"));
    assert_eq!(fs.list_dir("/a/").unwrap(), ["/a/b"]);
    assert!(fs.copy("/a//b", "/c").is_ok());
    assert_eq!(fs.get("//c").as_deref(), Some("2"));
}

#[test]
fn only_what_stands_behind_the_document_is_dropped() {
    for text in [
        "{a={\n}\n;}\n",
        "// }\n{\n\ta = \"}\n\";\n}\n\n",
        "/* { */ {\n\ta = b\"c; /* } */\n}\n",
        "{\n",
        "a = {\n};\nb = {\n};\n",
    ] {
        assert_eq!(drop_trailing_garbage(text), text);
    }
    assert_eq!(drop_trailing_garbage("{\n\ta = 1;\n} rest\n\nmore }\n"), "{\n\ta = 1;\n}\n\n");
    assert_eq!(drop_trailing_garbage("{a = \"\\\"}\";}x\n"), "{a = \"\\\"}\";}\n");
}

#[test]
fn a_repaired_text_needs_no_repair() {
    let text = sample().replace(
        "\t\t\t\tEEEEEEEEEEEEEEEEEEEEEEEE /* a.swift */,\n",
        "<<<<<<< HEAD\n\t\t\t\tEEEEEEEEEEEEEEEEEEEEEEEE /* a.swift */,\n\t\t\t\tEEEEEEEEEEEEEEEEEEEEEEEE /* a.swift */,\n=======\n>>>>>>> other\n",
    ) + "garbage\n";
    let (once, stats) = sanitize(&text);
    assert_eq!(stats.conflict_hunks_resolved, 1);
    assert_eq!(stats.duplicate_list_items_removed, 1);
    assert!(stats.target_attributes_wrapper_added);
    assert!(!once.contains("garbage"));
    let (twice, stats) = sanitize(&once);
    assert_eq!(twice, once);
    assert_eq!(stats.conflict_hunks_resolved, 0);
    assert_eq!(stats.duplicate_objects_removed, 0);
    assert_eq!(stats.duplicate_list_items_removed, 0);
    assert_eq!(stats.orphan_sections_removed, 0);
    assert_eq!(stats.orphan_object_bodies_removed, 0);
    assert!(!stats.target_attributes_wrapper_added);
}

#[test]
fn sorting_moves_lines_and_keeps_the_main_group() {
    let text = "/* Begin PBXGroup section */\n\t\tBBBBBBBBBBBBBBBBBBBBBBBB /* z */ = {\n\t\t\tchildren = (\n\t\t\t\tEEEEEEEEEEEEEEEEEEEEEEEE /* b.swift */,\n\t\t\t\tFFFFFFFFFFFFFFFFFFFFFFFF /* a.swift */,\n\t\t\t);\n\t\t};\n\t\tAAAAAAAAAAAAAAAAAAAAAAAA /* y */ = {\n\t\t\tchildren = (\n\t\t\t\tEEEEEEEEEEEEEEEEEEEEEEEE /* b.swift */,\n\t\t\t\tFFFFFFFFFFFFFFFFFFFFFFFF /* a.swift */,\n\t\t\t);\n\t\t};\n/* End PBXGroup section */\n/* Begin PBXProject section */\n\t\t\tmainGroup = BBBBBBBBBBBBBBBBBBBBBBBB;\n/* End PBXProject section */\n";
    let (once, stats) = sort(text);
    assert_eq!(stats.duplicate_entries_removed, 0);
    let mut before: Vec<&str> = text.lines().collect();
    let mut after: Vec<&str> = once.lines().collect();
    assert_ne!(before, after);
    assert!(once.contains("b.swift */,\n\t\t\t\tFFFFFFFFFFFFFFFFFFFFFFFF"));
    assert!(once.contains("a.swift */,\n\t\t\t\tEEEEEEEEEEEEEEEEEEEEEEEE"));
    before.sort();
    after.sort();
    assert_eq!(before, after);
    let (twice, stats) = sort(&once);
    assert_eq!(twice, once);
    assert_eq!(stats.duplicate_entries_removed, 0);
}

fn map_with(uuid: &str, path: Option<&str>, version: &str) -> ProjectMap {
    ProjectMap {
        version: version.to_string(),
        generated: version.to_string(),
        project: ProjectMeta { name: version.to_string(), configurations: vec![] },
        targets: vec![],
        file_tree: FileNode {
            uuid: uuid.to_string(),
            isa: "PBXGroup".to_string(),
            name: "Root".to_string(),
            path: path.map(|p| p.to_string()),
            source_tree: path.map(|p| p.to_string()),
            file_type: None,
            children: vec![],
        },
        uuid_table: vec![],
    }
}

#[test]
fn maps_are_compared_by_their_structure() {
    let diff = diff_maps(&map_with("A", None, "1"), &map_with("B", Some("x"), "2"));
    assert_eq!(diff.status, DiffStatus::Identical);
    let mut other = map_with("A", None, "1");
    other.file_tree.name = "Other".to_string();
    let diff = diff_maps(&map_with("A", None, "1"), &other);
    assert_eq!(diff.status, DiffStatus::HasChanges);
    assert_eq!(diff.added.groups, vec!["PBXGroup:Other".to_string()]);
    assert_eq!(diff.removed.groups, vec!["PBXGroup:Root".to_string()]);
}

#[test]
fn a_project_matches_the_map_written_for_it() {
    let config = Config::default();
    let logger = NullLogger;
    let mut pipeline = Pipeline::new(&config, with_text(&sample()), &logger);
    pipeline.map(PATH, Some("/map.json"), encode).unwrap();
    assert!(pipeline.fs.get("/map.json").is_some());
    let (clean, _) = sanitize(&sample());
    let decode = |text: &str| {
        assert!(text.starts_with("ProjectMap"));
        let parsed = parser::parse_project(&clean).unwrap();
        let map = build_unique_map(&parsed, "Test.xcodeproj");
        Ok(build_map(&parsed, &map, "Test.xcodeproj"))
    };
    let shown = |d: &MapDiff| -> Result<String, Failure> { Ok(format!("{:?}", d.status)) };
    let (diff, text) = pipeline.diff(PATH, "/map.json", None, decode, shown).unwrap();
    assert_eq!(diff.status, DiffStatus::Identical);
    assert_eq!(text, "Identical");
    assert_eq!(pipeline.fs.get(PATH).unwrap(), sample());
}

#[test]
fn renamed_projects_get_the_same_uuids() {
    let one = parser::parse_project(&sample()).unwrap();
    let two = parser::parse_project(&project("222222222222222222222222", "111111111111111111111111")).unwrap();
    let a = build_unique_map(&one, "Test.xcodeproj");
    let b = build_unique_map(&two, "Test.xcodeproj");
    let new = a.map.get("CCCCCCCCCCCCCCCCCCCCCCCC").unwrap();
    assert_eq!(new, b.map.get("222222222222222222222222").unwrap());
    assert_eq!(a.map.get("EEEEEEEEEEEEEEEEEEEEEEEE"), b.map.get("111111111111111111111111"));
    assert_eq!(new.len(), 32);
    assert!(new.chars().all(|c| c.is_ascii_digit() || ('A'..='F').contains(&c)));
}

#[test]
fn files_in_memory_are_read_written_copied_and_listed() {
    let mut fs = InMemoryFileSystem::new();
    assert!(fs.read_to_string("/d/a").is_err());
    assert!(fs.copy("/d/a", "/d/b").is_err());
    fs.write_atomic("/d/a", "one").unwrap();
    assert_eq!(fs.read_to_string("/d/a").unwrap(), "one");
    fs.copy("/d/a", "/d/b").unwrap();
    fs.write_atomic("/d/a", "two").unwrap();
    assert_eq!(fs.read_to_string("/d/a").unwrap(), "two");
    assert_eq!(fs.read_to_string("/d/b").unwrap(), "one");
    fs.write_atomic("/e", "three").unwrap();
    let mut found = fs.list_dir("/d").unwrap();
    found.sort();
    assert_eq!(found, vec!["/d/a".to_string(), "/d/b".to_string()]);
}

struct Scratch {
    content: String,
}

impl Disk for Scratch {
    fn read_to_string(&mut self, _path: &str) -> Result<String, Failure> {
        Ok(self.content.clone())
    }

    fn write_atomic(&mut self, _path: &str, content: &str) -> Result<(), Failure> {
        self.content = content.to_string();
        Ok(())
    }

    fn copy(&mut self, from: &str, _to: &str) -> Result<(), Failure> {
        Err(Failure::new(from.to_string()))
    }

    fn list_dir(&mut self, _dir: &str) -> Result<Vec<String>, Failure> {
        Ok(vec!["x".to_string()])
    }
}

#[test]
fn a_record_of_calls_changes_no_answer() {
    let mut fs = Recorded::new(Scratch { content: "one".to_string() });
    assert_eq!(fs.read_to_string("/f").unwrap(), "one");
    fs.write_atomic("/f", "two").unwrap();
    assert_eq!(fs.read_to_string("/f").unwrap(), "two");
    assert_eq!(fs.copy("/f", "/g").unwrap_err().messages, vec!["/f".to_string()]);
    assert_eq!(fs.list_dir("/").unwrap(), vec!["x".to_string()]);
}

#[test]
fn only_a_later_change_is_heeded() {
    assert!(runs_again(0, 1));
    assert!(!runs_again(1, 1));
    assert!(!runs_again(2, 1));
}

#[test]
fn nothing_is_counted_that_stays_as_it_is() {
    let xml = "<BuildableReference BlueprintIdentifier = \"Z\" BlueprintName = \"App\" ReferencedContainer = \"container:App.xcodeproj\">";
    let names = table(&[("App", "Z")]);
    let known = TextSet::new();
    let r = repair_orphan_blueprint_identifiers(xml, &names, &known, "App.xcodeproj");
    assert_eq!(r, (xml.to_string(), 0));
}
