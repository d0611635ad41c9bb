use electrolysis::config::Config;
use electrolysis::filesystem::Failure;
use electrolysis::logger::NullLogger;
use electrolysis::mapper::{MapDiff, ProjectMap};
use electrolysis::merge_driver::{apply_electrolysis, resolve_merge};
use electrolysis::parser::parse_project;
use electrolysis::pipeline::{InMemoryFileSystem, Pipeline, PipelineOutcome};
use electrolysis::uniquifier::{build_unique_map, md5_uuid};

fn project(p: &str, group: &str, file: &str, build: &str, phase: &str, target: &str) -> String {
    format!(
        "// !$*UTF8*$!\n{{\n\tarchiveVersion = 1;\n\tclasses = {{\n\t}};\n\tobjectVersion = 56;\n\tobjects = {{\n\
/* Begin PBXBuildFile section */\n\
\t\t{build} /* a.swift in Sources */ = {{isa = PBXBuildFile; fileRef = {file} /* a.swift */; }};\n\
/* End PBXBuildFile section */\n\
/* Begin PBXFileReference section */\n\
\t\t{file} /* a.swift */ = {{isa = PBXFileReference; path = a.swift; sourceTree = \"<group>\"; }};\n\
/* End PBXFileReference section */\n\
/* Begin PBXGroup section */\n\
\t\t{group} = {{\n\t\t\tisa = PBXGroup;\n\t\t\tchildren = (\n\t\t\t\t{file} /* a.swift */,\n\t\t\t);\n\t\t\tsourceTree = \"<group>\";\n\t\t}};\n\
/* End PBXGroup section */\n\
/* Begin PBXNativeTarget section */\n\
\t\t{target} /* App */ = {{\n\t\t\tisa = PBXNativeTarget;\n\t\t\tbuildPhases = (\n\t\t\t\t{phase} /* Sources */,\n\t\t\t);\n\t\t\tname = App;\n\t\t\tproductName = App;\n\t\t}};\n\
/* End PBXNativeTarget section */\n\
/* Begin PBXProject section */\n\
\t\t{p} /* Project object */ = {{\n\t\t\tisa = PBXProject;\n\t\t\tattributes = {{\n\t\t\t\tTargetAttributes = {{\n\t\t\t\t}};\n\t\t\t}};\n\t\t\tmainGroup = {group};\n\t\t\ttargets = (\n\t\t\t\t{target} /* App */,\n\t\t\t);\n\t\t}};\n\
/* End PBXProject section */\n\
/* Begin PBXSourcesBuildPhase section */\n\
\t\t{phase} /* Sources */ = {{\n\t\t\tisa = PBXSourcesBuildPhase;\n\t\t\tfiles = (\n\t\t\t\t{build} /* a.swift in Sources */,\n\t\t\t);\n\t\t}};\n\
/* End PBXSourcesBuildPhase section */\n\
\t}};\n\trootObject = {p} /* Project object */;\n}}\n"
    )
}

fn uuid(c: char) -> String {
    c.to_string().repeat(24)
}

fn sample(letters: &str) -> String {
    let u: Vec<String> = letters.chars().map(uuid).collect();
    project(&u[0], &u[1], &u[2], &u[3], &u[4], &u[5])
}

const PATH: &str = "/x/App.xcodeproj/project.pbxproj";

fn encode(map: &ProjectMap) -> Result<String, Failure> {
    Ok(format!("{:?}", map.uuid_table))
}

#[test]
fn uuids_are_md5_sums_of_paths() {
    assert_eq!(md5_uuid(""), "D41D8CD98F00B204E9800998ECF8427E");
    assert_eq!(md5_uuid("MyApp.xcodeproj"), "69F607E51142D46FD87AD1DD1A39B408");
    assert_eq!(md5_uuid("a/b"), "A7E86136543B019D72468CEEBF71FB8E");
}

#[test]
fn every_object_gets_the_uuid_of_its_path() {
    let proj = parse_project(&sample("ABCDEF")).ok().unwrap();
    let map = build_unique_map(&proj, "App.xcodeproj");
    assert_eq!(map.map.len(), 6);
    assert!(map.to_remove.is_empty() && map.warnings.is_empty());
    for i in 0..map.entries.len() {
        let e = map.entries.val_at(i);
        assert_eq!(e.uuid, md5_uuid(&e.path));
    }
    assert_eq!(map.map.get(&uuid('A')).unwrap(), &md5_uuid("App.xcodeproj"));
    let group = map.entries.get(&uuid('B')).unwrap();
    assert_eq!(group.path, "PBXGroup[App.xcodeproj/PBXRootGroup]");
}

#[test]
fn new_uuids_do_not_depend_on_old_ones() {
    let a = apply_electrolysis(&sample("ABCDEF"), PATH).ok().unwrap();
    let b = apply_electrolysis(&sample("FA0B1C"), PATH).ok().unwrap();
    assert_eq!(a, b);
    assert!(!a.contains(&uuid('A')));
}

#[test]
fn a_second_run_changes_nothing() {
    let mut fs = InMemoryFileSystem::new();
    fs.insert(PATH.to_string(), sample("ABCDEF"));
    let config = Config::default();
    let mut pipeline = Pipeline::new(&config, fs, &NullLogger);
    let first = pipeline.process(PATH, encode).ok().unwrap();
    assert!(matches!(first, PipelineOutcome::Modified));
    let text = pipeline.fs.get(PATH).unwrap();
    let second = pipeline.process(PATH, encode).ok().unwrap();
    assert!(matches!(second, PipelineOutcome::Clean));
    assert_eq!(pipeline.fs.get(PATH).unwrap(), text);
}

#[test]
fn a_project_matches_its_own_map() {
    let mut fs = InMemoryFileSystem::new();
    fs.insert(PATH.to_string(), sample("ABCDEF"));
    fs.insert("/ref".to_string(), "reference".to_string());
    let config = Config::default();
    let mut pipeline = Pipeline::new(&config, fs, &NullLogger);
    pipeline.map(PATH, Some("/map"), encode).ok().unwrap();
    assert!(pipeline.fs.get("/map").unwrap().contains("PBXNativeTarget"));

    let decode = |_: &str| -> Result<ProjectMap, Failure> {
        let proj = parse_project(&sample("123456")).ok().unwrap();
        let map = build_unique_map(&proj, "App.xcodeproj");
        Ok(electrolysis::mapper::build_map(&proj, &map, "App.xcodeproj"))
    };
    let show = |d: &MapDiff| -> Result<String, Failure> { Ok(format!("{:?}", d.status)) };
    let (diff, text) = pipeline.diff(PATH, "/ref", Some("/diff"), decode, show).ok().unwrap();
    assert!(diff.added.files.is_empty() && diff.uuid_changes.is_empty());
    assert_eq!(text, "Identical");
    assert_eq!(pipeline.fs.get("/diff").unwrap(), "Identical");
}

#[test]
fn failures_keep_their_causes() {
    let config = Config::default();
    let mut fs = InMemoryFileSystem::new();
    fs.insert(PATH.to_string(), "{ objects = {}; }".to_string());
    let mut pipeline = Pipeline::new(&config, fs, &NullLogger);
    let e = pipeline.process(PATH, encode).err().unwrap();
    assert_eq!(
        e.messages,
        [
            "failed to parse — run --sanitize-only first if the file is corrupt",
            "Project structure error: missing rootObject",
        ]
    );
    assert!(pipeline.process("/nowhere", encode).is_err());

    let refuse = |_: &ProjectMap| -> Result<String, Failure> {
        Err(Failure::new("no".to_string()))
    };
    pipeline.fs.insert(PATH.to_string(), sample("ABCDEF"));
    let e = pipeline.map(PATH, None, refuse).err().unwrap();
    assert_eq!(e.messages, ["failed to serialise project map", "no"]);
}

#[test]
fn merges_are_repaired_and_checked() {
    let text = sample("ABCDEF");
    let merged = text.replace(
        "\tobjectVersion = 56;\n",
        "<<<<<<< a\n\tobjectVersion = 56;\n=======\n\tobjectVersion = 60;\n>>>>>>> b\n",
    );
    let (out, stats) = resolve_merge(&merged).ok().unwrap();
    assert!(!out.contains("<<<<<<<") && !out.contains(">>>>>>>"));
    assert_eq!(stats.conflict_hunks_resolved, 1);
    let e = resolve_merge("nonsense").err().unwrap();
    assert_eq!(
        e.messages[0],
        "merge driver produced an invalid pbxproj — this is a bug, please report it"
    );
}
