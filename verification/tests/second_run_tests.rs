use electrolysis::config::Config;
use electrolysis::filesystem::Failure;
use electrolysis::logger::{Logger, NullLogger};
use electrolysis::mapper::{build_map, ProjectMap};
use electrolysis::parser;
use electrolysis::pipeline::{InMemoryFileSystem, Pipeline, PipelineOutcome};
use electrolysis::sanitizer::sanitize;
use electrolysis::sorter::sort;
use electrolysis::uniquifier::build_unique_map;

const PATH: &str = "/App.xcodeproj/project.pbxproj";

struct Messages {
    lines: std::cell::RefCell<Vec<(char, String)>>,
}

impl Messages {
    fn new() -> Self {
        Self { lines: std::cell::RefCell::new(vec![]) }
    }
    fn push(&self, level: char, msg: &str) {
        self.lines.borrow_mut().push((level, msg.to_string()));
    }
}

impl Logger for Messages {
    fn info(&self, msg: &str) {
        self.push('i', msg);
    }
    fn verbose(&self, msg: &str) {
        self.push('v', msg);
    }
    fn warn(&self, msg: &str) {
        self.push('w', msg);
    }
    fn error(&self, msg: &str) {
        self.push('e', msg);
    }
}

fn encode(map: &ProjectMap) -> Result<String, Failure> {
    Ok(format!("{map:?}"))
}

fn uuid(n: u32) -> String {
    format!("{n:024X}")
}

/// Two targets, one of which depends on the other; a file that stands nowhere and
/// a build file that refers to nothing; nothing is in order.
fn project() -> String {
    let mut t = "// !$*UTF8*$!\n{\n\tarchiveVersion = 1;\n\tobjects = {\n".to_string();
    t += "/* Begin PBXBuildFile section */\n";
    t += &format!("\t\t{} /* b.swift in Sources */ = {{isa = PBXBuildFile; fileRef = {} /* b.swift */; }};\n", uuid(21), uuid(11));
    t += &format!("\t\t{} /* a.swift in Sources */ = {{isa = PBXBuildFile; fileRef = {} /* a.swift */; }};\n", uuid(20), uuid(10));
    t += &format!("\t\t{} /* gone.swift in Sources */ = {{isa = PBXBuildFile; fileRef = {} /* gone.swift */; }};\n", uuid(22), uuid(12));
    t += "/* End PBXBuildFile section */\n";
    t += "/* Begin PBXContainerItemProxy section */\n";
    t += &format!("\t\t{} /* PBXContainerItemProxy */ = {{\n\t\t\tisa = PBXContainerItemProxy;\n\t\t\tcontainerPortal = {} /* Project object */;\n\t\t\tproxyType = 1;\n\t\t\tremoteGlobalIDString = {};\n\t\t\tremoteInfo = Lib;\n\t\t}};\n", uuid(30), uuid(1), uuid(41));
    t += "/* End PBXContainerItemProxy section */\n";
    t += "/* Begin PBXFileReference section */\n";
    t += &format!("\t\t{} /* b.swift */ = {{isa = PBXFileReference; path = b.swift; }};\n", uuid(11));
    t += &format!("\t\t{} /* stray.swift */ = {{isa = PBXFileReference; path = stray.swift; }};\n", uuid(13));
    t += &format!("\t\t{} /* a.swift */ = {{isa = PBXFileReference; path = a.swift; }};\n", uuid(10));
    t += "/* End PBXFileReference section */\n";
    t += "/* Begin PBXGroup section */\n";
    t += &format!("\t\t{} = {{\n\t\t\tisa = PBXGroup;\n\t\t\tchildren = (\n\t\t\t\t{} /* Sources */,\n\t\t\t);\n\t\t\tsourceTree = \"<group>\";\n\t\t}};\n", uuid(2), uuid(3));
    t += &format!("\t\t{} /* Sources */ = {{\n\t\t\tisa = PBXGroup;\n\t\t\tchildren = (\n\t\t\t\t{} /* b.swift */,\n\t\t\t\t{} /* a.swift */,\n\t\t\t);\n\t\t\tpath = Sources;\n\t\t\tsourceTree = \"<group>\";\n\t\t}};\n", uuid(3), uuid(11), uuid(10));
    t += "/* End PBXGroup section */\n";
    t += "/* Begin PBXNativeTarget section */\n";
    t += &format!("\t\t{} /* Lib */ = {{\n\t\t\tisa = PBXNativeTarget;\n\t\t\tbuildPhases = (\n\t\t\t);\n\t\t\tdependencies = (\n\t\t\t);\n\t\t\tname = Lib;\n\t\t\tproductName = Lib;\n\t\t}};\n", uuid(41));
    t += &format!("\t\t{} /* App */ = {{\n\t\t\tisa = PBXNativeTarget;\n\t\t\tbuildPhases = (\n\t\t\t\t{} /* Sources */,\n\t\t\t);\n\t\t\tdependencies = (\n\t\t\t\t{} /* PBXTargetDependency */,\n\t\t\t);\n\t\t\tname = App;\n\t\t\tproductName = App;\n\t\t}};\n", uuid(40), uuid(50), uuid(60));
    t += "/* End PBXNativeTarget section */\n";
    t += "/* Begin PBXProject section */\n";
    t += &format!("\t\t{} /* Project object */ = {{\n\t\t\tisa = PBXProject;\n\t\t\tattributes = {{\n\t\t\t\tTargetAttributes = {{\n\t\t\t\t\t{} = {{\n\t\t\t\t\t\tCreatedOnToolsVersion = 9.0;\n\t\t\t\t\t}};\n\t\t\t\t}};\n\t\t\t}};\n\t\t\tmainGroup = {};\n\t\t\ttargets = (\n\t\t\t\t{} /* Lib */,\n\t\t\t\t{} /* App */,\n\t\t\t);\n\t\t}};\n", uuid(1), uuid(40), uuid(2), uuid(41), uuid(40));
    t += "/* End PBXProject section */\n";
    t += "/* Begin PBXSourcesBuildPhase section */\n";
    t += &format!("\t\t{} /* Sources */ = {{\n\t\t\tisa = PBXSourcesBuildPhase;\n\t\t\tfiles = (\n\t\t\t\t{} /* b.swift in Sources */,\n\t\t\t\t{} /* gone.swift in Sources */,\n\t\t\t\t{} /* a.swift in Sources */,\n\t\t\t);\n\t\t}};\n", uuid(50), uuid(21), uuid(22), uuid(20));
    t += "/* End PBXSourcesBuildPhase section */\n";
    t += "/* Begin PBXTargetDependency section */\n";
    t += &format!("\t\t{} /* PBXTargetDependency */ = {{\n\t\t\tisa = PBXTargetDependency;\n\t\t\ttarget = {} /* Lib */;\n\t\t\ttargetProxy = {} /* PBXContainerItemProxy */;\n\t\t}};\n", uuid(60), uuid(41), uuid(30));
    t += "/* End PBXTargetDependency section */\n";
    t += &format!("\t}};\n\trootObject = {} /* Project object */;\n}}\n", uuid(1));
    t
}

fn process(config: &Config, text: &str) -> (PipelineOutcome, String) {
    let logger = NullLogger;
    let mut fs = InMemoryFileSystem::new();
    fs.insert(PATH.to_string(), text.to_string());
    let mut pipeline = Pipeline::new(config, fs, &logger);
    let outcome = match pipeline.process(PATH, encode) {
        Ok(outcome) => outcome,
        Err(_) => panic!("the run failed"),
    };
    let text = pipeline.fs.get(PATH).unwrap().to_string();
    (outcome, text)
}

#[test]
fn a_run_on_its_own_result_is_clean() {
    for config in [
        Config::default(),
        Config { sort_main_group: true, ..Config::default() },
        Config { unique_only: true, ..Config::default() },
        Config { sort_only: true, ..Config::default() },
        Config { sanitize_only: true, ..Config::default() },
    ] {
        let (outcome, once) = process(&config, &project());
        if !config.sanitize_only {
            assert!(matches!(outcome, PipelineOutcome::Modified));
            assert_ne!(once, project());
        }
        let (outcome, twice) = process(&config, &once);
        assert!(matches!(outcome, PipelineOutcome::Clean));
        assert_eq!(twice, once);
    }
}

#[test]
fn what_is_dropped_leaves_the_rest_its_uuids() {
    let (_, once) = process(&Config::default(), &project());
    assert!(!once.contains("gone.swift"));
    assert!(!once.contains("stray.swift"));
    assert!(once.contains("a.swift in Sources"));
    let sorted = once.find("/* a.swift in Sources */,").unwrap();
    assert!(sorted < once.find("/* b.swift in Sources */,").unwrap());
    let before = parser::parse_project(&project()).unwrap();
    let after = parser::parse_project(&once).unwrap();
    let old = build_unique_map(&before, "App.xcodeproj");
    let new = build_unique_map(&after, "App.xcodeproj");
    assert!(new.to_remove.is_empty());
    for n in [1, 2, 3, 10, 11, 20, 21, 30, 40, 41, 50, 60] {
        let u = match old.map.get(&uuid(n)) {
            Some(u) => u.clone(),
            None => panic!("no UUID for {n}"),
        };
        assert!(once.contains(&u));
        assert_eq!(new.map.get(&u), Some(&u));
    }
}

#[test]
fn a_map_tells_its_time() {
    let proj = parser::parse_project(&project()).unwrap();
    let map = build_map(&proj, &build_unique_map(&proj, "App"), "App");
    let t: Vec<char> = map.generated.chars().collect();
    assert_eq!(t.len(), 20);
    for (i, c) in t.iter().enumerate() {
        match i {
            4 | 7 => assert_eq!(*c, '-'),
            10 => assert_eq!(*c, 'T'),
            13 | 16 => assert_eq!(*c, ':'),
            19 => assert_eq!(*c, 'Z'),
            _ => assert!(c.is_ascii_digit()),
        }
    }
}

#[test]
fn lists_outside_sections_are_sorted_once() {
    let bare = "{\n\tfiles = (\n\t\tBBBBBBBBBBBBBBBBBBBBBBBB /* b.swift in Sources */,\n\t\tAAAAAAAAAAAAAAAAAAAAAAAA /* a.swift in Sources */,\n\t);\n\tmainGroup = CCCCCCCCCCCCCCCCCCCCCCCC;\n}\n";
    let (once, stats) = sort(bare);
    assert_eq!(stats.files_lists_sorted, 1);
    assert!(once.find("a.swift").unwrap() < once.find("b.swift").unwrap());
    let (twice, _) = sort(&once);
    assert_eq!(twice, once);
    let entry = "{\n\tobjects = {\n\t\tCCCCCCCCCCCCCCCCCCCCCCCC /* Sources */ = {\n\t\t\tisa = PBXGroup;\n\t\t\tchildren = (\n\t\t\t\tBBBBBBBBBBBBBBBBBBBBBBBB /* b.swift */,\n\t\t\t\tAAAAAAAAAAAAAAAAAAAAAAAA /* a.swift */,\n\t\t\t);\n\t\t};\n\t};\n}\n";
    let (once, stats) = sort(entry);
    assert_eq!(stats.children_lists_sorted, 1);
    assert!(once.find("a.swift").unwrap() < once.find("b.swift").unwrap());
    assert_eq!(sort(&once).0, once);
}

#[test]
fn garbage_behind_the_last_brace_is_dropped_once() {
    let text = project();
    let spoilt = format!("{}}} /* Begin PBXGroup section */ {{\n}}\n", &text[..text.len() - 2]);
    let (once, _) = sanitize(&spoilt);
    assert_eq!(once, text);
    let (twice, stats) = sanitize(&once);
    assert_eq!(twice, once);
    assert_eq!(stats.orphan_sections_removed, 0);
}

#[test]
fn a_run_tells_what_it_sorted_and_dropped() {
    let logger = Messages::new();
    let config = Config::default();
    let mut fs = InMemoryFileSystem::new();
    fs.insert(PATH.to_string(), project());
    let mut pipeline = Pipeline::new(&config, fs, &logger);
    assert!(pipeline.process(PATH, encode).is_ok());
    let lines = logger.lines.borrow().clone();
    let sorted = lines.iter().filter(|(level, l)| *level == 'i' && l.contains(" files lists, ")).count();
    assert_eq!(sorted, 1);
    assert!(!lines.iter().any(|(level, _)| *level == 'e'));
    logger.show("as it is");
    assert_eq!(logger.lines.borrow().last().unwrap(), &('e', "as it is".to_string()));
}

fn is_clean_again(config: &Config, text: &str) -> String {
    let (outcome, once) = process(config, text);
    assert!(matches!(outcome, PipelineOutcome::Modified));
    let (outcome, twice) = process(config, &once);
    assert!(matches!(outcome, PipelineOutcome::Clean));
    assert_eq!(twice, once);
    once
}

#[test]
fn two_references_of_one_path_become_one() {
    let both = project()
        .replace(
            &format!("\t\t{} /* a.swift */ = {{isa = PBXFileReference; path = a.swift; }};\n", uuid(10)),
            &format!(
                "\t\t{} /* a.swift */ = {{isa = PBXFileReference; path = a.swift; }};\n\t\t{} /* a.swift */ = {{isa = PBXFileReference; path = a.swift; }};\n",
                uuid(10),
                uuid(110)
            ),
        )
        .replace(
            &format!("\t\t\t\t{} /* a.swift */,\n", uuid(10)),
            &format!("\t\t\t\t{} /* a.swift */,\n\t\t\t\t{} /* a.swift */,\n", uuid(10), uuid(110)),
        )
        .replace(
            &format!("fileRef = {} /* b.swift */; }};\n", uuid(11)),
            &format!(
                "fileRef = {} /* b.swift */; }};\n\t\t{} /* a.swift in Sources */ = {{isa = PBXBuildFile; fileRef = {} /* a.swift */; }};\n",
                uuid(11),
                uuid(120),
                uuid(110)
            ),
        )
        .replace(
            &format!("\t\t\t\t{} /* a.swift in Sources */,\n", uuid(20)),
            &format!(
                "\t\t\t\t{} /* a.swift in Sources */,\n\t\t\t\t{} /* a.swift in Sources */,\n",
                uuid(20),
                uuid(120)
            ),
        );
    assert_eq!(both.matches("path = a.swift").count(), 2);
    for config in [
        Config::default(),
        Config { unique_only: true, ..Config::default() },
        Config { sort_main_group: true, ..Config::default() },
    ] {
        let once = is_clean_again(&config, &both);
        assert_eq!(once.matches("path = a.swift").count(), 1);
        assert_eq!(once.matches("/* a.swift in Sources */,").count(), 1);
    }
    let with = is_clean_again(&Config::default(), &both);
    let without = is_clean_again(&Config::default(), &project());
    assert_eq!(with, without);
}

#[test]
fn uuids_in_lower_case_are_settled_in_one_run() {
    let shifted = |n: u32| format!("{:024X}", 0xABC000 + n as u64);
    let mut upper = project();
    for n in [1, 2, 3, 10, 11, 12, 13, 20, 21, 22, 30, 40, 41, 50, 60] {
        upper = upper.replace(&uuid(n), &shifted(n));
    }
    let mut lower = upper.clone();
    for n in [1, 2, 3, 10, 11, 12, 13, 20, 21, 22, 30, 40, 41, 50, 60] {
        lower = lower.replace(&shifted(n), &shifted(n).to_lowercase());
    }
    assert_ne!(lower, upper);
    let once = is_clean_again(&Config::default(), &lower);
    assert_eq!(once, is_clean_again(&Config::default(), &upper));
}

#[test]
fn blank_lines_in_lists_are_dropped_once() {
    let spaced = project()
        .replace(" /* b.swift in Sources */,\n", " /* b.swift in Sources */,\n\n")
        .replace(" /* b.swift */,\n", " /* b.swift */,\n\t\t\n");
    assert_ne!(spaced, project());
    let once = is_clean_again(&Config::default(), &spaced);
    assert_eq!(once, is_clean_again(&Config::default(), &project()));
}

#[test]
fn entries_indented_with_blanks_are_left_in_their_place() {
    let (head, rest) = {
        let text = project();
        let i = text.find("/* Begin PBXGroup section */").unwrap();
        let j = text.find("/* End PBXGroup section */").unwrap();
        let blank = text[i..j].replace('\t', "    ");
        (format!("{}{}", &text[..i], blank), text[j..].to_string())
    };
    let blank = format!("{head}{rest}");
    assert_ne!(blank, project());
    let (once, stats) = sort(&blank);
    assert_eq!(stats.pbx_groups_sorted, 0);
    assert!(stats.children_lists_sorted > 0);
    assert!(once.find(" /* a.swift */,").unwrap() < once.find(" /* b.swift */,").unwrap());
    let (twice, stats) = sort(&once);
    assert_eq!(twice, once);
    assert_eq!(stats.duplicate_entries_removed, 0);
    is_clean_again(&Config::default(), &blank);
}

#[test]
fn a_stray_end_of_a_section_goes_in_one_run() {
    let stray = project().replace(
        "/* End PBXGroup section */\n",
        "/* End PBXGroup section */\n/* End PBXVariantGroup section */\n",
    );
    let (once, stats) = sanitize(&stray);
    assert_eq!(stats.orphan_sections_removed, 1);
    assert_eq!(once, project());
    let (twice, stats) = sanitize(&once);
    assert_eq!(twice, once);
    assert_eq!(stats.orphan_sections_removed, 0);
    assert!(!stats.target_attributes_wrapper_added);
    let config = Config { sanitize_only: true, ..Config::default() };
    assert_eq!(is_clean_again(&config, &stray), project());
}

#[test]
fn sorting_moves_lines_in_texts_of_any_shape() {
    let text = "\tfiles = (\n\t\tBBBBBBBBBBBBBBBBBBBBBBBB /* b.swift in X */,\n\n\t\tAAAAAAAAAAAAAAAAAAAAAAAA /* a.swift in X */,\n\t);\n/* Begin PBXGroup section */\n\t\tCCCCCCCCCCCCCCCCCCCCCCCC /* z */ = {\n\t\t\tisa = PBXGroup;\n/* End PBXGroup section */\n";
    let (sorted, stats) = sort(text);
    assert_eq!(stats.duplicate_entries_removed, 0);
    let lines = |t: &str| {
        let mut v: Vec<String> =
            t.lines().filter(|l| !l.trim().is_empty()).map(|l| l.to_string()).collect();
        v.sort();
        v
    };
    assert_ne!(sorted, text);
    assert_eq!(lines(&sorted), lines(text));
}

#[test]
fn names_and_settings_that_look_odd_change_nothing() {
    let odd = project()
        .replace("a.swift", "mainGroup.swift")
        .replace(
            "CreatedOnToolsVersion = 9.0;\n",
            "CreatedOnToolsVersion = 9.0;\n\t\t\t\t\t\tCreatedOnToolsVersion = 9.1;\n",
        )
        .replace(
            "\t\t\tname = Lib;\n",
            "\t\t\tname = Lib;\n\t\t\tnote = \"-DKEY=0123456789abcdef0123456789abcdef\";\n",
        );
    let once = is_clean_again(&Config::default(), &odd);
    assert!(once.contains("mainGroup.swift in Sources"));
    assert!(once.contains("CreatedOnToolsVersion = 9.1;"));
    assert!(!once.contains("-DKEY"));
}
