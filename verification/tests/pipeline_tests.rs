use electrolysis::config::Config;
use electrolysis::filesystem::Failure;
use electrolysis::logger::NullLogger;
use electrolysis::mapper::ProjectMap;
use electrolysis::parser;
use electrolysis::pipeline::{
    build_scheme_repair_inputs, validate_pbxproj, InMemoryFileSystem, Pipeline, PipelineOutcome,
};
use electrolysis::table::Table;

/// The map in its debug form.
fn encode(map: &ProjectMap) -> Result<String, Failure> {
    Ok(format!("{map:?}"))
}

fn minimal_pbxproj() -> String {
    r#"// !$*UTF8*$!
{
    archiveVersion = 1;
    classes = {};
    objectVersion = 56;
    objects = {
        BBBBBBBBBBBBBBBBBBBBBBBB /* Project object */ = {
            isa = PBXProject;
            mainGroup = CCCCCCCCCCCCCCCCCCCCCCCC;
            targets = (
            );
        };
        CCCCCCCCCCCCCCCCCCCCCCCC /* root */ = {
            isa = PBXGroup;
            children = (
            );
            sourceTree = "<group>";
        };
    };
    rootObject = BBBBBBBBBBBBBBBBBBBBBBBB;
}
"#
    .to_string()
}

#[test]
fn pipeline_sanitizes_and_uniquifies_and_sorts() {
    let mut fs = InMemoryFileSystem::new();
    let path = "/Test.xcodeproj/project.pbxproj".to_string();
    fs.insert(path.clone(), minimal_pbxproj());

    let config = Config::default();
    let logger = NullLogger;
    let mut pipeline = Pipeline::new(&config, fs, &logger);

    let outcome = pipeline.process(&path, encode).unwrap();
    assert!(
        matches!(outcome, PipelineOutcome::Modified),
        "expected Modified, got {:?}",
        std::mem::discriminant(&outcome)
    );

    let result = pipeline.fs.get(&path).unwrap();
    assert!(!result.contains("BBBBBBBBBBBBBBBBBBBBBBBB"));
    assert!(!result.contains("CCCCCCCCCCCCCCCCCCCCCCCC"));
}

#[test]
fn pipeline_sanitize_only_does_not_uniquify() {
    let mut fs = InMemoryFileSystem::new();
    let path = "/Test.xcodeproj/project.pbxproj".to_string();
    fs.insert(path.clone(), minimal_pbxproj());

    let config = Config {
        sanitize_only: true,
        ..Config::default()
    };
    let logger = NullLogger;
    let mut pipeline = Pipeline::new(&config, fs, &logger);

    let outcome = pipeline.process(&path, encode).unwrap();
    assert!(
        matches!(outcome, PipelineOutcome::Clean | PipelineOutcome::Modified),
        "unexpected outcome"
    );

    let result = pipeline.fs.get(&path).unwrap();
    assert!(result.contains("BBBBBBBBBBBBBBBBBBBBBBBB"));
    assert!(result.contains("CCCCCCCCCCCCCCCCCCCCCCCC"));
}

#[test]
fn pipeline_check_reports_would_change() {
    let mut fs = InMemoryFileSystem::new();
    let path = "/Test.xcodeproj/project.pbxproj".to_string();
    fs.insert(path.clone(), minimal_pbxproj());

    let config = Config {
        check: true,
        ..Config::default()
    };
    let logger = NullLogger;
    let mut pipeline = Pipeline::new(&config, fs, &logger);

    let outcome = pipeline.process(&path, encode).unwrap();
    assert!(matches!(outcome, PipelineOutcome::WouldChange));
}

#[test]
fn validation_accepts_valid_project() {
    assert!(validate_pbxproj(&minimal_pbxproj()).is_ok());
}

#[test]
fn validation_rejects_broken_project() {
    assert!(validate_pbxproj("{ archiveVersion = 1; /* missing close").is_err());
}

#[test]
fn pipeline_creates_backup_when_requested() {
    let mut fs = InMemoryFileSystem::new();
    let path = "/Test.xcodeproj/project.pbxproj".to_string();
    fs.insert(path.clone(), minimal_pbxproj());

    let config = Config {
        backup: true,
        ..Config::default()
    };
    let logger = NullLogger;
    let mut pipeline = Pipeline::new(&config, fs, &logger);

    pipeline.process(&path, encode).unwrap();

    let backup_path = "/Test.xcodeproj/project.pbxproj.bak".to_string();
    assert!(
        pipeline.fs.get(&backup_path).is_some(),
        "backup should be created"
    );
}

fn scheme_referencing(uuid: &str) -> String {
    format!(
        r#"<?xml version="1.0" encoding="UTF-8"?>
<Scheme>
   <BuildAction>
      <BuildableReference
         BuildableIdentifier = "primary"
         BlueprintIdentifier = "{uuid}"
         BuildableName = "Test.app"
         BlueprintName = "Test"
         ReferencedContainer = "container:Test.xcodeproj">
      </BuildableReference>
   </BuildAction>
</Scheme>
"#
    )
}

#[test]
fn pipeline_propagates_uuids_to_shared_schemes_by_default() {
    let mut fs = InMemoryFileSystem::new();
    let pbxproj = "/Test.xcodeproj/project.pbxproj".to_string();
    let scheme = "/Test.xcodeproj/xcshareddata/xcschemes/Test.xcscheme".to_string();
    fs.insert(pbxproj.clone(), minimal_pbxproj());
    fs.insert(
        scheme.clone(),
        scheme_referencing("BBBBBBBBBBBBBBBBBBBBBBBB"),
    );

    let config = Config::default();
    let logger = NullLogger;
    let mut pipeline = Pipeline::new(&config, fs, &logger);
    pipeline.process(&pbxproj, encode).unwrap();

    let updated = pipeline.fs.get(&scheme).unwrap();
    assert!(
        !updated.contains("BBBBBBBBBBBBBBBBBBBBBBBB"),
        "stale BlueprintIdentifier should have been remapped"
    );
}

#[test]
fn pipeline_skips_scheme_update_when_disabled() {
    let mut fs = InMemoryFileSystem::new();
    let pbxproj = "/Test.xcodeproj/project.pbxproj".to_string();
    let scheme = "/Test.xcodeproj/xcshareddata/xcschemes/Test.xcscheme".to_string();
    fs.insert(pbxproj.clone(), minimal_pbxproj());
    let original = scheme_referencing("BBBBBBBBBBBBBBBBBBBBBBBB");
    fs.insert(scheme.clone(), original.clone());

    let config = Config {
        update_schemes: false,
        ..Config::default()
    };
    let mut pipeline = Pipeline::new(&config, fs, &NullLogger);
    pipeline.process(&pbxproj, encode).unwrap();

    assert_eq!(
        pipeline.fs.get(&scheme).unwrap(),
        original,
        "scheme must be untouched when update_schemes=false"
    );
}

#[test]
fn pipeline_check_mode_does_not_modify_schemes() {
    let mut fs = InMemoryFileSystem::new();
    let pbxproj = "/Test.xcodeproj/project.pbxproj".to_string();
    let scheme = "/Test.xcodeproj/xcshareddata/xcschemes/Test.xcscheme".to_string();
    fs.insert(pbxproj.clone(), minimal_pbxproj());
    let original = scheme_referencing("BBBBBBBBBBBBBBBBBBBBBBBB");
    fs.insert(scheme.clone(), original.clone());

    let config = Config {
        check: true,
        ..Config::default()
    };
    let mut pipeline = Pipeline::new(&config, fs, &NullLogger);
    let _ = pipeline.process(&pbxproj, encode).unwrap();

    assert_eq!(
        pipeline.fs.get(&scheme).unwrap(),
        original,
        "scheme must be untouched in check mode"
    );
}

#[test]
fn pipeline_check_on_clean_reports_clean() {
    let mut fs = InMemoryFileSystem::new();
    let path = "/Test.xcodeproj/project.pbxproj".to_string();
    fs.insert(path.clone(), minimal_pbxproj());

    // Run once to get clean output.
    let config = Config::default();
    let logger = NullLogger;
    let mut first = Pipeline::new(&config, fs, &logger);
    first.process(&path, encode).unwrap();
    let mut fs = first.fs;

    let clean = fs.get(&path).unwrap();
    fs.insert(path.clone(), clean);

    let config = Config {
        check: true,
        ..Config::default()
    };
    let logger = NullLogger;
    let mut pipeline = Pipeline::new(&config, fs, &logger);
    let outcome = pipeline.process(&path, encode).unwrap();
    assert!(matches!(outcome, PipelineOutcome::Clean));
}

// ── build_scheme_repair_inputs ───────────────────────────────────────────

fn pbxproj_with_targets(target_decls: &str, target_uuids: &str) -> String {
    format!(
        r#"// !$*UTF8*$!
{{
    archiveVersion = 1;
    classes = {{}};
    objectVersion = 56;
    objects = {{
        BBBBBBBBBBBBBBBBBBBBBBBB /* Project object */ = {{
            isa = PBXProject;
            mainGroup = CCCCCCCCCCCCCCCCCCCCCCCC;
            targets = (
                {target_uuids}
            );
        }};
        CCCCCCCCCCCCCCCCCCCCCCCC /* root */ = {{
            isa = PBXGroup;
            children = ();
            sourceTree = "<group>";
        }};
        {target_decls}
    }};
    rootObject = BBBBBBBBBBBBBBBBBBBBBBBB;
}}
"#
    )
}

#[test]
fn build_scheme_repair_inputs_indexes_native_and_aggregate_targets() {
    let pbx = pbxproj_with_targets(
        r#"
                AAAAAAAAAAAAAAAAAAAAAAAA = { isa = PBXNativeTarget; name = WAPA; };
                DDDDDDDDDDDDDDDDDDDDDDDD = { isa = PBXAggregateTarget; name = "Build All"; };
            "#,
        "AAAAAAAAAAAAAAAAAAAAAAAA, DDDDDDDDDDDDDDDDDDDDDDDD,",
    );
    let proj = parser::parse_project(&pbx).unwrap();

    let mut unique = Table::new();
    unique.set(
        "AAAAAAAAAAAAAAAAAAAAAAAA".to_string(),
        "BE4D3D56F59CC4FC5CEC03367E182C87".to_string(),
    );

    let (names, valid) = build_scheme_repair_inputs(&proj, &unique);
    assert_eq!(
        names.get("WAPA"),
        Some(&"BE4D3D56F59CC4FC5CEC03367E182C87".to_string()),
        "renamed UUIDs must be translated"
    );
    assert_eq!(
        names.get("Build All"),
        Some(&"DDDDDDDDDDDDDDDDDDDDDDDD".to_string()),
        "untranslated UUIDs pass through"
    );
    assert!(valid.contains("BE4D3D56F59CC4FC5CEC03367E182C87"));
    assert!(valid.contains("DDDDDDDDDDDDDDDDDDDDDDDD"));
    assert!(!valid.contains("AAAAAAAAAAAAAAAAAAAAAAAA"));
}

#[test]
fn pipeline_repairs_orphan_scheme_blueprint_identifiers() {
    // Regression: the bundle name passed as `expected_container` must
    // match the `container:<…>` suffix Xcode writes — i.e. include the
    // `.xcodeproj` extension exactly once.  Earlier wiring concatenated
    // `.xcodeproj` to a name that already had it, silently disabling
    // the repair pass.
    let pbx = pbxproj_with_targets(
        r#"
                AAAAAAAAAAAAAAAAAAAAAAAA = { isa = PBXNativeTarget; name = WAPA; };
            "#,
        "AAAAAAAAAAAAAAAAAAAAAAAA,",
    );
    let mut fs = InMemoryFileSystem::new();
    let pbx_path = "/repo/Test.xcodeproj/project.pbxproj".to_string();
    fs.insert(pbx_path.clone(), pbx);

    let scheme_path =
        "/repo/Test.xcodeproj/xcshareddata/xcschemes/WAPA.xcscheme".to_string();
    let orphan_uuid = "DEADBEEFDEADBEEFDEADBEEFDEADBEEF";
    fs.insert(
        scheme_path.clone(),
        format!(
            r#"<?xml version="1.0" encoding="UTF-8"?>
<Scheme>
  <BuildAction>
    <BuildActionEntries>
      <BuildActionEntry>
        <BuildableReference
           BuildableIdentifier = "primary"
           BlueprintIdentifier = "{orphan_uuid}"
           BuildableName = "WAPA.app"
           BlueprintName = "WAPA"
           ReferencedContainer = "container:Test.xcodeproj">
        </BuildableReference>
      </BuildActionEntry>
    </BuildActionEntries>
  </BuildAction>
</Scheme>
"#
        ),
    );

    let config = Config::default();
    let logger = NullLogger;
    let mut pipeline = Pipeline::new(&config, fs, &logger);
    pipeline.process(&pbx_path, encode).unwrap();

    let written = pipeline.fs.get(&scheme_path).unwrap();
    assert!(
        !written.contains(orphan_uuid),
        "orphan id should have been replaced; got:\n{written}"
    );
    // The repaired UUID is whatever the uniquifier assigned to the
    // WAPA target — assert by `BlueprintName="WAPA"` proximity.
    assert!(
        written.contains(r#"BlueprintName = "WAPA""#),
        "BlueprintName must be preserved"
    );
}

#[test]
fn build_scheme_repair_inputs_drops_ambiguous_names() {
    let pbx = pbxproj_with_targets(
        r#"
                AAAAAAAAAAAAAAAAAAAAAAAA = { isa = PBXNativeTarget; name = Twin; };
                DDDDDDDDDDDDDDDDDDDDDDDD = { isa = PBXNativeTarget; name = Twin; };
                EEEEEEEEEEEEEEEEEEEEEEEE = { isa = PBXNativeTarget; name = Solo; };
            "#,
        "AAAAAAAAAAAAAAAAAAAAAAAA, DDDDDDDDDDDDDDDDDDDDDDDD, EEEEEEEEEEEEEEEEEEEEEEEE,",
    );
    let proj = parser::parse_project(&pbx).unwrap();

    let (names, _valid) = build_scheme_repair_inputs(&proj, &Table::new());
    assert!(!names.contains_key("Twin"), "duplicate names must be excluded");
    assert!(names.contains_key("Solo"));
}

#[test]
fn pipeline_preserves_target_attributes_through_full_run() {
    // End-to-end regression: PBXProject.attributes.TargetAttributes
    // entries keyed by PBXNativeTarget UUIDs survive the entire
    // sanitize → uniquify → sort pipeline.  Fastlane's
    // `automatic_code_signing` action requires this dict to populate
    // signing settings; older electrolysis versions stripped its
    // contents during the dedup pass and broke CI.
    let pbx = format!(
        r#"// !$*UTF8*$!
{{
    archiveVersion = 1;
    classes = {{}};
    objectVersion = 77;
    objects = {{
/* Begin PBXNativeTarget section */
        AAAAAAAAAAAAAAAAAAAAAAAA /* WAPA */ = {{
            isa = PBXNativeTarget;
            name = WAPA;
        }};
/* End PBXNativeTarget section */

/* Begin PBXProject section */
        BBBBBBBBBBBBBBBBBBBBBBBB /* Project object */ = {{
            isa = PBXProject;
            attributes = {{
                BuildIndependentTargetsInParallel = YES;
                LastUpgradeCheck = 1330;
                TargetAttributes = {{
                    AAAAAAAAAAAAAAAAAAAAAAAA = {{
                        DevelopmentTeam = P78229D8QW;
                        ProvisioningStyle = Manual;
                    }};
                }};
            }};
            mainGroup = CCCCCCCCCCCCCCCCCCCCCCCC;
            targets = (
                AAAAAAAAAAAAAAAAAAAAAAAA,
            );
        }};
/* End PBXProject section */

/* Begin PBXGroup section */
        CCCCCCCCCCCCCCCCCCCCCCCC /* root */ = {{
            isa = PBXGroup;
            children = ();
            sourceTree = "<group>";
        }};
/* End PBXGroup section */
    }};
    rootObject = BBBBBBBBBBBBBBBBBBBBBBBB;
}}
"#
    );

    let mut fs = InMemoryFileSystem::new();
    let pbx_path = "/repo/Test.xcodeproj/project.pbxproj".to_string();
    fs.insert(pbx_path.clone(), pbx);

    let config = Config::default();
    let logger = NullLogger;
    let mut pipeline = Pipeline::new(&config, fs, &logger);
    pipeline.process(&pbx_path, encode).unwrap();

    let out = pipeline.fs.get(&pbx_path).unwrap();
    assert!(
        out.contains("TargetAttributes = {"),
        "TargetAttributes wrapper must survive the full pipeline:\n{out}"
    );
    assert!(
        out.contains("DevelopmentTeam = P78229D8QW"),
        "TargetAttributes inner team metadata must survive:\n{out}"
    );
    assert!(
        out.contains("ProvisioningStyle = Manual"),
        "TargetAttributes inner provisioning metadata must survive:\n{out}"
    );
}
