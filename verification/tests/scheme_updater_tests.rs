use electrolysis::logger::NullLogger;
use electrolysis::paths::join;
use electrolysis::pipeline::InMemoryFileSystem;
use electrolysis::scheme_updater::{
    remap_blueprint_identifiers, repair_orphan_blueprint_identifiers, repair_shared_schemes,
    update_shared_schemes, UpdateStats,
};
use electrolysis::table::{Table, TextSet};

fn one_to_one(old: &str, new: &str) -> Table<String> {
    let mut m = Table::new();
    m.set(old.to_string(), new.to_string());
    m
}

// ── remap_blueprint_identifiers ──────────────────────────────────────

#[test]
fn replaces_32_char_blueprint_identifier() {
    let xml = r#"<BuildableReference
            BlueprintIdentifier = "AAAAAAAAAAAAAAAAAAAAAAAAAAAAAAAA"
            BlueprintName = "App">"#;
    let map = one_to_one(
        "AAAAAAAAAAAAAAAAAAAAAAAAAAAAAAAA",
        "BBBBBBBBBBBBBBBBBBBBBBBBBBBBBBBB",
    );
    let (out, n) = remap_blueprint_identifiers(xml, &map);
    assert_eq!(n, 1);
    assert!(out.contains(r#"BlueprintIdentifier = "BBBBBBBBBBBBBBBBBBBBBBBBBBBBBBBB""#));
    assert!(!out.contains("AAAAAAAAAAAAAAAAAAAAAAAAAAAAAAAA"));
}

#[test]
fn replaces_24_char_blueprint_identifier() {
    let xml = r#"BlueprintIdentifier = "ABCD123456789012ABCD1234""#;
    let map = one_to_one(
        "ABCD123456789012ABCD1234",
        "00000000000000000000000000000001",
    );
    let (out, n) = remap_blueprint_identifiers(xml, &map);
    assert_eq!(n, 1);
    assert!(out.contains(r#"BlueprintIdentifier = "00000000000000000000000000000001""#));
}

#[test]
fn leaves_unmapped_uuids_untouched() {
    let xml = r#"BlueprintIdentifier = "DEADBEEFDEADBEEFDEADBEEFDEADBEEF""#;
    let map: Table<String> = Table::new();
    let (out, n) = remap_blueprint_identifiers(xml, &map);
    assert_eq!(n, 0);
    assert_eq!(out, xml);
}

#[test]
fn empty_map_short_circuits() {
    let xml = r#"BlueprintIdentifier = "AAAAAAAAAAAAAAAAAAAAAAAAAAAAAAAA""#;
    let (out, n) = remap_blueprint_identifiers(xml, &Table::new());
    assert_eq!(out, xml);
    assert_eq!(n, 0);
}

#[test]
fn lookup_is_case_insensitive() {
    // Schemes occasionally contain lowercase hex.
    let xml = r#"BlueprintIdentifier = "abcdef0123456789abcdef0123456789""#;
    let map = one_to_one(
        "ABCDEF0123456789ABCDEF0123456789",
        "11111111111111111111111111111111",
    );
    let (out, n) = remap_blueprint_identifiers(xml, &map);
    assert_eq!(n, 1);
    assert!(out.contains(r#"BlueprintIdentifier = "11111111111111111111111111111111""#));
}

#[test]
fn multiple_blueprint_identifiers_in_one_xml() {
    let xml = r#"
            <BuildableReference BlueprintIdentifier = "AAAAAAAAAAAAAAAAAAAAAAAAAAAAAAAA" />
            <BuildableReference BlueprintIdentifier = "AAAAAAAAAAAAAAAAAAAAAAAAAAAAAAAA" />
            <BuildableReference BlueprintIdentifier = "CCCCCCCCCCCCCCCCCCCCCCCCCCCCCCCC" />
        "#;
    let mut map = Table::new();
    map.set(
        "AAAAAAAAAAAAAAAAAAAAAAAAAAAAAAAA".to_string(),
        "11111111111111111111111111111111".to_string(),
    );
    map.set(
        "CCCCCCCCCCCCCCCCCCCCCCCCCCCCCCCC".to_string(),
        "22222222222222222222222222222222".to_string(),
    );

    let (out, n) = remap_blueprint_identifiers(xml, &map);
    assert_eq!(n, 3);
    assert_eq!(out.matches("11111111111111111111111111111111").count(), 2);
    assert_eq!(out.matches("22222222222222222222222222222222").count(), 1);
    assert!(!out.contains("AAAAAAAAAAAAAAAAAAAAAAAAAAAAAAAA"));
    assert!(!out.contains("CCCCCCCCCCCCCCCCCCCCCCCCCCCCCCCC"));
}

#[test]
fn does_not_match_other_attributes_with_uuid_values() {
    // Only `BlueprintIdentifier` should be remapped.  A scheme can
    // contain other attributes whose value happens to look like a UUID
    // (e.g. plugin identifiers); those must be left alone.
    let xml = r#"
            <Foo OtherIdentifier = "AAAAAAAAAAAAAAAAAAAAAAAAAAAAAAAA" />
            <BuildableReference BlueprintIdentifier = "AAAAAAAAAAAAAAAAAAAAAAAAAAAAAAAA" />
        "#;
    let map = one_to_one(
        "AAAAAAAAAAAAAAAAAAAAAAAAAAAAAAAA",
        "11111111111111111111111111111111",
    );
    let (out, n) = remap_blueprint_identifiers(xml, &map);
    assert_eq!(n, 1, "only the BlueprintIdentifier should be replaced");
    assert!(out.contains(r#"OtherIdentifier = "AAAAAAAAAAAAAAAAAAAAAAAAAAAAAAAA""#));
}

#[test]
fn idempotent_on_already_remapped_xml() {
    let xml = r#"BlueprintIdentifier = "AAAAAAAAAAAAAAAAAAAAAAAAAAAAAAAA""#;
    let map = one_to_one(
        "AAAAAAAAAAAAAAAAAAAAAAAAAAAAAAAA",
        "BBBBBBBBBBBBBBBBBBBBBBBBBBBBBBBB",
    );
    let (once, _) = remap_blueprint_identifiers(xml, &map);
    let (twice, n) = remap_blueprint_identifiers(&once, &map);
    assert_eq!(once, twice, "second pass must be a no-op");
    assert_eq!(n, 0, "second pass must replace nothing");
}

// ── update_shared_schemes ────────────────────────────────────────────

fn scheme_with(uuid: &str) -> String {
    format!(
        r#"<?xml version="1.0" encoding="UTF-8"?>
<Scheme>
   <BuildAction>
      <BuildActionEntries>
         <BuildActionEntry>
            <BuildableReference
               BuildableIdentifier = "primary"
               BlueprintIdentifier = "{uuid}"
               BuildableName = "App.app"
               BlueprintName = "App"
               ReferencedContainer = "container:App.xcodeproj">
            </BuildableReference>
         </BuildActionEntry>
      </BuildActionEntries>
   </BuildAction>
</Scheme>
"#
    )
}

#[test]
fn updates_a_scheme_with_a_stale_blueprint() {
    let mut fs = InMemoryFileSystem::new();
    let bundle = "/repo/App.xcodeproj";
    let scheme = join(bundle, "xcshareddata/xcschemes/App.xcscheme");
    fs.insert(
        scheme.clone(),
        scheme_with("AAAAAAAAAAAAAAAAAAAAAAAAAAAAAAAA"),
    );

    let map = one_to_one(
        "AAAAAAAAAAAAAAAAAAAAAAAAAAAAAAAA",
        "BBBBBBBBBBBBBBBBBBBBBBBBBBBBBBBB",
    );

    let stats = update_shared_schemes(bundle, &map, &mut fs, &NullLogger).unwrap();
    assert_eq!(stats.files_scanned, 1);
    assert_eq!(stats.files_modified, 1);
    assert_eq!(stats.identifiers_replaced, 1);

    let written = fs.get(&scheme).unwrap();
    assert!(written.contains("BBBBBBBBBBBBBBBBBBBBBBBBBBBBBBBB"));
    assert!(!written.contains("AAAAAAAAAAAAAAAAAAAAAAAAAAAAAAAA"));
}

#[test]
fn skips_schemes_whose_blueprints_are_already_current() {
    let mut fs = InMemoryFileSystem::new();
    let bundle = "/repo/App.xcodeproj";
    let scheme = join(bundle, "xcshareddata/xcschemes/App.xcscheme");
    let original = scheme_with("AAAAAAAAAAAAAAAAAAAAAAAAAAAAAAAA");
    fs.insert(scheme.clone(), original.clone());

    // Map only contains an unrelated old UUID.
    let map = one_to_one(
        "DEADBEEFDEADBEEFDEADBEEFDEADBEEF",
        "00000000000000000000000000000000",
    );

    let stats = update_shared_schemes(bundle, &map, &mut fs, &NullLogger).unwrap();
    assert_eq!(stats.files_scanned, 1);
    assert_eq!(stats.files_modified, 0);
    assert_eq!(stats.identifiers_replaced, 0);
    assert_eq!(fs.get(&scheme).unwrap(), original);
}

#[test]
fn does_not_visit_xcuserdata_schemes() {
    let mut fs = InMemoryFileSystem::new();
    let bundle = "/repo/App.xcodeproj";
    let user_scheme = join(bundle, "xcuserdata/alice.xcuserdatad/xcschemes/App.xcscheme");
    let original = scheme_with("AAAAAAAAAAAAAAAAAAAAAAAAAAAAAAAA");
    fs.insert(user_scheme.clone(), original.clone());

    let map = one_to_one(
        "AAAAAAAAAAAAAAAAAAAAAAAAAAAAAAAA",
        "BBBBBBBBBBBBBBBBBBBBBBBBBBBBBBBB",
    );

    let stats = update_shared_schemes(bundle, &map, &mut fs, &NullLogger).unwrap();
    assert_eq!(stats.files_scanned, 0, "xcuserdata must be ignored");
    assert_eq!(fs.get(&user_scheme).unwrap(), original);
}

#[test]
fn missing_schemes_directory_is_not_an_error() {
    let mut fs = InMemoryFileSystem::new();
    let bundle = "/repo/Empty.xcodeproj";
    let map = one_to_one(
        "AAAAAAAAAAAAAAAAAAAAAAAAAAAAAAAA",
        "BBBBBBBBBBBBBBBBBBBBBBBBBBBBBBBB",
    );
    let stats = update_shared_schemes(bundle, &map, &mut fs, &NullLogger).unwrap();
    assert_eq!(stats, UpdateStats::default());
}

#[test]
fn empty_map_short_circuits_orchestrator() {
    let mut fs = InMemoryFileSystem::new();
    let bundle = "/repo/App.xcodeproj";
    let scheme = join(bundle, "xcshareddata/xcschemes/App.xcscheme");
    let original = scheme_with("AAAAAAAAAAAAAAAAAAAAAAAAAAAAAAAA");
    fs.insert(scheme.clone(), original.clone());

    let stats =
        update_shared_schemes(bundle, &Table::new(), &mut fs, &NullLogger).unwrap();
    assert_eq!(stats, UpdateStats::default());
    assert_eq!(fs.get(&scheme).unwrap(), original);
}

#[test]
fn updates_every_scheme_in_the_directory() {
    let mut fs = InMemoryFileSystem::new();
    let bundle = "/repo/App.xcodeproj";
    let dir = join(bundle, "xcshareddata/xcschemes");
    fs.insert(
        join(&dir, "WAPA.xcscheme"),
        scheme_with("AAAAAAAAAAAAAAAAAAAAAAAAAAAAAAAA"),
    );
    fs.insert(
        join(&dir, "Tests.xcscheme"),
        scheme_with("CCCCCCCCCCCCCCCCCCCCCCCCCCCCCCCC"),
    );
    // A non-scheme file in the same dir must not be touched.
    fs.insert(
        join(&dir, "xcschememanagement.plist"),
        "<plist></plist>".to_string(),
    );

    let mut map = Table::new();
    map.set(
        "AAAAAAAAAAAAAAAAAAAAAAAAAAAAAAAA".to_string(),
        "11111111111111111111111111111111".to_string(),
    );
    map.set(
        "CCCCCCCCCCCCCCCCCCCCCCCCCCCCCCCC".to_string(),
        "22222222222222222222222222222222".to_string(),
    );

    let stats = update_shared_schemes(bundle, &map, &mut fs, &NullLogger).unwrap();
    assert_eq!(stats.files_scanned, 2);
    assert_eq!(stats.files_modified, 2);
    assert_eq!(stats.identifiers_replaced, 2);
    assert_eq!(
        fs.get(&join(&dir, "xcschememanagement.plist")).unwrap(),
        "<plist></plist>"
    );
}

#[test]
fn orchestrator_is_idempotent() {
    let mut fs = InMemoryFileSystem::new();
    let bundle = "/repo/App.xcodeproj";
    let scheme = join(bundle, "xcshareddata/xcschemes/App.xcscheme");
    fs.insert(
        scheme.clone(),
        scheme_with("AAAAAAAAAAAAAAAAAAAAAAAAAAAAAAAA"),
    );
    let map = one_to_one(
        "AAAAAAAAAAAAAAAAAAAAAAAAAAAAAAAA",
        "BBBBBBBBBBBBBBBBBBBBBBBBBBBBBBBB",
    );

    let first = update_shared_schemes(bundle, &map, &mut fs, &NullLogger).unwrap();
    let second = update_shared_schemes(bundle, &map, &mut fs, &NullLogger).unwrap();

    assert_eq!(first.files_modified, 1);
    assert_eq!(second.files_modified, 0);
    assert_eq!(second.identifiers_replaced, 0);
}

// ── repair_orphan_blueprint_identifiers ──────────────────────────────────
//
// Orphan repair complements the rename-based propagation: when a scheme
// contains a `BlueprintIdentifier` UUID that no longer exists in the
// pbxproj — and was never part of a same-pass uniquify rename — the only
// way to recover the link is to resolve it by `BlueprintName` against the
// pbxproj's current target name → uuid index.

fn name_index(pairs: &[(&str, &str)]) -> Table<String> {
    let mut index = Table::new();
    for (n, u) in pairs {
        index.set((*n).to_string(), (*u).to_string());
    }
    index
}

fn valid(uuids: &[&str]) -> TextSet {
    let mut set = TextSet::new();
    for u in uuids {
        set.insert((*u).to_string());
    }
    set
}

fn buildable_ref(uuid: &str, name: &str, container: &str) -> String {
    format!(
        r#"<BuildableReference
                  BuildableIdentifier = "primary"
                  BlueprintIdentifier = "{uuid}"
                  BuildableName = "{name}.app"
                  BlueprintName = "{name}"
                  ReferencedContainer = "container:{container}">
               </BuildableReference>"#
    )
}

#[test]
fn repairs_orphan_blueprint_id_by_name() {
    let xml = buildable_ref("00000000000000000000000000000000", "WAPA", "App.xcodeproj");
    let names = name_index(&[("WAPA", "BE4D3D56F59CC4FC5CEC03367E182C87")]);
    let valid = valid(&["BE4D3D56F59CC4FC5CEC03367E182C87"]);

    let (out, n) = repair_orphan_blueprint_identifiers(
        &xml,
        &names,
        &valid,
        "App.xcodeproj",
    );
    assert_eq!(n, 1);
    assert!(out.contains(r#"BlueprintIdentifier = "BE4D3D56F59CC4FC5CEC03367E182C87""#));
    assert!(!out.contains("00000000000000000000000000000000"));
}

#[test]
fn leaves_already_valid_blueprint_id_alone() {
    let xml = buildable_ref("BE4D3D56F59CC4FC5CEC03367E182C87", "WAPA", "App.xcodeproj");
    let names = name_index(&[("WAPA", "BE4D3D56F59CC4FC5CEC03367E182C87")]);
    let valid = valid(&["BE4D3D56F59CC4FC5CEC03367E182C87"]);

    let (out, n) = repair_orphan_blueprint_identifiers(
        &xml,
        &names,
        &valid,
        "App.xcodeproj",
    );
    assert_eq!(n, 0, "valid identifiers must not be repaired");
    assert_eq!(out, xml);
}

#[test]
fn does_not_repair_cross_project_references() {
    // ReferencedContainer points to a different project — the orphan UUID
    // is correctly resolved over there, even though the BlueprintName
    // happens to collide with one of our targets.
    let xml = buildable_ref(
        "00000000000000000000000000000000",
        "WAPA",
        "Other.xcodeproj",
    );
    let names = name_index(&[("WAPA", "BE4D3D56F59CC4FC5CEC03367E182C87")]);
    let valid = valid(&["BE4D3D56F59CC4FC5CEC03367E182C87"]);

    let (out, n) = repair_orphan_blueprint_identifiers(
        &xml,
        &names,
        &valid,
        "App.xcodeproj",
    );
    assert_eq!(n, 0, "cross-project refs must not be touched");
    assert_eq!(out, xml);
}

#[test]
fn leaves_orphan_alone_when_name_is_unknown() {
    let xml = buildable_ref(
        "00000000000000000000000000000000",
        "Ghost",
        "App.xcodeproj",
    );
    let names = name_index(&[("WAPA", "BE4D3D56F59CC4FC5CEC03367E182C87")]);
    let valid = valid(&["BE4D3D56F59CC4FC5CEC03367E182C87"]);

    let (out, n) = repair_orphan_blueprint_identifiers(
        &xml,
        &names,
        &valid,
        "App.xcodeproj",
    );
    assert_eq!(n, 0, "unknown names cannot be resolved");
    assert_eq!(out, xml);
}

#[test]
fn repair_is_idempotent() {
    let xml = buildable_ref("00000000000000000000000000000000", "WAPA", "App.xcodeproj");
    let names = name_index(&[("WAPA", "BE4D3D56F59CC4FC5CEC03367E182C87")]);
    let valid = valid(&["BE4D3D56F59CC4FC5CEC03367E182C87"]);

    let (once, _) =
        repair_orphan_blueprint_identifiers(&xml, &names, &valid, "App.xcodeproj");
    let (twice, n) =
        repair_orphan_blueprint_identifiers(&once, &names, &valid, "App.xcodeproj");
    assert_eq!(once, twice, "second pass must be a no-op");
    assert_eq!(n, 0, "second pass must repair nothing");
}

#[test]
fn repairs_multiple_orphans_in_one_xml() {
    let xml = format!(
        "{}\n{}\n{}",
        buildable_ref("00000000000000000000000000000000", "WAPA", "App.xcodeproj"),
        buildable_ref("11111111111111111111111111111111", "Tests", "App.xcodeproj"),
        buildable_ref(
            "BE4D3D56F59CC4FC5CEC03367E182C87",
            "WAPA",
            "App.xcodeproj"
        ), // already valid
    );
    let names = name_index(&[
        ("WAPA", "BE4D3D56F59CC4FC5CEC03367E182C87"),
        ("Tests", "513196272F46623400E4153F"),
    ]);
    let valid = valid(&[
        "BE4D3D56F59CC4FC5CEC03367E182C87",
        "513196272F46623400E4153F",
    ]);

    let (out, n) = repair_orphan_blueprint_identifiers(
        &xml,
        &names,
        &valid,
        "App.xcodeproj",
    );
    assert_eq!(n, 2);
    assert!(!out.contains("00000000000000000000000000000000"));
    assert!(!out.contains("11111111111111111111111111111111"));
    assert_eq!(
        out.matches("BE4D3D56F59CC4FC5CEC03367E182C87").count(),
        2,
        "WAPA target id should appear in both WAPA buildable refs"
    );
    assert_eq!(out.matches("513196272F46623400E4153F").count(), 1);
}

// ── repair_shared_schemes (orchestrator) ─────────────────────────────────

#[test]
fn orchestrator_repairs_orphans_across_scheme_dir() {
    let mut fs = InMemoryFileSystem::new();
    let bundle = "/repo/App.xcodeproj";
    let dir = join(bundle, "xcshareddata/xcschemes");
    fs.insert(
        join(&dir, "WAPA.xcscheme"),
        format!(
            r#"<?xml version="1.0" encoding="UTF-8"?><Scheme>{}</Scheme>"#,
            buildable_ref("00000000000000000000000000000000", "WAPA", "App.xcodeproj")
        ),
    );

    let names = name_index(&[("WAPA", "BE4D3D56F59CC4FC5CEC03367E182C87")]);
    let valid = valid(&["BE4D3D56F59CC4FC5CEC03367E182C87"]);

    let stats = repair_shared_schemes(
        bundle,
        &names,
        &valid,
        "App.xcodeproj",
        &mut fs,
        &NullLogger,
    )
    .unwrap();
    assert_eq!(stats.files_scanned, 1);
    assert_eq!(stats.files_modified, 1);
    assert_eq!(stats.identifiers_replaced, 1);

    let written = fs.get(&join(&dir, "WAPA.xcscheme")).unwrap();
    assert!(written.contains("BE4D3D56F59CC4FC5CEC03367E182C87"));
}
