use electrolysis::sanitizer::sanitize;
use electrolysis::scheme_updater::{
    remap_blueprint_identifiers, repair_orphan_blueprint_identifiers,
};
use electrolysis::sorter::{sort, sort_pbx_sections, sort_with};
use electrolysis::table::{Table, TextSet};

const A: &str = "AAAAAAAAAAAAAAAAAAAAAAAA";
const B: &str = "BBBBBBBBBBBBBBBBBBBBBBBB";
const NEW: &str = "0123456789ABCDEF0123456789ABCDEF";

fn table(rows: &[(&str, &str)]) -> Table<String> {
    let mut t = Table::new();
    for (k, v) in rows {
        t.set(k.to_string(), v.to_string());
    }
    t
}

#[test]
fn identifiers_follow_their_targets_once() {
    let xml = format!(
        "<BuildableReference\n   BlueprintIdentifier = \"{A}\">\n<x BlueprintIdentifier=\"{B}\"/>"
    );
    let map = table(&[(A, NEW)]);
    let (out, n) = remap_blueprint_identifiers(&xml, &map);
    assert_eq!(
        out,
        format!(
            "<BuildableReference\n   BlueprintIdentifier = \"{NEW}\">\n<x BlueprintIdentifier=\"{B}\"/>"
        )
    );
    assert_eq!(n, 1);
    assert_eq!(remap_blueprint_identifiers(&out, &map), (out.clone(), 0));
}

#[test]
fn chained_renamings_are_followed_one_by_one() {
    let map = table(&[(A, B), (B, NEW)]);
    let xml = format!("BlueprintIdentifier = \"{A}\"");
    let (once, _) = remap_blueprint_identifiers(&xml, &map);
    assert_eq!(once, format!("BlueprintIdentifier = \"{B}\""));
    let (twice, _) = remap_blueprint_identifiers(&once, &map);
    assert_eq!(twice, format!("BlueprintIdentifier = \"{NEW}\""));
}

#[test]
fn references_are_repaired_once() {
    let reference = |id: &str| {
        format!(
            "<BuildableReference\n   BlueprintIdentifier = \"{id}\"\n   BlueprintName = \"App\"\n   ReferencedContainer = \"container:App.xcodeproj\">\n</BuildableReference>\n"
        )
    };
    let names = table(&[("App", NEW)]);
    let mut valid = TextSet::new();
    valid.insert(NEW.to_string());
    let (out, n) =
        repair_orphan_blueprint_identifiers(&reference(A), &names, &valid, "App.xcodeproj");
    assert_eq!((out.as_str(), n), (reference(NEW).as_str(), 1));
    assert_eq!(
        repair_orphan_blueprint_identifiers(&out, &names, &valid, "App.xcodeproj"),
        (out.clone(), 0)
    );
    assert_eq!(
        repair_orphan_blueprint_identifiers(&reference(A), &names, &valid, "Other.xcodeproj"),
        (reference(A), 0)
    );
}

#[test]
fn no_conflict_marker_is_left() {
    let text = "// x\n{\n<<<<<<< a\n\ta = 1;\n=======\n\ta = 2;\n>>>>>>> b\n}\n";
    let (out, stats) = sanitize(text);
    assert_eq!(out, "// x\n{\n\ta = 1;\n}\n");
    assert_eq!(stats.conflict_hunks_resolved, 1);
    assert_eq!(sanitize(&out).0, out);
}

#[test]
fn a_whole_text_is_sorted_once() {
    let text = format!(
        "{{\n\
/* Begin PBXBuildFile section */\n\
\t\t{B} /* b in Sources */ = {{isa = PBXBuildFile; }};\n\
\t\t{A} /* a in Sources */ = {{isa = PBXBuildFile; }};\n\
/* End PBXBuildFile section */\n\
/* Begin PBXGroup section */\n\
\t\t{B} /* z */ = {{\n\t\t\tisa = PBXGroup;\n\t\t\tchildren = (\n\t\t\t\t{B} /* y */,\n\t\t\t\t{A} /* x */,\n\t\t\t\t{B} /* y */,\n\t\t\t);\n\t\t}};\n\
\t\t{A} /* g */ = {{\n\t\t\tisa = PBXGroup;\n\t\t}};\n\
/* End PBXGroup section */\n\
}}\n"
    );
    for with_main in [false, true] {
        let (once, stats) = sort_with(&text, with_main);
        assert_ne!(once, text);
        assert_eq!(stats.duplicate_entries_removed, 1);
        let (twice, again) = sort_with(&once, with_main);
        assert_eq!(twice, once);
        assert_eq!(again.duplicate_entries_removed, 0);
    }
    assert!(sort(&text).0.find("/* g */").unwrap() < sort(&text).0.find("/* z */").unwrap());
}

#[test]
fn a_stray_carriage_return_takes_another_pass() {
    let once = sort_pbx_sections("a\r\r\nb\n").text;
    assert_eq!(once, "a\r\nb\n");
    let twice = sort_pbx_sections(&once).text;
    assert_eq!(twice, "a\nb\n");
    assert_eq!(sort_pbx_sections(&twice).text, twice);
}
