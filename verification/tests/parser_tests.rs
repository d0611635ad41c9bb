use electrolysis::parser::{parse_project, PbxParser};

#[test]
fn parses_minimal_project() {
    let src = r#"// !$*UTF8*$!
{
    archiveVersion = 1;
    classes = {};
    objectVersion = 56;
    objects = {
        AABBCCDDEEFF00112233445566 /* group */ = {
            isa = PBXGroup;
            children = (
            );
            sourceTree = "<group>";
        };
    };
    rootObject = AABBCCDDEEFF00112233445566;
}
"#;
    let proj = parse_project(src).unwrap();
    assert_eq!(proj.root_object, "AABBCCDDEEFF00112233445566");
    assert_eq!(proj.archive_version, "1");
    assert_eq!(proj.object_version, "56");
    assert_eq!(proj.objects.len(), 1);
    assert_eq!(proj.isa("AABBCCDDEEFF00112233445566"), Some("PBXGroup"));
}

#[test]
fn parses_quoted_string_escapes() {
    let src = r#"{ key = "hello \"world\"\nnewline"; }"#;
    let mut p = PbxParser::new(src);
    let val = p.parse_file().unwrap();
    let d = val.as_dict().unwrap();
    let v = d.get("key").unwrap().as_str().unwrap();
    assert!(v.contains("\"world\""));
    assert!(v.contains('\n'));
}
