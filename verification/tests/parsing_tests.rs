use electrolysis::error::ElectrolysisError;
use electrolysis::parser::{parse_project, PbxParser};

fn parse_message(src: &str) -> String {
    match PbxParser::new(src).parse_file() {
        Ok(_) => panic!("{src:?} should not parse"),
        Err(e) => e.to_string(),
    }
}

#[test]
fn values_of_all_sorts_are_read() {
    let src = "// c\n{ a = b.c/d-e; \"x y\" = (1, \"two\", {k = v;},); /* z */ q = {}; }";
    let v = PbxParser::new(src).parse_file().ok().unwrap();
    let d = v.as_dict().unwrap();
    assert_eq!(d.len(), 3);
    assert_eq!(d.get("a").unwrap().as_str(), Some("b.c/d-e"));
    let list = d.get("x y").unwrap().as_array().unwrap();
    assert_eq!(list.len(), 3);
    assert_eq!(list[1].str_val().as_deref(), Some("two"));
    assert_eq!(list[2].as_dict().unwrap().get("k").unwrap().as_str(), Some("v"));
    assert!(d.get("q").unwrap().as_dict().unwrap().len() == 0);
    assert!(d.get("missing").is_none());
}

#[test]
fn a_later_key_replaces_an_earlier_one() {
    let v = PbxParser::new("{ a = 1; b = 2; a = 3; }").parse_file().ok().unwrap();
    let d = v.as_dict().unwrap();
    assert_eq!(d.len(), 2);
    assert_eq!(d.get("a").unwrap().as_str(), Some("3"));
}

#[test]
fn errors_name_the_line() {
    let e = PbxParser::new("{\n a = 1;\n b 2;\n}").parse_file().err().unwrap();
    assert!(matches!(e, ElectrolysisError::Parse { line: 3, .. }));
    assert!(e.to_string().starts_with("Parse error at line 3: "));
}

#[test]
fn every_parse_error_has_its_message() {
    let cases = [
        ("", "unexpected EOF"),
        ("{", "unterminated dict"),
        ("( a", "unterminated array"),
        ("{ a = \"b", "unterminated quoted string"),
        ("\"a\\", "truncated escape sequence"),
        ("{ b 2; }", "expected '=' after key \"b\", got Some('2')"),
        ("{ \"a\\tb\" ", "expected '=' after key \"a\\tb\", got None"),
        ("( ;", "expected string value, found Some(';')"),
    ];
    for (src, message) in cases {
        assert_eq!(parse_message(src), format!("Parse error at line 1: {message}"), "{src:?}");
    }
}

#[test]
fn projects_need_their_parts() {
    let message = |src: &str| parse_project(src).err().unwrap().to_string();
    assert_eq!(message("( a )"), "Project structure error: top-level value is not a dict");
    assert_eq!(message("{ rootObject = A; }"), "Project structure error: missing objects dict");
    assert_eq!(message("{ objects = {}; }"), "Project structure error: missing rootObject");
}

#[test]
fn fields_are_looked_up() {
    let p = parse_project(
        "{ objects = { A = { isa = X; list = (b, c); }; B = text; }; rootObject = A; }",
    )
    .ok()
    .unwrap();
    assert_eq!(p.isa("A"), Some("X"));
    assert_eq!(p.str_field("A", "list"), None);
    assert_eq!(p.array_field("A", "list").unwrap(), ["b", "c"]);
    assert!(p.get_object("C").is_none());
    assert!(p.raw_field("A", "nope").is_none());
}
