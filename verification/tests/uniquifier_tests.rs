use electrolysis::table::Table;
use electrolysis::uniquifier::{md5_uuid, UniqueMap};

#[test]
fn md5_uuid_is_uppercase_32_chars() {
    let u = md5_uuid("test/path");
    assert_eq!(u.len(), 32);
    assert!(u.chars().all(|c| c.is_ascii_hexdigit() && !c.is_lowercase()));
}

#[test]
fn apply_replaces_and_drops_orphans() {
    let mut map = Table::new();
    // 24-char old UUID  →  32-char new UUID
    map.set(
        "AABBCCDDEEFF001122334455".to_string(),
        "NEWHEXNEWHEXNEWHEXNEWHEX12345678".to_string(),
    );
    let um = UniqueMap {
        map,
        entries: Table::new(),
        to_remove: vec![],
        warnings: vec![],
    };

    let input = "\t\tAABBCCDDEEFF001122334455 /* file */ = {};\n\
        \t\tDEADBEEF00000000DEADBEEF /* orphan */ = {};\n";
    let (out, removed) = um.apply(input).unwrap();
    assert!(out.contains("NEWHEXNEWHEXNEWHEXNEWHEX12345678"), "new UUID should appear");
    assert!(!out.contains("AABBCCDDEEFF001122334455"), "old UUID should be gone");
    assert_eq!(removed, 1, "orphan line should be dropped");
}
