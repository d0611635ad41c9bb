use electrolysis::config::TomlConfig;

#[test]
fn toml_config_into_config_works() {
    let toml = TomlConfig {
        verbose: Some(true),
        backup: Some(true),
        ..TomlConfig::default()
    };
    let config = toml.into_config();
    assert!(config.verbose);
    assert!(config.backup);
    assert!(!config.check);
}

#[test]
fn toml_config_parses_correctly() {
    let toml_str = r#"
verbose = true
sanitize-only = false
sort-main-group = true
backup = true
backup-path = "custom.bak"
"#;
    let table: toml::Table = toml_str.parse().unwrap();
    let flag = |key: &str| table.get(key).and_then(|v| v.as_bool());
    let cfg = TomlConfig {
        verbose: flag("verbose"),
        sanitize_only: flag("sanitize-only"),
        sort_main_group: flag("sort-main-group"),
        backup: flag("backup"),
        backup_path: table.get("backup-path").and_then(|v| v.as_str()).map(String::from),
        ..TomlConfig::default()
    };
    assert_eq!(cfg.verbose, Some(true));
    assert_eq!(cfg.sanitize_only, Some(false));
    assert_eq!(cfg.sort_main_group, Some(true));
    assert_eq!(cfg.backup, Some(true));
    assert_eq!(cfg.backup_path, Some("custom.bak".into()));

    let config = cfg.into_config();
    assert!(config.verbose && config.sort_main_group && config.backup);
    assert!(!config.sanitize_only);
    assert_eq!(config.backup_path.as_deref(), Some("custom.bak"));
}
