use electrolysis::cli::{
    attributes_content, chosen_files, commit_again, config_from_cli, hook_content, is_bundle,
    log_level, next_step, only_project, order_bundles, parse_choice, parse_number, project_file,
    reacts, resolve_pbxproj_path, watched_file, Choice, NextStep, Overrides, PathKind, ATTRIBUTE,
    HOOK,
};
use electrolysis::config::Config;
use electrolysis::logger::LogLevel;
use electrolysis::pipeline::PipelineOutcome;

fn nothing_given() -> Overrides {
    Overrides {
        quiet: None,
        verbose: None,
        sanitize_only: None,
        unique: None,
        sort: None,
        combine_commit: None,
        check: None,
        backup: None,
        sort_main_group: None,
        no_update_schemes: None,
        watch: None,
        output: None,
        backup_path: None,
    }
}

#[test]
fn command_line_overrides_the_file() {
    let mut base = Config::default();
    base.verbose = true;
    base.backup = true;
    base.backup_path = Some("a".to_string());
    let mut given = nothing_given();
    given.verbose = Some(false);
    given.sort = Some(true);
    given.no_update_schemes = Some(true);
    given.output = Some("out".to_string());
    let c = config_from_cli(given, Some(base));
    assert!(!c.verbose && c.backup && c.sort_only && !c.unique_only && !c.update_schemes);
    assert_eq!(c.output.as_deref(), Some("out"));
    assert_eq!(c.backup_path.as_deref(), Some("a"));
}

#[test]
fn schemes_are_updated_by_default() {
    let c = config_from_cli(nothing_given(), None);
    assert!(c.update_schemes && !c.check && c.run_sort() && c.run_unique());
}

#[test]
fn quiet_goes_before_verbose() {
    let mut c = Config::default();
    assert_eq!(log_level(&c), LogLevel::Normal);
    c.verbose = true;
    assert_eq!(log_level(&c), LogLevel::Verbose);
    c.quiet = true;
    assert_eq!(log_level(&c), LogLevel::Quiet);
}

#[test]
fn project_paths_are_resolved() {
    let bundle = "/x/App.xcodeproj";
    let file = "/x/App.xcodeproj/project.pbxproj";
    assert_eq!(project_file(bundle), file);
    assert!(is_bundle(bundle) && !is_bundle(file));
    assert_eq!(resolve_pbxproj_path(file, PathKind::File, false).ok().unwrap(), file);
    assert_eq!(resolve_pbxproj_path(bundle, PathKind::Directory, true).ok().unwrap(), file);
}

#[test]
fn paths_that_are_no_project_are_refused() {
    let message = |path: &str, kind: PathKind, inner: bool| {
        resolve_pbxproj_path(path, kind, inner).err().unwrap().messages
    };
    assert_eq!(
        message("/x/a.txt", PathKind::File, false),
        ["'/x/a.txt' is not a project.pbxproj file"]
    );
    assert_eq!(
        message("/x", PathKind::Directory, true),
        ["directory '/x' is not a .xcodeproj bundle"]
    );
    assert_eq!(
        message("/App.xcodeproj", PathKind::Directory, false),
        ["no project.pbxproj found inside /App.xcodeproj"]
    );
    assert_eq!(
        message("/dev/null", PathKind::Other, false),
        ["'/dev/null' is neither a file nor a directory"]
    );
}

#[test]
fn bundles_are_offered_in_order() {
    let found = vec!["/b.xcodeproj".to_string(), "/a.xcodeproj".to_string()];
    assert_eq!(order_bundles(&found), ["/a.xcodeproj", "/b.xcodeproj"]);
}

#[test]
fn choices_are_read() {
    assert!(matches!(parse_choice("\n", 3), Ok(Choice::One(0))));
    assert!(matches!(parse_choice(" 3 \n", 3), Ok(Choice::One(2))));
    assert!(matches!(parse_choice("4\n", 3), Ok(Choice::All)));
    for wrong in ["0", "5", "x", "-1", "1.5"] {
        let e = parse_choice(wrong, 3).err().unwrap();
        assert_eq!(e.messages, [format!("invalid selection: {wrong}")]);
    }
}

#[test]
fn numbers_are_read_like_std() {
    for text in ["", "+", "-", "0", "+7", "007", "18446744073709551615", "18446744073709551616",
        "1 ", "a", "١"] {
        assert_eq!(parse_number(text), text.parse::<usize>().ok(), "{text:?}");
    }
}

#[test]
fn outcomes_decide_what_comes_next() {
    let mut c = Config::default();
    assert!(matches!(next_step(&c, PipelineOutcome::Modified), NextStep::Continue));
    assert!(matches!(next_step(&c, PipelineOutcome::WouldChange), NextStep::Exit));
    c.combine_commit = true;
    assert!(matches!(next_step(&c, PipelineOutcome::Modified), NextStep::CommitAgain));
    assert!(matches!(next_step(&c, PipelineOutcome::Clean), NextStep::Continue));
}

#[test]
fn only_changes_of_the_watched_file_count() {
    let changed = vec!["/a".to_string(), "/b".to_string()];
    assert!(reacts(&changed, "/b", true));
    assert!(!reacts(&changed, "/b", false));
    assert!(!reacts(&changed, "/c", true));
}

#[test]
fn hooks_are_installed_once() {
    assert_eq!(hook_content(None).unwrap(), HOOK);
    let appended = hook_content(Some("#!/bin/sh\nmake\n\n")).unwrap();
    assert_eq!(appended, format!("#!/bin/sh\nmake\n{HOOK}"));
    assert!(hook_content(Some(&appended)).is_none());

    let created = attributes_content(None).unwrap();
    assert_eq!(created, format!("{ATTRIBUTE}\n"));
    assert!(attributes_content(Some(&created)).is_none());
    assert_eq!(attributes_content(Some("*.png binary\n")).unwrap(),
        format!("*.png binary\n{ATTRIBUTE}\n"));
}

#[test]
fn projects_are_chosen() {
    let none: Vec<String> = vec![];
    let one = vec!["/a.xcodeproj".to_string()];
    let two = vec!["/a.xcodeproj".to_string(), "/b.xcodeproj".to_string()];
    assert_eq!(
        only_project(&none).err().unwrap().messages,
        ["no .xcodeproj found in the current directory"]
    );
    assert_eq!(
        only_project(&one).ok().unwrap().as_deref(),
        Some("/a.xcodeproj/project.pbxproj")
    );
    assert!(only_project(&two).ok().unwrap().is_none());
    assert_eq!(chosen_files(&two, Choice::One(1)), ["/b.xcodeproj/project.pbxproj"]);
    assert_eq!(
        chosen_files(&two, Choice::All),
        ["/a.xcodeproj/project.pbxproj", "/b.xcodeproj/project.pbxproj"]
    );
    assert_eq!(watched_file(&one).ok().unwrap(), "/a.xcodeproj");
    assert_eq!(
        watched_file(&two).err().unwrap().messages,
        ["--watch requires exactly one project path"]
    );
    assert_eq!(
        commit_again("/p").messages,
        ["project.pbxproj was modified — please `git add /p` and commit again"]
    );
}
