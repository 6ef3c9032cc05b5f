use chronicle::exclusions::ExclusionRules;

fn rules(patterns: &[&str]) -> ExclusionRules {
    ExclusionRules::new(&patterns.iter().map(ToString::to_string).collect::<Vec<_>>()).expect("valid exclusions")
}

#[test]
fn basename_globs_match_at_any_depth_without_crossing_components() {
    let rules = rules(&["*.tmp"]);
    assert!(rules.is_excluded("save.tmp", false));
    assert!(rules.is_excluded("nested/SAVE.TMP", false));
    assert!(!rules.is_excluded("save.tmp.bak", false));
    assert!(!rules.is_excluded("nested/save.dat", false));
}

#[test]
fn directory_rules_protect_descendants_without_matching_same_named_files() {
    let rules = rules(&["cache/"]);
    assert!(rules.is_excluded("cache", true));
    assert!(rules.is_excluded("nested/cache", true));
    assert!(rules.is_excluded("nested/cache/gone.dat", false));
    assert!(rules.is_excluded("cache/nested/gone.dat", false));
    assert!(!rules.is_excluded("cache", false));
    assert!(!rules.is_excluded("nested/cache", false));
    assert!(!rules.is_excluded("cache.txt", true));
    assert!(!rules.is_excluded("cached/file", false));
}

#[test]
fn slash_patterns_are_root_relative_and_accept_windows_separators() {
    let rules = rules(&[r"logs\debug.log", "temp/cache/"]);
    assert!(rules.is_excluded("logs/debug.log", false));
    assert!(rules.is_excluded(r"LOGS\DEBUG.LOG", false));
    assert!(!rules.is_excluded("other/logs/debug.log", false));
    assert!(rules.is_excluded("temp/cache/file", false));
    assert!(!rules.is_excluded("other/temp/cache/file", false));
}

#[test]
fn matched_directories_exclude_descendants_even_without_trailing_slash() {
    let rules = rules(&["*.tmp", "logs/debug"]);
    assert!(rules.is_excluded("scratch.tmp/save.dat", false));
    assert!(rules.is_excluded("logs/debug/deep/save.dat", false));
    assert!(!rules.is_excluded("other/logs/debug/save.dat", false));
}

#[test]
fn empty_lines_are_ignored() {
    let rules = rules(&["", "  ", "\r\n"]);
    assert!(!rules.is_excluded("save.dat", false));
    assert!(!rules.is_excluded("", true));
}

#[test]
fn unsafe_and_unsupported_patterns_report_errors() {
    for pattern in [
        "/cache",
        r"C:\cache",
        "C:cache",
        r"\\server\cache",
        "../cache",
        "cache/../save",
        "cache\0file",
        "!save.dat",
        "[",
        "HKCU/Software",
        r"HKEY_CURRENT_USER\Software",
        "/",
        "./",
    ] {
        assert!(ExclusionRules::new(&vec![pattern.to_owned()]).is_err(), "accepted {pattern:?}");
    }
}

#[test]
fn globstars_and_single_component_stars_preserve_directory_boundaries() {
    let rules = rules(&["logs/*.log", "state/**/cache/"]);
    assert!(rules.is_excluded("logs/debug.log", false));
    assert!(!rules.is_excluded("logs/deep/debug.log", false));
    assert!(rules.is_excluded("state/cache/file", false));
    assert!(rules.is_excluded("state/a/b/cache/file", false));
    assert!(!rules.is_excluded("other/state/cache/file", false));
}

#[test]
fn refused_patterns_are_named_in_the_message() {
    match ExclusionRules::new(&vec!["ok.tmp".to_string(), "../x".to_string()]) {
        Err(message) => assert_eq!(message, "Invalid source-relative exclusion pattern: \"../x\""),
        Ok(_) => panic!("accepted a traversal"),
    }
    match ExclusionRules::new(&vec!["[".to_string()]) {
        Err(message) => assert!(message.starts_with("Invalid exclusion pattern \"[\": ")),
        Ok(_) => panic!("accepted an unclosed class"),
    }
}

#[test]
fn excluded_items_do_not_enter_a_snapshot() {
    let rules = chronicle::exclusions::ExclusionRules::new(&vec!["*.tmp".to_string(), "cache/".to_string()]).unwrap();
    let found: Vec<(String, bool)> = [("save.dat", false), ("a.tmp", false), ("cache", true), ("cache/x.dat", false), ("sub/b.tmp", false), ("sub", true)]
        .iter()
        .map(|(p, d)| (p.to_string(), *d))
        .collect();
    let kept: Vec<(String, bool)> = rules.snapshot_items(&found);
    assert_eq!(kept, vec![("save.dat".to_string(), false), ("sub".to_string(), true)]);
}

#[test]
fn a_restore_keeps_the_local_items_the_rules_protect() {
    let rules = chronicle::exclusions::ExclusionRules::new(&vec!["*.tmp".to_string(), "cache/".to_string()]).unwrap();
    let found: Vec<(String, bool)> = [("save.dat", false), ("a.tmp", false), ("cache", true), ("cache/x.dat", false)]
        .iter()
        .map(|(p, d)| (p.to_string(), *d))
        .collect();
    assert_eq!(
        rules.protected_items(&found),
        vec![("a.tmp".to_string(), false), ("cache".to_string(), true), ("cache/x.dat".to_string(), false)]
    );
}
