use chronicle::steam::{
    app_manifest, expand_pattern, finish_warnings, is_app_manifest, library_paths, parse_steam_users,
    parse_uint_exec, prune_nested_sources, resolve_pattern, source_user, Condition, FoundSource, Rule,
    SteamUser,
};
use chronicle::vdf::{parse_vdf, VdfError};

fn user<'a>(users: &'a [SteamUser], account: &str) -> &'a SteamUser {
    users.iter().find(|u| u.account_id == account).unwrap()
}

#[test]
fn vdf_nested_escaped_paths_and_comments() {
    let parsed = parse_vdf(r#"// libraries
        "libraryfolders" { "0" { "path" "D:\\Steam" "apps" { "123" "42" } } "1" "E:\\SteamLibrary" }"#).unwrap();
    assert_eq!(
        parsed
            .get("libraryfolders")
            .unwrap()
            .get("0")
            .unwrap()
            .get("path")
            .unwrap()
            .text(),
        Some("D:\\Steam")
    );
    assert!(parse_vdf(r#""AppState" { "appid" "123""#).is_err());
}

#[test]
fn steam_users_prefer_nickname_then_account_name_then_id() {
    let base = 76_561_197_960_265_728_u64;
    let data = format!(
        r#""users" {{
            "{}" {{ "PersonaName" "昵称 🐱" "AccountName" "login" "RememberPassword" "1" }}
            "{}" {{ "PersonaName" " " "AccountName" "fallback" }}
            "{}" {{ "AccountName" "" }}
            "bad" {{ "PersonaName" "invalid" }}
        }}"#,
        base + 123,
        base + 234,
        base + 4_000_000_000
    );
    let users = parse_steam_users(&data).unwrap();
    assert_eq!(users.len(), 3);
    assert_eq!(user(&users, "123").display_name, "昵称 🐱");
    assert_eq!(user(&users, "234").display_name, "fallback");
    assert_eq!(user(&users, "4000000000").display_name, "Steam 用户 4000000000");
    let source = |path: &str| FoundSource {
        path: path.into(),
        kind: "folder".into(),
        user: None,
    };
    let root = "D:/Steam";
    assert_eq!(
        source_user(&source("d:\\STEAM\\userdata\\123\\42\\remote"), root, &users)
            .unwrap()
            .display_name,
        "昵称 🐱"
    );
    assert_eq!(
        source_user(&source("D:/Steam/userdata/999/42/remote"), root, &users)
            .unwrap()
            .account_id,
        "999"
    );
    assert!(source_user(&source("D:/Else/userdata/123/save"), root, &users).is_none());
    assert!(source_user(&source("C:/Users/Me/AppData/Game/123/save"), root, &users).is_none());
    let id64_path = format!("C:/Users/Me/AppData/Game/{}/save", base + 123);
    assert_eq!(
        source_user(&source(&id64_path), root, &users)
            .unwrap()
            .account_id,
        "123"
    );
}

#[test]
fn steam_users_are_kept_in_account_id_order() {
    let base = 76_561_197_960_265_728_u64;
    let data = format!(
        r#""users" {{ "{}" {{ "PersonaName" "b" }} "{}" {{ "PersonaName" "a" }} }}"#,
        base + 20,
        base + 3
    );
    let users = parse_steam_users(&data).unwrap();
    let ids: Vec<&str> = users.iter().map(|u| u.account_id.as_str()).collect();
    assert_eq!(ids, vec!["20", "3"]);
    assert_eq!(users[0].steam_id64.as_deref(), Some("76561197960265748"));
    assert!(parse_steam_users(r#""other" { }"#).is_err());
}

#[test]
fn only_windows_steam_save_rules_are_used() {
    let condition = |os: Option<&str>, store: Option<&str>| Condition {
        os: os.map(str::to_owned),
        store: store.map(str::to_owned),
    };
    let rule = |tags: &[&str], when: Vec<Condition>| Rule {
        tags: tags.iter().map(|t| t.to_string()).collect(),
        when,
    };
    let cases = vec![
        (rule(&["save"], vec![condition(Some("windows"), Some("steam"))]), true),
        (rule(&["config"], vec![]), false),
        (rule(&[], vec![condition(Some("windows"), Some("steam"))]), true),
        (rule(&["save"], vec![condition(Some("linux"), None)]), false),
        (rule(&["save"], vec![condition(None, Some("gog"))]), false),
        (
            rule(
                &["save"],
                vec![condition(Some("linux"), None), condition(Some("windows"), None)],
            ),
            true,
        ),
    ];
    for (rule, expected) in cases {
        assert_eq!(rule.applicable(), expected);
    }
}

#[test]
fn unknown_placeholders_leave_patterns_unresolved() {
    assert!(resolve_pattern("<unknown>/save", &Vec::new()).is_none());
    let vars = vec![
        ("base".to_string(), "C:/Games/Example".to_string()),
        ("storeUserId".to_string(), "*".to_string()),
    ];
    assert_eq!(
        expand_pattern("<base>\\saves\\<storeUserId>", &vars).as_deref(),
        Some("C:/Games/Example/saves/*")
    );
    assert!(expand_pattern("<base>/<home>", &vars).is_none());
}

#[test]
fn library_folders_add_each_numbered_library_once() {
    let doc = parse_vdf(
        r#""libraryfolders" { "0" { "path" "D:\\Steam" } "1" { "path" "e:\\library" } "2" "E:\\Library" "x" { "path" "F:\\Other" } }"#,
    )
    .unwrap();
    assert_eq!(
        library_paths("D:\\Steam", &doc),
        vec!["D:\\Steam".to_string(), "e:\\library".to_string()]
    );
}

#[test]
fn app_manifests_need_an_id_and_a_safe_folder() {
    let doc = parse_vdf(r#""AppState" { "appid" "99" "name" "Example" "installdir" "Game [test]" }"#).unwrap();
    let app = app_manifest(&doc).unwrap();
    assert_eq!(app.app_id, 99);
    assert_eq!(app.install_dir, "Game [test]");
    assert_eq!(app.name, "Example");
    let unnamed = parse_vdf(r#""AppState" { "appid" "7" "installdir" "Folder" }"#).unwrap();
    assert_eq!(app_manifest(&unnamed).unwrap().name, "Folder");
    let escaping = parse_vdf(r#""AppState" { "appid" "7" "installdir" ".." }"#).unwrap();
    assert!(app_manifest(&escaping).is_none());
    let bad_id = parse_vdf(r#""AppState" { "appid" "x7" "installdir" "Folder" }"#).unwrap();
    assert!(app_manifest(&bad_id).is_none());
    assert!(is_app_manifest("appmanifest_42.acf", Some("acf")));
    assert!(!is_app_manifest("appmanifest_42.tmp", Some("tmp")));
    assert!(!is_app_manifest("libraryfolders.vdf", Some("vdf")));
}

#[test]
fn nested_sources_do_not_duplicate_their_folder() {
    let source = |path: &str, kind: &str| FoundSource {
        path: path.into(),
        kind: kind.into(),
        user: None,
    };
    let kept = prune_nested_sources(vec![
        source("C:\\Games\\Saves", "folder"),
        source("c:/games/saves/slot.sav", "file"),
        source("C:/Games/SavesOther/slot.sav", "file"),
    ]);
    let paths: Vec<&str> = kept.iter().map(|s| s.path.as_str()).collect();
    assert_eq!(paths, vec!["C:\\Games\\Saves", "C:/Games/SavesOther/slot.sav"]);
}

#[test]
fn warnings_are_sorted_deduplicated_and_capped() {
    let mut warnings = vec!["b".to_string(), "a".to_string(), "b".to_string()];
    assert_eq!(finish_warnings(warnings.clone()), vec!["a".to_string(), "b".to_string()]);
    warnings = (0..40).map(|i| format!("w{i:02}")).collect();
    let capped = finish_warnings(warnings);
    assert_eq!(capped.len(), 30);
    assert_eq!(capped[0], "w00");
}

#[test]
fn unsigned_numbers_parse_like_str_parse() {
    let chars = |s: &str| s.chars().collect::<Vec<_>>();
    assert_eq!(parse_uint_exec(&chars("+42"), u64::MAX), Some(42));
    assert_eq!(parse_uint_exec(&chars("4294967296"), 0xffff_ffff), None);
    assert_eq!(parse_uint_exec(&chars("4294967295"), 0xffff_ffff), Some(4294967295));
    assert_eq!(parse_uint_exec(&chars(""), u64::MAX), None);
    assert_eq!(parse_uint_exec(&chars("-1"), u64::MAX), None);
    assert!(matches!(parse_vdf("\"a\" \"b\" }"), Err(VdfError::UnbalancedBrace)));
}

#[test]
fn filled_patterns_are_kept_only_when_absolute() {
    assert_eq!(
        chronicle::steam::keep_if_absolute("C:/Games/save".to_string(), true),
        Some("C:/Games/save".to_string())
    );
    assert_eq!(chronicle::steam::keep_if_absolute("save".to_string(), false), None);
    let vars = vec![("base".to_string(), "relative/dir".to_string())];
    assert_eq!(chronicle::steam::resolve_pattern("<base>/save", &vars), None);
}
