use chronicle::steam::{FoundGame, FoundSource, GameRules, Rule};
use chronicle::steam_paths::{
    add_glob_matches, add_installed_game, installed_games, placeholders, put_found_source, registry_rule_paths,
    save_patterns, sort_found_sources, userdata_pattern, GlobMatch, PlaceholderDirs,
};

fn found(path: &str, kind: &str) -> FoundSource {
    FoundSource { path: path.to_string(), kind: kind.to_string(), user: None }
}

fn rule(tags: &[&str]) -> Rule {
    Rule { tags: tags.iter().map(|t| t.to_string()).collect(), when: vec![] }
}

fn game(name: &str) -> FoundGame {
    FoundGame {
        app_id: name.to_string(),
        name: name.to_string(),
        install_path: String::new(),
        sources: vec![],
        has_rules: false,
    }
}

#[test]
fn placeholders_are_literal_patterns_ordered_by_name() {
    let dirs = PlaceholderDirs {
        home: Some("C:\\Users\\ann".to_string()),
        documents: None,
        app_data: Some("C:\\Users\\ann\\AppData\\Roaming".to_string()),
        local_app_data: None,
        local_app_data_low: None,
        public: None,
        program_data: None,
        windows: None,
        user_name: Some("ann[1]".to_string()),
    };
    let vars = placeholders(
        "C:\\Steam",
        "D:\\Games [SSD]",
        "D:\\Games [SSD]\\steamapps\\common\\Game*",
        "Game*",
        "70",
        &dirs,
    );
    let expected: Vec<(String, String)> = vec![
        ("base", "D:/Games [[]SSD[]]/steamapps/common/Game[*]"),
        ("game", "Game[*]"),
        ("home", "C:/Users/ann"),
        ("osUserName", "ann[[]1[]]"),
        ("root", "D:/Games [[]SSD[]]"),
        ("steam", "C:/Steam"),
        ("storeGameId", "70"),
        ("storeUserId", "*"),
        ("winAppData", "C:/Users/ann/AppData/Roaming"),
    ]
    .into_iter()
    .map(|(k, v)| (k.to_string(), v.to_string()))
    .collect();
    assert_eq!(vars, expected);
    assert_eq!(userdata_pattern("C:\\Steam?", "70"), "C:/Steam[?]/userdata/*/70/remote");
}

#[test]
fn only_applicable_rules_give_patterns_and_registry_keys() {
    let rules = GameRules {
        files: vec![
            ("<base>/save".to_string(), rule(&["save"])),
            ("<base>/config".to_string(), rule(&["config"])),
            ("<unknown>/x".to_string(), rule(&[])),
            ("<home>/AppData/x".to_string(), rule(&[])),
        ],
        registry: vec![
            ("HKEY_CURRENT_USER/Software/Game".to_string(), rule(&["save"])),
            ("HKEY_CURRENT_USER/Software/Other".to_string(), rule(&["config"])),
        ],
        steam_id: Some(70),
        steam_extra: vec![],
    };
    let vars = vec![
        ("base".to_string(), "C:/Games/A".to_string()),
        ("home".to_string(), "C:/Users/ann".to_string()),
    ];
    assert_eq!(
        save_patterns(&rules, &vars),
        vec!["C:/Games/A/save", "C:/Users/ann/AppData/x"]
    );
    assert_eq!(registry_rule_paths(&rules), vec!["HKEY_CURRENT_USER\\Software\\Game"]);
}

#[test]
fn locations_are_collected_once_per_lower_cased_path() {
    let mut sources = vec![];
    put_found_source(&mut sources, found("C:/Saves/A", "folder"), false);
    put_found_source(&mut sources, found("c:/saves/a", "file"), false);
    assert_eq!(sources.len(), 1);
    assert_eq!(sources[0].kind, "folder");
    put_found_source(&mut sources, found("c:/saves/a", "file"), true);
    assert_eq!(sources[0].path, "c:/saves/a");
    put_found_source(&mut sources, found("B", "file"), false);
    let sorted = sort_found_sources(sources);
    assert_eq!(sorted[0].path, "B");
    assert_eq!(sorted[1].path, "c:/saves/a");
}

#[test]
fn matches_stop_at_the_limit_and_report_unreadable_paths() {
    let mut sources = vec![];
    let mut warnings = vec![];
    add_glob_matches(
        &mut sources,
        vec![
            GlobMatch::Found(found("C:/a", "file")),
            GlobMatch::Unusable,
            GlobMatch::Failed("denied".to_string()),
            GlobMatch::Found(found("C:/A", "folder")),
        ],
        &mut warnings,
    );
    assert_eq!(sources.len(), 1);
    assert_eq!(sources[0].kind, "file");
    assert_eq!(warnings, vec!["部分路径无法访问：denied"]);

    let mut many: Vec<FoundSource> = (0..5000).map(|i| found(&format!("C:/{i}"), "file")).collect();
    let mut warnings = vec![];
    add_glob_matches(
        &mut many,
        vec![GlobMatch::Found(found("C:/new", "file")), GlobMatch::Failed("x".to_string())],
        &mut warnings,
    );
    assert_eq!(many.len(), 5000);
    assert_eq!(warnings, vec!["单个游戏匹配路径过多，已限制为 5000 个，请核对后添加。"]);
}

#[test]
fn installed_games_are_kept_by_id_and_the_first_library_wins() {
    let mut games = std::collections::BTreeMap::new();
    add_installed_game(&mut games, 70, game("first"));
    add_installed_game(&mut games, 10, game("ten"));
    add_installed_game(&mut games, 70, game("second"));
    add_installed_game(&mut games, 30, game("thirty"));
    assert_eq!(games.len(), 3);
    let names: Vec<String> = installed_games(games).into_iter().map(|g| g.name).collect();
    assert_eq!(names, vec!["ten".to_string(), "thirty".to_string(), "first".to_string()]);
}
