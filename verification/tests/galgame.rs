use chronicle::galgame::external_folders;
use chronicle::galgame::{galgame_next_directory, galgame_progress, galgame_walk_start, galgame_walk_step, ScanDirEntry};
use chronicle::galgame::{
    add_found_source, candidate_names, decode_text_file, detect_engine, is_external, renpy_save_directory,
    sort_games, sort_sources, usable_name, validate_galgame_sources, FolderFacts, FoundGame,
    FoundSource, SaveBase, SourceProbe,
};

fn facts(files: &[&str], directories: &[&str]) -> FolderFacts {
    FolderFacts {
        files: files.iter().map(|s| s.to_string()).collect(),
        directories: directories.iter().map(|s| s.to_string()).collect(),
        game_has_archive: false,
        game_has_script: false,
        mv_in_www: false,
        mv_at_root: false,
        mz_at_root: false,
        wolf: false,
        ini: String::new(),
    }
}

fn source(path: &str) -> FoundSource {
    FoundSource {
        path: path.into(),
        kind: "folder".into(),
        evidence: "name".into(),
    }
}

#[test]
fn renpy_save_directories_are_read_only_when_literal_and_safe() {
    assert_eq!(
        renpy_save_directory(
            "# Game options\n\ndefine config.name = \"Example\"\n\ndefine config.save_directory = \"Test-123\"\n"
        )
        .as_deref(),
        Some("Test-123")
    );
    assert_eq!(
        renpy_save_directory("define config.save_directory = \"../../escape\"\n"),
        None
    );
    assert_eq!(
        renpy_save_directory("define config.save_directory = \"Test-123\" + execute()\n"),
        None
    );
}

#[test]
fn generic_and_short_names_do_not_identify_games() {
    assert!(usable_name("Original Title"));
    assert!(!usable_name("Game"));
    assert!(!usable_name("ab"));
    assert!(!usable_name("a/b/c"));
}

#[test]
fn candidate_names_come_from_title_executables_ini_and_package() {
    let children = vec![
        ("title.exe".to_string(), true),
        ("game.exe".to_string(), true),
        ("folder.exe".to_string(), false),
        ("readme.txt".to_string(), true),
    ];
    let names = candidate_names(
        "Zeta",
        &children,
        Some("[Game]\nTitle = Original Title \n"),
        Some(r#"{"name":" pkg-name ","productName":"Product"}"#),
    );
    assert_eq!(
        names,
        vec!["original title", "pkg-name", "product", "title", "zeta"]
    );
    assert_eq!(candidate_names("Zeta", &Vec::new(), None, Some("not json")), vec!["zeta"]);
    assert!(candidate_names("Game", &Vec::new(), None, None).is_empty());
}

#[test]
fn external_locations_exclude_installations_and_their_parents() {
    let installations = vec!["c:/games/title".to_string()];
    assert!(!is_external("C:/Games/Title", &installations));
    assert!(!is_external("C:/Games/Title/save", &installations));
    assert!(!is_external("C:/Games", &installations));
    assert!(is_external("C:/Users/me/Saved Games/Title", &installations));
}

#[test]
fn sources_are_added_once_ignoring_case_and_ordered_by_path() {
    let mut sources = Vec::new();
    add_found_source(&mut sources, "C:/B/save".into(), true, "name");
    add_found_source(&mut sources, "c:/b/SAVE".into(), true, "engine");
    add_found_source(&mut sources, "C:/A/slot.sav".into(), false, "engine");
    assert_eq!(sources.len(), 2);
    assert_eq!(sources[1].kind, "file");
    let sorted = sort_sources(sources);
    assert_eq!(sorted[0].path, "C:/A/slot.sav");
    assert_eq!(sorted[1].path, "C:/B/save");
    let games = sort_games(vec![
        FoundGame {
            name: "b".into(),
            install_path: "/z".into(),
            engine: "x".into(),
            sources: vec![source("/z/save")],
        },
        FoundGame {
            name: "a".into(),
            install_path: "/a".into(),
            engine: "x".into(),
            sources: Vec::new(),
        },
    ]);
    assert_eq!(games[0].name, "a");
}

#[test]
fn engines_are_recognized_from_their_markers() {
    let mut renpy = facts(&["renpy.exe"], &["game", "renpy"]);
    renpy.game_has_archive = true;
    let (engine, base, _) = detect_engine(&renpy).unwrap();
    assert_eq!(engine, "Ren’Py");
    assert_eq!(base, SaveBase::GameDirectory);
    assert!(detect_engine(&facts(&["readme.txt"], &[])).is_none());
}

#[test]
fn configuration_files_decode_as_utf8_or_utf16_with_a_mark() {
    assert_eq!(decode_text_file("title=星空".as_bytes()), Some("title=星空".to_string()));
    let mut utf16 = vec![0xff, 0xfe];
    for unit in "名前".encode_utf16() {
        utf16.extend_from_slice(&unit.to_le_bytes());
    }
    utf16.push(0x41);
    assert_eq!(decode_text_file(&utf16), Some("名前".to_string()));
    assert_eq!(decode_text_file(&[0xff, 0xfe, 0x00, 0xd8]), Some("\u{fffd}".to_string()));
    assert_eq!(decode_text_file(&[0x61, 0xc3]), None);
    assert_eq!(decode_text_file(&[]), Some(String::new()));
    assert_eq!(decode_text_file(&vec![b'a'; 1024 * 1024]).map(|t| t.len()), Some(1024 * 1024));
    assert_eq!(decode_text_file(&vec![b'a'; 1024 * 1024 + 1]), None);
}

#[test]
fn found_sources_that_vanished_or_changed_kind_are_reported() {
    let file = |path: &str| FoundSource {
        path: path.to_string(),
        kind: "file".to_string(),
        evidence: "name".to_string(),
    };
    let folder = |path: &str| FoundSource {
        path: path.to_string(),
        kind: "folder".to_string(),
        evidence: "name".to_string(),
    };
    let probe = |safe_path: bool, is_file: bool, is_dir: bool, opens: bool, lists: bool| SourceProbe {
        safe_path,
        is_file,
        is_dir,
        opens,
        lists,
    };
    let sources = vec![
        file("C:/g/save.dat"),
        folder("C:/g/saves"),
        file("C:/g/now-a-folder"),
        folder("C:/g/link"),
        file("C:/g/locked.dat"),
        FoundSource { kind: "other".to_string(), ..file("C:/g/odd") },
    ];
    let probes = vec![
        probe(true, true, false, true, false),
        probe(true, false, true, false, true),
        probe(true, false, true, false, true),
        probe(false, false, true, false, true),
        probe(true, true, false, false, false),
        probe(true, true, false, true, false),
    ];
    assert_eq!(
        validate_galgame_sources(&sources, &probes),
        vec!["C:/g/now-a-folder", "C:/g/link", "C:/g/locked.dat", "C:/g/odd"]
    );
    assert!(validate_galgame_sources(&sources[..2].to_vec(), &probes[..2].to_vec()).is_empty());
}

#[test]
fn the_collection_walk_counts_descends_and_stops_when_cancelled() {
    let mut state = galgame_walk_start("C:/games".to_string());
    assert_eq!(galgame_next_directory(&mut state), Some("C:/games".to_string()));
    let listing = vec![
        ScanDirEntry { path: "C:/games/a".into(), is_dir: true },
        ScanDirEntry { path: "C:/games/readme.txt".into(), is_dir: false },
        ScanDirEntry { path: "C:/games/b".into(), is_dir: true },
    ];
    assert_eq!(galgame_walk_step(&mut state, listing, None, false).unwrap(), vec!["C:/games/a", "C:/games/b"]);
    assert_eq!(galgame_progress(&state), (1, 0));
    assert_eq!(galgame_next_directory(&mut state), Some("C:/games/b".to_string()));
    let game = FoundGame { name: "b".into(), install_path: "C:/games/b".into(), engine: "Generic".into(), sources: vec![] };
    assert!(galgame_walk_step(&mut state, vec![ScanDirEntry { path: "C:/games/b/save".into(), is_dir: true }], Some(game), false).unwrap().is_empty());
    assert_eq!(galgame_progress(&state), (2, 1));
    assert_eq!(galgame_walk_step(&mut state, vec![], None, true).unwrap_err(), "galgame-scan-cancelled");
    assert_eq!(galgame_progress(&state), (2, 1));
    assert_eq!(state.pending, vec!["C:/games/a".to_string()]);
}

#[test]
fn utf16_pairs_decode_to_one_character_and_lone_surrogates_to_the_replacement() {
    // A surrogate pair (U+1F600), a lone low surrogate, then 'A'.
    let bytes = [0xff, 0xfe, 0x3d, 0xd8, 0x00, 0xde, 0x00, 0xdc, 0x41, 0x00];
    assert_eq!(decode_text_file(&bytes), Some("\u{1F600}\u{FFFD}A".to_string()));
    // A high surrogate followed by a plain unit.
    assert_eq!(decode_text_file(&[0xff, 0xfe, 0x00, 0xd8, 0x42, 0x00]), Some("\u{FFFD}B".to_string()));
}

#[test]
fn folders_under_user_folders_are_matched_by_name_outside_installations() {
    let s = |v: &[&str]| v.iter().map(|x| x.to_string()).collect::<Vec<_>>();
    let found: Vec<(String, String)> = [
        ("alpha", "C:/Users/u/Documents/Alpha"),
        ("beta", "C:/Users/u/Documents/Beta"),
        ("alpha", "C:/Games/Alpha/Alpha"),
        ("alpha", "C:/Users/u/AppData/Alpha"),
    ]
    .iter()
    .map(|(n, p)| (n.to_string(), p.to_string()))
    .collect();
    let installations = s(&["c:/games/alpha"]);
    assert_eq!(
        external_folders(&s(&["alpha", "beta"]), &found, &installations),
        s(&["C:/Users/u/Documents/Alpha", "C:/Users/u/AppData/Alpha", "C:/Users/u/Documents/Beta"])
    );
    assert!(external_folders(&s(&["gamma"]), &found, &installations).is_empty());
}
