use chronicle::commands::{
    entry_dto, entry_row, parse_storage_policy, parse_sync_mode, recycle_root, snapshot_dto,
    with_diagnostic, DiagnosticEntryDto,
};
use chronicle::json::{parse_json, Json};
use chronicle::model::{
    Category, ChangeSummary, Entry, EntryKind, EntrySource, Snapshot, SnapshotFile,
    StoragePolicy, SyncMode,
};
use chronicle::onboarding::{initialize, tray_labels, TutorialStatus};
use chronicle::storage_root::{portable_marker_path, resolve_repository_root};

fn doc(text: &str) -> Json {
    parse_json(text.as_bytes()).unwrap()
}

fn source(id: &str, path: &str, kind: EntryKind) -> EntrySource {
    EntrySource {
        id: id.into(),
        name: id.into(),
        path: path.into(),
        kind,
    }
}

fn entry(sources: Vec<EntrySource>, category_id: Option<&str>) -> Entry {
    Entry {
        id: "e".into(),
        name: "Save".into(),
        sources,
        category_id: category_id.map(str::to_owned),
        tags: vec!["rpg".into()],
        storage_policy: StoragePolicy::LocalAndRemote,
        sync_mode: SyncMode::Automatic,
        created_at_ms: 10,
        exclude_patterns: Vec::new(),
        auto_backup_enabled: false,
    }
}

fn snapshot(created_at_ms: u64, sizes: &[u64]) -> Snapshot {
    Snapshot {
        id: "s".into(),
        entry_id: "e".into(),
        parent_id: None,
        device_id: "d".into(),
        device_name: "PC".into(),
        title: "t".into(),
        note: String::new(),
        created_at_ms,
        archive_name: "a.7z".into(),
        object_hash: "h".into(),
        size_bytes: 1,
        files: sizes
            .iter()
            .enumerate()
            .map(|(i, size)| SnapshotFile {
                relative_path: format!("f{i}"),
                content_hash: "x".into(),
                size_bytes: *size,
                modified_at_ms: 3,
            })
            .collect(),
        changes: ChangeSummary {
            added: 1,
            modified: 0,
            deleted: 0,
        },
        safety: false,
        locked: false,
    }
}

#[test]
fn tray_language_uses_saved_preference_and_defaults_to_chinese() {
    assert_eq!(tray_labels(&doc("{}")), ("显示 Chronicle", "退出 Chronicle"));
    assert_eq!(
        tray_labels(&doc(r#"{"app":{"language":"en"}}"#)),
        ("Show Chronicle", "Quit Chronicle")
    );
    assert_eq!(
        tray_labels(&doc(r#"{"app":{"language":"fr"}}"#)),
        ("显示 Chronicle", "退出 Chronicle")
    );
}

#[test]
fn fresh_repository_remains_pending_after_initialization_and_reopen() {
    let first = initialize(false, false, false).unwrap();
    assert_eq!(first.status, TutorialStatus::Pending);
    assert!(first.seen_tips.is_empty());
    assert!(initialize(true, true, false).is_none());
}

#[test]
fn existing_empty_repository_is_not_a_new_user() {
    assert_eq!(
        initialize(false, true, false).unwrap().status,
        TutorialStatus::Legacy
    );
    assert_eq!(
        initialize(false, false, true).unwrap().status,
        TutorialStatus::Legacy
    );
}

#[test]
fn malformed_progress_is_not_silently_reset_to_pending() {
    assert!(initialize(true, false, false).is_none());
}

#[test]
fn entry_records_join_paths_and_summarize_the_latest_snapshot() {
    let dto = entry_dto(
        entry(
            vec![
                source("a", "C:/one", EntryKind::File),
                source("b", "C:/two", EntryKind::Directory),
            ],
            None,
        ),
        Some(&snapshot(20, &[5, 7])),
        None,
    );
    assert_eq!(dto.source_path, "C:/one · C:/two");
    assert_eq!(dto.kind, "collection");
    assert_eq!(dto.category, "未分类");
    assert_eq!(dto.storage_policy, "local_and_remote");
    assert_eq!(dto.sync_mode, "automatic");
    assert_eq!(dto.updated_at, 20);
    assert_eq!(dto.total_bytes, 12);
    assert_eq!(dto.last_snapshot_at, Some(20));
    assert_eq!(dto.sources[1].kind, "folder");
    let single = entry_dto(
        entry(vec![source("a", "C:/one", EntryKind::File)], None),
        None,
        Some("Games".into()),
    );
    assert_eq!(single.kind, "file");
    assert_eq!(single.category, "Games");
    assert_eq!(single.updated_at, 10);
    assert_eq!(single.total_bytes, 0);
}

#[test]
fn listed_entries_name_existing_categories_only() {
    let categories = vec![Category {
        id: "c".into(),
        name: "Games".into(),
        parent_id: None,
    }];
    let named = entry_row(
        entry(vec![source("a", "p", EntryKind::File)], Some("c")),
        None,
        &categories,
    );
    assert_eq!(named.category, "Games");
    let missing = entry_row(
        entry(vec![source("a", "p", EntryKind::File)], Some("gone")),
        None,
        &categories,
    );
    assert_eq!(missing.category, "未分类");
}

#[test]
fn snapshot_records_total_their_files() {
    let dto = snapshot_dto(snapshot(5, &[1, 2, 3]));
    assert_eq!(dto.total_bytes, 6);
    assert_eq!(dto.files.len(), 3);
    assert_eq!(dto.files[2].path, "f2");
    assert_eq!(dto.archive_id, "e");
    assert_eq!(dto.changes.added, 1);
}

#[test]
fn interface_choices_are_read_exactly() {
    assert_eq!(parse_sync_mode("manual"), Ok(SyncMode::Manual));
    assert_eq!(parse_sync_mode("automatic"), Ok(SyncMode::Automatic));
    assert_eq!(parse_sync_mode("Manual"), Err("不支持的同步方式".to_string()));
    assert_eq!(parse_storage_policy("local"), Ok(StoragePolicy::Local));
    assert_eq!(
        parse_storage_policy("remote"),
        Err("不支持的保存方式".to_string())
    );
}

#[test]
fn recycle_bins_default_below_the_repository() {
    assert_eq!(recycle_root("/repo", false, Some("/bin".into())), None);
    assert_eq!(
        recycle_root("/repo", true, Some("/bin".into())),
        Some("/bin".to_string())
    );
    assert_eq!(
        recycle_root("/repo", true, Some("  ".into())),
        Some("/repo/recycle".to_string())
    );
    assert_eq!(
        recycle_root("/repo", true, None),
        Some("/repo/recycle".to_string())
    );
}

#[test]
fn diagnostics_keep_the_newest_two_hundred() {
    let record = |id: &str| DiagnosticEntryDto {
        id: id.into(),
        occurred_at: 1,
        operation: "op".into(),
        archive_id: None,
        source_id: None,
        message: "m".into(),
        details: String::new(),
    };
    let mut list = Vec::new();
    for i in 0..205 {
        list = with_diagnostic(list, record(&i.to_string()));
    }
    assert_eq!(list.len(), 200);
    assert_eq!(list[0].id, "204");
    assert_eq!(list[199].id, "5");
}

#[test]
fn completion_and_tips_survive_reopen_without_entering_settings() {
    assert!(initialize(false, false, false).is_some());
    // Once progress is saved, reopening never rewrites it.
    assert!(initialize(true, false, false).is_none());
    assert!(initialize(true, true, true).is_none());
}

#[test]
fn portable_marker_uses_sibling_data_directory() {
    assert_eq!(
        resolve_repository_root("/opt/chronicle/Chronicle.exe", true, "C:/AppData").unwrap(),
        "/opt/chronicle/Chronicle-data"
    );
    assert_eq!(
        portable_marker_path("/opt/chronicle/Chronicle.exe").as_deref(),
        Some("/opt/chronicle/portable.marker")
    );
}

#[test]
fn normal_installation_uses_app_local_data() {
    assert_eq!(
        resolve_repository_root("/opt/chronicle/Chronicle.exe", false, "C:/AppData").unwrap(),
        "C:/AppData/Chronicle"
    );
    assert!(resolve_repository_root("", false, "C:/AppData").is_err());
}
