use chronicle::auto_backup::{
    entry_accepts_event, ChangeKind, ChangedPath, WatchEvent,
    auto_backup_delay, begin_restore_suppression, cancel_restore_suppression, finish_restore_suppression,
    is_restore_suppressed, record_auto_backup_change, retention_candidates, retention_count,
    take_trailing_backup, watched_entries, MergeWindows, Suppressions,
};
use chronicle::json::parse_json;
use chronicle::model::{ChangeSummary, Entry, EntryKind, EntrySource, Snapshot, StoragePolicy, SyncMode};

fn snapshot(id: &str, time: u64, safety: bool, locked: bool) -> Snapshot {
    Snapshot {
        id: id.into(),
        entry_id: "e".into(),
        parent_id: None,
        device_id: "test".into(),
        device_name: "test".into(),
        title: "test".into(),
        note: String::new(),
        created_at_ms: time,
        archive_name: "a.7z".into(),
        object_hash: "hash".into(),
        size_bytes: 1,
        files: Vec::new(),
        changes: ChangeSummary { added: 0, modified: 0, deleted: 0 },
        safety,
        locked,
    }
}

#[test]
fn first_change_leaves_one_latest_snapshot_pending_for_the_merge_window() {
    let mut windows = MergeWindows::new();

    assert!(record_auto_backup_change(&mut windows, "entry"));
    assert!(take_trailing_backup(&mut windows, "entry"));
}

#[test]
fn later_changes_in_the_window_still_leave_only_one_latest_snapshot_pending() {
    let mut windows = MergeWindows::new();

    assert!(record_auto_backup_change(&mut windows, "entry"));
    assert!(!record_auto_backup_change(&mut windows, "entry"));
    assert!(!record_auto_backup_change(&mut windows, "entry"));
    assert!(take_trailing_backup(&mut windows, "entry"));
}

#[test]
fn restore_events_are_ignored_until_the_merge_window_ends() {
    let mut suppressions = Suppressions::new();
    let now = 1_000_u64;

    begin_restore_suppression(&mut suppressions, "entry");
    assert!(is_restore_suppressed(&mut suppressions, "entry", now));

    finish_restore_suppression(&mut suppressions, "entry", now, 5_000);
    assert!(is_restore_suppressed(&mut suppressions, "entry", now));
    assert!(!is_restore_suppressed(&mut suppressions, "entry", now + 5_000 + 1));
}

#[test]
fn retention_keeps_locked_and_safety_snapshots_outside_the_normal_limit() {
    let snapshots = vec![
        snapshot("old", 0, false, false),
        snapshot("locked", 1, false, true),
        snapshot("new", 2, false, false),
        snapshot("safety", 3, true, false),
    ];
    assert_eq!(retention_candidates(&snapshots, 1), vec!["old"]);
}

#[test]
fn windows_are_kept_per_archive_and_close_once() {
    let mut windows = MergeWindows::new();
    assert!(record_auto_backup_change(&mut windows, "a"));
    assert!(record_auto_backup_change(&mut windows, "b"));
    assert!(take_trailing_backup(&mut windows, "a"));
    assert!(!take_trailing_backup(&mut windows, "a"));
    assert!(take_trailing_backup(&mut windows, "b"));
    let mut suppressions = Suppressions::new();
    begin_restore_suppression(&mut suppressions, "a");
    cancel_restore_suppression(&mut suppressions, "a");
    assert!(!is_restore_suppressed(&mut suppressions, "a", 0));
    assert!(!is_restore_suppressed(&mut suppressions, "b", 0));
}

#[test]
fn settings_choose_the_delay_and_retention() {
    let settings = parse_json(br#"{"app":{"autoBackupDelaySeconds":900,"retentionCount":3}}"#).unwrap();
    assert_eq!(auto_backup_delay(&settings), 300);
    assert_eq!(retention_count(&settings), Some(3));
    let empty = parse_json(br#"{"app":{"autoBackupDelaySeconds":0}}"#).unwrap();
    assert_eq!(auto_backup_delay(&empty), 1);
    assert_eq!(retention_count(&empty), None);
    let missing = parse_json(br#"{}"#).unwrap();
    assert_eq!(auto_backup_delay(&missing), 5);
}

#[test]
fn only_enabled_archives_with_local_paths_are_watched() {
    let entry = |id: &str, enabled: bool, kind: EntryKind, path: &str| Entry {
        id: id.into(),
        name: id.into(),
        sources: vec![EntrySource { id: "s".into(), name: "s".into(), path: path.into(), kind }],
        category_id: None,
        tags: Vec::new(),
        storage_policy: StoragePolicy::Local,
        sync_mode: SyncMode::Manual,
        created_at_ms: 0,
        exclude_patterns: Vec::new(),
        auto_backup_enabled: enabled,
    };
    let watched = watched_entries(vec![
        entry("a", true, EntryKind::Directory, "C:/save"),
        entry("b", false, EntryKind::Directory, "C:/save"),
        entry("c", true, EntryKind::Registry, "HKEY_CURRENT_USER/Software"),
        entry("d", true, EntryKind::File, ""),
    ]);
    assert_eq!(watched.len(), 1);
    assert_eq!(watched[0].id, "a");
}

fn watched_entry() -> Entry {
    Entry {
        id: "entry".into(),
        name: "Save".into(),
        sources: vec![
            EntrySource {
                id: "folder".into(),
                name: "save".into(),
                path: "/save".into(),
                kind: EntryKind::Directory,
            },
            EntrySource {
                id: "reg".into(),
                name: "Registry".into(),
                path: "HKEY_CURRENT_USER/Software/Test".into(),
                kind: EntryKind::Registry,
            },
        ],
        category_id: None,
        tags: Vec::new(),
        storage_policy: StoragePolicy::Local,
        sync_mode: SyncMode::Manual,
        created_at_ms: 0,
        exclude_patterns: vec!["*.tmp".into(), "cache/".into()],
        auto_backup_enabled: true,
    }
}

fn change(kind: ChangeKind, path: &str) -> WatchEvent {
    WatchEvent {
        kind,
        folder_removed: false,
        paths: vec![ChangedPath {
            path: path.into(),
            is_dir: false,
        }],
    }
}

#[test]
fn exclusions_filter_watcher_events_but_registry_paths_never_trigger() {
    let entry = watched_entry();
    assert!(!entry_accepts_event(&entry, &change(ChangeKind::Modify, "/save/cache/gone.dat")));
    assert!(!entry_accepts_event(&entry, &change(ChangeKind::Modify, "/save/log.tmp")));
    assert!(entry_accepts_event(&entry, &change(ChangeKind::Modify, "/save/progress.dat")));
    assert!(!entry_accepts_event(
        &entry,
        &change(ChangeKind::Modify, "HKEY_CURRENT_USER/Software/Test")
    ));
    assert!(!entry_accepts_event(&entry, &change(ChangeKind::Other, "/save/progress.dat")));
}

#[test]
fn file_sources_match_only_their_own_path_and_removed_folders_count_as_directories() {
    let mut entry = watched_entry();
    entry.sources = vec![EntrySource {
        id: "file".into(),
        name: "slot.sav".into(),
        path: "/games/slot.sav".into(),
        kind: EntryKind::File,
    }];
    assert!(entry_accepts_event(&entry, &change(ChangeKind::Create, "/games/slot.sav")));
    assert!(!entry_accepts_event(&entry, &change(ChangeKind::Create, "/games/other.sav")));
    let mut folder = watched_entry();
    folder.exclude_patterns = vec!["cache/".into()];
    let mut removal = change(ChangeKind::Remove, "/save/cache");
    assert!(entry_accepts_event(&folder, &removal));
    removal.folder_removed = true;
    assert!(!entry_accepts_event(&folder, &removal));
    let mut broken = watched_entry();
    broken.exclude_patterns = vec!["/rooted".into()];
    assert!(!entry_accepts_event(&broken, &change(ChangeKind::Modify, "/save/a.dat")));
}

#[test]
fn retention_never_removes_locked_snapshots_however_many_there_are() {
    let snapshots = vec![
        snapshot("a", 5, false, true),
        snapshot("b", 4, false, true),
        snapshot("c", 3, false, false),
        snapshot("d", 2, false, true),
        snapshot("e", 1, false, false),
        snapshot("f", 0, true, false),
    ];
    assert_eq!(retention_candidates(&snapshots, 0), vec!["c", "e"]);
    assert_eq!(retention_candidates(&snapshots, 1), vec!["e"]);
    assert!(retention_candidates(&snapshots, 2).is_empty());
    assert!(retention_candidates(&snapshots, 10).is_empty());
}
