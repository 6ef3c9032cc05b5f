use chronicle::model::{Entry, EntryKind, EntrySource};
use chronicle::repository::{adopt_legacy_bindings, adopt_legacy_entry, adopt_legacy_timeline};
use chronicle::model::{SnapshotFile, StoragePolicy, SyncMode};
use chronicle::repository::{
    BindingsDocument, Catalog, DeviceDocument, LocalRepository, RecycleManifest, StorageError,
};
use chronicle::snapshot::{compare_manifests, snapshot_archive_name, sort_manifest};
use chronicle::sources::{safe_folder_name, ResolvedSource};

fn repository() -> LocalRepository {
    LocalRepository::open(
        "C:/Chronicle".to_string(),
        Catalog { format_version: 4, updated_at_ms: 0, categories: Vec::new(), entries: Vec::new() },
        BindingsDocument { format_version: 1, entries: Vec::new() },
        DeviceDocument { format_version: 1, id: "device-1".to_string(), name: "本地设备".to_string() },
    )
}

fn file(path: &str) -> ResolvedSource {
    ResolvedSource {
        path: path.to_string(),
        name: path.rsplit('/').next().unwrap().to_string(),
        is_dir: false,
    }
}

fn manifest_file(path: &str, hash: &str) -> SnapshotFile {
    SnapshotFile {
        relative_path: path.to_string(),
        content_hash: hash.to_string(),
        size_bytes: 1,
        modified_at_ms: 0,
    }
}

#[test]
fn categories_return_to_root_and_tags_are_normalized() {
    let mut repository = repository();
    let entry = repository
        .add_entry("C:/data/settings.json", Some("settings.json".into()), file("C:/data/settings.json"), Some("Settings"), None, 1)
        .unwrap();
    let parent = repository.create_category("配置", None).unwrap();
    let child = repository.create_category("游戏", None).unwrap();

    repository.move_category(&child.id, Some(&parent.id)).unwrap();
    assert!(repository.move_category(&parent.id, Some(&child.id)).is_err());
    repository.move_category(&child.id, None).unwrap();
    assert_eq!(
        repository
            .list_categories()
            .into_iter()
            .find(|item| item.id == child.id)
            .unwrap()
            .parent_id,
        None
    );

    repository
        .set_entry_tags(&entry.id, vec!["重要".into(), "配置".into(), "重要".into(), "  ".into()])
        .unwrap();
    assert_eq!(repository.get_entry(&entry.id).unwrap().tags, vec!["重要", "配置"]);
}

#[test]
fn replacing_a_source_keeps_its_stable_slot_id() {
    let mut repository = repository();
    let entry = repository
        .add_entry("C:/data/first.dat", Some("first.dat".into()), file("C:/data/first.dat"), Some("slot"), None, 1)
        .unwrap();
    let original_id = entry.sources[0].id.clone();
    let updated = repository
        .update_entry_with_sync(&entry.id, "slot", &vec![file("C:/data/second.dat")], StoragePolicy::Local, SyncMode::Automatic)
        .unwrap();
    assert_eq!(updated.sources[0].id, original_id);
    assert_eq!(updated.sync_mode, SyncMode::Automatic);
    assert_eq!(repository.get_entry(&entry.id).unwrap().sources[0].path, "C:/data/second.dat");
}

#[test]
fn changing_sync_mode_keeps_sources_and_snapshots_intact() {
    let mut repository = repository();
    let entry = repository
        .add_entry("C:/data/save.dat", Some("save.dat".into()), file("C:/data/save.dat"), Some("Save"), None, 1)
        .unwrap();
    let id = repository.create_snapshot(&entry.id, "initial".into(), "test".into(), false, "snap-1".into(), 1_000, b"archive", vec![manifest_file("s/save.dat", "aa")]);
    assert!(id.is_ok());

    let updated = repository.set_entry_sync_mode(&entry.id, SyncMode::Automatic).unwrap();

    assert_eq!(updated.sync_mode, SyncMode::Automatic);
    assert_eq!(updated.sources, entry.sources);
    assert_eq!(repository.list_snapshots(&entry.id).unwrap().len(), 1);
}

#[test]
fn snapshot_notes_persist_and_deleting_a_snapshot_removes_its_archive() {
    let mut repository = repository();
    let entry = repository
        .add_entry("C:/data/save.dat", Some("save.dat".into()), file("C:/data/save.dat"), Some("Save"), None, 1)
        .unwrap();
    let snapshot = repository
        .create_snapshot(&entry.id, "Boss 前".into(), "test".into(), false, "snapshot-a".into(), 2_000, b"bytes", vec![])
        .unwrap();

    let updated = repository.update_snapshot_note(&entry.id, &snapshot.id, "  进入第二阶段前 ").unwrap();
    assert_eq!(updated.note, "进入第二阶段前");
    assert_eq!(repository.list_snapshots(&entry.id).unwrap()[0].note, "进入第二阶段前");

    let archive = repository.delete_snapshot(&entry.id, &snapshot.id).unwrap();
    assert!(archive.ends_with(&snapshot.archive_name));
    assert!(repository.list_snapshots(&entry.id).unwrap().is_empty());
}

#[test]
fn recycle_entry_and_category_round_trip() {
    let mut repository = repository();
    let category = repository.create_category("项目", None).unwrap();
    let entry = repository
        .add_entry_sources("状态", &vec![file("C:/data/state.dat")], Some(category.id.clone()), StoragePolicy::Local, 1)
        .unwrap();
    let removal = repository.delete_category(&category.id).unwrap();
    assert!(repository.list_entries().is_empty());
    assert_eq!(removal.entries.len(), 1);
    assert_eq!(removal.display_name, "项目");
    let manifest = RecycleManifest {
        format_version: 1,
        id: "batch".into(),
        kind: "category".into(),
        display_name: removal.display_name.clone(),
        deleted_at_ms: 5,
        categories: removal.categories,
        entries: removal.entries,
    };
    repository.restore_recycle_item(&manifest, &vec![false]).unwrap();
    assert_eq!(repository.list_categories().len(), 1);
    assert_eq!(repository.list_entries()[0].id, entry.id);
    assert_eq!(repository.list_entries()[0].sources[0].path, "C:/data/state.dat");
    match repository.restore_recycle_item(&manifest, &vec![false]) {
        Err(StorageError::RestoreConflict(message)) => assert_eq!(message, "存档“状态”与现有内容冲突"),
        other => panic!("unexpected {other:?}"),
    }
}

#[test]
fn entries_are_listed_by_name_and_snapshots_newest_first() {
    let mut repository = repository();
    repository.add_entry_sources("b", &vec![file("C:/b")], None, StoragePolicy::Local, 1).unwrap();
    let a = repository.add_entry_sources("a", &vec![file("C:/a")], None, StoragePolicy::Local, 2).unwrap();
    let names: Vec<String> = repository.list_entries().into_iter().map(|e| e.name).collect();
    assert_eq!(names, vec!["a", "b"]);
    repository.create_snapshot(&a.id, "one".into(), "d".into(), false, "s1".into(), 1_000, b"x", vec![manifest_file("f", "1")]).unwrap();
    let second = repository
        .create_snapshot(&a.id, "two".into(), "d".into(), false, "s2".into(), 2_000, b"yy", vec![manifest_file("f", "2"), manifest_file("g", "1")])
        .unwrap();
    assert_eq!(second.parent_id.as_deref(), Some("s1"));
    assert_eq!((second.changes.added, second.changes.modified, second.changes.deleted), (1, 1, 0));
    let timeline = repository.list_snapshots(&a.id).unwrap();
    assert_eq!(timeline[0].id, "s2");
    assert!(repository.verify_snapshot("s2", Some(b"yy")).unwrap());
    assert!(!repository.verify_snapshot("s2", Some(b"zz")).unwrap());
    assert!(!repository.verify_snapshot("s2", None).unwrap());
}

#[test]
fn invalid_names_and_missing_items_are_reported() {
    let mut repository = repository();
    assert!(matches!(repository.create_category("  ", None), Err(StorageError::EmptyCategoryName)));
    assert!(matches!(
        repository.create_category("x", Some("missing".into())),
        Err(StorageError::ParentCategoryNotFound(_))
    ));
    repository.create_category("Games", None).unwrap();
    assert!(matches!(repository.create_category("games", None), Err(StorageError::DuplicateCategory)));
    assert!(matches!(
        repository.add_entry_sources(" ", &vec![file("C:/x")], None, StoragePolicy::Local, 1),
        Err(StorageError::EmptyName)
    ));
    assert!(matches!(
        repository.add_entry_sources("x", &Vec::new(), None, StoragePolicy::Local, 1),
        Err(StorageError::EmptySources)
    ));
    assert!(matches!(repository.get_entry("nope"), Err(StorageError::EntryNotFound(_))));
    assert!(matches!(repository.get_snapshot("nope"), Err(StorageError::SnapshotNotFound(_))));
}

#[test]
fn archive_names_and_folders_are_safe_and_dated() {
    assert_eq!(snapshot_archive_name(1_700_000_000_123, "0123456789abcdef"), "20231114T221320.123Z_01234567.7z");
    assert_eq!(snapshot_archive_name(5, "短"), "19700101T000000.005Z_短.7z");
    assert_eq!(safe_folder_name("a<b>:c. "), "a_b__c");
    assert_eq!(safe_folder_name("   "), "archive");
    assert_eq!(safe_folder_name(&"x".repeat(100)).len(), 80);
    let changes = compare_manifests(None, &vec![manifest_file("a", "1"), manifest_file("a", "2")]);
    assert_eq!((changes.added, changes.modified, changes.deleted), (1, 0, 0));
}

fn legacy_entry() -> Entry {
    Entry {
        id: "legacy".into(),
        name: "Old".into(),
        sources: vec![
            EntrySource {
                id: "s1".into(),
                name: "save".into(),
                path: "C:/save".into(),
                kind: EntryKind::Directory,
            },
            EntrySource {
                id: "s2".into(),
                name: "gone".into(),
                path: String::new(),
                kind: EntryKind::File,
            },
        ],
        category_id: Some("c".into()),
        tags: vec!["t".into()],
        storage_policy: StoragePolicy::LocalAndRemote,
        sync_mode: SyncMode::Automatic,
        created_at_ms: 42,
        exclude_patterns: Vec::new(),
        auto_backup_enabled: false,
    }
}

#[test]
fn legacy_entries_are_adopted_with_shared_sources_and_device_bindings() {
    let mut repository = repository();
    let entry = repository
        .add_entry("C:/data/a.sav", Some("a.sav".into()), file("C:/data/a.sav"), Some("A"), None, 1)
        .unwrap();
    let summary = repository.catalog().entries[0].duplicate();
    assert_eq!(summary.id, entry.id);
    let legacy = legacy_entry();
    let adopted = adopt_legacy_entry(summary, &legacy);
    assert_eq!(adopted.sources.len(), 2);
    assert!(adopted.sources.iter().all(|s| s.path.is_empty()));
    assert_eq!(adopted.created_at_ms, 42);
    assert_eq!(adopted.sync_mode, SyncMode::Automatic);
    assert_eq!(adopted.category_id.as_deref(), Some("c"));

    let mut bindings = BindingsDocument { format_version: 1, entries: Vec::new() };
    adopt_legacy_bindings(&mut bindings, "legacy", &legacy.sources);
    adopt_legacy_bindings(&mut bindings, "legacy", &legacy.sources);
    assert_eq!(bindings.entries.len(), 1);
    assert_eq!(bindings.entries[0].1.len(), 1);
    assert_eq!(bindings.entries[0].1[0].path, "C:/save");

    let mut first = chronicle::model::Snapshot {
        id: "a".into(),
        entry_id: "legacy".into(),
        parent_id: None,
        device_id: "d".into(),
        device_name: "n".into(),
        title: "t".into(),
        note: String::new(),
        created_at_ms: 5,
        archive_name: "a.7z".into(),
        object_hash: "h".into(),
        size_bytes: 3,
        files: Vec::new(),
        changes: chronicle::model::ChangeSummary { added: 0, modified: 0, deleted: 0 },
        safety: false,
        locked: false,
    };
    let mut second = first.duplicate();
    second.id = "b".into();
    second.created_at_ms = 9;
    second.size_bytes = 4;
    first.note = "first".into();
    let with_timeline = adopt_legacy_timeline(adopted, vec![first, second]);
    assert_eq!(with_timeline.snapshot_count, 2);
    assert_eq!(with_timeline.stored_bytes, 7);
    assert_eq!(with_timeline.last_snapshot_at_ms, Some(9));
}

#[test]
fn recycle_bins_outside_the_repository_are_added_saturating() {
    let repository = repository();
    let files = |list: &[(&str, u64)]| list.iter().map(|(p, n)| (p.to_string(), *n)).collect::<Vec<_>>();
    assert_eq!(repository.total_stored_bytes_with_recycle(10, &files(&[])), 10);
    assert_eq!(repository.total_stored_bytes_with_recycle(10, &files(&[("D:/Recycle/a/x.7z", 5)])), 15);
    assert_eq!(repository.total_stored_bytes_with_recycle(10, &files(&[("C:/Chronicle/.recycle/x.7z", 5)])), 10);
    // A bin that holds the repository adds only its files outside the repository.
    let around = files(&[("C:/bin.7z", 3), ("C:/Chronicle/catalog.json", 7), ("C:/Chronicle/archives/a.7z", 2)]);
    assert_eq!(repository.total_stored_bytes_with_recycle(9, &around), 12);
    assert_eq!(repository.total_stored_bytes_with_recycle(u64::MAX, &files(&[("D:/Recycle/x", 5)])), u64::MAX);
}

#[test]
fn captured_manifests_are_ordered_by_relative_path() {
    let file = |path: &str, size: u64| SnapshotFile {
        relative_path: path.to_string(),
        content_hash: "h".to_string(),
        size_bytes: size,
        modified_at_ms: 0,
    };
    let sorted = sort_manifest(vec![file("s/b", 1), file("s/a/z", 2), file("S/c", 3), file("s/a", 4)]);
    let paths: Vec<&str> = sorted.iter().map(|f| f.relative_path.as_str()).collect();
    assert_eq!(paths, vec!["S/c", "s/a", "s/a/z", "s/b"]);
}

#[test]
fn restoring_a_deleted_archive_brings_it_back_unchanged() {
    let mut repository = repository();
    let first = repository
        .add_entry("C:/data/a.sav", Some("a.sav".into()), file("C:/data/a.sav"), Some("A"), None, 1)
        .unwrap();
    let second = repository
        .add_entry("C:/data/b.sav", Some("b.sav".into()), file("C:/data/b.sav"), Some("B"), None, 2)
        .unwrap();
    let summary = repository.delete_entry(&first.id).unwrap();
    assert_eq!(repository.list_entries().len(), 1);
    let manifest = RecycleManifest {
        format_version: 1,
        id: "batch".into(),
        kind: "entry".into(),
        display_name: summary.name.clone(),
        deleted_at_ms: 3,
        categories: vec![],
        entries: vec![summary],
    };
    repository.restore_recycle_item(&manifest, &vec![false]).unwrap();
    let ids: Vec<String> = repository.catalog().entries.iter().map(|e| e.id.clone()).collect();
    assert_eq!(ids, vec![second.id.clone(), first.id.clone()]);
    assert!(repository.restore_recycle_item(&manifest, &vec![false]).is_err());
}

#[test]
fn fresh_ids_are_lower_case_version_four_uuids() {
    let id = chronicle::repository::fresh_id();
    assert_eq!(id.len(), 36);
    for (i, c) in id.chars().enumerate() {
        if [8, 13, 18, 23].contains(&i) {
            assert_eq!(c, '-');
        } else {
            assert!(c.is_ascii_digit() || ('a'..='f').contains(&c));
        }
    }
    assert_eq!(id.chars().nth(14), Some('4'));
    assert!("89ab".contains(id.chars().nth(19).unwrap()));
    assert_ne!(id, chronicle::repository::fresh_id());
}

#[test]
fn a_note_update_changes_only_the_note_and_deletion_keeps_the_newest_time() {
    let mut repository = repository();
    let entry = repository
        .add_entry("C:/data/save.dat", Some("save.dat".into()), file("C:/data/save.dat"), Some("Save"), None, 1)
        .unwrap();
    for (id, at) in [("old", 1_000_u64), ("mid", 2_000), ("new", 3_000)] {
        repository
            .create_snapshot(&entry.id, id.into(), "d".into(), false, id.into(), at, id.as_bytes(), vec![])
            .unwrap();
    }
    let last = |r: &LocalRepository| r.catalog().entries[0].last_snapshot_at_ms;
    assert_eq!(last(&repository), Some(3_000));
    let order_before: Vec<String> =
        repository.catalog().entries[0].snapshots.iter().map(|s| s.id.clone()).collect();
    repository.update_snapshot_note(&entry.id, "mid", " note ").unwrap();
    assert_eq!(last(&repository), Some(3_000));
    let order_after: Vec<String> =
        repository.catalog().entries[0].snapshots.iter().map(|s| s.id.clone()).collect();
    assert_eq!(order_before, order_after);
    assert!(matches!(
        repository.update_snapshot_note(&entry.id, "missing", "x"),
        Err(StorageError::SnapshotNotFound(_))
    ));
    repository.delete_snapshot(&entry.id, "old").unwrap();
    assert_eq!(last(&repository), Some(3_000));
    repository.delete_snapshot(&entry.id, "new").unwrap();
    assert_eq!(last(&repository), Some(2_000));
}

#[test]
fn updating_sources_keeps_ids_of_unchanged_paths_and_replaced_slots() {
    let mut repository = repository();
    let entry = repository
        .add_entry_sources("存档", &vec![file("C:/data/a.sav"), file("C:/data/b.sav")], None, StoragePolicy::Local, 1)
        .unwrap();
    let id_a = entry.sources[0].id.clone();
    let id_b = entry.sources[1].id.clone();
    let swapped = repository
        .update_entry(&entry.id, "存档", &vec![file("C:/data/b.sav"), file("C:/data/a.sav")], StoragePolicy::Local)
        .unwrap();
    assert_eq!(swapped.sources[0].path, "C:/data/b.sav");
    assert_eq!(swapped.sources[0].id, id_b);
    assert_eq!(swapped.sources[1].id, id_a);
    let replaced = repository
        .update_entry(&entry.id, "存档", &vec![file("C:/data/c.sav"), file("C:/data/a.sav")], StoragePolicy::Local)
        .unwrap();
    assert_eq!(replaced.sources[0].path, "C:/data/c.sav");
    assert_eq!(replaced.sources[0].id, id_b);
    assert_eq!(replaced.sources[1].id, id_a);
    let grown = repository
        .update_entry(&entry.id, "存档", &vec![file("C:/data/c.sav"), file("C:/data/a.sav"), file("C:/data/d.sav")], StoragePolicy::Local)
        .unwrap();
    assert_eq!(grown.sources[2].path, "C:/data/d.sav");
    assert_ne!(grown.sources[2].id, id_a);
    assert_ne!(grown.sources[2].id, id_b);
}

#[test]
fn a_locked_snapshot_is_not_deleted_until_unlocked() {
    let mut repository = repository();
    let entry = repository
        .add_entry("C:/data/save.dat", Some("save.dat".into()), file("C:/data/save.dat"), Some("Save"), None, 1)
        .unwrap();
    repository.create_snapshot(&entry.id, "t".into(), "d".into(), false, "kept".into(), 1_000, b"x", vec![]).unwrap();
    let mut catalog = repository.catalog().clone();
    catalog.entries[0].snapshots[0].locked = true;
    let mut locked = LocalRepository::open(
        "C:/Chronicle".to_string(),
        catalog,
        repository.bindings_document().clone(),
        DeviceDocument { format_version: 1, id: "device-1".to_string(), name: "本地设备".to_string() },
    );
    match locked.delete_snapshot(&entry.id, "kept") {
        Err(StorageError::SnapshotLocked(id)) => assert_eq!(id, "kept"),
        other => panic!("unexpected {other:?}"),
    }
    assert_eq!(locked.list_snapshots(&entry.id).unwrap().len(), 1);
}
