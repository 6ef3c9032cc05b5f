use chronicle::model::{EntryKind, StoragePolicy};
use chronicle::repository::{BindingsDocument, Catalog, DeviceDocument, LocalRepository, StorageError};
use chronicle::setup::{check_settings, initial_settings, library_document, settings_document};
use chronicle::json::{get, parse_json, write_json, Json};
use chronicle::sources::ResolvedSource;

fn repository() -> LocalRepository {
    LocalRepository::open(
        "/srv/chronicle".to_string(),
        Catalog { format_version: 4, updated_at_ms: 0, categories: Vec::new(), entries: Vec::new() },
        BindingsDocument { format_version: 1, entries: Vec::new() },
        DeviceDocument { format_version: 1, id: "device-1".to_string(), name: "desk".to_string() },
    )
}

fn source(path: &str, is_dir: bool) -> ResolvedSource {
    ResolvedSource { path: path.to_string(), name: path.rsplit('/').next().unwrap().to_string(), is_dir }
}

fn items(list: &[(&str, bool)]) -> Vec<(String, bool)> {
    list.iter().map(|(p, d)| (p.to_string(), *d)).collect()
}

#[test]
fn restoring_checks_ownership_digest_and_extracted_items() {
    let mut repository = repository();
    let entry = repository
        .add_entry_sources("Game", &vec![source("/data/save.dat", false), source("/data/profile", true)], None, StoragePolicy::Local, 1)
        .unwrap();
    let other = repository
        .add_entry_sources("Other", &vec![source("/data/other.dat", false)], None, StoragePolicy::Local, 1)
        .unwrap();
    repository.create_snapshot(&entry.id, "t".into(), "d".into(), false, "s1".into(), 1_000, b"archive", vec![]).unwrap();
    repository.create_snapshot(&other.id, "t".into(), "d".into(), false, "s2".into(), 1_000, b"other", vec![]).unwrap();
    assert!(matches!(repository.restore_target("nope", "s1"), Err(StorageError::EntryNotFound(_))));
    assert!(repository.restore_target(&entry.id, "s1").is_ok());
    match repository.restore_target(&entry.id, "s2") {
        Err(StorageError::SnapshotNotFound(id)) => assert_eq!(id, "s2"),
        other => panic!("unexpected {other:?}"),
    }
    let file_id = entry.sources[0].id.clone();
    let dir_id = entry.sources[1].id.clone();
    let file_item = format!("{file_id}/save.dat");
    let extracted = items(&[(file_item.as_str(), false), (file_id.as_str(), true), (dir_id.as_str(), true)]);
    assert!(matches!(
        repository.restore_plan(&entry.id, "s1", Some(b"tampered"), &extracted),
        Err(StorageError::IntegrityMismatch)
    ));
    assert!(matches!(repository.restore_plan(&entry.id, "s1", None, &extracted), Err(StorageError::IntegrityMismatch)));
    let steps = repository.restore_plan(&entry.id, "s1", Some(b"archive"), &extracted).unwrap();
    assert_eq!(
        steps,
        vec![(file_item.clone(), "/data/save.dat".to_string(), false), (dir_id.clone(), "/data/profile".to_string(), true)]
    );
    let missing_dir = items(&[(file_item.as_str(), false)]);
    match repository.restore_plan(&entry.id, "s1", Some(b"archive"), &missing_dir) {
        Err(StorageError::IncompleteSnapshot(id)) => assert_eq!(id, dir_id),
        other => panic!("unexpected {other:?}"),
    }
    // A file item must be a file: a folder of that name does not do.
    let wrong_kind = items(&[(file_item.as_str(), true), (dir_id.as_str(), true)]);
    match repository.restore_plan(&entry.id, "s1", Some(b"archive"), &wrong_kind) {
        Err(StorageError::IncompleteSnapshot(id)) => assert_eq!(id, file_id),
        other => panic!("unexpected {other:?}"),
    }
    assert_eq!(entry.sources[1].kind, EntryKind::Directory);
}

#[test]
fn a_new_repository_starts_empty_and_reopening_keeps_its_documents() {
    let created = LocalRepository::open_or_create("/srv/new".to_string(), None, None, None, "本地设备".to_string(), 7);
    assert!(created.list_entries().is_empty());
    assert!(created.list_categories().is_empty());
    assert_eq!(created.catalog().format_version, 4);
    assert_eq!(created.catalog().updated_at_ms, 7);
    let (id, name) = created.device_identity();
    assert_eq!(id.len(), 36);
    assert_eq!(name, "本地设备");
    let reopened = LocalRepository::open_or_create(
        "/srv/new".to_string(),
        Some(created.catalog().clone()),
        Some(created.bindings_document().clone()),
        Some(DeviceDocument { format_version: 1, id: id.clone(), name: name.clone() }),
        "other".to_string(),
        9,
    );
    assert_eq!(reopened.device_identity(), (id, name));
    assert_eq!(reopened.catalog().updated_at_ms, 7);
    let settings = initial_settings();
    assert_eq!(String::from_utf8(write_json(&settings)).unwrap(), r#"{"app":{},"cloud":{},"formatVersion":3}"#);
    let kept = parse_json(br#"{"app":{"theme":"dark"},"cloud":{},"formatVersion":3}"#).unwrap();
    let again = settings_document(Some(kept));
    assert!(matches!(get(&again, "app").and_then(|a| get(a, "theme")), Some(Json::Str(t)) if t == "dark"));
    let library = library_document(None, 11);
    assert!(matches!(get(&library, "formatVersion"), Some(Json::UInt(2))));
    assert!(matches!(get(&library, "updatedAtMs"), Some(Json::UInt(11))));
    assert!(matches!(get(&library, "libraryId"), Some(Json::Str(s)) if s.len() == 36));
}

#[test]
fn only_version_three_settings_with_app_and_cloud_objects_are_saved() {
    let ok = parse_json(br#"{"formatVersion":3,"app":{},"cloud":{"sources":[]}}"#).unwrap();
    assert!(check_settings(&ok).is_ok());
    for text in [
        r#"{"formatVersion":2,"app":{},"cloud":{}}"#,
        r#"{"formatVersion":3.0,"app":{},"cloud":{}}"#,
        r#"{"formatVersion":3,"app":[],"cloud":{}}"#,
        r#"{"formatVersion":3,"app":{}}"#,
        r#"[]"#,
    ] {
        let doc = parse_json(text.as_bytes()).unwrap();
        assert!(matches!(check_settings(&doc), Err(StorageError::InvalidSettings)), "accepted {text}");
    }
}
