use chronicle::cloud::catalog_chain_ends;
use chronicle::cloud::{download_outcome, download_plan, upload_finish_steps, upload_folders, RemoteStep};
use chronicle::cloud::staged_deletions;
use chronicle::cloud::{client_kind, credential_location, empty_catalog, updated_library, ClientKind};
use chronicle::cloud::{
    apply_timeline, archive_item, check_sources, checked_folder, cloud_preview, deleted_folders,
    deletion_paths, fetch_plan, merge_catalog_entry, merge_secret_patch, merged_timeline,
    missing_snapshot_archives, plan_sync, remote_only_positions, remove_remote_entries,
    request_policy_from_settings, set_remote_sync_mode, settings_source,
    snapshot_ids_from_timeline, CloudSourceInput, SavedSecrets, SyncAction,
};
use std::collections::HashMap;
use chronicle::json::{get, parse_json, Json};

fn doc(text: &str) -> Json {
    parse_json(text.as_bytes()).expect("test document is valid JSON")
}

fn array<'a>(value: &'a Json, key: &str) -> &'a Vec<Json> {
    match get(value, key) {
        Some(Json::Array(items)) => items,
        _ => panic!("{key} is not an array"),
    }
}

fn id_of(value: &Json) -> Option<&str> {
    match get(value, "id") {
        Some(Json::Str(s)) => Some(s.as_str()),
        _ => None,
    }
}

fn ids(values: &[&str]) -> Vec<String> {
    values.iter().map(|v| v.to_string()).collect()
}

#[test]
fn scoped_catalog_upload_does_not_add_unsynced_local_entries() {
    let mut remote = doc(
        r#"{
            "entries": [{ "id": "remote", "name": "Other device" }],
            "categories": []
        }"#,
    );
    let local = doc(
        r#"{
            "entries": [
                { "id": "selected", "name": "Selected", "category_id": "child" },
                { "id": "local-only", "name": "Not synced", "category_id": null }
            ],
            "categories": [
                { "id": "parent", "name": "Parent", "parent_id": null },
                { "id": "child", "name": "Child", "parent_id": "parent" }
            ]
        }"#,
    );

    merge_catalog_entry(&mut remote, &local, "selected").unwrap();

    let entries = array(&remote, "entries");
    assert_eq!(entries.len(), 2);
    assert!(entries.iter().any(|entry| id_of(entry) == Some("remote")));
    assert!(entries.iter().any(|entry| id_of(entry) == Some("selected")));
    assert!(!entries.iter().any(|entry| id_of(entry) == Some("local-only")));
    assert_eq!(array(&remote, "categories").len(), 2);
}

#[test]
fn upload_plan_contains_only_snapshots_missing_from_remote() {
    let local = vec![
        doc(r#"{ "id": "already-there", "archive_name": "old.7z" }"#),
        doc(r#"{ "id": "new", "archive_name": "new.7z" }"#),
    ];

    assert_eq!(
        missing_snapshot_archives(&local, &ids(&["already-there"])).unwrap(),
        vec!["new.7z"]
    );
}

#[test]
fn snapshots_without_an_archive_name_stop_the_upload_plan() {
    let local = vec![doc(r#"{ "id": "new" }"#)];
    assert_eq!(
        missing_snapshot_archives(&local, &Vec::new()).unwrap_err(),
        "本地时间线缺少压缩包名称"
    );
    let anonymous = vec![doc(r#"{ "archive_name": "a.7z" }"#)];
    assert_eq!(
        missing_snapshot_archives(&anonymous, &ids(&["a"])).unwrap(),
        vec!["a.7z"]
    );
}

#[test]
fn merging_replaces_the_remote_copy_and_keeps_the_category_chain_once() {
    let mut remote = doc(
        r#"{
            "format_version": 4,
            "entries": [{ "id": "selected", "name": "Old" }, { "id": "other" }],
            "categories": [{ "id": "parent", "name": "Stale" }]
        }"#,
    );
    let local = doc(
        r#"{
            "entries": [{ "id": "selected", "name": "New", "category_id": "child" }],
            "categories": [
                { "id": "child", "name": "Child", "parent_id": "parent" },
                { "id": "parent", "name": "Parent", "parent_id": null }
            ]
        }"#,
    );
    merge_catalog_entry(&mut remote, &local, "selected").unwrap();
    let entries = array(&remote, "entries");
    assert_eq!(entries.len(), 2);
    assert_eq!(id_of(&entries[0]), Some("other"));
    assert_eq!(id_of(&entries[1]), Some("selected"));
    assert!(matches!(get(&entries[1], "name"), Some(Json::Str(n)) if n == "New"));
    let categories = array(&remote, "categories");
    assert_eq!(categories.len(), 2);
    assert_eq!(id_of(&categories[0]), Some("child"));
    assert_eq!(id_of(&categories[1]), Some("parent"));
    assert!(matches!(get(&categories[1], "name"), Some(Json::Str(n)) if n == "Parent"));
}

#[test]
fn merging_reports_missing_entries_and_malformed_lists() {
    let local = doc(r#"{ "entries": [{ "id": "a" }] }"#);
    let mut remote = doc(r#"{ "entries": [] }"#);
    assert_eq!(
        merge_catalog_entry(&mut remote, &local, "b").unwrap_err(),
        "本地存档不存在"
    );
    let mut bad_entries = doc(r#"{ "entries": 3 }"#);
    assert_eq!(
        merge_catalog_entry(&mut bad_entries, &local, "a").unwrap_err(),
        "远端存档清单格式无效"
    );
    let mut bad_categories = doc(r#"{ "categories": "x" }"#);
    assert_eq!(
        merge_catalog_entry(&mut bad_categories, &local, "a").unwrap_err(),
        "远端分类清单格式无效"
    );
    assert_eq!(array(&bad_categories, "entries").len(), 1);
    let mut not_an_object = doc("[]");
    merge_catalog_entry(&mut not_an_object, &local, "a").unwrap();
    assert_eq!(array(&not_an_object, "entries").len(), 1);
    assert_eq!(array(&not_an_object, "categories").len(), 0);
}

#[test]
fn timelines_list_their_string_ids_in_order() {
    let timeline = doc(r#"[{ "id": "b" }, { "id": 3 }, { "name": "x" }, { "id": "a" }]"#);
    assert_eq!(snapshot_ids_from_timeline(&timeline), vec!["b", "a"]);
    assert!(snapshot_ids_from_timeline(&doc(r#"{ "id": "a" }"#)).is_empty());
}

#[test]
fn sync_passes_follow_the_snapshot_ids_on_each_side() {
    let (action, result) = plan_sync(false, Some(&ids(&["a"])), None, true).unwrap();
    assert_eq!(action, SyncAction::UploadArchive);
    assert_eq!(result.status, "uploaded");
    assert_eq!(result.message, "已上传本地存档");
    let (action, result) = plan_sync(true, None, Some(&ids(&["a"])), true).unwrap();
    assert_eq!(action, SyncAction::DownloadArchive);
    assert_eq!(result.message, "已从 GitHub 下载存档");
    let (action, result) =
        plan_sync(false, Some(&ids(&["a"])), Some(&ids(&["a"])), false).unwrap();
    assert_eq!(action, SyncAction::Conflict);
    assert_eq!(result.status, "conflict");
    let (action, _) =
        plan_sync(false, Some(&ids(&["a", "b"])), Some(&ids(&["a", "c"])), true).unwrap();
    assert_eq!(action, SyncAction::Merge);
    let (action, result) =
        plan_sync(true, Some(&ids(&["a", "b"])), Some(&ids(&["a"])), true).unwrap();
    assert_eq!(action, SyncAction::UploadNew);
    assert_eq!(result.message, "已上传 GitHub 缺少的时间节点");
    let (action, result) =
        plan_sync(false, Some(&ids(&["a"])), Some(&ids(&["a", "c"])), true).unwrap();
    assert_eq!(action, SyncAction::DownloadNew);
    assert_eq!(result.status, "downloaded");
    let (action, result) =
        plan_sync(false, Some(&ids(&["b", "a"])), Some(&ids(&["a", "b"])), true).unwrap();
    assert_eq!(action, SyncAction::Current);
    assert_eq!(result.message, "本地与远端已经一致");
    assert_eq!(
        plan_sync(true, None, None, true).unwrap_err(),
        "本地和 GitHub 均找不到该存档"
    );
}

#[test]
fn request_limits_come_from_the_cloud_settings() {
    let policy = request_policy_from_settings(&doc(
        r#"{ "cloud": { "maxConcurrentTransfers": 4, "requestDelayMs": 0, "retryLimit": 99 } }"#,
    ));
    assert_eq!(policy.max_concurrent_metadata_reads, 2);
    assert_eq!(policy.max_concurrent_transfers, 4);
    assert_eq!(policy.request_delay_ms, 0);
    assert_eq!(policy.retry_limit, 10);
    assert_eq!(policy.base_retry_delay_ms, 1_000);
    let defaults = request_policy_from_settings(&doc("{}"));
    assert_eq!(defaults.request_delay_ms, 150);
    assert_eq!(defaults.retry_limit, 5);
}

#[test]
fn the_overview_lists_configuration_files_before_archives() {
    let library = doc(r#"{ "libraryId": "lib", "updatedAtMs": 7 }"#);
    let archive = archive_item("e".into(), "Save".into(), 3, 10, Some(5), None);
    assert_eq!(archive.sync_mode, "manual");
    let preview = cloud_preview("Source".into(), &library, Some(vec![archive]));
    assert_eq!(preview.library_id.as_deref(), Some("lib"));
    assert_eq!(preview.items.len(), 3);
    assert_eq!(preview.items[0].id, "config:library");
    assert_eq!(preview.items[0].updated_at, Some(7));
    assert_eq!(preview.items[1].id, "config:catalog");
    assert_eq!(preview.items[2].kind, "archive");
    assert_eq!(cloud_preview("S".into(), &doc("{}"), None).items.len(), 2);
}

fn source(id: &str, provider: &str) -> CloudSourceInput {
    CloudSourceInput {
        id: id.into(),
        name: id.into(),
        provider: provider.into(),
        endpoint: String::new(),
        username: String::new(),
        remote_path: "/Chronicle".into(),
        credential_ref: "ref".into(),
        repository: String::new(),
        branch: "main".into(),
        scheme: String::new(),
        config: Vec::new(),
        secret_keys: Vec::new(),
        sync_enabled: false,
    }
}

fn text_member<'a>(value: &'a Json, key: &str) -> Option<&'a str> {
    match get(value, key) {
        Some(Json::Str(s)) => Some(s.as_str()),
        _ => None,
    }
}

#[test]
fn old_source_routing_preserves_credential_branch_and_path() {
    let settings = doc(
        r#"{"cloud":{"sources":[{
            "id":"old", "name":"old", "provider":"github", "endpoint":"", "username":"",
            "repository":"owner/repo", "branch":"custom", "remotePath":"/Existing Root",
            "credentialRef":"existing-ref"
        }]}}"#,
    );
    let source = settings_source(&settings, "old").unwrap();
    assert_eq!(text_member(&source, "provider"), Some("legacy_github"));
    assert_eq!(text_member(&source, "branch"), Some("custom"));
    assert_eq!(text_member(&source, "remotePath"), Some("/Existing Root"));
    assert_eq!(text_member(&source, "credentialRef"), Some("existing-ref"));
    assert_eq!(
        settings_source(&settings, "missing").unwrap_err(),
        "找不到云同步源"
    );
}

#[test]
fn rejects_plaintext_secrets_even_for_inactive_sources() {
    let mut s3 = source("s3", "opendal");
    s3.scheme = "s3".into();
    s3.config = vec![("secret_access_key".into(), "must-not-save".into())];
    let check = check_sources(&vec![s3], false);
    let error = check.problem.expect("a plaintext secret is refused");
    assert!(!error.contains("must-not-save"));
    assert_eq!(error, "不支持的服务，或公开配置包含机密字段");
}

#[test]
fn accepts_paused_sources_without_a_legacy_active_source() {
    let paused = source("paused", "legacy_webdav");
    let check = check_sources(&vec![paused], true);
    assert!(check.problem.is_none());
    assert!(check.credential_checks.is_empty());
}

#[test]
fn duplicate_ids_and_unknown_providers_are_refused_after_earlier_credentials() {
    let mut active = source("a", "opendal");
    active.scheme = "s3".into();
    active.config = vec![("bucket".into(), "b".into())];
    active.sync_enabled = true;
    let check = check_sources(&vec![active.clone(), source("a", "legacy_webdav")], true);
    assert_eq!(check.credential_checks, vec![0]);
    assert_eq!(check.problem.as_deref(), Some("同步源标识重复或为空"));
    let check = check_sources(&vec![source("x", "ftp")], true);
    assert_eq!(check.problem.as_deref(), Some("不支持的同步源类型"));
    let mut unknown_service = source("y", "opendal");
    unknown_service.scheme = "fs".into();
    assert!(check_sources(&vec![unknown_service], false).problem.is_some());
}

#[test]
fn secret_patches_keep_declared_keys_and_saved_values() {
    let mut s3 = source("s3", "opendal");
    s3.secret_keys = vec!["access_key_id".into(), "secret_access_key".into()];
    let saved = SavedSecrets::Saved(vec![
        ("access_key_id".into(), "id".into()),
        ("secret_access_key".into(), "old".into()),
        ("retired".into(), "x".into()),
    ]);
    let patch = vec![
        ("secret_access_key".into(), "new".into()),
        ("access_key_id".into(), String::new()),
    ];
    let merged: HashMap<String, String> = merge_secret_patch(&s3, saved, &patch)
        .unwrap()
        .into_iter()
        .collect();
    assert_eq!(merged.len(), 2);
    assert_eq!(merged["access_key_id"], "id");
    assert_eq!(merged["secret_access_key"], "new");
    let undeclared = vec![("token".to_string(), "t".to_string())];
    assert_eq!(
        merge_secret_patch(&s3, SavedSecrets::Missing, &undeclared).unwrap_err(),
        "机密字段未在同步源中声明"
    );
    assert_eq!(
        merge_secret_patch(&s3, SavedSecrets::Unreadable, &Vec::new()).unwrap_err(),
        "已保存的机密配置无效，请重新创建同步源"
    );
    assert_eq!(
        merge_secret_patch(&source("w", "legacy_webdav"), SavedSecrets::Missing, &Vec::new())
            .unwrap_err(),
        "该同步源不是 OpenDAL"
    );
}

#[test]
fn catalog_folders_are_single_components_inside_the_root() {
    assert_eq!(checked_folder("save-1").unwrap(), "save-1");
    assert_eq!(checked_folder("save-1/").unwrap(), "save-1/");
    assert_eq!(
        checked_folder("a/b").unwrap_err(),
        "远端目录清单包含无效路径"
    );
    assert_eq!(checked_folder("").unwrap_err(), "远端目录清单包含无效路径");
    assert_eq!(
        checked_folder("../x").unwrap_err(),
        "远端路径必须位于同步源目录内"
    );
}

fn uint_member(value: &Json, key: &str) -> Option<u64> {
    match get(value, key) {
        Some(Json::UInt(n)) => Some(*n),
        _ => None,
    }
}

#[test]
fn deleting_entries_removes_only_the_listed_ones() {
    let mut catalog = doc(
        r#"{ "entries": [{ "id": "a" }, { "name": "no id" }, { "id": "b" }, { "id": "c" }] }"#,
    );
    remove_remote_entries(&mut catalog, &ids(&["a", "c"]));
    let entries = array(&catalog, "entries");
    assert_eq!(entries.len(), 2);
    assert_eq!(id_of(&entries[0]), None);
    assert_eq!(id_of(&entries[1]), Some("b"));
    let mut no_list = doc(r#"{ "entries": 1 }"#);
    remove_remote_entries(&mut no_list, &ids(&["a"]));
    assert!(matches!(get(&no_list, "entries"), Some(Json::UInt(1))));
}

#[test]
fn deleting_from_github_lists_every_archive_of_the_removed_entries() {
    let catalog = doc(
        r#"{ "entries": [
            { "id": "a", "folder": "fa", "snapshots": [{ "archive_name": "1.7z" }, { "archive_name": "2.7z" }] },
            { "id": "b", "folder": "fb", "snapshots": [{ "archive_name": "3.7z" }] },
            { "id": "c", "folder": "fc" }
        ] }"#,
    );
    assert_eq!(
        deletion_paths(&catalog, &ids(&["a", "c"])).unwrap(),
        vec!["archives/fa/1.7z", "archives/fa/2.7z"]
    );
    let broken = doc(r#"{ "entries": [{ "id": "a", "snapshots": [] }] }"#);
    assert_eq!(
        deletion_paths(&broken, &ids(&["a"])).unwrap_err(),
        "远端存档缺少目录"
    );
    let unnamed = doc(r#"{ "entries": [{ "id": "a", "folder": "f", "snapshots": [{}] }] }"#);
    assert_eq!(
        deletion_paths(&unnamed, &ids(&["a"])).unwrap_err(),
        "远端时间线缺少压缩包名称"
    );
    let escaping =
        doc(r#"{ "entries": [{ "id": "a", "folder": "f", "snapshots": [{ "archive_name": "../x" }] }] }"#);
    assert_eq!(
        deletion_paths(&escaping, &ids(&["a"])).unwrap_err(),
        "远端路径必须位于同步源目录内"
    );
}

#[test]
fn deleting_from_object_stores_lists_checked_archive_folders() {
    let catalog = doc(r#"{ "entries": [{ "id": "a", "folder": "fa" }, { "id": "b", "folder": "fb" }] }"#);
    assert_eq!(
        deleted_folders(&catalog, &ids(&["b"])).unwrap(),
        vec!["archives/fb"]
    );
    let nested = doc(r#"{ "entries": [{ "id": "a", "folder": "x/y" }] }"#);
    assert_eq!(
        deleted_folders(&nested, &ids(&["a"])).unwrap_err(),
        "远端目录清单包含无效路径"
    );
}

#[test]
fn sync_modes_are_set_on_the_remote_entry() {
    let mut catalog = doc(r#"{ "entries": [{ "id": "a", "sync_mode": "manual" }, { "id": "b" }] }"#);
    set_remote_sync_mode(&mut catalog, "b", "automatic").unwrap();
    let entries = array(&catalog, "entries");
    assert_eq!(text_member(&entries[1], "sync_mode"), Some("automatic"));
    assert_eq!(text_member(&entries[0], "sync_mode"), Some("manual"));
    assert_eq!(
        set_remote_sync_mode(&mut catalog, "z", "manual").unwrap_err(),
        "远端存档不存在"
    );
    assert_eq!(
        set_remote_sync_mode(&mut catalog, "a", "hourly").unwrap_err(),
        "不支持的同步方式"
    );
}

#[test]
fn remote_snapshots_are_fetched_only_when_missing_and_well_formed() {
    let remote = vec![
        doc(r#"{ "id": "have" }"#),
        doc(r#"{ "id": "new", "archive_name": "n.7z", "object_hash": "h" }"#),
        doc(r#"{ "archive_name": "anon.7z" }"#),
    ];
    assert_eq!(remote_only_positions(&ids(&["have"]), &remote), vec![1, 2]);
    assert_eq!(
        fetch_plan(&remote[1]).unwrap(),
        ("n.7z".to_string(), "h".to_string())
    );
    assert_eq!(fetch_plan(&remote[2]).unwrap_err(), "远端时间线缺少校验值");
    assert_eq!(
        fetch_plan(&remote[0]).unwrap_err(),
        "远端时间线缺少压缩包名称"
    );
}

#[test]
fn merged_timelines_are_ordered_and_summarized() {
    let local = vec![
        doc(r#"{ "id": "b", "created_at_ms": 20, "size_bytes": 5 }"#),
        doc(r#"{ "id": "a", "created_at_ms": 10, "size_bytes": 7 }"#),
    ];
    let fetched = vec![doc(r#"{ "id": "c", "created_at_ms": 15 }"#)];
    let summary = merged_timeline(local, fetched);
    let order: Vec<&str> = summary.timeline.iter().filter_map(id_of).collect();
    assert_eq!(order, vec!["a", "c", "b"]);
    assert_eq!(summary.snapshot_count, 3);
    assert_eq!(summary.stored_bytes, 12);
    assert_eq!(summary.last_snapshot_at_ms, 20);

    let mut catalog = doc(r#"{ "entries": [{ "id": "e", "snapshot_count": 1 }] }"#);
    assert!(apply_timeline(&mut catalog, "e", summary));
    let entry = &array(&catalog, "entries")[0];
    assert_eq!(uint_member(entry, "snapshot_count"), Some(3));
    assert_eq!(uint_member(entry, "stored_bytes"), Some(12));
    assert_eq!(uint_member(entry, "last_snapshot_at_ms"), Some(20));
    assert_eq!(array(entry, "snapshots").len(), 3);
    let empty = merged_timeline(Vec::new(), Vec::new());
    assert!(!apply_timeline(&mut catalog, "missing", empty));
}

#[test]
fn library_and_catalog_documents_are_stamped_when_published() {
    let fresh = updated_library(None, "lib-1".into(), 99);
    assert_eq!(text_member(&fresh, "libraryId"), Some("lib-1"));
    assert_eq!(uint_member(&fresh, "formatVersion"), Some(2));
    assert_eq!(uint_member(&fresh, "updatedAtMs"), Some(99));
    let saved = updated_library(Some(doc(r#"{"libraryId":"old","updatedAtMs":1}"#)), "new".into(), 5);
    assert_eq!(text_member(&saved, "libraryId"), Some("old"));
    assert_eq!(uint_member(&saved, "updatedAtMs"), Some(5));
    let catalog = empty_catalog(Json::UInt(4), 7);
    assert_eq!(uint_member(&catalog, "format_version"), Some(4));
    assert_eq!(uint_member(&catalog, "updated_at_ms"), Some(7));
    assert!(array(&catalog, "entries").is_empty());
    assert_eq!(client_kind("opendal"), Ok(ClientKind::OpenDal));
    assert_eq!(client_kind("legacy_webdav"), Ok(ClientKind::WebDav));
    assert_eq!(
        client_kind("legacy_github"),
        Err("GitHub 同步接口尚未启用".to_string())
    );
}

#[test]
fn secrets_are_kept_per_provider_under_the_credential_reference() {
    let mut github = source("g", "legacy_github");
    github.credential_ref = "ref-1".to_string();
    assert_eq!(credential_location(&github), ("Chronicle GitHub", "ref-1".to_string()));
    github.credential_ref = String::new();
    assert_eq!(credential_location(&github), ("Chronicle GitHub", "g".to_string()));
    assert_eq!(credential_location(&source("o", "opendal")).0, "Chronicle OpenDAL");
    assert_eq!(credential_location(&source("w", "legacy_webdav")).0, "Chronicle WebDAV");
}

#[test]
fn accepted_settings_name_each_source_once() {
    let accepted = check_sources(&vec![source("a", "legacy_github"), source("b", "legacy_webdav")], true);
    assert!(accepted.problem.is_none());
    let repeated = check_sources(&vec![source("a", "legacy_github"), source("a", "legacy_webdav")], true);
    assert_eq!(repeated.problem.as_deref(), Some("同步源标识重复或为空"));
    let unnamed = check_sources(&vec![source("", "legacy_github")], true);
    assert_eq!(unnamed.problem.as_deref(), Some("同步源标识重复或为空"));
}

fn catalog_entry(id: &str) -> chronicle::repository::CatalogEntry {
    chronicle::repository::CatalogEntry {
        id: id.into(),
        name: "Save".into(),
        folder: "save".into(),
        category_id: None,
        tags: vec!["rpg".into()],
        storage_policy: chronicle::model::StoragePolicy::LocalAndRemote,
        sync_mode: chronicle::model::SyncMode::Manual,
        source_count: 1,
        snapshot_count: 0,
        stored_bytes: 0,
        last_snapshot_at_ms: None,
        sources: vec![chronicle::model::EntrySource {
            id: "s".into(),
            name: "save.dat".into(),
            path: String::new(),
            kind: chronicle::model::EntryKind::File,
        }],
        created_at_ms: 7,
        snapshots: vec![],
        exclude_patterns: vec![],
        auto_backup_enabled: false,
    }
}

#[test]
fn archive_settings_are_compared_without_their_timelines() {
    let local = catalog_entry("a");
    let mut remote = catalog_entry("a");
    remote.snapshot_count = 3;
    remote.stored_bytes = 900;
    remote.last_snapshot_at_ms = Some(42);
    remote.auto_backup_enabled = true;
    assert!(chronicle::cloud::settings_match(&local, &remote));
    remote.tags.push("new".into());
    assert!(!chronicle::cloud::settings_match(&local, &remote));
    let mut renamed = catalog_entry("a");
    renamed.sources[0].name = "other.dat".into();
    assert!(!chronicle::cloud::settings_match(&local, &renamed));
}

#[test]
fn uploaded_entry_documents_carry_no_source_paths() {
    let entry = doc(r#"{"id":"e","sources":[{"id":"s","name":"a","path":"C:/x"},"odd"],"path":"kept"}"#);
    let uploaded = chronicle::cloud::upload_entry_document(&entry);
    let expected = doc(r#"{"id":"e","sources":[{"id":"s","name":"a"},"odd"],"path":"kept"}"#);
    assert_eq!(
        chronicle::json::write_json(&uploaded),
        chronicle::json::write_json(&expected)
    );
    let plain = doc(r#"{"id":"e"}"#);
    assert_eq!(
        chronicle::json::write_json(&chronicle::cloud::upload_entry_document(&plain)),
        chronicle::json::write_json(&plain)
    );
}

#[test]
fn replacing_a_remote_folder_rolls_back_on_failure() {
    let (remote, old) = upload_folders("save", "u1");
    assert_eq!(remote, "archives/save");
    assert_eq!(old, ".chronicle-upload-old-u1");
    let describe = |steps: Vec<RemoteStep>| -> Vec<String> {
        steps
            .into_iter()
            .map(|s| match s {
                RemoteStep::Delete(p) => format!("delete {p}"),
                RemoteStep::Move(a, b) => format!("move {a} {b}"),
            })
            .collect()
    };
    assert_eq!(describe(upload_finish_steps(true, true, &remote, &old)), vec!["delete .chronicle-upload-old-u1"]);
    assert!(upload_finish_steps(true, false, &remote, &old).is_empty());
    assert_eq!(
        describe(upload_finish_steps(false, true, &remote, &old)),
        vec!["delete archives/save", "move .chronicle-upload-old-u1 archives/save"]
    );
    assert_eq!(describe(upload_finish_steps(false, false, &remote, &old)), vec!["delete archives/save"]);
}

#[test]
fn downloads_replace_nothing_unless_every_hash_matches() {
    let remote = doc(
        r#"{"entries":[{"id":"e","folder":"save","snapshots":[
            {"archive_name":"a.7z","object_hash":"h1"},{"archive_name":"b.7z","object_hash":"h2"}]}]}"#,
    );
    let plan = download_plan(&remote, "e").unwrap();
    assert_eq!(plan.folder, "save");
    assert_eq!(plan.archives, vec![("a.7z".to_string(), "h1".to_string()), ("b.7z".to_string(), "h2".to_string())]);
    let local = doc(r#"{"entries":[{"id":"e","folder":"old"},{"id":"x"}]}"#);
    assert_eq!(
        download_outcome(&plan, "e", &ids(&["h1", "bad"]), &local).unwrap_err(),
        "远端快照校验失败，本地内容未更改"
    );
    let updated = download_outcome(&plan, "e", &ids(&["h1", "h2"]), &local).unwrap();
    let entries = array(&updated, "entries");
    assert_eq!(entries.len(), 2);
    assert_eq!(id_of(&entries[0]), Some("x"));
    assert_eq!(text_member(&entries[1], "folder"), Some("save"));
    assert_eq!(
        download_outcome(&plan, "e", &ids(&["h1", "h2"]), &doc("{}")).unwrap_err(),
        "本地清单格式无效"
    );
    assert_eq!(download_plan(&remote, "missing").unwrap_err(), "远端存档不存在");
    let broken = doc(r#"{"entries":[{"id":"e","folder":"save","snapshots":[{"archive_name":"a.7z"}]}]}"#);
    assert_eq!(download_plan(&broken, "e").unwrap_err(), "远端时间线缺少校验值");
}

#[test]
fn deleted_archive_folders_are_set_aside_under_the_deletion_id() {
    let catalog = doc(
        r#"{ "entries": [{ "id": "a", "folder": "fa" }, { "id": "b", "folder": "fb" }, { "id": "c", "folder": "fc" }] }"#,
    );
    let moves = staged_deletions(&catalog, &ids(&["c", "a"]), "d1").unwrap();
    assert_eq!(
        moves,
        vec![
            ("archives/fa".to_string(), ".chronicle-delete-d1-fa".to_string()),
            ("archives/fc".to_string(), ".chronicle-delete-d1-fc".to_string()),
        ]
    );
    let nested = doc(r#"{ "entries": [{ "id": "a", "folder": "x/y" }] }"#);
    assert_eq!(staged_deletions(&nested, &ids(&["a"]), "d1").unwrap_err(), "远端目录清单包含无效路径");
}

#[test]
fn publishing_needs_the_category_walk_to_end() {
    let fine = doc(r#"{ "entries": [{ "id": "e", "category_id": "b" }], "categories": [{ "id": "a" }, { "id": "b", "parent_id": "a" }] }"#);
    assert!(catalog_chain_ends(&fine, "e"));
    let cycle = doc(r#"{ "entries": [{ "id": "e", "category_id": "a" }], "categories": [{ "id": "a", "parent_id": "b" }, { "id": "b", "parent_id": "a" }] }"#);
    assert!(!catalog_chain_ends(&cycle, "e"));
    assert!(catalog_chain_ends(&cycle, "missing"));
}
