use chronicle::model::StoragePolicy;
use chronicle::recycle::{
    category_recycle_manifest, entry_recycle_manifest, order_recycle_items, plan_folder_moves,
    recycle_item_of,
};
use chronicle::repository::{BindingsDocument, Catalog, DeviceDocument, LocalRepository, RecycleItem};
use chronicle::sources::ResolvedSource;

fn repository() -> LocalRepository {
    LocalRepository::open(
        "/srv/chronicle".to_string(),
        Catalog { format_version: 4, updated_at_ms: 0, categories: Vec::new(), entries: Vec::new() },
        BindingsDocument { format_version: 1, entries: Vec::new() },
        DeviceDocument { format_version: 1, id: "device-1".to_string(), name: "desk".to_string() },
    )
}

fn file(path: &str) -> ResolvedSource {
    ResolvedSource {
        path: path.to_string(),
        name: path.rsplit('/').next().unwrap().to_string(),
        is_dir: false,
    }
}

fn item(id: &str, at: u64) -> RecycleItem {
    RecycleItem {
        id: id.to_string(),
        kind: "entry".to_string(),
        display_name: id.to_string(),
        deleted_at_ms: at,
        size_bytes: 0,
        entry_count: 1,
    }
}

#[test]
fn a_deleted_category_becomes_a_manifest_that_restores_it() {
    let mut repository = repository();
    let category = repository.create_category("Games", None).unwrap();
    repository.create_category("RPG", Some(category.id.clone())).unwrap();
    let entry = repository
        .add_entry_sources("Save", &vec![file("/data/save.dat")], Some(category.id.clone()), StoragePolicy::Local, 1)
        .unwrap();
    let removal = repository.delete_category(&category.id).unwrap();
    let manifest = category_recycle_manifest("batch-1".to_string(), 42, removal);
    assert_eq!(manifest.format_version, 1);
    assert_eq!(manifest.kind, "category");
    assert_eq!(manifest.display_name, "Games");
    assert_eq!(manifest.deleted_at_ms, 42);
    assert_eq!(manifest.categories.len(), 2);
    assert_eq!(manifest.entries.len(), 1);
    let listed = recycle_item_of(&manifest, 1234);
    assert_eq!(listed.id, "batch-1");
    assert_eq!(listed.kind, "category");
    assert_eq!(listed.size_bytes, 1234);
    assert_eq!(listed.entry_count, 1);
    assert!(repository.list_categories().is_empty());
    repository.restore_recycle_item(&manifest, &vec![false]).unwrap();
    assert_eq!(repository.list_categories().len(), 2);
    assert_eq!(repository.list_entries()[0].id, entry.id);
}

#[test]
fn a_deleted_entry_becomes_a_manifest_of_one_archive() {
    let mut repository = repository();
    let entry = repository
        .add_entry_sources("Notes", &vec![file("/data/notes.txt")], None, StoragePolicy::Local, 1)
        .unwrap();
    let summary = repository.delete_entry(&entry.id).unwrap();
    let manifest = entry_recycle_manifest("batch-2".to_string(), 7, summary);
    assert_eq!(manifest.kind, "entry");
    assert_eq!(manifest.display_name, "Notes");
    assert!(manifest.categories.is_empty());
    assert_eq!(manifest.entries.len(), 1);
    assert_eq!(manifest.entries[0].id, entry.id);
}

#[test]
fn bundles_are_listed_latest_deletion_first_and_ties_keep_their_order() {
    let ordered = order_recycle_items(vec![item("a", 5), item("b", 9), item("c", 5), item("d", 1)]);
    let ids: Vec<&str> = ordered.iter().map(|i| i.id.as_str()).collect();
    assert_eq!(ids, vec!["b", "a", "c", "d"]);
    assert!(order_recycle_items(Vec::new()).is_empty());
}

#[test]
fn folder_moves_skip_absent_folders_and_keep_order() {
    let mut repository = repository();
    repository
        .add_entry_sources("One", &vec![file("/data/1.dat")], None, StoragePolicy::Local, 1)
        .unwrap();
    repository
        .add_entry_sources("Two", &vec![file("/data/2.dat")], None, StoragePolicy::Local, 2)
        .unwrap();
    let entries = repository.catalog().entries.clone();
    let moves = plan_folder_moves("/srv/archives", "/tmp/staged", &entries, &vec![true, false]);
    assert_eq!(moves.len(), 1);
    assert_eq!(moves[0].0, format!("/srv/archives/{}", entries[0].folder));
    assert_eq!(moves[0].1, format!("/tmp/staged/{}", entries[0].folder));
    let both = plan_folder_moves("/srv/archives", "/tmp/staged", &entries, &vec![true, true]);
    assert_eq!(both[1].1, format!("/tmp/staged/{}", entries[1].folder));
}

#[test]
fn an_added_then_updated_archive_reads_back_as_returned() {
    let mut repository = repository();
    let added = repository
        .add_entry_sources("Saves", &vec![file("/data/a.sav"), file("/data/b.sav")], None, StoragePolicy::Local, 3)
        .unwrap();
    assert_eq!(repository.get_entry(&added.id).unwrap(), added);
    assert_ne!(added.sources[0].id, added.sources[1].id);
    let updated = repository
        .update_entry(&added.id, "  Renamed ", &vec![file("/data/b.sav"), file("/data/c.sav")], StoragePolicy::Local)
        .unwrap();
    assert_eq!(updated.name, "Renamed");
    assert_eq!(updated.sources[0].path, "/data/b.sav");
    assert_eq!(updated.sources[1].path, "/data/c.sav");
    assert_eq!(repository.get_entry(&added.id).unwrap(), updated);
}
