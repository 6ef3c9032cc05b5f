//! The repository catalog: entries, categories, source bindings and snapshot timelines.
//!
//! The library holds the loaded metadata documents and applies every change to them; the
//! caller reads the documents from disk before and writes them back after a change.
use crate::model::{
    categories_view, copy_categories, copy_opt_string, copy_snapshots, copy_sources, copy_strings,
    files_view, opt_view, snapshots_view, sources_view, strings_view, Category, CategoryView,
    ChangeSummary, Entry, EntryKind, EntrySource, EntryView, FileView, Snapshot, SnapshotFile, entry_views,
    SnapshotView, SourceView, StoragePolicy, SyncMode,
};
use crate::order::{
    insert_sorted, insertion_point, lemma_insert_at_point, name_before, newer_first, older_first,
    sort_entries_by_name, sort_snapshots, stable_sort,
};
use crate::remote::str_is;
use crate::snapshot::{archive_name, compare_manifests, manifest_changes, snapshot_archive_name};
use crate::removal::{
    below, entries_in_subtree, entries_not_in, keep_entries_not_in, split_categories, other_categories,
    subtree_categories, subtree_entries,
};
use crate::sources::{
    merge_into, merge_sources, resolve_by_position, resolve_with_ids, resolved_source,
    resolved_view, safe_folder_name, safe_folder_name_spec, shared_copy, shared_sources,
    sources_by_position, first_path_match, ResolvedSource, ResolvedView,
};
use crate::update::{hex_lower, sha256, sha256_hex};
use crate::text::{
    chars_of, eq_ignore_ascii_case, eq_ignore_ascii_case_spec, lemma_trim_idempotent, string_of, trim,
    trim_chars,
};
use vstd::prelude::*;

verus! {

/// Why a repository operation failed.
#[derive(Clone, Debug, PartialEq, Eq)]
pub enum StorageError {
    Io(String),
    Json(String),
    SevenZip(String),
    Walk(String),
    MissingSource(String),
    MissingName(String),
    NonUtf8Path(String),
    EmptySources,
    EmptyName,
    InvalidSettings,
    EmptyCategoryName,
    ParentCategoryNotFound(String),
    DuplicateCategory,
    InvalidCategoryMove,
    RestoreConflict(String),
    EntryNotFound(String),
    SnapshotNotFound(String),
    IntegrityMismatch,
    IncompleteSnapshot(String),
    /// A locked snapshot cannot be deleted before it is unlocked.
    SnapshotLocked(String),
}

/// The summary of one entry kept in the shared catalog.
#[derive(Clone, Debug)]
pub struct CatalogEntry {
    pub id: String,
    pub name: String,
    pub folder: String,
    pub category_id: Option<String>,
    pub tags: Vec<String>,
    pub storage_policy: StoragePolicy,
    pub sync_mode: SyncMode,
    pub source_count: usize,
    pub snapshot_count: usize,
    pub stored_bytes: u64,
    pub last_snapshot_at_ms: Option<u64>,
    /// Sources without device paths.
    pub sources: Vec<EntrySource>,
    pub created_at_ms: u64,
    pub snapshots: Vec<Snapshot>,
    pub exclude_patterns: Vec<String>,
    pub auto_backup_enabled: bool,
}

pub struct CatalogEntryView {
    pub id: Seq<char>,
    pub name: Seq<char>,
    pub folder: Seq<char>,
    pub category_id: Option<Seq<char>>,
    pub tags: Seq<Seq<char>>,
    pub storage_policy: StoragePolicy,
    pub sync_mode: SyncMode,
    pub source_count: usize,
    pub snapshot_count: usize,
    pub stored_bytes: u64,
    pub last_snapshot_at_ms: Option<u64>,
    pub sources: Seq<SourceView>,
    pub created_at_ms: u64,
    pub snapshots: Seq<SnapshotView>,
    pub exclude_patterns: Seq<Seq<char>>,
    pub auto_backup_enabled: bool,
}

impl View for CatalogEntry {
    type V = CatalogEntryView;

    open spec fn view(&self) -> CatalogEntryView {
        CatalogEntryView {
            id: self.id@,
            name: self.name@,
            folder: self.folder@,
            category_id: opt_view(self.category_id),
            tags: strings_view(self.tags@),
            storage_policy: self.storage_policy,
            sync_mode: self.sync_mode,
            source_count: self.source_count,
            snapshot_count: self.snapshot_count,
            stored_bytes: self.stored_bytes,
            last_snapshot_at_ms: self.last_snapshot_at_ms,
            sources: sources_view(self.sources@),
            created_at_ms: self.created_at_ms,
            snapshots: snapshots_view(self.snapshots@),
            exclude_patterns: strings_view(self.exclude_patterns@),
            auto_backup_enabled: self.auto_backup_enabled,
        }
    }
}

impl CatalogEntry {
    pub fn duplicate(&self) -> (r: Self)
        ensures
            r@ == self@,
    {
        CatalogEntry {
            id: self.id.clone(),
            name: self.name.clone(),
            folder: self.folder.clone(),
            category_id: copy_opt_string(&self.category_id),
            tags: copy_strings(&self.tags),
            storage_policy: self.storage_policy,
            sync_mode: self.sync_mode,
            source_count: self.source_count,
            snapshot_count: self.snapshot_count,
            stored_bytes: self.stored_bytes,
            last_snapshot_at_ms: self.last_snapshot_at_ms,
            sources: copy_sources(&self.sources),
            created_at_ms: self.created_at_ms,
            snapshots: copy_snapshots(&self.snapshots),
            exclude_patterns: copy_strings(&self.exclude_patterns),
            auto_backup_enabled: self.auto_backup_enabled,
        }
    }
}

/// The shared catalog document.
#[derive(Clone, Debug)]
pub struct Catalog {
    pub format_version: u32,
    pub updated_at_ms: u64,
    pub categories: Vec<Category>,
    pub entries: Vec<CatalogEntry>,
}

pub open spec fn entries_view(s: Seq<CatalogEntry>) -> Seq<CatalogEntryView> {
    s.map_values(|x: CatalogEntry| x@)
}

/// Device-local source paths of each entry, by entry id.
#[derive(Clone, Debug)]
pub struct BindingsDocument {
    pub format_version: u32,
    pub entries: Vec<(String, Vec<EntrySource>)>,
}

pub open spec fn bindings_view(s: Seq<(String, Vec<EntrySource>)>) -> Seq<(Seq<char>, Seq<SourceView>)> {
    s.map_values(|x: (String, Vec<EntrySource>)| (x.0@, sources_view(x.1@)))
}

/// The identity of this device.
#[derive(Clone, Debug)]
pub struct DeviceDocument {
    pub format_version: u32,
    pub id: String,
    pub name: String,
}

/// What a deletion took out of the catalog: the categories and entries removed, and the name
/// the deletion is shown under.
#[derive(Clone, Debug)]
pub struct Removal {
    pub display_name: String,
    pub categories: Vec<Category>,
    pub entries: Vec<CatalogEntry>,
}

/// One recoverable deletion, as the manifest of its recycle bundle records it.
#[derive(Clone, Debug)]
pub struct RecycleManifest {
    pub format_version: u32,
    /// The bundle's folder name.
    pub id: String,
    /// `entry` or `category`.
    pub kind: String,
    pub display_name: String,
    pub deleted_at_ms: u64,
    pub categories: Vec<Category>,
    pub entries: Vec<CatalogEntry>,
}

/// Summary of one recoverable deletion batch.
#[derive(Clone, Debug)]
pub struct RecycleItem {
    /// Stable batch identifier.
    pub id: String,
    /// `entry` or `category`.
    pub kind: String,
    /// User-facing deleted item name.
    pub display_name: String,
    /// Deletion time as Unix milliseconds.
    pub deleted_at_ms: u64,
    /// Total stored bytes in the recycle bundle.
    pub size_bytes: u64,
    /// Number of entries contained in this bundle.
    pub entry_count: usize,
}

/// A repository whose metadata documents have been loaded.
pub struct LocalRepository {
    root: String,
    catalog: Catalog,
    bindings: BindingsDocument,
    device: DeviceDocument,
}

/// Files as path text and size.
pub open spec fn files_view_of(files: Seq<(String, u64)>) -> Seq<(Seq<char>, u64)> {
    files.map_values(|f: (String, u64)| (f.0@, f.1))
}

/// The total size of the files that do not lie under `root`.
pub open spec fn bytes_outside(files: Seq<(Seq<char>, u64)>, root: Seq<char>) -> int
    decreases files.len(),
{
    if files.len() == 0 {
        0
    } else {
        bytes_outside(files.drop_last(), root) + if crate::auto_backup::path_below(files.last().0, root) is None {
            files.last().1 as int
        } else {
            0
        }
    }
}

pub proof fn lemma_bytes_outside_nonneg(files: Seq<(Seq<char>, u64)>, root: Seq<char>)
    ensures
        bytes_outside(files, root) >= 0,
    decreases files.len(),
{
    if files.len() > 0 {
        lemma_bytes_outside_nonneg(files.drop_last(), root);
    }
}

/// The first position whose id is `id`.
pub open spec fn first_id(ids: Seq<Seq<char>>, id: Seq<char>) -> Option<int>
    decreases ids.len(),
{
    if ids.len() == 0 {
        None
    } else if ids[0] == id {
        Some(0)
    } else {
        match first_id(ids.drop_first(), id) {
            Some(i) => Some(i + 1),
            None => None,
        }
    }
}

pub proof fn lemma_first_id_bounds(ids: Seq<Seq<char>>, id: Seq<char>)
    ensures
        match first_id(ids, id) {
            Some(i) => 0 <= i < ids.len() && ids[i] == id && forall|j: int|
                0 <= j < i ==> #[trigger] ids[j] != id,
            None => forall|j: int| 0 <= j < ids.len() ==> #[trigger] ids[j] != id,
        },
    decreases ids.len(),
{
    if ids.len() > 0 {
        lemma_first_id_bounds(ids.drop_first(), id);
        match first_id(ids.drop_first(), id) {
            Some(i) => {
                assert forall|j: int| 0 <= j < i + 1 && ids[0] != id implies #[trigger] ids[j] != id by {
                    if j > 0 {
                        assert(ids[j] == ids.drop_first()[j - 1]);
                    }
                }
            },
            None => {
                assert forall|j: int| 0 <= j < ids.len() && ids[0] != id implies #[trigger] ids[j] != id by {
                    if j > 0 {
                        assert(ids[j] == ids.drop_first()[j - 1]);
                    }
                }
            },
        }
    }
}

pub open spec fn entry_ids(s: Seq<CatalogEntryView>) -> Seq<Seq<char>> {
    s.map_values(|e: CatalogEntryView| e.id)
}

pub open spec fn category_ids(s: Seq<CategoryView>) -> Seq<Seq<char>> {
    s.map_values(|c: CategoryView| c.id)
}

pub open spec fn source_ids(s: Seq<SourceView>) -> Seq<Seq<char>> {
    s.map_values(|c: SourceView| c.id)
}

pub open spec fn snapshot_ids(s: Seq<SnapshotView>) -> Seq<Seq<char>> {
    s.map_values(|c: SnapshotView| c.id)
}

pub open spec fn binding_ids(s: Seq<(Seq<char>, Seq<SourceView>)>) -> Seq<Seq<char>> {
    s.map_values(|c: (Seq<char>, Seq<SourceView>)| c.0)
}

/// `source` with the path a device binding gives for its slot, if any.
pub open spec fn bound_source(source: SourceView, bound: Seq<SourceView>) -> SourceView {
    match first_id(source_ids(bound), source.id) {
        Some(k) => SourceView { path: bound[k].path, ..source },
        None => source,
    }
}

/// The entry a catalog summary describes, with device paths from the bindings.
pub open spec fn entry_of(summary: CatalogEntryView, bindings: Seq<(Seq<char>, Seq<SourceView>)>) -> EntryView {
    let sources = match first_id(binding_ids(bindings), summary.id) {
        Some(b) => Seq::new(
            summary.sources.len(),
            |i: int| bound_source(summary.sources[i], bindings[b].1),
        ),
        None => summary.sources,
    };
    EntryView {
        id: summary.id,
        name: summary.name,
        sources: sources,
        category_id: summary.category_id,
        tags: summary.tags,
        storage_policy: summary.storage_policy,
        sync_mode: summary.sync_mode,
        created_at_ms: summary.created_at_ms,
        exclude_patterns: summary.exclude_patterns,
        auto_backup_enabled: summary.auto_backup_enabled,
    }
}

/// `repo` and `other` agree on everything but the catalog entries.
pub open spec fn same_but_entries(repo: LocalRepository, other: LocalRepository) -> bool {
    &&& repo.root_path() == other.root_path()
    &&& repo.categories() == other.categories()
    &&& repo.bindings() == other.bindings()
    &&& repo.device_id() == other.device_id()
    &&& repo.device_name() == other.device_name()
}

/// `repo` and `other` agree on everything but the categories.
pub open spec fn same_but_categories(repo: LocalRepository, other: LocalRepository) -> bool {
    &&& repo.root_path() == other.root_path()
    &&& repo.entries() == other.entries()
    &&& repo.bindings() == other.bindings()
    &&& repo.device_id() == other.device_id()
    &&& repo.device_name() == other.device_name()
}

/// Whether a category with this id exists.
pub open spec fn has_category(categories: Seq<CategoryView>, id: Seq<char>) -> bool {
    first_id(category_ids(categories), id) is Some
}

/// The tags an entry keeps: trimmed, non-empty, and the first of values equal ignoring
/// ASCII case, in their original order.
pub open spec fn normalized_tags(tags: Seq<Seq<char>>) -> Seq<Seq<char>>
    decreases tags.len(),
{
    if tags.len() == 0 {
        Seq::empty()
    } else {
        let kept = normalized_tags(tags.drop_last());
        let tag = trim(tags.last());
        if tag.len() > 0 && !(exists|j: int|
            0 <= j < kept.len() && eq_ignore_ascii_case_spec(#[trigger] kept[j], tag)) {
            kept.push(tag)
        } else {
            kept
        }
    }
}

/// Tags in the form `normalized_tags` gives: trimmed, non-empty, distinct ignoring ASCII case.
pub open spec fn tags_normal(tags: Seq<Seq<char>>) -> bool {
    &&& forall|i: int| 0 <= i < tags.len() ==> #[trigger] trim(tags[i]) == tags[i]
    &&& forall|i: int| 0 <= i < tags.len() ==> #[trigger] tags[i].len() > 0
    &&& forall|i: int, j: int|
        0 <= i < j < tags.len() ==> !eq_ignore_ascii_case_spec(#[trigger] tags[i], #[trigger] tags[j])
}

/// Normalized tags are trimmed, non-empty and distinct ignoring ASCII case.
pub proof fn lemma_normalized_tags_normal(tags: Seq<Seq<char>>)
    ensures
        tags_normal(normalized_tags(tags)),
    decreases tags.len(),
{
    if tags.len() > 0 {
        lemma_normalized_tags_normal(tags.drop_last());
        let kept = normalized_tags(tags.drop_last());
        let tag = trim(tags.last());
        lemma_trim_idempotent(tags.last());
        let r = normalized_tags(tags);
        if r != kept {
            assert(r == kept.push(tag));
            assert forall|i: int, j: int| 0 <= i < j < r.len() implies !eq_ignore_ascii_case_spec(
                #[trigger] r[i],
                #[trigger] r[j],
            ) by {
                if j == kept.len() {
                    assert(r[i] == kept[i]);
                    if eq_ignore_ascii_case_spec(r[i], r[j]) {
                        assert(eq_ignore_ascii_case_spec(kept[i], tag));
                    }
                } else {
                    assert(r[i] == kept[i] && r[j] == kept[j]);
                }
            }
            assert forall|i: int| 0 <= i < r.len() implies #[trigger] trim(r[i]) == r[i] by {
                if i < kept.len() {
                    assert(r[i] == kept[i]);
                }
            }
            assert forall|i: int| 0 <= i < r.len() implies #[trigger] r[i].len() > 0 by {
                if i < kept.len() {
                    assert(r[i] == kept[i]);
                }
            }
        }
    }
}

/// Normalizing tags that are already normal keeps them as they are.
pub proof fn lemma_normal_tags_fixed(tags: Seq<Seq<char>>)
    ensures
        tags_normal(tags) ==> normalized_tags(tags) == tags,
    decreases tags.len(),
{
    if tags.len() > 0 && tags_normal(tags) {
        let init = tags.drop_last();
        assert(tags_normal(init)) by {
            assert forall|i: int, j: int| 0 <= i < j < init.len() implies !eq_ignore_ascii_case_spec(
                #[trigger] init[i],
                #[trigger] init[j],
            ) by {
                assert(init[i] == tags[i] && init[j] == tags[j]);
            }
            assert forall|i: int| 0 <= i < init.len() implies #[trigger] trim(init[i]) == init[i] by {
                assert(init[i] == tags[i]);
            }
            assert forall|i: int| 0 <= i < init.len() implies #[trigger] init[i].len() > 0 by {
                assert(init[i] == tags[i]);
            }
        }
        lemma_normal_tags_fixed(init);
        let last = tags.last();
        assert(trim(last) == last);
        assert(last.len() > 0);
        if exists|j: int| 0 <= j < init.len() && eq_ignore_ascii_case_spec(#[trigger] init[j], last) {
            let j = choose|j: int| 0 <= j < init.len() && eq_ignore_ascii_case_spec(#[trigger] init[j], last);
            assert(init[j] == tags[j]);
            assert(!eq_ignore_ascii_case_spec(tags[j], tags[tags.len() - 1]));
        }
        assert(tags =~= init.push(last));
    }
}

/// Normalizing tags twice gives what normalizing once gives, so `set_entry_tags` with an
/// entry's own tags changes nothing.
pub proof fn lemma_normalized_tags_idempotent(tags: Seq<Seq<char>>)
    ensures
        normalized_tags(normalized_tags(tags)) == normalized_tags(tags),
{
    lemma_normalized_tags_normal(tags);
    lemma_normal_tags_fixed(normalized_tags(tags));
}

/// Whether `id` names a category that does not exist.
pub open spec fn missing_category(categories: Seq<CategoryView>, id: Option<Seq<char>>) -> bool {
    match id {
        Some(c) => !has_category(categories, c),
        None => false,
    }
}

/// Whether a category other than `except` sits under `parent` with a name equal to `name`
/// ignoring ASCII case.
pub open spec fn sibling_named(
    categories: Seq<CategoryView>,
    parent: Option<Seq<char>>,
    name: Seq<char>,
    except: Option<Seq<char>>,
) -> bool {
    exists|k: int|
        0 <= k < categories.len() && Some(#[trigger] categories[k].id) != except
            && categories[k].parent_id == parent && eq_ignore_ascii_case_spec(categories[k].name, name)
}

/// The parent of the first category with id `id`, or `None`.
pub open spec fn parent_of(categories: Seq<CategoryView>, id: Seq<char>) -> Option<Seq<char>> {
    match first_id(category_ids(categories), id) {
        Some(k) => categories[k].parent_id,
        None => None,
    }
}

/// Whether walking up from `start` through at most `steps` parents meets `target`.
pub open spec fn meets_ancestor(
    categories: Seq<CategoryView>,
    start: Option<Seq<char>>,
    target: Seq<char>,
    steps: nat,
) -> bool
    decreases steps,
{
    match start {
        None => false,
        Some(c) => c == target || (steps > 0 && meets_ancestor(
            categories,
            parent_of(categories, c),
            target,
            (steps - 1) as nat,
        )),
    }
}

/// Whether walking up from `start` ends, at the root or at `target`, within `steps` parents.
pub open spec fn walk_ends(
    categories: Seq<CategoryView>,
    start: Option<Seq<char>>,
    target: Seq<char>,
    steps: nat,
) -> bool
    decreases steps,
{
    match start {
        None => true,
        Some(c) => c == target || (steps > 0 && walk_ends(
            categories,
            parent_of(categories, c),
            target,
            (steps - 1) as nat,
        )),
    }
}

pub open spec fn opt_str_view(s: Option<&str>) -> Option<Seq<char>> {
    match s {
        Some(v) => Some(v@),
        None => None,
    }
}

/// Whether the first checks of a category move pass: the category is not its own new
/// parent, and both it and the new parent exist.
pub open spec fn move_allowed(categories: Seq<CategoryView>, id: Seq<char>, parent: Option<Seq<char>>) -> bool {
    &&& parent != Some(id)
    &&& has_category(categories, id)
    &&& !missing_category(categories, parent)
}

/// Whether another category under `parent` has the moved category's name.
pub open spec fn moved_name_taken(categories: Seq<CategoryView>, id: Seq<char>, parent: Option<Seq<char>>) -> bool {
    match first_id(category_ids(categories), id) {
        Some(k) => sibling_named(categories, parent, categories[k].name, Some(id)),
        None => false,
    }
}

/// The categories after the first one with id `id` is moved below `parent`.
pub open spec fn moved(categories: Seq<CategoryView>, id: Seq<char>, parent: Option<Seq<char>>) -> Seq<CategoryView> {
    match first_id(category_ids(categories), id) {
        Some(k) => categories.update(k, CategoryView { parent_id: parent, ..categories[k] }),
        None => categories,
    }
}

/// The entries `list_entries` gives, before sorting: the entry each catalog summary's id
/// names.
pub open spec fn listed_entries(
    entries: Seq<CatalogEntryView>,
    bindings: Seq<(Seq<char>, Seq<SourceView>)>,
) -> Seq<EntryView> {
    Seq::new(
        entries.len(),
        |i: int| entry_of(entries[first_id(entry_ids(entries), entries[i].id)->0], bindings),
    )
}

/// The first snapshot with id `id`, searching the entries in catalog order.
pub open spec fn find_snapshot(entries: Seq<CatalogEntryView>, id: Seq<char>) -> Option<SnapshotView>
    decreases entries.len(),
{
    if entries.len() == 0 {
        None
    } else {
        match first_id(snapshot_ids(entries[0].snapshots), id) {
            Some(k) => Some(entries[0].snapshots[k]),
            None => find_snapshot(entries.drop_first(), id),
        }
    }
}

/// The total stored size of a timeline.
pub open spec fn total_size(timeline: Seq<SnapshotView>) -> int
    decreases timeline.len(),
{
    if timeline.len() == 0 {
        0
    } else {
        total_size(timeline.drop_last()) + timeline.last().size_bytes
    }
}

/// A catalog summary whose timeline is replaced by `timeline`.
pub open spec fn refreshed(summary: CatalogEntryView, timeline: Seq<SnapshotView>) -> CatalogEntryView {
    CatalogEntryView {
        snapshot_count: timeline.len() as usize,
        stored_bytes: total_size(timeline) as u64,
        last_snapshot_at_ms: if timeline.len() > 0 {
            Some(timeline.last().created_at_ms)
        } else {
            None
        },
        snapshots: timeline,
        ..summary
    }
}

/// The path `base` joined with `part` (`std::path::Path::join`, read back as text), by the
/// path rules of the platform the library is built for (Windows or Unix).
pub uninterp spec fn joined_path(base: Seq<char>, part: Seq<char>) -> Seq<char>;

/// Describes an object that has been committed to a repository.
#[derive(Clone, Debug, PartialEq, Eq)]
pub struct StoredObject {
    /// Content hash used as the object key.
    pub hash: String,
    /// Stored byte count.
    pub size_bytes: u64,
}

/// The relative path of a snapshot's archive: its archive name.
pub fn object_key(snapshot: &Snapshot) -> (r: String)
    ensures
        r@ == snapshot.archive_name@,
{
    snapshot.archive_name.clone()
}

/// Joins two paths (`std::path::Path::join`), read back as text, lossily where a part is not
/// valid UTF-8 (which text arguments always are).
#[verifier::external_body]
pub(crate) fn join_path(base: &str, part: &str) -> (r: String)
    ensures
        r@ == joined_path(base@, part@),
{
    std::path::Path::new(base).join(part).to_string_lossy().into_owned()
}

/// `repo` and `other` agree on the root, the categories and the device.
pub open spec fn same_frame(repo: LocalRepository, other: LocalRepository) -> bool {
    &&& repo.root_path() == other.root_path()
    &&& repo.categories() == other.categories()
    &&& repo.device_id() == other.device_id()
    &&& repo.device_name() == other.device_name()
}

/// The bindings after this device's paths for the sources of `entry_id` are saved.
pub open spec fn bindings_saved(
    bindings: Seq<(Seq<char>, Seq<SourceView>)>,
    entry_id: Seq<char>,
    sources: Seq<SourceView>,
) -> Seq<(Seq<char>, Seq<SourceView>)> {
    match first_id(binding_ids(bindings), entry_id) {
        Some(b) => bindings.update(b, (entry_id, merge_sources(bindings[b].1, sources))),
        None => bindings.push((entry_id, merge_sources(Seq::empty(), sources))),
    }
}

/// The folder an entry's archives are stored in: its safe name, two underscores, its id.
pub open spec fn entry_folder(name: Seq<char>, id: Seq<char>) -> Seq<char> {
    safe_folder_name_spec(name) + seq!['_', '_'] + id
}

/// The catalog summary of a newly added entry.
pub open spec fn new_summary(e: EntryView) -> CatalogEntryView {
    CatalogEntryView {
        id: e.id,
        name: e.name,
        folder: entry_folder(e.name, e.id),
        category_id: e.category_id,
        tags: e.tags,
        storage_policy: e.storage_policy,
        sync_mode: e.sync_mode,
        source_count: e.sources.len() as usize,
        snapshot_count: 0,
        stored_bytes: 0,
        last_snapshot_at_ms: None,
        sources: shared_sources(e.sources),
        created_at_ms: e.created_at_ms,
        snapshots: Seq::empty(),
        exclude_patterns: e.exclude_patterns,
        auto_backup_enabled: e.auto_backup_enabled,
    }
}

/// A new entry, before its source ids are known.
pub open spec fn new_entry_fields(
    e: EntryView,
    name: Seq<char>,
    category_id: Option<Seq<char>>,
    storage_policy: StoragePolicy,
    sync_mode: SyncMode,
    now_ms: u64,
) -> bool {
    &&& e.name == trim(name)
    &&& e.category_id == category_id
    &&& e.tags == Seq::<Seq<char>>::empty()
    &&& e.storage_policy == storage_policy
    &&& e.sync_mode == sync_mode
    &&& e.created_at_ms == now_ms
    &&& e.exclude_patterns == Seq::<Seq<char>>::empty()
    &&& !e.auto_backup_enabled
}

/// The entries whose id is not `id`, in catalog order.
pub open spec fn entries_without(entries: Seq<CatalogEntryView>, id: Seq<char>) -> Seq<CatalogEntryView> {
    entries.filter(|e: CatalogEntryView| e.id != id)
}

/// Whether restoring entry `e` would clash with the live catalog: an entry has its id or
/// its folder, or its folder is already on disk (`folder_taken`).
pub open spec fn entry_clashes(current: Seq<CatalogEntryView>, e: CatalogEntryView, folder_taken: bool) -> bool {
    folder_taken || exists|j: int| 0 <= j < current.len() && same_slot(#[trigger] current[j], e)
}

/// Whether two entries share an id or a folder.
pub open spec fn same_slot(a: CatalogEntryView, b: CatalogEntryView) -> bool {
    a.id == b.id || a.folder == b.folder
}

/// Whether two categories share an id, or a parent and a name ignoring ASCII case.
pub open spec fn same_place(a: CategoryView, b: CategoryView) -> bool {
    a.id == b.id || (a.parent_id == b.parent_id && eq_ignore_ascii_case_spec(a.name, b.name))
}

/// Whether restoring category `c` would clash with the live categories: one has its id, or
/// has its parent and its name ignoring ASCII case.
pub open spec fn category_clashes(current: Seq<CategoryView>, c: CategoryView) -> bool {
    exists|j: int| 0 <= j < current.len() && same_place(#[trigger] current[j], c)
}

/// Whether the parent of a restored category would be missing: neither live nor restored.
pub open spec fn parent_lost(current: Seq<CategoryView>, incoming: Seq<CategoryView>, c: CategoryView) -> bool {
    match c.parent_id {
        Some(p) => !has_category(current, p) && !has_category(incoming, p),
        None => false,
    }
}

/// `存档“name”与现有内容冲突`
pub open spec fn entry_conflict_message(name: Seq<char>) -> Seq<char> {
    seq!['存', '档', '“'] + name + seq!['”', '与', '现', '有', '内', '容', '冲', '突']
}

/// `分类“name”与现有内容冲突`
pub open spec fn category_conflict_message(name: Seq<char>) -> Seq<char> {
    seq!['分', '类', '“'] + name + seq!['”', '与', '现', '有', '内', '容', '冲', '突']
}

/// `分类“name”的上级分类不存在`
pub open spec fn missing_parent_message(name: Seq<char>) -> Seq<char> {
    seq!['分', '类', '“'] + name + seq!['”', '的', '上', '级', '分', '类', '不', '存', '在']
}

/// The message for the first restored entry, from position `i` on, that clashes.
pub open spec fn entry_problem(
    current: Seq<CatalogEntryView>,
    incoming: Seq<CatalogEntryView>,
    taken: Seq<bool>,
    i: int,
) -> Option<Seq<char>>
    decreases incoming.len() - i,
{
    if i < 0 || i >= incoming.len() {
        None
    } else if entry_clashes(current, incoming[i], taken[i]) {
        Some(entry_conflict_message(incoming[i].name))
    } else {
        entry_problem(current, incoming, taken, i + 1)
    }
}

/// The message for the first restored category, from position `i` on, that clashes or whose
/// parent is missing.
pub open spec fn category_problem(current: Seq<CategoryView>, incoming: Seq<CategoryView>, i: int) -> Option<Seq<char>>
    decreases incoming.len() - i,
{
    if i < 0 || i >= incoming.len() {
        None
    } else if category_clashes(current, incoming[i]) {
        Some(category_conflict_message(incoming[i].name))
    } else if parent_lost(current, incoming, incoming[i]) {
        Some(missing_parent_message(incoming[i].name))
    } else {
        category_problem(current, incoming, i + 1)
    }
}

/// Why a recycle bundle cannot be restored, if it cannot: entries are checked first, then
/// categories, each in bundle order.
pub open spec fn restore_problem(
    entries: Seq<CatalogEntryView>,
    categories: Seq<CategoryView>,
    manifest_entries: Seq<CatalogEntryView>,
    manifest_categories: Seq<CategoryView>,
    taken: Seq<bool>,
) -> Option<Seq<char>> {
    match entry_problem(entries, manifest_entries, taken, 0) {
        Some(m) => Some(m),
        None => category_problem(categories, manifest_categories, 0),
    }
}

fn quoted_message(prefix: &str, name: &str, suffix: &str) -> (r: String)
    ensures
        r@ == prefix@ + name@ + suffix@,
{
    let a = chars_of(prefix);
    let b = chars_of(name);
    let c = chars_of(suffix);
    let ab = crate::text::concat_chars(a.as_slice(), b.as_slice());
    let abc = crate::text::concat_chars(ab.as_slice(), c.as_slice());
    string_of(abc.as_slice())
}

/// The folder name of a recycle bundle: the deletion time, the kind, the deleted item's id
/// as a safe folder name and a unique suffix, joined by double underscores.
pub open spec fn recycle_batch_name_spec(now_ms: u64, kind: Seq<char>, id: Seq<char>, unique: Seq<char>) -> Seq<char> {
    crate::text::decimal(now_ms as nat) + seq!['_', '_'] + kind + seq!['_', '_'] + safe_folder_name_spec(id)
        + seq!['_', '_'] + unique
}

/// The folder name of a recycle bundle, with the given unique suffix.
pub fn recycle_batch_name_with(now_ms: u64, kind: &str, id: &str, unique: &str) -> (r: String)
    ensures
        r@ == recycle_batch_name_spec(now_ms, kind@, id@, unique@),
{
    let sep: Vec<char> = vec!['_', '_'];
    let time = chars_of(crate::text::decimal_string(now_ms).as_str());
    let kind_chars = chars_of(kind);
    let safe = chars_of(safe_folder_name(id).as_str());
    let unique_chars = chars_of(unique);
    let a = crate::text::concat_chars(time.as_slice(), sep.as_slice());
    let b = crate::text::concat_chars(a.as_slice(), kind_chars.as_slice());
    let c = crate::text::concat_chars(b.as_slice(), sep.as_slice());
    let d = crate::text::concat_chars(c.as_slice(), safe.as_slice());
    let e = crate::text::concat_chars(d.as_slice(), sep.as_slice());
    let f = crate::text::concat_chars(e.as_slice(), unique_chars.as_slice());
    proof {
        assert(sep@ =~= seq!['_', '_']);
        assert(f@ =~= recycle_batch_name_spec(now_ms, kind@, id@, unique@));
    }
    string_of(f.as_slice())
}

/// The folder name of a new recycle bundle, made unique by a fresh identifier.
pub fn recycle_batch_name(now_ms: u64, kind: &str, id: &str) -> (r: String)
    ensures
        exists|unique: Seq<char>| r@ == recycle_batch_name_spec(now_ms, kind@, id@, unique),
{
    let unique = new_id();
    recycle_batch_name_with(now_ms, kind, id, unique.as_str())
}

/// The checks an archive's name and source list pass before any source path is resolved:
/// a name that is blank once trimmed, then an empty source list, are refused.
pub fn check_entry_input(name: &str, source_count: usize) -> (r: Result<(), StorageError>)
    ensures
        trim(name@).len() == 0 ==> r matches Err(StorageError::EmptyName),
        trim(name@).len() > 0 && source_count == 0 ==> r matches Err(StorageError::EmptySources),
        trim(name@).len() > 0 && source_count > 0 ==> r is Ok,
{
    let chars = chars_of(name);
    if trim_chars(chars.as_slice()).len() == 0 {
        return Err(StorageError::EmptyName);
    }
    if source_count == 0 {
        return Err(StorageError::EmptySources);
    }
    Ok(())
}

/// A fresh random identifier, as new entries, categories and snapshots get: a version 4
/// UUID in lower-case hyphenated form.
pub fn fresh_id() -> (r: String)
    ensures
        uuid_v4_text(r@),
{
    new_id()
}

/// Position of the first string equal to `id`.
pub fn find_id(ids: &Vec<String>, id: &str) -> (r: Option<usize>)
    ensures
        match r {
            Some(i) => first_id(strings_view(ids@), id@) == Some(i as int),
            None => first_id(strings_view(ids@), id@) is None,
        },
{
    let mut i: usize = 0;
    proof {
        assert(strings_view(ids@).skip(0) =~= strings_view(ids@));
    }
    while i < ids.len()
        invariant
            i <= ids@.len(),
            first_id(strings_view(ids@), id@) == match first_id(
                strings_view(ids@).skip(i as int),
                id@,
            ) {
                Some(k) => Some(k + i),
                None => None,
            },
        decreases ids@.len() - i,
    {
        proof {
            let rest = strings_view(ids@).skip(i as int);
            assert(rest[0] == ids@[i as int]@);
            assert(rest.drop_first() =~= strings_view(ids@).skip(i + 1));
        }
        if str_is(ids[i].as_str(), id) {
            return Some(i);
        }
        i = i + 1;
    }
    proof {
        assert(strings_view(ids@).skip(i as int) =~= Seq::<Seq<char>>::empty());
    }
    None
}

/// `s` without leading or trailing white space.
pub fn trimmed(s: &str) -> (r: String)
    ensures
        r@ == trim(s@),
{
    let chars = chars_of(s);
    let t = trim_chars(chars.as_slice());
    string_of(t.as_slice())
}

/// Whether some string of `list` equals `value` ignoring ASCII case.
fn has_case_insensitive(list: &Vec<String>, value: &[char]) -> (r: bool)
    ensures
        r == exists|j: int|
            0 <= j < list@.len() && eq_ignore_ascii_case_spec(#[trigger] strings_view(list@)[j], value@),
{
    let mut i: usize = 0;
    while i < list.len()
        invariant
            i <= list@.len(),
            forall|j: int|
                0 <= j < i ==> !eq_ignore_ascii_case_spec(#[trigger] strings_view(list@)[j], value@),
        decreases list@.len() - i,
    {
        let item = chars_of(list[i].as_str());
        if eq_ignore_ascii_case(item.as_slice(), value) {
            proof {
                assert(strings_view(list@)[i as int] == item@);
            }
            return true;
        }
        proof {
            assert(strings_view(list@)[i as int] == item@);
        }
        i = i + 1;
    }
    false
}

/// A lower-case hexadecimal digit.
pub open spec fn lower_hex_digit(c: char) -> bool {
    ('0' <= c && c <= '9') || ('a' <= c && c <= 'f')
}

/// The text of a version 4 (random) UUID in lower-case hyphenated form: 36 characters,
/// hyphens at positions 8, 13, 18 and 23, hexadecimal digits elsewhere, the version digit
/// `4` at position 14 and one of `8`, `9`, `a`, `b` (the RFC 4122 variant) at position 19.
pub open spec fn uuid_v4_text(s: Seq<char>) -> bool {
    &&& s.len() == 36
    &&& forall|i: int|
        0 <= i < 36 ==> if i == 8 || i == 13 || i == 18 || i == 23 {
            #[trigger] s[i] == '-'
        } else {
            lower_hex_digit(s[i])
        }
    &&& s[14] == '4'
    &&& (s[19] == '8' || s[19] == '9' || s[19] == 'a' || s[19] == 'b')
}

/// A fresh identifier from `uuid::Uuid::new_v4`, as `to_string` writes it. The value is
/// random; what every value shares is stated: the lower-case hyphenated form, the version
/// digit and the variant bits that `new_v4` sets.
#[verifier::external_body]
fn new_id() -> (id: String)
    ensures
        uuid_v4_text(id@),
{
    uuid::Uuid::new_v4().to_string()
}

/// Trims every tag, drops empty ones and keeps the first of tags equal ignoring ASCII case.
pub fn normalize_tags(tags: &Vec<String>) -> (r: Vec<String>)
    ensures
        strings_view(r@) == normalized_tags(strings_view(tags@)),
{
    let mut kept: Vec<String> = Vec::new();
    let mut i: usize = 0;
    while i < tags.len()
        invariant
            i <= tags@.len(),
            strings_view(kept@) == normalized_tags(strings_view(tags@.take(i as int))),
        decreases tags@.len() - i,
    {
        let tag = trimmed(tags[i].as_str());
        let chars = chars_of(tag.as_str());
        let ghost prev = kept@;
        proof {
            let t = strings_view(tags@.take(i + 1));
            assert(t.drop_last() =~= strings_view(tags@.take(i as int)));
            assert(t.last() == tags@[i as int]@);
        }
        if chars.len() > 0 && !has_case_insensitive(&kept, chars.as_slice()) {
            kept.push(tag);
            proof {
                assert(strings_view(kept@) =~= strings_view(prev).push(chars@));
            }
        }
        i = i + 1;
    }
    proof {
        assert(tags@.take(tags@.len() as int) =~= tags@);
    }
    kept
}

fn entry_id_list(entries: &Vec<CatalogEntry>) -> (ids: Vec<String>)
    ensures
        strings_view(ids@) == entry_ids(entries_view(entries@)),
{
    let mut ids: Vec<String> = Vec::new();
    let mut i: usize = 0;
    while i < entries.len()
        invariant
            i <= entries@.len(),
            strings_view(ids@) == entry_ids(entries_view(entries@.take(i as int))),
        decreases entries@.len() - i,
    {
        let ghost prev = ids@;
        let id = entries[i].id.clone();
        ids.push(id);
        proof {
            assert(strings_view(ids@) =~= strings_view(prev).push(id@));
            assert(entry_ids(entries_view(entries@.take(i + 1))) =~= entry_ids(
                entries_view(entries@.take(i as int)),
            ).push(entries@[i as int].id@));
        }
        i = i + 1;
    }
    proof {
        assert(entries@.take(entries@.len() as int) =~= entries@);
    }
    ids
}

pub(crate) fn category_id_list(categories: &Vec<Category>) -> (ids: Vec<String>)
    ensures
        strings_view(ids@) == category_ids(categories_view(categories@)),
{
    let mut ids: Vec<String> = Vec::new();
    let mut i: usize = 0;
    while i < categories.len()
        invariant
            i <= categories@.len(),
            strings_view(ids@) == category_ids(categories_view(categories@.take(i as int))),
        decreases categories@.len() - i,
    {
        let ghost prev = ids@;
        let id = categories[i].id.clone();
        ids.push(id);
        proof {
            assert(strings_view(ids@) =~= strings_view(prev).push(id@));
            assert(category_ids(categories_view(categories@.take(i + 1))) =~= category_ids(
                categories_view(categories@.take(i as int)),
            ).push(categories@[i as int].id@));
        }
        i = i + 1;
    }
    proof {
        assert(categories@.take(categories@.len() as int) =~= categories@);
    }
    ids
}

pub(crate) fn source_id_list(sources: &Vec<EntrySource>) -> (ids: Vec<String>)
    ensures
        strings_view(ids@) == source_ids(sources_view(sources@)),
{
    let mut ids: Vec<String> = Vec::new();
    let mut i: usize = 0;
    while i < sources.len()
        invariant
            i <= sources@.len(),
            strings_view(ids@) == source_ids(sources_view(sources@.take(i as int))),
        decreases sources@.len() - i,
    {
        let ghost prev = ids@;
        let id = sources[i].id.clone();
        ids.push(id);
        proof {
            assert(strings_view(ids@) =~= strings_view(prev).push(id@));
            assert(source_ids(sources_view(sources@.take(i + 1))) =~= source_ids(
                sources_view(sources@.take(i as int)),
            ).push(sources@[i as int].id@));
        }
        i = i + 1;
    }
    proof {
        assert(sources@.take(sources@.len() as int) =~= sources@);
    }
    ids
}

fn binding_id_list(bindings: &Vec<(String, Vec<EntrySource>)>) -> (ids: Vec<String>)
    ensures
        strings_view(ids@) == binding_ids(bindings_view(bindings@)),
{
    let mut ids: Vec<String> = Vec::new();
    let mut i: usize = 0;
    while i < bindings.len()
        invariant
            i <= bindings@.len(),
            strings_view(ids@) == binding_ids(bindings_view(bindings@.take(i as int))),
        decreases bindings@.len() - i,
    {
        let ghost prev = ids@;
        let id = bindings[i].0.clone();
        ids.push(id);
        proof {
            assert(strings_view(ids@) =~= strings_view(prev).push(id@));
            assert(binding_ids(bindings_view(bindings@.take(i + 1))) =~= binding_ids(
                bindings_view(bindings@.take(i as int)),
            ).push(bindings@[i as int].0@));
        }
        i = i + 1;
    }
    proof {
        assert(bindings@.take(bindings@.len() as int) =~= bindings@);
    }
    ids
}

fn snapshot_id_list(snapshots: &Vec<Snapshot>) -> (ids: Vec<String>)
    ensures
        strings_view(ids@) == snapshot_ids(snapshots_view(snapshots@)),
{
    let mut ids: Vec<String> = Vec::new();
    let mut i: usize = 0;
    while i < snapshots.len()
        invariant
            i <= snapshots@.len(),
            strings_view(ids@) == snapshot_ids(snapshots_view(snapshots@.take(i as int))),
        decreases snapshots@.len() - i,
    {
        let ghost prev = ids@;
        let id = snapshots[i].id.clone();
        ids.push(id);
        proof {
            assert(strings_view(ids@) =~= strings_view(prev).push(id@));
            assert(snapshot_ids(snapshots_view(snapshots@.take(i + 1))) =~= snapshot_ids(
                snapshots_view(snapshots@.take(i as int)),
            ).push(snapshots@[i as int].id@));
        }
        i = i + 1;
    }
    proof {
        assert(snapshots@.take(snapshots@.len() as int) =~= snapshots@);
    }
    ids
}

proof fn lemma_total_size_prefix(timeline: Seq<SnapshotView>, k: int)
    requires
        0 <= k <= timeline.len(),
    ensures
        0 <= total_size(timeline.take(k)) <= total_size(timeline),
    decreases timeline.len(),
{
    if k < timeline.len() {
        assert(timeline.drop_last().take(k) =~= timeline.take(k));
        lemma_total_size_prefix(timeline.drop_last(), k);
    } else {
        assert(timeline.take(k) =~= timeline);
        if timeline.len() > 0 {
            lemma_total_size_prefix(timeline.drop_last(), k - 1);
            assert(timeline.drop_last().take(k - 1) =~= timeline.drop_last());
        }
    }
}

proof fn lemma_total_size_insert(s: Seq<SnapshotView>, p: int, x: SnapshotView)
    requires
        0 <= p <= s.len(),
    ensures
        total_size(s.insert(p, x)) == total_size(s) + x.size_bytes,
    decreases s.len(),
{
    if p == s.len() {
        assert(s.insert(p, x).drop_last() =~= s);
    } else {
        lemma_total_size_insert(s.drop_last(), p, x);
        assert(s.insert(p, x).drop_last() =~= s.drop_last().insert(p, x));
    }
}

/// Sorting a timeline keeps its total size.
pub proof fn lemma_total_size_sorted(s: Seq<SnapshotView>, before: spec_fn(SnapshotView, SnapshotView) -> bool)
    ensures
        total_size(stable_sort(s, before)) == total_size(s),
    decreases s.len(),
{
    if s.len() > 0 {
        let sorted = stable_sort(s.drop_last(), before);
        lemma_total_size_sorted(s.drop_last(), before);
        lemma_insert_at_point(sorted, s.last(), before);
        let p = insertion_point(sorted, s.last(), before);
        assert(insert_sorted(sorted, s.last(), before) =~= sorted.insert(p, s.last()));
        lemma_total_size_insert(sorted, p, s.last());
    }
}

/// `s` without the snapshots whose id is `id`.
pub open spec fn without_snapshot(s: Seq<SnapshotView>, id: Seq<char>) -> Seq<SnapshotView>
    decreases s.len(),
{
    if s.len() == 0 {
        s
    } else if s.last().id == id {
        without_snapshot(s.drop_last(), id)
    } else {
        without_snapshot(s.drop_last(), id).push(s.last())
    }
}

proof fn lemma_without_snapshot_size(s: Seq<SnapshotView>, id: Seq<char>)
    ensures
        total_size(without_snapshot(s, id)) <= total_size(s),
    decreases s.len(),
{
    if s.len() > 0 {
        lemma_without_snapshot_size(s.drop_last(), id);
        if s.last().id != id {
            assert(without_snapshot(s, id).drop_last() =~= without_snapshot(s.drop_last(), id));
        }
    }
}

proof fn lemma_update_size(s: Seq<SnapshotView>, k: int, x: SnapshotView)
    requires
        0 <= k < s.len(),
        x.size_bytes == s[k].size_bytes,
    ensures
        total_size(s.update(k, x)) == total_size(s),
    decreases s.len(),
{
    if k < s.len() - 1 {
        lemma_update_size(s.drop_last(), k, x);
        assert(s.update(k, x).drop_last() =~= s.drop_last().update(k, x));
    } else {
        assert(s.update(k, x).drop_last() =~= s.drop_last());
    }
}

/// The timeline of the entry `entry_id` names fits the stored-size counter, if there is
/// such an entry.
pub open spec fn timeline_fits(entries: Seq<CatalogEntryView>, entry_id: Seq<char>) -> bool {
    match first_id(entry_ids(entries), entry_id) {
        Some(i) => total_size(entries[i].snapshots) <= u64::MAX,
        None => true,
    }
}

/// The name of the directory under the repository root that holds the entry folders.
pub open spec fn archives_dir() -> Seq<char> {
    seq!['a', 'r', 'c', 'h', 'i', 'v', 'e', 's']
}

impl LocalRepository {
    /// Wraps loaded metadata documents of the repository at `root`.
    pub fn open(
        root: String,
        catalog: Catalog,
        bindings: BindingsDocument,
        device: DeviceDocument,
    ) -> (r: Self)
        ensures
            r.root_path() == root@,
            r.categories() == categories_view(catalog.categories@),
            r.entries() == entries_view(catalog.entries@),
            r.bindings() == bindings_view(bindings.entries@),
            r.device_id() == device.id@,
            r.device_name() == device.name@,
    {
        LocalRepository { root, catalog, bindings, device }
    }

    pub closed spec fn root_path(&self) -> Seq<char> {
        self.root@
    }

    pub closed spec fn categories(&self) -> Seq<CategoryView> {
        categories_view(self.catalog.categories@)
    }

    pub closed spec fn entries(&self) -> Seq<CatalogEntryView> {
        entries_view(self.catalog.entries@)
    }

    pub closed spec fn bindings(&self) -> Seq<(Seq<char>, Seq<SourceView>)> {
        bindings_view(self.bindings.entries@)
    }

    pub closed spec fn device_id(&self) -> Seq<char> {
        self.device.id@
    }

    pub closed spec fn device_name(&self) -> Seq<char> {
        self.device.name@
    }

    /// The repository directory.
    pub fn root(&self) -> (r: &str)
        ensures
            r@ == self.root_path(),
    {
        self.root.as_str()
    }

    /// The catalog document, to be written back after a change.
    pub fn catalog(&self) -> (c: &Catalog)
        ensures
            categories_view(c.categories@) == self.categories(),
            entries_view(c.entries@) == self.entries(),
    {
        &self.catalog
    }

    /// The device bindings document, to be written back after a change.
    pub fn bindings_document(&self) -> (b: &BindingsDocument)
        ensures
            bindings_view(b.entries@) == self.bindings(),
    {
        &self.bindings
    }

    /// Returns the stable local device identifier and display name.
    pub fn device_identity(&self) -> (r: (String, String))
        ensures
            r.0@ == self.device_id(),
            r.1@ == self.device_name(),
    {
        (self.device.id.clone(), self.device.name.clone())
    }

    /// The bytes the repository and its recycle bin take together, each file counted once:
    /// `repository_bytes` (the size of the files under the root), plus the sizes of the
    /// files of the recycle bin (`recycle_files`: each regular file under the recycle
    /// directory, by path and size; none when there is no bin) that do not lie under the
    /// root. A bin inside the repository thus adds nothing, and a bin that holds the
    /// repository adds only what lies outside it. The sum saturates at the largest `u64`.
    pub fn total_stored_bytes_with_recycle(&self, repository_bytes: u64, recycle_files: &Vec<(String, u64)>) -> (r: u64)
        ensures
            r == if repository_bytes + bytes_outside(files_view_of(recycle_files@), self.root_path()) > u64::MAX {
                u64::MAX as int
            } else {
                repository_bytes + bytes_outside(files_view_of(recycle_files@), self.root_path())
            },
    {
        let ghost files = files_view_of(recycle_files@);
        let ghost root = self.root_path();
        let mut total = repository_bytes;
        let mut k: usize = 0;
        while k < recycle_files.len()
            invariant
                k <= recycle_files@.len(),
                files == files_view_of(recycle_files@),
                files.len() == recycle_files@.len(),
                root == self.root_path(),
                total == if repository_bytes + bytes_outside(files.take(k as int), root) > u64::MAX {
                    u64::MAX as int
                } else {
                    repository_bytes + bytes_outside(files.take(k as int), root)
                },
            decreases recycle_files@.len() - k,
        {
            proof {
                let t = files.take(k + 1);
                assert(t.drop_last() =~= files.take(k as int));
                assert(t.last() == (recycle_files@[k as int].0@, recycle_files@[k as int].1));
                lemma_bytes_outside_nonneg(files.take(k as int), root);
            }
            match crate::auto_backup::strip_root(recycle_files[k].0.as_str(), self.root.as_str()) {
                None => {
                    total = total.saturating_add(recycle_files[k].1);
                },
                Some(_) => {},
            }
            k = k + 1;
        }
        proof {
            assert(files.take(recycle_files@.len() as int) =~= files);
        }
        total
    }

    /// Lists all category nodes stored in the repository catalog.
    pub fn list_categories(&self) -> (r: Vec<Category>)
        ensures
            categories_view(r@) == self.categories(),
    {
        copy_categories(&self.catalog.categories)
    }

    fn entry_position(&self, entry_id: &str) -> (r: Option<usize>)
        ensures
            match r {
                Some(i) => first_id(entry_ids(self.entries()), entry_id@) == Some(i as int),
                None => first_id(entry_ids(self.entries()), entry_id@) is None,
            },
    {
        let ids = entry_id_list(&self.catalog.entries);
        find_id(&ids, entry_id)
    }

    /// Loads one registered entry, with this device's source paths.
    pub fn get_entry(&self, entry_id: &str) -> (r: Result<Entry, StorageError>)
        ensures
            match first_id(entry_ids(self.entries()), entry_id@) {
                Some(i) => r matches Ok(e) && e@ == entry_of(self.entries()[i], self.bindings()),
                None => r matches Err(StorageError::EntryNotFound(id)) && id@ == entry_id@,
            },
    {
        let i = match self.entry_position(entry_id) {
            Some(i) => i,
            None => return Err(StorageError::EntryNotFound(entry_id.to_owned())),
        };
        proof {
            lemma_first_id_bounds(entry_ids(self.entries()), entry_id@);
        }
        let summary = &self.catalog.entries[i];
        let mut sources = copy_sources(&summary.sources);
        let binding_keys = binding_id_list(&self.bindings.entries);
        match find_id(&binding_keys, entry_id) {
            Some(b) => {
                proof {
                    lemma_first_id_bounds(binding_ids(self.bindings()), entry_id@);
                    assert(self.entries()[i as int].id == entry_id@);
                }
                let bound = &self.bindings.entries[b].1;
                let bound_ids = source_id_list(bound);
                let ghost base = sources_view(sources@);
                let mut k: usize = 0;
                while k < sources.len()
                    invariant
                        k <= sources@.len(),
                        base.len() == sources@.len(),
                        strings_view(bound_ids@) == source_ids(sources_view(bound@)),
                        forall|j: int|
                            0 <= j < k ==> (#[trigger] sources_view(sources@)[j]) == bound_source(
                                base[j],
                                sources_view(bound@),
                            ),
                        forall|j: int|
                            k <= j < sources@.len() ==> (#[trigger] sources_view(sources@)[j])
                                == base[j],
                    decreases sources@.len() - k,
                {
                    let id = sources[k].id.clone();
                    proof {
                        assert(sources_view(sources@)[k as int] == base[k as int]);
                    }
                    let ghost prev = sources@;
                    match find_id(&bound_ids, id.as_str()) {
                        Some(m) => {
                            proof {
                                lemma_first_id_bounds(source_ids(sources_view(bound@)), id@);
                            }
                            let path = bound[m].path.clone();
                            let mut source = sources.remove(k);
                            source.path = path;
                            sources.insert(k, source);
                            proof {
                                assert(sources@ =~= prev.update(k as int, source));
                                assert(sources_view(sources@) =~= sources_view(prev).update(
                                    k as int,
                                    source@,
                                ));
                                assert(source@ == bound_source(base[k as int], sources_view(bound@)));
                            }
                        },
                        None => {
                            proof {
                                assert(bound_source(base[k as int], sources_view(bound@)) == base[k as int]);
                            }
                        },
                    }
                    k = k + 1;
                }
                let entry = Entry {
                    id: summary.id.clone(),
                    name: summary.name.clone(),
                    sources,
                    category_id: copy_opt_string(&summary.category_id),
                    tags: copy_strings(&summary.tags),
                    storage_policy: summary.storage_policy,
                    sync_mode: summary.sync_mode,
                    created_at_ms: summary.created_at_ms,
                    exclude_patterns: copy_strings(&summary.exclude_patterns),
                    auto_backup_enabled: summary.auto_backup_enabled,
                };
                proof {
                    let b_index = first_id(binding_ids(self.bindings()), entry_id@);
                    assert(b_index == Some(b as int));
                    assert(sources_view(bound@) == self.bindings()[b as int].1);
                    assert(entry@.sources =~= Seq::new(
                        summary@.sources.len(),
                        |j: int| bound_source(summary@.sources[j], self.bindings()[b as int].1),
                    ));
                }
                Ok(entry)
            },
            None => {
                let entry = Entry {
                    id: summary.id.clone(),
                    name: summary.name.clone(),
                    sources,
                    category_id: copy_opt_string(&summary.category_id),
                    tags: copy_strings(&summary.tags),
                    storage_policy: summary.storage_policy,
                    sync_mode: summary.sync_mode,
                    created_at_ms: summary.created_at_ms,
                    exclude_patterns: copy_strings(&summary.exclude_patterns),
                    auto_backup_enabled: summary.auto_backup_enabled,
                };
                proof {
                    lemma_first_id_bounds(entry_ids(self.entries()), entry_id@);
                    assert(self.entries()[i as int].id == entry_id@);
                }
                Ok(entry)
            },
        }
    }

    /// Replaces the catalog entry at `i`.
    fn put_entry(&mut self, i: usize, entry: CatalogEntry)
        requires
            i < old(self).entries().len(),
        ensures
            final(self).entries() == old(self).entries().update(i as int, entry@),
            same_but_entries(*final(self), *old(self)),
    {
        let ghost prev = self.catalog.entries@;
        self.catalog.entries.remove(i);
        self.catalog.entries.insert(i, entry);
        proof {
            assert(self.catalog.entries@ =~= prev.update(i as int, entry));
            assert(entries_view(self.catalog.entries@) =~= entries_view(prev).update(i as int, entry@));
        }
    }

    /// Changes only an entry's synchronization policy without touching its sources or snapshots.
    pub fn set_entry_sync_mode(&mut self, entry_id: &str, sync_mode: SyncMode) -> (r: Result<Entry, StorageError>)
        ensures
            same_but_entries(*final(self), *old(self)),
            match first_id(entry_ids(old(self).entries()), entry_id@) {
                Some(i) => {
                    &&& final(self).entries() == old(self).entries().update(
                        i,
                        CatalogEntryView { sync_mode, ..old(self).entries()[i] },
                    )
                    &&& r matches Ok(e) && e@ == entry_of(final(self).entries()[i], final(self).bindings())
                },
                None => r matches Err(StorageError::EntryNotFound(id)) && id@ == entry_id@
                    && final(self).entries() == old(self).entries(),
            },
    {
        let i = match self.entry_position(entry_id) {
            Some(i) => i,
            None => return Err(StorageError::EntryNotFound(entry_id.to_owned())),
        };
        proof {
            lemma_first_id_bounds(entry_ids(self.entries()), entry_id@);
        }
        let mut summary = self.catalog.entries[i].duplicate();
        summary.sync_mode = sync_mode;
        self.put_entry(i, summary);
        proof {
            assert(entry_ids(self.entries())[i as int] == entry_id@);
            assert(entry_ids(self.entries()) =~= entry_ids(old(self).entries()));
        }
        self.get_entry(entry_id)
    }

    fn category_position(&self, category_id: &str) -> (r: Option<usize>)
        ensures
            match r {
                Some(i) => first_id(category_ids(self.categories()), category_id@) == Some(i as int),
                None => first_id(category_ids(self.categories()), category_id@) is None,
            },
    {
        let ids = category_id_list(&self.catalog.categories);
        find_id(&ids, category_id)
    }

    /// Moves an entry into a local category, or out of every category.
    pub fn set_entry_category(&mut self, entry_id: &str, category_id: Option<String>) -> (r: Result<(), StorageError>)
        ensures
            same_but_entries(*final(self), *old(self)),
            if missing_category(old(self).categories(), opt_view(category_id)) {
                r matches Err(StorageError::ParentCategoryNotFound(id)) && Some(id@) == opt_view(category_id)
                    && final(self).entries() == old(self).entries()
            } else {
                match first_id(entry_ids(old(self).entries()), entry_id@) {
                    Some(i) => r is Ok && final(self).entries() == old(self).entries().update(
                        i,
                        CatalogEntryView { category_id: opt_view(category_id), ..old(self).entries()[i] },
                    ),
                    None => r matches Err(StorageError::EntryNotFound(id)) && id@ == entry_id@
                        && final(self).entries() == old(self).entries(),
                }
            },
    {
        if let Some(category) = &category_id {
            if self.category_position(category.as_str()).is_none() {
                return Err(StorageError::ParentCategoryNotFound(category.clone()));
            }
        }
        let i = match self.entry_position(entry_id) {
            Some(i) => i,
            None => return Err(StorageError::EntryNotFound(entry_id.to_owned())),
        };
        proof {
            lemma_first_id_bounds(entry_ids(self.entries()), entry_id@);
        }
        let mut summary = self.catalog.entries[i].duplicate();
        summary.category_id = category_id;
        self.put_entry(i, summary);
        Ok(())
    }

    /// Replaces the searchable tags attached to an entry; empty and duplicate values are
    /// removed first (see `normalized_tags`).
    pub fn set_entry_tags(&mut self, entry_id: &str, tags: Vec<String>) -> (r: Result<(), StorageError>)
        ensures
            same_but_entries(*final(self), *old(self)),
            match first_id(entry_ids(old(self).entries()), entry_id@) {
                Some(i) => r is Ok && final(self).entries() == old(self).entries().update(
                    i,
                    CatalogEntryView { tags: normalized_tags(strings_view(tags@)), ..old(self).entries()[i] },
                ),
                None => r matches Err(StorageError::EntryNotFound(id)) && id@ == entry_id@
                    && final(self).entries() == old(self).entries(),
            },
    {
        let normalized = normalize_tags(&tags);
        let i = match self.entry_position(entry_id) {
            Some(i) => i,
            None => return Err(StorageError::EntryNotFound(entry_id.to_owned())),
        };
        proof {
            lemma_first_id_bounds(entry_ids(self.entries()), entry_id@);
        }
        let mut summary = self.catalog.entries[i].duplicate();
        summary.tags = normalized;
        self.put_entry(i, summary);
        Ok(())
    }

    /// Whether a category other than `except` sits under `parent` with this name, ignoring
    /// ASCII case.
    fn has_sibling_named(&self, parent: &Option<String>, name: &[char], except: Option<&str>) -> (r: bool)
        ensures
            r == sibling_named(
                self.categories(),
                opt_view(*parent),
                name@,
                match except {
                    Some(e) => Some(e@),
                    None => None,
                },
            ),
    {
        let cats = &self.catalog.categories;
        let ghost ex = match except {
            Some(e) => Some(e@),
            None => None::<Seq<char>>,
        };
        let mut k: usize = 0;
        while k < cats.len()
            invariant
                k <= cats@.len(),
                categories_view(cats@) == self.categories(),
                ex == match except {
                    Some(e) => Some(e@),
                    None => None::<Seq<char>>,
                },
                forall|j: int|
                    0 <= j < k ==> !(Some(#[trigger] self.categories()[j].id) != ex
                        && self.categories()[j].parent_id == opt_view(*parent)
                        && eq_ignore_ascii_case_spec(self.categories()[j].name, name@)),
            decreases cats@.len() - k,
        {
            let c = &cats[k];
            proof {
                assert(self.categories()[k as int] == c@);
            }
            let other = match except {
                Some(e) => str_is(c.id.as_str(), e),
                None => false,
            };
            let same_parent = match (&c.parent_id, parent) {
                (Some(a), Some(b)) => str_is(a.as_str(), b.as_str()),
                (None, None) => true,
                _ => false,
            };
            if !other && same_parent {
                let cname = chars_of(c.name.as_str());
                if eq_ignore_ascii_case(cname.as_slice(), name) {
                    proof {
                        assert(c@.parent_id == opt_view(*parent));
                        assert(Some(self.categories()[k as int].id) != ex);
                        assert(eq_ignore_ascii_case_spec(self.categories()[k as int].name, name@));
                    }
                    return true;
                }
            }
            k = k + 1;
        }
        false
    }

    /// Creates a category with identifier `id`: a root category, or a child of an existing
    /// category.
    pub fn create_category_with_id(&mut self, name: &str, parent_id: Option<String>, id: String) -> (r: Result<Category, StorageError>)
        ensures
            same_but_categories(*final(self), *old(self)),
            trim(name@).len() == 0 ==> r matches Err(StorageError::EmptyCategoryName),
            trim(name@).len() > 0 && missing_category(old(self).categories(), opt_view(parent_id))
                ==> (r matches Err(StorageError::ParentCategoryNotFound(p)) && Some(p@) == opt_view(parent_id)),
            trim(name@).len() > 0 && !missing_category(old(self).categories(), opt_view(parent_id))
                && sibling_named(old(self).categories(), opt_view(parent_id), trim(name@), None)
                ==> r matches Err(StorageError::DuplicateCategory),
            trim(name@).len() > 0 && !missing_category(old(self).categories(), opt_view(parent_id))
                && !sibling_named(old(self).categories(), opt_view(parent_id), trim(name@), None)
                ==> (r matches Ok(c) && c@ == (CategoryView { id: id@, name: trim(name@), parent_id: opt_view(parent_id) })
                    && final(self).categories() == old(self).categories().push(c@)),
            r is Err ==> final(self).categories() == old(self).categories(),
    {
        let name = trimmed(name);
        let chars = chars_of(name.as_str());
        if chars.len() == 0 {
            return Err(StorageError::EmptyCategoryName);
        }
        if let Some(parent) = &parent_id {
            if self.category_position(parent.as_str()).is_none() {
                return Err(StorageError::ParentCategoryNotFound(parent.clone()));
            }
        }
        if self.has_sibling_named(&parent_id, chars.as_slice(), None) {
            return Err(StorageError::DuplicateCategory);
        }
        let category = Category { id, name, parent_id };
        let kept = category.duplicate();
        let ghost prev = self.catalog.categories@;
        self.catalog.categories.push(kept);
        proof {
            assert(categories_view(self.catalog.categories@) =~= categories_view(prev).push(category@));
        }
        Ok(category)
    }

    /// Creates a root category or a child of an existing category, under a fresh identifier.
    pub fn create_category(&mut self, name: &str, parent_id: Option<String>) -> (r: Result<Category, StorageError>)
        ensures
            same_but_categories(*final(self), *old(self)),
            trim(name@).len() == 0 ==> r matches Err(StorageError::EmptyCategoryName),
            trim(name@).len() > 0 && missing_category(old(self).categories(), opt_view(parent_id))
                ==> (r matches Err(StorageError::ParentCategoryNotFound(p)) && Some(p@) == opt_view(parent_id)),
            trim(name@).len() > 0 && !missing_category(old(self).categories(), opt_view(parent_id))
                && sibling_named(old(self).categories(), opt_view(parent_id), trim(name@), None)
                ==> r matches Err(StorageError::DuplicateCategory),
            trim(name@).len() > 0 && !missing_category(old(self).categories(), opt_view(parent_id))
                && !sibling_named(old(self).categories(), opt_view(parent_id), trim(name@), None)
                ==> (r matches Ok(c) && c@.name == trim(name@) && c@.parent_id == opt_view(parent_id)
                    && final(self).categories() == old(self).categories().push(c@)),
            r is Err ==> final(self).categories() == old(self).categories(),
    {
        let id = new_id();
        self.create_category_with_id(name, parent_id, id)
    }

    /// Replaces the category at `k`.
    fn put_category(&mut self, k: usize, category: Category)
        requires
            k < old(self).categories().len(),
        ensures
            final(self).categories() == old(self).categories().update(k as int, category@),
            same_but_categories(*final(self), *old(self)),
    {
        let ghost prev = self.catalog.categories@;
        self.catalog.categories.remove(k);
        self.catalog.categories.insert(k, category);
        proof {
            assert(self.catalog.categories@ =~= prev.update(k as int, category));
            assert(categories_view(self.catalog.categories@) =~= categories_view(prev).update(
                k as int,
                category@,
            ));
        }
    }

    /// Moves a category below another category, or back to the root when `parent_id` is
    /// `None`.
    ///
    /// The walk up from the new parent must end, at the root or at the moved category: the
    /// parent links that lead there hold no cycle.
    pub fn move_category(&mut self, category_id: &str, parent_id: Option<&str>) -> (r: Result<(), StorageError>)
        requires
            has_category(old(self).categories(), category_id@) && !missing_category(
                old(self).categories(),
                opt_str_view(parent_id),
            ) ==> walk_ends(
                old(self).categories(),
                opt_str_view(parent_id),
                category_id@,
                (old(self).categories().len() + 1) as nat,
            ),
        ensures
            same_but_categories(*final(self), *old(self)),
            r is Err ==> final(self).categories() == old(self).categories(),
            opt_str_view(parent_id) == Some(category_id@) ==> (r matches Err(StorageError::InvalidCategoryMove)),
            opt_str_view(parent_id) != Some(category_id@) && !has_category(old(self).categories(), category_id@)
                ==> (r matches Err(StorageError::ParentCategoryNotFound(id)) && id@ == category_id@),
            opt_str_view(parent_id) != Some(category_id@) && has_category(old(self).categories(), category_id@)
                && missing_category(old(self).categories(), opt_str_view(parent_id))
                ==> (r matches Err(StorageError::ParentCategoryNotFound(id)) && Some(id@) == opt_str_view(parent_id)),
            move_allowed(old(self).categories(), category_id@, opt_str_view(parent_id))
                && meets_ancestor(old(self).categories(), opt_str_view(parent_id), category_id@,
                    (old(self).categories().len() + 1) as nat)
                ==> (r matches Err(StorageError::InvalidCategoryMove)),
            move_allowed(old(self).categories(), category_id@, opt_str_view(parent_id))
                && !meets_ancestor(old(self).categories(), opt_str_view(parent_id), category_id@,
                    (old(self).categories().len() + 1) as nat)
                && moved_name_taken(old(self).categories(), category_id@, opt_str_view(parent_id))
                ==> (r matches Err(StorageError::DuplicateCategory)),
            move_allowed(old(self).categories(), category_id@, opt_str_view(parent_id))
                && !meets_ancestor(old(self).categories(), opt_str_view(parent_id), category_id@,
                    (old(self).categories().len() + 1) as nat)
                && !moved_name_taken(old(self).categories(), category_id@, opt_str_view(parent_id))
                ==> r is Ok && final(self).categories() == moved(old(self).categories(), category_id@, opt_str_view(parent_id)),
    {
        let parent_owned: Option<String> = match parent_id {
            Some(p) => Some(p.to_owned()),
            None => None,
        };
        if let Some(p) = parent_id {
            if str_is(p, category_id) {
                return Err(StorageError::InvalidCategoryMove);
            }
        }
        let k = match self.category_position(category_id) {
            Some(k) => k,
            None => return Err(StorageError::ParentCategoryNotFound(category_id.to_owned())),
        };
        proof {
            lemma_first_id_bounds(category_ids(self.categories()), category_id@);
        }
        if let Some(p) = parent_id {
            if self.category_position(p).is_none() {
                return Err(StorageError::ParentCategoryNotFound(p.to_owned()));
            }
        }
        let ghost steps = (self.categories().len() + 1) as nat;
        let mut ancestor: Option<String> = copy_opt_string(&parent_owned);
        let ghost mut fuel: nat = steps;
        while ancestor.is_some()
            invariant
                move_allowed(self.categories(), category_id@, opt_str_view(parent_id)),
                steps == self.categories().len() + 1,
                walk_ends(self.categories(), opt_view(ancestor), category_id@, fuel),
                meets_ancestor(self.categories(), opt_str_view(parent_id), category_id@, steps)
                    == meets_ancestor(self.categories(), opt_view(ancestor), category_id@, fuel),
            decreases fuel,
        {
            let current = match &ancestor {
                Some(c) => c.clone(),
                None => String::new(),
            };
            if str_is(current.as_str(), category_id) {
                return Err(StorageError::InvalidCategoryMove);
            }
            let next = match self.category_position(current.as_str()) {
                Some(j) => {
                    proof {
                        lemma_first_id_bounds(category_ids(self.categories()), current@);
                        assert(self.categories()[j as int] == self.catalog.categories@[j as int]@);
                    }
                    copy_opt_string(&self.catalog.categories[j].parent_id)
                },
                None => None,
            };
            proof {
                assert(opt_view(next) == parent_of(self.categories(), current@));
                fuel = (fuel - 1) as nat;
            }
            ancestor = next;
        }
        let name = chars_of(self.catalog.categories[k].name.as_str());
        if self.has_sibling_named(&parent_owned, name.as_slice(), Some(category_id)) {
            return Err(StorageError::DuplicateCategory);
        }
        let mut target = self.catalog.categories[k].duplicate();
        target.parent_id = parent_owned;
        self.put_category(k, target);
        Ok(())
    }

    /// Lists all registered entries, sorted by name (entries with equal names keep their
    /// catalog order).
    pub fn list_entries(&self) -> (r: Vec<Entry>)
        ensures
            entry_views(r@) == stable_sort(listed_entries(self.entries(), self.bindings()), name_before()),
    {
        let mut listed: Vec<Entry> = Vec::new();
        let mut i: usize = 0;
        while i < self.catalog.entries.len()
            invariant
                i <= self.entries().len(),
                entry_views(listed@) == listed_entries(self.entries(), self.bindings()).take(i as int),
            decreases self.entries().len() - i,
        {
            let id = self.catalog.entries[i].id.clone();
            proof {
                assert(entry_ids(self.entries())[i as int] == id@);
                lemma_first_id_bounds(entry_ids(self.entries()), id@);
            }
            match self.get_entry(id.as_str()) {
                Ok(e) => {
                    let ghost prev = listed@;
                    listed.push(e);
                    proof {
                        assert(entry_views(listed@) =~= entry_views(prev).push(e@));
                        assert(listed_entries(self.entries(), self.bindings()).take(i + 1) =~= listed_entries(
                            self.entries(),
                            self.bindings(),
                        ).take(i as int).push(e@));
                    }
                },
                Err(_) => {},
            }
            i = i + 1;
        }
        proof {
            assert(listed_entries(self.entries(), self.bindings()).take(self.entries().len() as int)
                =~= listed_entries(self.entries(), self.bindings()));
        }
        sort_entries_by_name(&listed)
    }

    /// Lists an entry's snapshots from newest to oldest (snapshots created at the same time
    /// keep their stored order).
    pub fn list_snapshots(&self, entry_id: &str) -> (r: Result<Vec<Snapshot>, StorageError>)
        ensures
            match first_id(entry_ids(self.entries()), entry_id@) {
                Some(i) => r matches Ok(v) && snapshots_view(v@) == stable_sort(
                    self.entries()[i].snapshots,
                    newer_first(),
                ),
                None => r matches Err(StorageError::EntryNotFound(id)) && id@ == entry_id@,
            },
    {
        let i = match self.entry_position(entry_id) {
            Some(i) => i,
            None => return Err(StorageError::EntryNotFound(entry_id.to_owned())),
        };
        proof {
            lemma_first_id_bounds(entry_ids(self.entries()), entry_id@);
        }
        Ok(sort_snapshots(&self.catalog.entries[i].snapshots, true))
    }

    /// Loads one snapshot: the first with this id, searching the entries in catalog order.
    pub fn get_snapshot(&self, snapshot_id: &str) -> (r: Result<Snapshot, StorageError>)
        ensures
            match find_snapshot(self.entries(), snapshot_id@) {
                Some(s) => r matches Ok(v) && v@ == s,
                None => r matches Err(StorageError::SnapshotNotFound(id)) && id@ == snapshot_id@,
            },
    {
        let entries = &self.catalog.entries;
        let mut i: usize = 0;
        proof {
            assert(self.entries().skip(0) =~= self.entries());
        }
        while i < entries.len()
            invariant
                i <= entries@.len(),
                entries_view(entries@) == self.entries(),
                find_snapshot(self.entries(), snapshot_id@) == find_snapshot(
                    self.entries().skip(i as int),
                    snapshot_id@,
                ),
            decreases entries@.len() - i,
        {
            let snapshots = &entries[i].snapshots;
            let ids = snapshot_id_list(snapshots);
            proof {
                let rest = self.entries().skip(i as int);
                assert(rest[0] == entries@[i as int]@);
                assert(rest.drop_first() =~= self.entries().skip(i + 1));
                lemma_first_id_bounds(snapshot_ids(snapshots_view(snapshots@)), snapshot_id@);
            }
            match find_id(&ids, snapshot_id) {
                Some(k) => {
                    proof {
                        lemma_first_id_bounds(snapshot_ids(snapshots_view(snapshots@)), snapshot_id@);
                    }
                    return Ok(snapshots[k].duplicate());
                },
                None => {},
            }
            i = i + 1;
        }
        Err(StorageError::SnapshotNotFound(snapshot_id.to_owned()))
    }

    /// Replaces an entry's timeline and the figures derived from it.
    ///
    /// The stored sizes must add up to a `u64`.
    pub fn refresh_catalog_entry(&mut self, entry_id: &str, timeline: &Vec<Snapshot>) -> (r: Result<(), StorageError>)
        requires
            total_size(snapshots_view(timeline@)) <= u64::MAX,
        ensures
            same_but_entries(*final(self), *old(self)),
            match first_id(entry_ids(old(self).entries()), entry_id@) {
                Some(i) => r is Ok && final(self).entries() == old(self).entries().update(
                    i,
                    refreshed(old(self).entries()[i], snapshots_view(timeline@)),
                ),
                None => r matches Err(StorageError::EntryNotFound(id)) && id@ == entry_id@
                    && final(self).entries() == old(self).entries(),
            },
    {
        let i = match self.entry_position(entry_id) {
            Some(i) => i,
            None => return Err(StorageError::EntryNotFound(entry_id.to_owned())),
        };
        proof {
            lemma_first_id_bounds(entry_ids(self.entries()), entry_id@);
        }
        let mut total: u64 = 0;
        let mut k: usize = 0;
        while k < timeline.len()
            invariant
                k <= timeline@.len(),
                total_size(snapshots_view(timeline@)) <= u64::MAX,
                total == total_size(snapshots_view(timeline@).take(k as int)),
            decreases timeline@.len() - k,
        {
            proof {
                lemma_total_size_prefix(snapshots_view(timeline@), (k + 1) as int);
                let t = snapshots_view(timeline@).take(k + 1);
                assert(t.drop_last() =~= snapshots_view(timeline@).take(k as int));
            }
            total = total + timeline[k].size_bytes;
            k = k + 1;
        }
        proof {
            assert(snapshots_view(timeline@).take(timeline@.len() as int) =~= snapshots_view(timeline@));
        }
        let mut summary = self.catalog.entries[i].duplicate();
        summary.snapshot_count = timeline.len();
        summary.stored_bytes = total;
        summary.last_snapshot_at_ms = if timeline.len() > 0 {
            Some(timeline[timeline.len() - 1].created_at_ms)
        } else {
            None
        };
        summary.snapshots = copy_snapshots(timeline);
        self.put_entry(i, summary);
        Ok(())
    }

    /// The directory that holds an entry's snapshot archives.
    pub fn entry_storage_path(&self, entry_id: &str) -> (r: Result<String, StorageError>)
        ensures
            match first_id(entry_ids(self.entries()), entry_id@) {
                Some(i) => r matches Ok(p) && p@ == joined_path(
                    joined_path(self.root_path(), archives_dir()),
                    self.entries()[i].folder,
                ),
                None => r matches Err(StorageError::EntryNotFound(id)) && id@ == entry_id@,
            },
    {
        let i = match self.entry_position(entry_id) {
            Some(i) => i,
            None => return Err(StorageError::EntryNotFound(entry_id.to_owned())),
        };
        proof {
            lemma_first_id_bounds(entry_ids(self.entries()), entry_id@);
        }
        let dir = "archives";
        proof {
            reveal_strlit("archives");
            assert(dir@ =~= archives_dir());
            assert(self.entries()[i as int].folder == self.catalog.entries@[i as int].folder@);
        }
        let archives = join_path(self.root.as_str(), dir);
        Ok(join_path(archives.as_str(), self.catalog.entries[i].folder.as_str()))
    }

    /// Replaces the note of one snapshot with the trimmed text; nothing else changes: the
    /// timeline keeps its order, size and last-snapshot time. The snapshot is the first with
    /// that id in the stored timeline.
    pub fn update_snapshot_note(&mut self, entry_id: &str, snapshot_id: &str, note: &str) -> (r: Result<Snapshot, StorageError>)
        ensures
            same_but_entries(*final(self), *old(self)),
            r is Err ==> final(self).entries() == old(self).entries(),
            match first_id(entry_ids(old(self).entries()), entry_id@) {
                None => r matches Err(StorageError::EntryNotFound(id)) && id@ == entry_id@,
                Some(i) => {
                    let snaps = old(self).entries()[i].snapshots;
                    match first_id(snapshot_ids(snaps), snapshot_id@) {
                        None => r matches Err(StorageError::SnapshotNotFound(id)) && id@ == snapshot_id@,
                        Some(k) => {
                            let noted = SnapshotView { note: trim(note@), ..snaps[k] };
                            &&& r matches Ok(v) && v@ == noted
                            &&& final(self).entries() == old(self).entries().update(
                                i,
                                CatalogEntryView { snapshots: snaps.update(k, noted), ..old(self).entries()[i] },
                            )
                        },
                    }
                },
            },
    {
        let i = match self.entry_position(entry_id) {
            Some(i) => i,
            None => return Err(StorageError::EntryNotFound(entry_id.to_owned())),
        };
        proof {
            lemma_first_id_bounds(entry_ids(self.entries()), entry_id@);
        }
        let mut entry = self.catalog.entries[i].duplicate();
        let ids = snapshot_id_list(&entry.snapshots);
        let k = match find_id(&ids, snapshot_id) {
            Some(k) => k,
            None => return Err(StorageError::SnapshotNotFound(snapshot_id.to_owned())),
        };
        proof {
            lemma_first_id_bounds(snapshot_ids(snapshots_view(entry.snapshots@)), snapshot_id@);
        }
        let mut snapshot = entry.snapshots[k].duplicate();
        snapshot.note = trimmed(note);
        let updated = snapshot.duplicate();
        let ghost prev = entry.snapshots@;
        entry.snapshots.set(k, snapshot);
        proof {
            assert(snapshots_view(entry.snapshots@) =~= snapshots_view(prev).update(k as int, updated@));
        }
        let ghost before = self.catalog.entries@;
        let ghost ev = entry@;
        self.catalog.entries.set(i, entry);
        proof {
            assert(entries_view(self.catalog.entries@) =~= entries_view(before).update(i as int, ev));
        }
        Ok(updated)
    }

    /// Removes one snapshot from an entry's timeline (every snapshot with that id), storing
    /// the rest oldest first, so that the last-snapshot time is that of the newest snapshot
    /// that remains, and returns the path of the archive to delete. A locked snapshot is
    /// refused: it must be unlocked first.
    pub fn delete_snapshot(&mut self, entry_id: &str, snapshot_id: &str) -> (r: Result<String, StorageError>)
        requires
            timeline_fits(old(self).entries(), entry_id@),
        ensures
            same_but_entries(*final(self), *old(self)),
            r is Err ==> final(self).entries() == old(self).entries(),
            match first_id(entry_ids(old(self).entries()), entry_id@) {
                None => r matches Err(StorageError::EntryNotFound(id)) && id@ == entry_id@,
                Some(i) => {
                    let sorted = stable_sort(old(self).entries()[i].snapshots, older_first());
                    match first_id(snapshot_ids(sorted), snapshot_id@) {
                        None => r matches Err(StorageError::SnapshotNotFound(id)) && id@ == snapshot_id@,
                        Some(k) => if sorted[k].locked {
                            r matches Err(StorageError::SnapshotLocked(id)) && id@ == snapshot_id@
                        } else {
                            &&& r matches Ok(p) && p@ == joined_path(
                                joined_path(joined_path(old(self).root_path(), archives_dir()), old(self).entries()[i].folder),
                                sorted[k].archive_name,
                            )
                            &&& final(self).entries() == old(self).entries().update(
                                i,
                                refreshed(old(self).entries()[i], without_snapshot(sorted, snapshot_id@)),
                            )
                        },
                    }
                },
            },
    {
        let i = match self.entry_position(entry_id) {
            Some(i) => i,
            None => return Err(StorageError::EntryNotFound(entry_id.to_owned())),
        };
        proof {
            lemma_first_id_bounds(entry_ids(self.entries()), entry_id@);
        }
        let timeline = sort_snapshots(&self.catalog.entries[i].snapshots, false);
        let ids = snapshot_id_list(&timeline);
        let k = match find_id(&ids, snapshot_id) {
            Some(k) => k,
            None => return Err(StorageError::SnapshotNotFound(snapshot_id.to_owned())),
        };
        proof {
            lemma_first_id_bounds(snapshot_ids(snapshots_view(timeline@)), snapshot_id@);
            assert(snapshots_view(timeline@)[k as int] == timeline@[k as int]@);
        }
        if timeline[k].locked {
            return Err(StorageError::SnapshotLocked(snapshot_id.to_owned()));
        }
        let dir = match self.entry_storage_path(entry_id) {
            Ok(d) => d,
            Err(e) => return Err(e),
        };
        let archive = join_path(dir.as_str(), timeline[k].archive_name.as_str());
        let mut remaining: Vec<Snapshot> = Vec::new();
        let mut j: usize = 0;
        while j < timeline.len()
            invariant
                j <= timeline@.len(),
                snapshots_view(remaining@) == without_snapshot(snapshots_view(timeline@).take(j as int), snapshot_id@),
            decreases timeline@.len() - j,
        {
            proof {
                let t = snapshots_view(timeline@).take(j + 1);
                assert(t.drop_last() =~= snapshots_view(timeline@).take(j as int));
                assert(t.last() == timeline@[j as int]@);
            }
            if !str_is(timeline[j].id.as_str(), snapshot_id) {
                let ghost prev = remaining@;
                remaining.push(timeline[j].duplicate());
                proof {
                    assert(snapshots_view(remaining@) =~= snapshots_view(prev).push(timeline@[j as int]@));
                }
            }
            j = j + 1;
        }
        proof {
            assert(snapshots_view(timeline@).take(timeline@.len() as int) =~= snapshots_view(timeline@));
            lemma_total_size_sorted(self.entries()[i as int].snapshots, older_first());
            lemma_without_snapshot_size(snapshots_view(timeline@), snapshot_id@);
        }
        match self.refresh_catalog_entry(entry_id, &remaining) {
            Ok(()) => Ok(archive),
            Err(e) => Err(e),
        }
    }

    /// The path of a snapshot's archive: the first snapshot with this id, in the folder of
    /// the entry it names.
    pub fn snapshot_archive_path(&self, snapshot_id: &str) -> (r: Result<String, StorageError>)
        ensures
            match find_snapshot(self.entries(), snapshot_id@) {
                None => r matches Err(StorageError::SnapshotNotFound(id)) && id@ == snapshot_id@,
                Some(s) => match first_id(entry_ids(self.entries()), s.entry_id) {
                    None => r matches Err(StorageError::EntryNotFound(id)) && id@ == s.entry_id,
                    Some(i) => r matches Ok(p) && p@ == joined_path(
                        joined_path(joined_path(self.root_path(), archives_dir()), self.entries()[i].folder),
                        s.archive_name,
                    ),
                },
            },
    {
        let snapshot = match self.get_snapshot(snapshot_id) {
            Ok(s) => s,
            Err(e) => return Err(e),
        };
        let dir = match self.entry_storage_path(snapshot.entry_id.as_str()) {
            Ok(d) => d,
            Err(e) => return Err(e),
        };
        Ok(join_path(dir.as_str(), snapshot.archive_name.as_str()))
    }

    /// Whether a snapshot's archive, as read from `snapshot_archive_path` (`None` where no
    /// file is there), matches the SHA-256 digest recorded for it.
    pub fn verify_snapshot(&self, snapshot_id: &str, archive: Option<&[u8]>) -> (r: Result<bool, StorageError>)
        ensures
            match find_snapshot(self.entries(), snapshot_id@) {
                None => r matches Err(StorageError::SnapshotNotFound(id)) && id@ == snapshot_id@,
                Some(s) => match first_id(entry_ids(self.entries()), s.entry_id) {
                    None => r matches Err(StorageError::EntryNotFound(id)) && id@ == s.entry_id,
                    Some(i) => r == Ok::<bool, StorageError>(
                        match archive {
                            Some(bytes) => hex_lower(sha256(bytes@)) == s.object_hash,
                            None => false,
                        },
                    ),
                },
            },
    {
        let snapshot = match self.get_snapshot(snapshot_id) {
            Ok(s) => s,
            Err(e) => return Err(e),
        };
        match self.entry_position(snapshot.entry_id.as_str()) {
            Some(_) => {},
            None => return Err(StorageError::EntryNotFound(snapshot.entry_id.clone())),
        }
        match archive {
            Some(bytes) => {
                let digest = sha256_hex(bytes);
                Ok(str_is(digest.as_str(), snapshot.object_hash.as_str()))
            },
            None => Ok(false),
        }
    }

    /// Saves this device's paths for the sources of an entry, merging them into its binding.
    fn save_bindings_for_entry(&mut self, entry_id: &str, sources: &Vec<EntrySource>)
        ensures
            same_frame(*final(self), *old(self)),
            final(self).entries() == old(self).entries(),
            final(self).bindings() == bindings_saved(old(self).bindings(), entry_id@, sources_view(sources@)),
    {
        let keys = binding_id_list(&self.bindings.entries);
        let ghost prev = self.bindings.entries@;
        match find_id(&keys, entry_id) {
            Some(b) => {
                proof {
                    lemma_first_id_bounds(binding_ids(self.bindings()), entry_id@);
                    assert(self.bindings()[b as int].0 == entry_id@);
                }
                let (key, mut saved) = self.bindings.entries.remove(b);
                merge_into(&mut saved, sources);
                let ghost item = (key, saved);
                proof {
                    assert(key@ == entry_id@);
                }
                self.bindings.entries.insert(b, (key, saved));
                proof {
                    assert(self.bindings.entries@ =~= prev.update(b as int, item));
                    assert(bindings_view(self.bindings.entries@) =~= bindings_view(prev).update(
                        b as int,
                        (entry_id@, merge_sources(bindings_view(prev)[b as int].1, sources_view(sources@))),
                    ));
                }
            },
            None => {
                let mut saved: Vec<EntrySource> = Vec::new();
                proof {
                    assert(sources_view(saved@) =~= Seq::<SourceView>::empty());
                }
                merge_into(&mut saved, sources);
                let key = entry_id.to_owned();
                let ghost item = (key, saved);
                self.bindings.entries.push((key, saved));
                proof {
                    assert(bindings_view(self.bindings.entries@) =~= bindings_view(prev).push(
                        (entry_id@, merge_sources(Seq::empty(), sources_view(sources@))),
                    ));
                }
            },
        }
    }

    /// Registers an entry under the id `entry_id`, its sources taking the ids in `fresh` by
    /// position.
    pub fn add_entry_with_ids(
        &mut self,
        name: &str,
        sources: &Vec<ResolvedSource>,
        category_id: Option<String>,
        storage_policy: StoragePolicy,
        sync_mode: SyncMode,
        now_ms: u64,
        entry_id: String,
        fresh: &Vec<String>,
    ) -> (r: Result<Entry, StorageError>)
        requires
            fresh@.len() == sources@.len(),
        ensures
            same_frame(*final(self), *old(self)),
            trim(name@).len() == 0 ==> (r matches Err(StorageError::EmptyName)),
            trim(name@).len() > 0 && sources@.len() == 0 ==> (r matches Err(StorageError::EmptySources)),
            r is Err ==> final(self).entries() == old(self).entries() && final(self).bindings() == old(self).bindings(),
            trim(name@).len() > 0 && sources@.len() > 0 ==> (r matches Ok(e) && {
                &&& new_entry_fields(e@, name@, opt_view(category_id), storage_policy, sync_mode, now_ms)
                &&& e@.id == entry_id@
                &&& e@.sources == crate::sources::resolved_sources(
                    resolved_view(sources@),
                    Seq::empty(),
                    strings_view(fresh@),
                )
                &&& final(self).entries() == old(self).entries().push(new_summary(e@))
                &&& final(self).bindings() == bindings_saved(old(self).bindings(), e@.id, e@.sources)
            }),
    {
        let trimmed_name = trimmed(name);
        let name_chars = chars_of(trimmed_name.as_str());
        if name_chars.len() == 0 {
            return Err(StorageError::EmptyName);
        }
        if sources.len() == 0 {
            return Err(StorageError::EmptySources);
        }
        let none: Vec<EntrySource> = Vec::new();
        proof {
            assert(sources_view(none@) =~= Seq::<SourceView>::empty());
        }
        let resolved = resolve_with_ids(sources, &none, fresh);
        let safe = safe_folder_name(trimmed_name.as_str());
        let safe_chars = chars_of(safe.as_str());
        let id_chars = chars_of(entry_id.as_str());
        let sep: Vec<char> = vec!['_', '_'];
        let head = crate::text::concat_chars(safe_chars.as_slice(), sep.as_slice());
        let folder_chars = crate::text::concat_chars(head.as_slice(), id_chars.as_slice());
        let folder = string_of(folder_chars.as_slice());
        proof {
            assert(sep@ =~= seq!['_', '_']);
        }
        let entry = Entry {
            id: entry_id,
            name: trimmed_name,
            sources: resolved,
            category_id,
            tags: Vec::new(),
            storage_policy,
            sync_mode,
            created_at_ms: now_ms,
            exclude_patterns: Vec::new(),
            auto_backup_enabled: false,
        };
        proof {
            assert(strings_view(entry.tags@) =~= Seq::<Seq<char>>::empty());
            assert(strings_view(entry.exclude_patterns@) =~= Seq::<Seq<char>>::empty());
        }
        self.save_bindings_for_entry(entry.id.as_str(), &entry.sources);
        let summary = CatalogEntry {
            id: entry.id.clone(),
            name: entry.name.clone(),
            folder,
            category_id: copy_opt_string(&entry.category_id),
            tags: Vec::new(),
            storage_policy,
            sync_mode,
            source_count: entry.sources.len(),
            snapshot_count: 0,
            stored_bytes: 0,
            last_snapshot_at_ms: None,
            sources: shared_copy(&entry.sources),
            created_at_ms: now_ms,
            snapshots: Vec::new(),
            exclude_patterns: Vec::new(),
            auto_backup_enabled: false,
        };
        proof {
            assert(strings_view(summary.tags@) =~= Seq::<Seq<char>>::empty());
            assert(strings_view(summary.exclude_patterns@) =~= Seq::<Seq<char>>::empty());
            assert(snapshots_view(summary.snapshots@) =~= Seq::<SnapshotView>::empty());
            assert(sources_view(entry.sources@).len() == entry.sources@.len());
            assert(summary@ == new_summary(entry@));
        }
        let ghost prev = self.catalog.entries@;
        self.catalog.entries.push(summary);
        proof {
            assert(entries_view(self.catalog.entries@) =~= entries_view(prev).push(summary@));
        }
        Ok(entry)
    }

    /// Registers files and directories that form one named archive, with its
    /// synchronization mode; the entry and its sources get fresh ids.
    pub fn add_entry_sources_with_sync(
        &mut self,
        name: &str,
        sources: &Vec<ResolvedSource>,
        category_id: Option<String>,
        storage_policy: StoragePolicy,
        sync_mode: SyncMode,
        now_ms: u64,
    ) -> (r: Result<Entry, StorageError>)
        ensures
            same_frame(*final(self), *old(self)),
            trim(name@).len() == 0 ==> (r matches Err(StorageError::EmptyName)),
            trim(name@).len() > 0 && sources@.len() == 0 ==> (r matches Err(StorageError::EmptySources)),
            r is Err ==> final(self).entries() == old(self).entries() && final(self).bindings() == old(self).bindings(),
            trim(name@).len() > 0 && sources@.len() > 0 ==> (r matches Ok(e) && {
                &&& new_entry_fields(e@, name@, opt_view(category_id), storage_policy, sync_mode, now_ms)
                &&& e@.sources.len() == sources@.len()
                &&& forall|i: int| 0 <= i < sources@.len() ==> #[trigger] e@.sources[i] == resolved_source(
                    sources@[i]@,
                    Seq::empty(),
                    e@.sources[i].id,
                )
                &&& final(self).entries() == old(self).entries().push(new_summary(e@))
                &&& final(self).bindings() == bindings_saved(old(self).bindings(), e@.id, e@.sources)
            }),
    {
        let mut fresh: Vec<String> = Vec::new();
        let mut i: usize = 0;
        while i < sources.len()
            invariant
                i <= sources@.len(),
                fresh@.len() == i,
            decreases sources@.len() - i,
        {
            fresh.push(new_id());
            i = i + 1;
        }
        let entry_id = new_id();
        self.add_entry_with_ids(name, sources, category_id, storage_policy, sync_mode, now_ms, entry_id, &fresh)
    }

    /// Registers files and directories that form one named archive, synchronized by hand.
    pub fn add_entry_sources(
        &mut self,
        name: &str,
        sources: &Vec<ResolvedSource>,
        category_id: Option<String>,
        storage_policy: StoragePolicy,
        now_ms: u64,
    ) -> (r: Result<Entry, StorageError>)
        ensures
            same_frame(*final(self), *old(self)),
            trim(name@).len() == 0 ==> (r matches Err(StorageError::EmptyName)),
            trim(name@).len() > 0 && sources@.len() == 0 ==> (r matches Err(StorageError::EmptySources)),
            r is Err ==> final(self).entries() == old(self).entries() && final(self).bindings() == old(self).bindings(),
            trim(name@).len() > 0 && sources@.len() > 0 ==> (r matches Ok(e) && {
                &&& new_entry_fields(e@, name@, opt_view(category_id), storage_policy, SyncMode::Manual, now_ms)
                &&& e@.sources.len() == sources@.len()
                &&& forall|i: int| 0 <= i < sources@.len() ==> #[trigger] e@.sources[i] == resolved_source(
                    sources@[i]@,
                    Seq::empty(),
                    e@.sources[i].id,
                )
                &&& final(self).entries() == old(self).entries().push(new_summary(e@))
                &&& final(self).bindings() == bindings_saved(old(self).bindings(), e@.id, e@.sources)
            }),
    {
        self.add_entry_sources_with_sync(name, sources, category_id, storage_policy, SyncMode::Manual, now_ms)
    }

    /// Registers a single path as a local entry, named after its file name unless `name` is
    /// given. `file_name` is the last component of the path as the caller gave it; without
    /// one, the path cannot be registered.
    pub fn add_entry(
        &mut self,
        source_path: &str,
        file_name: Option<String>,
        source: ResolvedSource,
        name: Option<&str>,
        category_id: Option<String>,
        now_ms: u64,
    ) -> (r: Result<Entry, StorageError>)
        ensures
            same_frame(*final(self), *old(self)),
            file_name is None ==> (r matches Err(StorageError::MissingName(p)) && p@ == source_path@),
            r is Err ==> final(self).entries() == old(self).entries() && final(self).bindings() == old(self).bindings(),
            file_name matches Some(f) ==> {
                let chosen = match name {
                    Some(n) => n@,
                    None => f@,
                };
                &&& trim(chosen).len() == 0 ==> (r matches Err(StorageError::EmptyName))
                &&& trim(chosen).len() > 0 ==> (r matches Ok(e) && {
                    &&& new_entry_fields(e@, chosen, opt_view(category_id), StoragePolicy::Local, SyncMode::Manual, now_ms)
                    &&& e@.sources.len() == 1
                    &&& e@.sources[0] == resolved_source(source@, Seq::empty(), e@.sources[0].id)
                    &&& final(self).entries() == old(self).entries().push(new_summary(e@))
                    &&& final(self).bindings() == bindings_saved(old(self).bindings(), e@.id, e@.sources)
                })
            },
    {
        let default_name = match file_name {
            Some(f) => f,
            None => return Err(StorageError::MissingName(source_path.to_owned())),
        };
        let chosen: String = match name {
            Some(n) => n.to_owned(),
            None => default_name,
        };
        let ghost s = source;
        let list: Vec<ResolvedSource> = vec![source];
        proof {
            assert(list@[0] == s);
        }
        self.add_entry_sources(chosen.as_str(), &list, category_id, StoragePolicy::Local, now_ms)
    }

    /// Updates an entry's display name, sources, storage policy and synchronization mode;
    /// the sources take ids by position (see `sources_by_position`), new slots the ids in
    /// `fresh`.
    pub fn update_entry_with_ids(
        &mut self,
        entry_id: &str,
        name: &str,
        sources: &Vec<ResolvedSource>,
        storage_policy: StoragePolicy,
        sync_mode: SyncMode,
        fresh: &Vec<String>,
    ) -> (r: Result<Entry, StorageError>)
        requires
            fresh@.len() == sources@.len(),
        ensures
            same_frame(*final(self), *old(self)),
            r is Err ==> final(self).entries() == old(self).entries() && final(self).bindings() == old(self).bindings(),
            trim(name@).len() == 0 ==> (r matches Err(StorageError::EmptyName)),
            trim(name@).len() > 0 && sources@.len() == 0 ==> (r matches Err(StorageError::EmptySources)),
            trim(name@).len() > 0 && sources@.len() > 0 ==> match first_id(entry_ids(old(self).entries()), entry_id@) {
                None => r matches Err(StorageError::EntryNotFound(id)) && id@ == entry_id@,
                Some(i) => {
                    let before = entry_of(old(self).entries()[i], old(self).bindings());
                    let placed = sources_by_position(resolved_view(sources@), before.sources, strings_view(fresh@));
                    &&& r matches Ok(e) && e@ == (EntryView {
                        name: trim(name@),
                        sources: placed,
                        storage_policy,
                        sync_mode,
                        ..before
                    })
                    &&& final(self).bindings() == bindings_saved(old(self).bindings(), entry_id@, placed)
                    &&& final(self).entries() == old(self).entries().update(i, CatalogEntryView {
                        name: trim(name@),
                        storage_policy,
                        sync_mode,
                        source_count: placed.len() as usize,
                        sources: shared_sources(placed),
                        ..old(self).entries()[i]
                    })
                },
            },
    {
        let trimmed_name = trimmed(name);
        let name_chars = chars_of(trimmed_name.as_str());
        if name_chars.len() == 0 {
            return Err(StorageError::EmptyName);
        }
        if sources.len() == 0 {
            return Err(StorageError::EmptySources);
        }
        let mut entry = match self.get_entry(entry_id) {
            Ok(e) => e,
            Err(e) => return Err(e),
        };
        let i = match self.entry_position(entry_id) {
            Some(i) => i,
            None => return Err(StorageError::EntryNotFound(entry_id.to_owned())),
        };
        proof {
            lemma_first_id_bounds(entry_ids(self.entries()), entry_id@);
        }
        let placed = resolve_by_position(sources, &entry.sources, fresh);
        entry.sources = placed;
        entry.name = trimmed_name;
        entry.storage_policy = storage_policy;
        entry.sync_mode = sync_mode;
        self.save_bindings_for_entry(entry_id, &entry.sources);
        let mut summary = self.catalog.entries[i].duplicate();
        summary.name = entry.name.clone();
        summary.storage_policy = storage_policy;
        summary.sync_mode = sync_mode;
        summary.source_count = entry.sources.len();
        summary.sources = shared_copy(&entry.sources);
        proof {
            assert(sources_view(entry.sources@).len() == entry.sources@.len());
        }
        self.put_entry(i, summary);
        Ok(entry)
    }

    /// Updates an entry including its synchronization mode; sources at new positions get
    /// fresh ids.
    pub fn update_entry_with_sync(
        &mut self,
        entry_id: &str,
        name: &str,
        sources: &Vec<ResolvedSource>,
        storage_policy: StoragePolicy,
        sync_mode: SyncMode,
    ) -> (r: Result<Entry, StorageError>)
        ensures
            same_frame(*final(self), *old(self)),
            r is Err ==> final(self).entries() == old(self).entries() && final(self).bindings() == old(self).bindings(),
            trim(name@).len() == 0 ==> (r matches Err(StorageError::EmptyName)),
            trim(name@).len() > 0 && sources@.len() == 0 ==> (r matches Err(StorageError::EmptySources)),
            trim(name@).len() > 0 && sources@.len() > 0 ==> match first_id(entry_ids(old(self).entries()), entry_id@) {
                None => r matches Err(StorageError::EntryNotFound(id)) && id@ == entry_id@,
                Some(i) => r matches Ok(e) && {
                    let before = entry_of(old(self).entries()[i], old(self).bindings());
                    &&& exists|fresh: Seq<Seq<char>>|
                        #![trigger sources_by_position(resolved_view(sources@), before.sources, fresh)]
                        fresh.len() == sources@.len() && (forall|k: int|
                            0 <= k < fresh.len() ==> uuid_v4_text(#[trigger] fresh[k])) && e@ == (EntryView {
                            name: trim(name@),
                            sources: sources_by_position(resolved_view(sources@), before.sources, fresh),
                            storage_policy,
                            sync_mode,
                            ..before
                        })
                    &&& forall|k: int, m: int|
                        0 <= k < sources@.len() && first_path_match(before.sources, sources@[k].path@)
                            == Some(m) ==> (#[trigger] e@.sources[k]).id == (#[trigger] before.sources[m]).id
                    &&& final(self).bindings() == bindings_saved(old(self).bindings(), entry_id@, e@.sources)
                    &&& final(self).entries() == old(self).entries().update(i, CatalogEntryView {
                        name: trim(name@),
                        storage_policy,
                        sync_mode,
                        source_count: e@.sources.len() as usize,
                        sources: shared_sources(e@.sources),
                        ..old(self).entries()[i]
                    })
                },
            },
    {
        let mut fresh: Vec<String> = Vec::new();
        let mut k: usize = 0;
        while k < sources.len()
            invariant
                k <= sources@.len(),
                fresh@.len() == k,
                forall|j: int| 0 <= j < k ==> uuid_v4_text(#[trigger] fresh@[j]@),
            decreases sources@.len() - k,
        {
            let id = new_id();
            fresh.push(id);
            k = k + 1;
        }
        let r = self.update_entry_with_ids(entry_id, name, sources, storage_policy, sync_mode, &fresh);
        proof {
            assert forall|k: int| 0 <= k < sources@.len() implies resolved_view(sources@)[k].path
                == #[trigger] sources@[k].path@ by {}
            let f = strings_view(fresh@);
            assert forall|j: int| 0 <= j < f.len() implies uuid_v4_text(#[trigger] f[j]) by {
                assert(f[j] == fresh@[j]@);
            }
            match first_id(entry_ids(old(self).entries()), entry_id@) {
                Some(i) => {
                    let before = entry_of(old(self).entries()[i], old(self).bindings());
                    let _ = sources_by_position(resolved_view(sources@), before.sources, f);
                },
                None => {},
            }
        }
        r
    }

    /// Updates an entry's display name, sources and storage policy; it becomes synchronized
    /// by hand.
    pub fn update_entry(
        &mut self,
        entry_id: &str,
        name: &str,
        sources: &Vec<ResolvedSource>,
        storage_policy: StoragePolicy,
    ) -> (r: Result<Entry, StorageError>)
        ensures
            same_frame(*final(self), *old(self)),
            r is Err ==> final(self).entries() == old(self).entries() && final(self).bindings() == old(self).bindings(),
            trim(name@).len() == 0 ==> (r matches Err(StorageError::EmptyName)),
            trim(name@).len() > 0 && sources@.len() == 0 ==> (r matches Err(StorageError::EmptySources)),
            trim(name@).len() > 0 && sources@.len() > 0 ==> match first_id(entry_ids(old(self).entries()), entry_id@) {
                None => r matches Err(StorageError::EntryNotFound(id)) && id@ == entry_id@,
                Some(i) => r matches Ok(e) && {
                    let before = entry_of(old(self).entries()[i], old(self).bindings());
                    &&& exists|fresh: Seq<Seq<char>>|
                        #![trigger sources_by_position(resolved_view(sources@), before.sources, fresh)]
                        fresh.len() == sources@.len() && (forall|k: int|
                            0 <= k < fresh.len() ==> uuid_v4_text(#[trigger] fresh[k])) && e@ == (EntryView {
                            name: trim(name@),
                            sources: sources_by_position(resolved_view(sources@), before.sources, fresh),
                            storage_policy,
                            sync_mode: SyncMode::Manual,
                            ..before
                        })
                    &&& forall|k: int, m: int|
                        0 <= k < sources@.len() && first_path_match(before.sources, sources@[k].path@)
                            == Some(m) ==> (#[trigger] e@.sources[k]).id == (#[trigger] before.sources[m]).id
                    &&& final(self).bindings() == bindings_saved(old(self).bindings(), entry_id@, e@.sources)
                    &&& final(self).entries() == old(self).entries().update(i, CatalogEntryView {
                        name: trim(name@),
                        storage_policy,
                        sync_mode: SyncMode::Manual,
                        source_count: e@.sources.len() as usize,
                        sources: shared_sources(e@.sources),
                        ..old(self).entries()[i]
                    })
                },
            },
    {
        let r = self.update_entry_with_sync(entry_id, name, sources, storage_policy, SyncMode::Manual);
        proof {
            assert forall|k: int| 0 <= k < sources@.len() implies resolved_view(sources@)[k].path
                == #[trigger] sources@[k].path@ by {}
        }
        r
    }

    /// Removes a category, every category below it and every entry filed in one of them
    /// from the catalog, and returns what was removed. The caller moves the removed entries'
    /// folders away (or into a recycle bundle) before it writes the catalog back.
    pub fn delete_category(&mut self, category_id: &str) -> (r: Result<Removal, StorageError>)
        ensures
            final(self).root_path() == old(self).root_path(),
            final(self).bindings() == old(self).bindings(),
            final(self).device_id() == old(self).device_id(),
            final(self).device_name() == old(self).device_name(),
            !has_category(old(self).categories(), category_id@) ==> (r matches Err(
                StorageError::ParentCategoryNotFound(id),
            ) && id@ == category_id@ && final(self).categories() == old(self).categories()
                && final(self).entries() == old(self).entries()),
            has_category(old(self).categories(), category_id@) ==> (r matches Ok(removal) && {
                let cats = subtree_categories(old(self).categories(), category_id@);
                let gone = subtree_entries(old(self).categories(), old(self).entries(), category_id@);
                &&& categories_view(removal.categories@) == cats
                &&& entries_view(removal.entries@) == gone
                &&& removal.display_name@ == match first_id(category_ids(cats), category_id@) {
                    Some(k) => cats[k].name,
                    None => category_id@,
                }
                &&& final(self).categories() == other_categories(old(self).categories(), category_id@)
                &&& final(self).entries() == entries_not_in(old(self).entries(), gone)
            }),
    {
        if self.category_position(category_id).is_none() {
            return Err(StorageError::ParentCategoryNotFound(category_id.to_owned()));
        }
        let gone = entries_in_subtree(&self.catalog.categories, &self.catalog.entries, category_id);
        let (taken, kept) = split_categories(&self.catalog.categories, category_id);
        let taken_ids = category_id_list(&taken);
        let display_name = match find_id(&taken_ids, category_id) {
            Some(k) => {
                proof {
                    lemma_first_id_bounds(category_ids(categories_view(taken@)), category_id@);
                    assert(categories_view(taken@)[k as int] == taken@[k as int]@);
                }
                taken[k].name.clone()
            },
            None => category_id.to_owned(),
        };
        let remaining = keep_entries_not_in(&self.catalog.entries, &gone);
        self.catalog.categories = kept;
        self.catalog.entries = remaining;
        Ok(Removal { display_name, categories: taken, entries: gone })
    }

    /// Removes an entry (every catalog summary with its id) from the catalog and returns its
    /// first summary. The caller moves the entry's folder away before it writes the catalog
    /// back.
    pub fn delete_entry(&mut self, entry_id: &str) -> (r: Result<CatalogEntry, StorageError>)
        ensures
            same_but_entries(*final(self), *old(self)),
            match first_id(entry_ids(old(self).entries()), entry_id@) {
                None => r matches Err(StorageError::EntryNotFound(id)) && id@ == entry_id@
                    && final(self).entries() == old(self).entries(),
                Some(i) => r matches Ok(summary) && summary@ == old(self).entries()[i]
                    && final(self).entries() == entries_without(old(self).entries(), entry_id@),
            },
    {
        let i = match self.entry_position(entry_id) {
            Some(i) => i,
            None => return Err(StorageError::EntryNotFound(entry_id.to_owned())),
        };
        proof {
            lemma_first_id_bounds(entry_ids(self.entries()), entry_id@);
        }
        let summary = self.catalog.entries[i].duplicate();
        let ghost es = self.entries();
        let ghost keep = |e: CatalogEntryView| e.id != entry_id@;
        let mut kept: Vec<CatalogEntry> = Vec::new();
        let mut k: usize = 0;
        while k < self.catalog.entries.len()
            invariant
                k <= self.entries().len(),
                es == self.entries(),
                keep == (|e: CatalogEntryView| e.id != entry_id@),
                entries_view(kept@) == es.take(k as int).filter(keep),
            decreases self.entries().len() - k,
        {
            let e = self.catalog.entries[k].duplicate();
            proof {
                assert(es.take(k + 1) =~= es.take(k as int).push(e@));
                es.take(k as int).lemma_filter_push(e@, keep);
            }
            let ghost prev = kept@;
            if !str_is(e.id.as_str(), entry_id) {
                kept.push(e);
                proof {
                    assert(entries_view(kept@) =~= entries_view(prev).push(e@));
                }
            }
            k = k + 1;
        }
        proof {
            assert(es.take(es.len() as int) =~= es);
        }
        self.catalog.entries = kept;
        Ok(summary)
    }

    fn entry_clash_at(&self, e: &CatalogEntry, folder_taken: bool) -> (r: bool)
        ensures
            r == entry_clashes(self.entries(), e@, folder_taken),
    {
        if folder_taken {
            return true;
        }
        let mut j: usize = 0;
        while j < self.catalog.entries.len()
            invariant
                j <= self.entries().len(),
                forall|k: int| 0 <= k < j ==> !same_slot(#[trigger] self.entries()[k], e@),
            decreases self.entries().len() - j,
        {
            let current = &self.catalog.entries[j];
            proof {
                assert(self.entries()[j as int] == current@);
                assert(self.entries()[j as int].id == current.id@);
                assert(self.entries()[j as int].folder == current.folder@);
            }
            let same_id = str_is(current.id.as_str(), e.id.as_str());
            let same_folder = str_is(current.folder.as_str(), e.folder.as_str());
            if same_id || same_folder {
                return true;
            }
            j = j + 1;
        }
        false
    }

    fn category_clash_at(&self, c: &Category) -> (r: bool)
        ensures
            r == category_clashes(self.categories(), c@),
    {
        let name = chars_of(c.name.as_str());
        let mut j: usize = 0;
        while j < self.catalog.categories.len()
            invariant
                j <= self.categories().len(),
                name@ == c@.name,
                forall|k: int| 0 <= k < j ==> !same_place(#[trigger] self.categories()[k], c@),
            decreases self.categories().len() - j,
        {
            let current = &self.catalog.categories[j];
            proof {
                assert(self.categories()[j as int] == current@);
                assert(self.categories()[j as int].id == current.id@);
            }
            if str_is(current.id.as_str(), c.id.as_str()) {
                return true;
            }
            let same_parent = match (&current.parent_id, &c.parent_id) {
                (Some(a), Some(b)) => str_is(a.as_str(), b.as_str()),
                (None, None) => true,
                _ => false,
            };
            if same_parent {
                let other = chars_of(current.name.as_str());
                if eq_ignore_ascii_case(other.as_slice(), name.as_slice()) {
                    return true;
                }
            }
            j = j + 1;
        }
        false
    }

    /// Why a recycle bundle cannot be restored into the catalog, if it cannot.
    /// `folder_taken[i]` tells whether the folder of the bundle's entry `i` already exists.
    pub fn restore_conflict(&self, manifest: &RecycleManifest, folder_taken: &Vec<bool>) -> (r: Option<String>)
        requires
            folder_taken@.len() == manifest.entries@.len(),
        ensures
            match r {
                Some(m) => restore_problem(
                    self.entries(),
                    self.categories(),
                    entries_view(manifest.entries@),
                    categories_view(manifest.categories@),
                    folder_taken@,
                ) == Some(m@),
                None => restore_problem(
                    self.entries(),
                    self.categories(),
                    entries_view(manifest.entries@),
                    categories_view(manifest.categories@),
                    folder_taken@,
                ) is None,
            },
    {
        let ghost inc = entries_view(manifest.entries@);
        let mut i: usize = 0;
        while i < manifest.entries.len()
            invariant
                i <= inc.len(),
                inc == entries_view(manifest.entries@),
                folder_taken@.len() == inc.len(),
                entry_problem(self.entries(), inc, folder_taken@, 0) == entry_problem(
                    self.entries(),
                    inc,
                    folder_taken@,
                    i as int,
                ),
            decreases inc.len() - i,
        {
            let e = &manifest.entries[i];
            proof {
                assert(inc[i as int] == e@);
            }
            if self.entry_clash_at(e, folder_taken[i]) {
                let m = quoted_message("存档“", e.name.as_str(), "”与现有内容冲突");
                proof {
                    reveal_strlit("存档“");
                    reveal_strlit("”与现有内容冲突");
                    assert(m@ =~= entry_conflict_message(e@.name));
                }
                return Some(m);
            }
            i = i + 1;
        }
        proof {
            assert(entry_problem(self.entries(), inc, folder_taken@, i as int) is None);
        }
        let ghost cin = categories_view(manifest.categories@);
        let incoming_ids = category_id_list(&manifest.categories);
        let live_ids = category_id_list(&self.catalog.categories);
        let mut k: usize = 0;
        while k < manifest.categories.len()
            invariant
                k <= cin.len(),
                cin == categories_view(manifest.categories@),
                strings_view(incoming_ids@) == category_ids(cin),
                strings_view(live_ids@) == category_ids(self.categories()),
                category_problem(self.categories(), cin, 0) == category_problem(self.categories(), cin, k as int),
                entry_problem(self.entries(), entries_view(manifest.entries@), folder_taken@, 0) is None,
            decreases cin.len() - k,
        {
            let c = &manifest.categories[k];
            proof {
                assert(cin[k as int] == c@);
            }
            if self.category_clash_at(c) {
                let m = quoted_message("分类“", c.name.as_str(), "”与现有内容冲突");
                proof {
                    reveal_strlit("分类“");
                    reveal_strlit("”与现有内容冲突");
                    assert(m@ =~= category_conflict_message(c@.name));
                }
                return Some(m);
            }
            let lost = match &c.parent_id {
                Some(p) => find_id(&live_ids, p.as_str()).is_none() && find_id(&incoming_ids, p.as_str()).is_none(),
                None => false,
            };
            if lost {
                let m = quoted_message("分类“", c.name.as_str(), "”的上级分类不存在");
                proof {
                    reveal_strlit("分类“");
                    reveal_strlit("”的上级分类不存在");
                    assert(m@ =~= missing_parent_message(c@.name));
                }
                return Some(m);
            }
            k = k + 1;
        }
        None
    }

    /// Restores the categories and entries of a recycle bundle into the catalog, unless one
    /// would clash with live content. The caller copies the entry folders back before it
    /// writes the catalog.
    pub fn restore_recycle_item(&mut self, manifest: &RecycleManifest, folder_taken: &Vec<bool>) -> (r: Result<(), StorageError>)
        requires
            folder_taken@.len() == manifest.entries@.len(),
        ensures
            final(self).root_path() == old(self).root_path(),
            final(self).bindings() == old(self).bindings(),
            final(self).device_id() == old(self).device_id(),
            final(self).device_name() == old(self).device_name(),
            match restore_problem(
                old(self).entries(),
                old(self).categories(),
                entries_view(manifest.entries@),
                categories_view(manifest.categories@),
                folder_taken@,
            ) {
                Some(m) => r matches Err(StorageError::RestoreConflict(x)) && x@ == m
                    && final(self).entries() == old(self).entries()
                    && final(self).categories() == old(self).categories(),
                None => r is Ok && final(self).categories() == old(self).categories() + categories_view(
                    manifest.categories@,
                ) && final(self).entries() == old(self).entries() + entries_view(manifest.entries@),
            },
    {
        match self.restore_conflict(manifest, folder_taken) {
            Some(m) => return Err(StorageError::RestoreConflict(m)),
            None => {},
        }
        let mut k: usize = 0;
        let ghost start = self.categories();
        while k < manifest.categories.len()
            invariant
                k <= manifest.categories@.len(),
                self.categories() == start + categories_view(manifest.categories@).take(k as int),
                self.entries() == old(self).entries(),
                self.bindings() == old(self).bindings(),
                self.root_path() == old(self).root_path(),
                self.device_id() == old(self).device_id(),
                self.device_name() == old(self).device_name(),
            decreases manifest.categories@.len() - k,
        {
            let c = manifest.categories[k].duplicate();
            let ghost prev = self.catalog.categories@;
            self.catalog.categories.push(c);
            proof {
                assert(categories_view(self.catalog.categories@) =~= categories_view(prev).push(c@));
                assert(categories_view(manifest.categories@).take(k + 1) =~= categories_view(
                    manifest.categories@,
                ).take(k as int).push(c@));
            }
            k = k + 1;
        }
        let mut j: usize = 0;
        let ghost first = self.entries();
        while j < manifest.entries.len()
            invariant
                j <= manifest.entries@.len(),
                self.entries() == first + entries_view(manifest.entries@).take(j as int),
                self.categories() == start + categories_view(manifest.categories@),
                self.bindings() == old(self).bindings(),
                self.root_path() == old(self).root_path(),
                self.device_id() == old(self).device_id(),
                self.device_name() == old(self).device_name(),
            decreases manifest.entries@.len() - j,
        {
            let e = manifest.entries[j].duplicate();
            let ghost prev = self.catalog.entries@;
            self.catalog.entries.push(e);
            proof {
                assert(entries_view(self.catalog.entries@) =~= entries_view(prev).push(e@));
                assert(entries_view(manifest.entries@).take(j + 1) =~= entries_view(manifest.entries@).take(
                    j as int,
                ).push(e@));
            }
            j = j + 1;
        }
        proof {
            assert(categories_view(manifest.categories@).take(manifest.categories@.len() as int)
                =~= categories_view(manifest.categories@));
            assert(entries_view(manifest.entries@).take(manifest.entries@.len() as int) =~= entries_view(
                manifest.entries@,
            ));
        }
        Ok(())
    }

    /// Records a captured snapshot of an entry: `archive` is the archive written under the
    /// name `snapshot_archive_name(created_at_ms, snapshot_id)`, `files` the manifest of what
    /// it holds. The parent is the newest snapshot so far, the changes are counted against its
    /// manifest, and the timeline is stored oldest first.
    pub fn create_snapshot(
        &mut self,
        entry_id: &str,
        title: String,
        device_id: String,
        safety: bool,
        snapshot_id: String,
        created_at_ms: u64,
        archive: &[u8],
        files: Vec<SnapshotFile>,
    ) -> (r: Result<Snapshot, StorageError>)
        requires
            match first_id(entry_ids(old(self).entries()), entry_id@) {
                Some(i) => total_size(old(self).entries()[i].snapshots) + archive@.len() <= u64::MAX,
                None => true,
            },
        ensures
            same_but_entries(*final(self), *old(self)),
            match first_id(entry_ids(old(self).entries()), entry_id@) {
                None => r matches Err(StorageError::EntryNotFound(id)) && id@ == entry_id@
                    && final(self).entries() == old(self).entries(),
                Some(i) => {
                    let newest = stable_sort(old(self).entries()[i].snapshots, newer_first());
                    let parent_files = if newest.len() > 0 {
                        newest[0].files
                    } else {
                        Seq::empty()
                    };
                    let c = manifest_changes(parent_files, files_view(files@));
                    r matches Ok(s) && {
                        &&& s@ == (SnapshotView {
                            id: snapshot_id@,
                            entry_id: old(self).entries()[i].id,
                            parent_id: if newest.len() > 0 {
                                Some(newest[0].id)
                            } else {
                                None
                            },
                            device_id: device_id@,
                            device_name: old(self).device_name(),
                            title: title@,
                            note: Seq::empty(),
                            created_at_ms,
                            archive_name: archive_name(created_at_ms, snapshot_id@),
                            object_hash: hex_lower(sha256(archive@)),
                            size_bytes: archive@.len() as u64,
                            files: files_view(files@),
                            changes: ChangeSummary { added: c.0 as u64, modified: c.1 as u64, deleted: c.2 as u64 },
                            safety,
                            locked: false,
                        })
                        &&& final(self).entries() == old(self).entries().update(
                            i,
                            refreshed(old(self).entries()[i], stable_sort(newest.push(s@), older_first())),
                        )
                    }
                },
            },
    {
        let i = match self.entry_position(entry_id) {
            Some(i) => i,
            None => return Err(StorageError::EntryNotFound(entry_id.to_owned())),
        };
        proof {
            lemma_first_id_bounds(entry_ids(self.entries()), entry_id@);
        }
        let newest = sort_snapshots(&self.catalog.entries[i].snapshots, true);
        let (parent_id, changes) = if newest.len() > 0 {
            (Some(newest[0].id.clone()), compare_manifests(Some(&newest[0].files), &files))
        } else {
            (None, compare_manifests(None, &files))
        };
        let name = snapshot_archive_name(created_at_ms, snapshot_id.as_str());
        let object_hash = sha256_hex(archive);
        let snapshot = Snapshot {
            id: snapshot_id,
            entry_id: self.catalog.entries[i].id.clone(),
            parent_id,
            device_id,
            device_name: self.device.name.clone(),
            title,
            note: String::new(),
            created_at_ms,
            archive_name: name,
            object_hash,
            size_bytes: archive.len() as u64,
            files,
            changes,
            safety,
            locked: false,
        };
        let result = snapshot.duplicate();
        let mut timeline = copy_snapshots(&newest);
        let ghost prev = timeline@;
        timeline.push(snapshot);
        proof {
            assert(snapshots_view(timeline@) =~= snapshots_view(prev).push(result@));
            if newest@.len() > 0 {
                assert(snapshots_view(newest@)[0] == newest@[0]@);
            }
        }
        let ordered = sort_snapshots(&timeline, false);
        proof {
            lemma_total_size_sorted(self.entries()[i as int].snapshots, newer_first());
            lemma_total_size_insert(snapshots_view(prev), snapshots_view(prev).len() as int, result@);
            assert(snapshots_view(prev).insert(snapshots_view(prev).len() as int, result@) =~= snapshots_view(timeline@));
            lemma_total_size_sorted(snapshots_view(timeline@), older_first());
        }
        match self.refresh_catalog_entry(entry_id, &ordered) {
            Ok(()) => Ok(result),
            Err(e) => Err(e),
        }
    }

}

/// The catalog summary of an archive kept in the legacy layout, with the settings of its
/// legacy entry adopted: shared sources (without device paths), creation time, category,
/// tags, storage policy and synchronization mode.
pub open spec fn adopted_entry(summary: CatalogEntryView, legacy: EntryView) -> CatalogEntryView {
    CatalogEntryView {
        sources: shared_sources(legacy.sources),
        created_at_ms: legacy.created_at_ms,
        category_id: legacy.category_id,
        tags: legacy.tags,
        storage_policy: legacy.storage_policy,
        sync_mode: legacy.sync_mode,
        ..summary
    }
}

/// Adopts the settings of a legacy entry into its catalog summary.
pub fn adopt_legacy_entry(summary: CatalogEntry, legacy: &Entry) -> (r: CatalogEntry)
    ensures
        r@ == adopted_entry(summary@, legacy@),
{
    CatalogEntry {
        sources: shared_copy(&legacy.sources),
        created_at_ms: legacy.created_at_ms,
        category_id: copy_opt_string(&legacy.category_id),
        tags: copy_strings(&legacy.tags),
        storage_policy: legacy.storage_policy,
        sync_mode: legacy.sync_mode,
        ..summary
    }
}

/// The device bindings of an entry after adopting the sources of its legacy entry: each
/// legacy source with a path on this device whose slot is not yet bound is added, in order.
pub open spec fn legacy_bound(saved: Seq<SourceView>, legacy: Seq<SourceView>) -> Seq<SourceView>
    decreases legacy.len(),
{
    if legacy.len() == 0 {
        saved
    } else {
        let before = legacy_bound(saved, legacy.drop_last());
        let s = legacy.last();
        if s.path.len() > 0 && !source_ids(before).contains(s.id) {
            before.push(s)
        } else {
            before
        }
    }
}

/// The bindings document after adopting entry `id`'s legacy sources: its binding list is
/// extended, or created at the end when the entry had none.
pub open spec fn with_legacy_bindings(
    bindings: Seq<(Seq<char>, Seq<SourceView>)>,
    id: Seq<char>,
    legacy: Seq<SourceView>,
) -> Seq<(Seq<char>, Seq<SourceView>)> {
    match first_id(binding_ids(bindings), id) {
        Some(k) => bindings.update(k, (id, legacy_bound(bindings[k].1, legacy))),
        None => bindings.push((id, legacy_bound(Seq::empty(), legacy))),
    }
}

fn has_source_id(sources: &Vec<EntrySource>, id: &str) -> (r: bool)
    ensures
        r == source_ids(sources_view(sources@)).contains(id@),
{
    let mut i: usize = 0;
    while i < sources.len()
        invariant
            i <= sources@.len(),
            forall|j: int| 0 <= j < i ==> (#[trigger] sources@[j]).id@ != id@,
        decreases sources@.len() - i,
    {
        if str_is(sources[i].id.as_str(), id) {
            proof {
                assert(source_ids(sources_view(sources@))[i as int] == id@);
            }
            return true;
        }
        i = i + 1;
    }
    proof {
        if source_ids(sources_view(sources@)).contains(id@) {
            let k = choose|k: int|
                0 <= k < source_ids(sources_view(sources@)).len() && source_ids(sources_view(sources@))[k]
                    == id@;
            assert(sources@[k].id@ == id@);
        }
    }
    false
}

fn bind_legacy_sources(saved: Vec<EntrySource>, legacy: &Vec<EntrySource>) -> (r: Vec<EntrySource>)
    ensures
        sources_view(r@) == legacy_bound(sources_view(saved@), sources_view(legacy@)),
{
    let ghost start = sources_view(saved@);
    let ghost lv = sources_view(legacy@);
    let mut out = saved;
    let mut i: usize = 0;
    proof {
        assert(lv.take(0) =~= Seq::<SourceView>::empty());
    }
    while i < legacy.len()
        invariant
            i <= legacy@.len(),
            lv == sources_view(legacy@),
            sources_view(out@) == legacy_bound(start, lv.take(i as int)),
        decreases legacy@.len() - i,
    {
        proof {
            assert(lv.take(i + 1).drop_last() =~= lv.take(i as int));
            assert(lv.take(i + 1).last() == legacy@[i as int]@);
        }
        let source = &legacy[i];
        if !source.path.as_str().is_empty() && !has_source_id(&out, source.id.as_str()) {
            let copy = source.duplicate();
            let ghost before = out@;
            out.push(copy);
            proof {
                assert(sources_view(out@) =~= sources_view(before).push(copy@));
            }
        }
        i = i + 1;
    }
    proof {
        assert(lv.take(i as int) =~= lv);
    }
    out
}

/// Adds the device paths of a legacy entry's sources to the bindings of entry `entry_id`.
pub fn adopt_legacy_bindings(bindings: &mut BindingsDocument, entry_id: &str, legacy: &Vec<EntrySource>)
    ensures
        bindings_view(final(bindings).entries@) == with_legacy_bindings(
            bindings_view(old(bindings).entries@),
            entry_id@,
            sources_view(legacy@),
        ),
        final(bindings).format_version == old(bindings).format_version,
{
    let ids = binding_id_list(&bindings.entries);
    let ghost before = bindings.entries@;
    match find_id(&ids, entry_id) {
        Some(k) => {
            proof {
                lemma_first_id_bounds(strings_view(ids@), entry_id@);
            }
            let (key, saved) = bindings.entries.remove(k);
            let bound = bind_legacy_sources(saved, legacy);
            bindings.entries.insert(k, (key, bound));
            proof {
                assert(bindings_view(bindings.entries@) =~= bindings_view(before).update(
                    k as int,
                    (entry_id@, legacy_bound(bindings_view(before)[k as int].1, sources_view(legacy@))),
                ));
            }
        },
        None => {
            let bound = bind_legacy_sources(Vec::new(), legacy);
            proof {
                assert(sources_view(Seq::<EntrySource>::empty()) =~= Seq::<SourceView>::empty());
            }
            bindings.entries.push((entry_id.to_owned(), bound));
            proof {
                assert(bindings_view(bindings.entries@) =~= bindings_view(before).push(
                    (entry_id@, legacy_bound(Seq::empty(), sources_view(legacy@))),
                ));
            }
        },
    }
}

/// Adopts a legacy timeline into a catalog summary that has none, with its count, total size
/// and the time of its last snapshot.
pub fn adopt_legacy_timeline(summary: CatalogEntry, timeline: Vec<Snapshot>) -> (r: CatalogEntry)
    requires
        total_size(snapshots_view(timeline@)) <= u64::MAX,
    ensures
        r@ == refreshed(summary@, snapshots_view(timeline@)),
{
    let ghost tv = snapshots_view(timeline@);
    let mut total: u64 = 0;
    let mut k: usize = 0;
    while k < timeline.len()
        invariant
            k <= timeline@.len(),
            tv == snapshots_view(timeline@),
            total_size(tv) <= u64::MAX,
            total == total_size(tv.take(k as int)),
        decreases timeline@.len() - k,
    {
        proof {
            lemma_total_size_prefix(tv, (k + 1) as int);
            assert(tv.take(k + 1).drop_last() =~= tv.take(k as int));
        }
        total = total + timeline[k].size_bytes;
        k = k + 1;
    }
    proof {
        assert(tv.take(k as int) =~= tv);
    }
    let count = timeline.len();
    let last = if count > 0 {
        Some(timeline[count - 1].created_at_ms)
    } else {
        None
    };
    CatalogEntry {
        snapshot_count: count,
        stored_bytes: total,
        last_snapshot_at_ms: last,
        snapshots: timeline,
        ..summary
    }
}

/// No two archives share an id or a folder.
pub open spec fn distinct_slots(entries: Seq<CatalogEntryView>) -> bool {
    forall|i: int, j: int|
        0 <= i < entries.len() && 0 <= j < entries.len() && i != j ==> !same_slot(
            #[trigger] entries[i],
            #[trigger] entries[j],
        )
}

proof fn lemma_filter_split(s: Seq<CatalogEntryView>, id: Seq<char>)
    ensures
        s.to_multiset() =~= s.filter(|e: CatalogEntryView| e.id == id).to_multiset().add(
            entries_without(s, id).to_multiset(),
        ),
    decreases s.len(),
{
    broadcast use vstd::seq_lib::group_to_multiset_ensures;

    let eq = |e: CatalogEntryView| e.id == id;
    let ne = |e: CatalogEntryView| e.id != id;
    if s.len() == 0 {
        reveal(Seq::filter);
        assert(s.filter(eq) =~= Seq::empty());
        assert(s.filter(ne) =~= Seq::empty());
    } else {
        let init = s.drop_last();
        let x = s.last();
        lemma_filter_split(init, id);
        assert(s =~= init.push(x));
        init.lemma_filter_push(x, eq);
        init.lemma_filter_push(x, ne);
    }
}

proof fn lemma_filter_unique(s: Seq<CatalogEntryView>, id: Seq<char>, k: int)
    requires
        0 <= k < s.len(),
        s[k].id == id,
        forall|j: int| 0 <= j < s.len() && j != k ==> (#[trigger] s[j]).id != id,
    ensures
        s.filter(|e: CatalogEntryView| e.id == id).to_multiset() =~= vstd::multiset::Multiset::singleton(s[k]),
    decreases s.len(),
{
    broadcast use vstd::seq_lib::group_to_multiset_ensures;

    let eq = |e: CatalogEntryView| e.id == id;
    let init = s.drop_last();
    let x = s.last();
    assert(s =~= init.push(x));
    init.lemma_filter_push(x, eq);
    if k == s.len() - 1 {
        if init.filter(eq).len() > 0 {
            let e = init.filter(eq)[0];
            init.filter_lemma(eq);
            assert(init.filter(eq).contains(e));
            init.lemma_filter_contains_rev(eq, e);
            let j = choose|j: int| 0 <= j < init.len() && init[j] == e;
            assert(s[j] == init[j]);
        }
        assert(init.filter(eq) =~= Seq::<CatalogEntryView>::empty());
        assert(init.filter(eq).to_multiset() =~= vstd::multiset::Multiset::empty());
    } else {
        assert forall|j: int| 0 <= j < init.len() && j != k implies (#[trigger] init[j]).id != id by {
            assert(init[j] == s[j]);
        }
        lemma_filter_unique(init, id, k);
    }
}

/// Restoring the recycle bundle of a deleted archive undoes the deletion: when no two
/// archives share an id or a folder and the folder is free on disk, the archive that
/// `delete_entry` removes (the first with its id) comes back without conflict, and the
/// catalog again holds exactly the archives it held, the restored one last.
pub proof fn lemma_restore_undoes_delete(
    entries: Seq<CatalogEntryView>,
    categories: Seq<CategoryView>,
    k: int,
)
    requires
        0 <= k < entries.len(),
        distinct_slots(entries),
    ensures
        first_id(entry_ids(entries), entries[k].id) == Some(k),
        restore_problem(
            entries_without(entries, entries[k].id),
            categories,
            seq![entries[k]],
            Seq::empty(),
            seq![false],
        ) is None,
        entries_without(entries, entries[k].id).push(entries[k]).to_multiset()
            == entries.to_multiset(),
{
    broadcast use vstd::seq_lib::group_to_multiset_ensures;

    let id = entries[k].id;
    let ne = |e: CatalogEntryView| e.id != id;
    let rest = entries_without(entries, id);
    lemma_first_id_bounds(entry_ids(entries), id);
    assert(entry_ids(entries)[k] == id);
    match first_id(entry_ids(entries), id) {
        Some(f) => {
            if f != k {
                assert(entry_ids(entries)[f] == entries[f].id);
                assert(same_slot(entries[f], entries[k]));
            }
        },
        None => {},
    }
    if entry_clashes(rest, entries[k], false) {
        let j = choose|j: int| 0 <= j < rest.len() && same_slot(#[trigger] rest[j], entries[k]);
        entries.filter_lemma(ne);
        assert(rest.contains(rest[j]));
        entries.lemma_filter_contains_rev(ne, rest[j]);
        let i = choose|i: int| 0 <= i < entries.len() && entries[i] == rest[j];
        assert(ne(rest[j]));
        assert(i != k);
        assert(same_slot(entries[i], entries[k]));
    }
    assert(entry_problem(rest, seq![entries[k]], seq![false], 1) is None);
    assert(category_problem(categories, Seq::empty(), 0) is None);
    assert forall|j: int| 0 <= j < entries.len() && j != k implies (#[trigger] entries[j]).id != id by {
        if entries[j].id == id {
            assert(same_slot(entries[j], entries[k]));
        }
    }
    lemma_filter_split(entries, id);
    lemma_filter_unique(entries, id, k);
    assert(rest.push(entries[k]).to_multiset() =~= rest.to_multiset().insert(entries[k]));
}

/// No snapshot of the timeline has this id.
pub open spec fn id_unused(timeline: Seq<SnapshotView>, id: Seq<char>) -> bool {
    forall|k: int| 0 <= k < timeline.len() ==> (#[trigger] timeline[k]).id != id
}

proof fn lemma_first_snapshot_id(t: Seq<SnapshotView>, s: SnapshotView)
    requires
        t.contains(s),
        forall|k: int| 0 <= k < t.len() && (#[trigger] t[k]).id == s.id ==> t[k] == s,
    ensures
        first_id(snapshot_ids(t), s.id) matches Some(k) && t[k] == s,
{
    let k0 = choose|k: int| 0 <= k < t.len() && t[k] == s;
    assert(snapshot_ids(t)[k0] == s.id);
    lemma_first_id_bounds(snapshot_ids(t), s.id);
    match first_id(snapshot_ids(t), s.id) {
        Some(k) => {
            assert(snapshot_ids(t)[k] == t[k].id);
        },
        None => {
            assert(snapshot_ids(t)[k0] != s.id);
        },
    }
}

proof fn lemma_find_unique_snapshot(entries: Seq<CatalogEntryView>, i: int, s: SnapshotView)
    requires
        0 <= i < entries.len(),
        forall|j: int| 0 <= j < entries.len() && j != i ==> id_unused((#[trigger] entries[j]).snapshots, s.id),
        entries[i].snapshots.contains(s),
        forall|k: int|
            0 <= k < entries[i].snapshots.len() && (#[trigger] entries[i].snapshots[k]).id == s.id
                ==> entries[i].snapshots[k] == s,
    ensures
        find_snapshot(entries, s.id) == Some(s),
    decreases i,
{
    if i == 0 {
        lemma_first_snapshot_id(entries[0].snapshots, s);
    } else {
        lemma_first_id_bounds(snapshot_ids(entries[0].snapshots), s.id);
        match first_id(snapshot_ids(entries[0].snapshots), s.id) {
            Some(k) => {
                assert(snapshot_ids(entries[0].snapshots)[k] == entries[0].snapshots[k].id);
                assert(id_unused(entries[0].snapshots, s.id));
            },
            None => {},
        }
        let rest = entries.drop_first();
        assert forall|j: int| 0 <= j < rest.len() && j != i - 1 implies id_unused((#[trigger] rest[j]).snapshots, s.id) by {
            assert(rest[j] == entries[j + 1]);
        }
        assert(rest[i - 1] == entries[i]);
        lemma_find_unique_snapshot(rest, i - 1, s);
    }
}

/// A snapshot verifies right after it is created (`verify_snapshot` after `create_snapshot`,
/// with the archive it was created from): when its id is new to the catalog, the
/// catalog `create_snapshot` leaves finds it, under its entry, with the digest of the
/// archive it was created from.
pub proof fn lemma_created_snapshot_verifies(
    entries: Seq<CatalogEntryView>,
    i: int,
    s: SnapshotView,
    archive: Seq<u8>,
)
    requires
        0 <= i < entries.len(),
        forall|j: int| 0 <= j < entries.len() ==> id_unused((#[trigger] entries[j]).snapshots, s.id),
        s.object_hash == hex_lower(sha256(archive)),
        s.entry_id == entries[i].id,
    ensures
        ({
            let newest = stable_sort(entries[i].snapshots, newer_first());
            let after = entries.update(i, refreshed(entries[i], stable_sort(newest.push(s), older_first())));
            &&& find_snapshot(after, s.id) == Some(s)
            &&& first_id(entry_ids(after), s.entry_id) is Some
            &&& hex_lower(sha256(archive)) == s.object_hash
        }),
{
    broadcast use vstd::seq_lib::group_to_multiset_ensures;

    let newest = stable_sort(entries[i].snapshots, newer_first());
    let t = stable_sort(newest.push(s), older_first());
    let after = entries.update(i, refreshed(entries[i], t));
    crate::order::lemma_stable_sort_permutes(entries[i].snapshots, newer_first());
    crate::order::lemma_stable_sort_permutes(newest.push(s), older_first());
    assert(newest.push(s).contains(s)) by {
        assert(newest.push(s)[newest.len() as int] == s);
    }
    assert(t.to_multiset().count(s) > 0);
    assert forall|k: int| 0 <= k < t.len() && (#[trigger] t[k]).id == s.id implies t[k] == s by {
        let x = t[k];
        assert(t.contains(x));
        assert(newest.push(s).to_multiset().count(x) > 0);
        assert(newest.push(s).contains(x));
        if x != s {
            let j = choose|j: int| 0 <= j < newest.push(s).len() && newest.push(s)[j] == x;
            assert(j < newest.len());
            assert(newest.contains(x));
            assert(entries[i].snapshots.to_multiset().count(x) > 0);
            assert(entries[i].snapshots.contains(x));
            let m = choose|m: int| 0 <= m < entries[i].snapshots.len() && entries[i].snapshots[m] == x;
            assert(id_unused(entries[i].snapshots, s.id));
        }
    }
    assert forall|j: int| 0 <= j < after.len() && j != i implies id_unused((#[trigger] after[j]).snapshots, s.id) by {
        assert(after[j] == entries[j]);
    }
    assert(after[i].snapshots == t);
    lemma_find_unique_snapshot(after, i, s);
    assert(entry_ids(after)[i] == entries[i].id);
    lemma_first_id_bounds(entry_ids(after), entries[i].id);
}

proof fn lemma_filter_split_by<A>(s: Seq<A>, p: spec_fn(A) -> bool, q: spec_fn(A) -> bool)
    requires
        forall|x: A| #[trigger] q(x) == !p(x),
    ensures
        s.to_multiset() =~= s.filter(p).to_multiset().add(s.filter(q).to_multiset()),
    decreases s.len(),
{
    broadcast use vstd::seq_lib::group_to_multiset_ensures;

    if s.len() == 0 {
        reveal(Seq::filter);
        assert(s.filter(p) =~= Seq::<A>::empty());
        assert(s.filter(q) =~= Seq::<A>::empty());
    } else {
        let init = s.drop_last();
        let x = s.last();
        lemma_filter_split_by(init, p, q);
        assert(s =~= init.push(x));
        init.lemma_filter_push(x, p);
        init.lemma_filter_push(x, q);
    }
}

proof fn lemma_filter_congruent<A>(s: Seq<A>, p: spec_fn(A) -> bool, q: spec_fn(A) -> bool)
    requires
        forall|i: int| 0 <= i < s.len() ==> p(#[trigger] s[i]) == q(s[i]),
    ensures
        s.filter(p) == s.filter(q),
    decreases s.len(),
{
    if s.len() == 0 {
        reveal(Seq::filter);
        assert(s.filter(p) =~= s.filter(q));
    } else {
        let init = s.drop_last();
        let x = s.last();
        assert forall|i: int| 0 <= i < init.len() implies p(#[trigger] init[i]) == q(init[i]) by {
            assert(init[i] == s[i]);
        }
        lemma_filter_congruent(init, p, q);
        assert(s =~= init.push(x));
        init.lemma_filter_push(x, p);
        init.lemma_filter_push(x, q);
        assert(p(s[s.len() - 1]) == q(s[s.len() - 1]));
    }
}

proof fn lemma_no_entry_problem(current: Seq<CatalogEntryView>, incoming: Seq<CatalogEntryView>, taken: Seq<bool>, i: int)
    requires
        0 <= i,
        forall|j: int| i <= j < incoming.len() ==> !entry_clashes(current, #[trigger] incoming[j], taken[j]),
    ensures
        entry_problem(current, incoming, taken, i) is None,
    decreases incoming.len() - i,
{
    if i < incoming.len() {
        lemma_no_entry_problem(current, incoming, taken, i + 1);
    }
}

proof fn lemma_no_category_problem(current: Seq<CategoryView>, incoming: Seq<CategoryView>, i: int)
    requires
        0 <= i,
        forall|j: int|
            i <= j < incoming.len() ==> !category_clashes(current, #[trigger] incoming[j]) && !parent_lost(
                current,
                incoming,
                incoming[j],
            ),
    ensures
        category_problem(current, incoming, i) is None,
    decreases incoming.len() - i,
{
    if i < incoming.len() {
        lemma_no_category_problem(current, incoming, i + 1);
    }
}

proof fn lemma_has_category(cats: Seq<CategoryView>, k: int)
    requires
        0 <= k < cats.len(),
    ensures
        has_category(cats, cats[k].id),
{
    lemma_first_id_bounds(category_ids(cats), cats[k].id);
    assert(category_ids(cats)[k] == cats[k].id);
}

proof fn lemma_in_filter<A>(s: Seq<A>, p: spec_fn(A) -> bool, k: int)
    requires
        0 <= k < s.len(),
        p(s[k]),
    ensures
        exists|j: int| 0 <= j < s.filter(p).len() && s.filter(p)[j] == s[k],
{
    s.filter_lemma(p);
    assert(s.filter(p).contains(s[k]));
}

/// No two categories share an id, or a parent and a name ignoring ASCII case.
pub open spec fn distinct_places(categories: Seq<CategoryView>) -> bool {
    forall|i: int, j: int|
        0 <= i < categories.len() && 0 <= j < categories.len() && i != j ==> !same_place(
            #[trigger] categories[i],
            #[trigger] categories[j],
        )
}

/// Every parent a category names is a category of the catalog.
pub open spec fn parents_known(categories: Seq<CategoryView>) -> bool {
    forall|i: int|
        0 <= i < categories.len() && (#[trigger] categories[i]).parent_id is Some ==> has_category(
            categories,
            categories[i].parent_id->0,
        )
}

/// Restoring the recycle bundle of a deleted category (`restore_recycle_item` with the
/// manifest `delete_category_to_bin` returns) undoes the deletion: when archives
/// share no id or folder, categories share no id and no parent and name, every parent is a
/// category, and the archives' folders are free on disk, the bundle that `delete_category`
/// takes out (the subtree's categories and the archives filed in it) comes back without
/// conflict, and the catalog again holds exactly the categories and archives it held.
pub proof fn lemma_restore_undoes_delete_category(
    entries: Seq<CatalogEntryView>,
    categories: Seq<CategoryView>,
    root: Seq<char>,
)
    requires
        distinct_slots(entries),
        distinct_places(categories),
        parents_known(categories),
    ensures
        ({
            let cats = subtree_categories(categories, root);
            let gone = subtree_entries(categories, entries, root);
            let kept_cats = other_categories(categories, root);
            let kept = entries_not_in(entries, gone);
            &&& restore_problem(kept, kept_cats, gone, cats, Seq::new(gone.len(), |i: int| false)) is None
            &&& (kept_cats + cats).to_multiset() == categories.to_multiset()
            &&& (kept + gone).to_multiset() == entries.to_multiset()
        }),
{
    broadcast use vstd::seq_lib::group_to_multiset_ensures;

    let inside = |c: CategoryView| below(categories, root, c.id);
    let outside = |c: CategoryView| !below(categories, root, c.id);
    let filed = |e: CatalogEntryView|
        match e.category_id {
            Some(c) => below(categories, root, c),
            None => false,
        };
    let cats = subtree_categories(categories, root);
    let gone = subtree_entries(categories, entries, root);
    let kept_cats = other_categories(categories, root);
    let kept = entries_not_in(entries, gone);
    let taken = Seq::new(gone.len(), |i: int| false);
    categories.filter_lemma(inside);
    categories.filter_lemma(outside);
    entries.filter_lemma(filed);
    // Archives outside the subtree keep their place; those inside come back.
    let not_gone = |e: CatalogEntryView| !(exists|j: int| 0 <= j < gone.len() && #[trigger] gone[j].id == e.id);
    let unfiled = |e: CatalogEntryView| !filed(e);
    assert forall|i: int| 0 <= i < entries.len() implies not_gone(#[trigger] entries[i]) == unfiled(entries[i]) by {
        if filed(entries[i]) {
            lemma_in_filter(entries, filed, i);
            let j = choose|j: int| 0 <= j < gone.len() && gone[j] == entries[i];
            assert(gone[j].id == entries[i].id);
        } else if exists|j: int| 0 <= j < gone.len() && #[trigger] gone[j].id == entries[i].id {
            let j = choose|j: int| 0 <= j < gone.len() && #[trigger] gone[j].id == entries[i].id;
            assert(gone.contains(gone[j]));
            entries.lemma_filter_contains_rev(filed, gone[j]);
            let a = choose|a: int| 0 <= a < entries.len() && entries[a] == gone[j];
            assert(filed(gone[j]));
            assert(a != i);
            assert(same_slot(entries[a], entries[i]));
        }
    }
    lemma_filter_congruent(entries, not_gone, unfiled);
    lemma_filter_split_by(entries, filed, unfiled);
    lemma_filter_split_by(categories, inside, outside);
    // No restored archive clashes with one that stayed.
    assert forall|j: int| 0 <= j < gone.len() implies !entry_clashes(kept, #[trigger] gone[j], taken[j]) by {
        if exists|m: int| 0 <= m < kept.len() && same_slot(#[trigger] kept[m], gone[j]) {
            let m = choose|m: int| 0 <= m < kept.len() && same_slot(#[trigger] kept[m], gone[j]);
            assert(kept.contains(kept[m]));
            assert(gone.contains(gone[j]));
            entries.lemma_filter_contains_rev(unfiled, kept[m]);
            entries.lemma_filter_contains_rev(filed, gone[j]);
            let a = choose|a: int| 0 <= a < entries.len() && entries[a] == kept[m];
            let b = choose|b: int| 0 <= b < entries.len() && entries[b] == gone[j];
            assert(unfiled(kept[m]));
            assert(filed(gone[j]));
            assert(a != b);
        }
    }
    lemma_no_entry_problem(kept, gone, taken, 0);
    // No restored category clashes with one that stayed, and every parent is found.
    assert forall|j: int| 0 <= j < cats.len() implies !category_clashes(kept_cats, #[trigger] cats[j])
        && !parent_lost(kept_cats, cats, cats[j]) by {
        assert(cats.contains(cats[j]));
        categories.lemma_filter_contains_rev(inside, cats[j]);
        let b = choose|b: int| 0 <= b < categories.len() && categories[b] == cats[j];
        if exists|m: int| 0 <= m < kept_cats.len() && same_place(#[trigger] kept_cats[m], cats[j]) {
            let m = choose|m: int| 0 <= m < kept_cats.len() && same_place(#[trigger] kept_cats[m], cats[j]);
            assert(kept_cats.contains(kept_cats[m]));
            categories.lemma_filter_contains_rev(outside, kept_cats[m]);
            let a = choose|a: int| 0 <= a < categories.len() && categories[a] == kept_cats[m];
            assert(inside(cats[j]));
            assert(outside(kept_cats[m]));
            assert(a != b);
        }
        match cats[j].parent_id {
            Some(p) => {
                assert(categories[b].parent_id is Some);
                assert(has_category(categories, p));
                lemma_first_id_bounds(category_ids(categories), p);
                let k = first_id(category_ids(categories), p)->0;
                assert(category_ids(categories)[k] == categories[k].id);
                if below(categories, root, categories[k].id) {
                    lemma_in_filter(categories, inside, k);
                    let q = choose|q: int| 0 <= q < cats.len() && cats[q] == categories[k];
                    lemma_has_category(cats, q);
                } else {
                    lemma_in_filter(categories, outside, k);
                    let q = choose|q: int| 0 <= q < kept_cats.len() && kept_cats[q] == categories[k];
                    lemma_has_category(kept_cats, q);
                }
            },
            None => {},
        }
    }
    lemma_no_category_problem(kept_cats, cats, 0);
    vstd::seq_lib::lemma_multiset_commutative(kept_cats, cats);
    vstd::seq_lib::lemma_multiset_commutative(kept, gone);
}

proof fn lemma_first_id_push(s: Seq<Seq<char>>, y: Seq<char>, x: Seq<char>)
    ensures
        first_id(s.push(y), x) == match first_id(s, x) {
            Some(m) => Some(m),
            None => if y == x {
                Some(s.len() as int)
            } else {
                None
            },
        },
    decreases s.len(),
{
    let t = s.push(y);
    if s.len() > 0 {
        assert(t[0] == s[0]);
        assert(t.drop_first() =~= s.drop_first().push(y));
        lemma_first_id_push(s.drop_first(), y, x);
    } else {
        assert(t[0] == y);
        assert(t.drop_first() =~= Seq::<Seq<char>>::empty());
        assert(first_id(t.drop_first(), x) is None);
    }
}

/// No two sources share an id.
pub open spec fn distinct_source_ids(sources: Seq<SourceView>) -> bool {
    forall|a: int, b: int|
        0 <= a < sources.len() && 0 <= b < sources.len() && a != b ==> (#[trigger] sources[a]).id
            != (#[trigger] sources[b]).id
}

proof fn lemma_merge_sources_lookup(saved: Seq<SourceView>, sources: Seq<SourceView>)
    requires
        distinct_source_ids(sources),
    ensures
        forall|k: int|
            0 <= k < sources.len() ==> (first_id(source_ids(merge_sources(saved, sources)), (#[trigger] sources[k]).id)
                matches Some(m) && 0 <= m < merge_sources(saved, sources).len() && merge_sources(saved, sources)[m]
                == sources[k]),
    decreases sources.len(),
{
    if sources.len() > 0 {
        let init = sources.drop_last();
        let last = sources.last();
        assert(distinct_source_ids(init)) by {
            assert forall|a: int, b: int|
                0 <= a < init.len() && 0 <= b < init.len() && a != b implies (#[trigger] init[a]).id
                    != (#[trigger] init[b]).id by {
                assert(init[a] == sources[a] && init[b] == sources[b]);
            }
        }
        lemma_merge_sources_lookup(saved, init);
        let m0 = merge_sources(saved, init);
        let merged = merge_sources(saved, sources);
        assert(merged == crate::sources::merge_source(m0, last));
        lemma_first_id_bounds(source_ids(m0), last.id);
        match first_id(source_ids(m0), last.id) {
            Some(p) => {
                assert(source_ids(m0)[p] == m0[p].id);
                assert(source_ids(merged) =~= source_ids(m0));
                assert forall|k: int| 0 <= k < sources.len() implies (first_id(
                    source_ids(merged),
                    (#[trigger] sources[k]).id,
                ) matches Some(m) && 0 <= m < merged.len() && merged[m] == sources[k]) by {
                    if k < sources.len() - 1 {
                        assert(init[k] == sources[k]);
                        let m = first_id(source_ids(m0), init[k].id)->0;
                        assert(m != p) by {
                            if m == p {
                                assert(m0[m] == init[k]);
                                assert(sources[k].id != sources[sources.len() - 1].id);
                            }
                        }
                    }
                }
            },
            None => {
                assert(source_ids(merged) =~= source_ids(m0).push(last.id));
                assert forall|k: int| 0 <= k < sources.len() implies (first_id(
                    source_ids(merged),
                    (#[trigger] sources[k]).id,
                ) matches Some(m) && 0 <= m < merged.len() && merged[m] == sources[k]) by {
                    lemma_first_id_push(source_ids(m0), last.id, sources[k].id);
                    if k < sources.len() - 1 {
                        assert(init[k] == sources[k]);
                    }
                }
            },
        }
    }
}

/// Updating an archive and then reading it back (`get_entry` after `update_entry_with_sync`
/// or `update_entry_with_ids`) gives the update: the archive stays where
/// it was found, and with its sources' ids distinct it reads back with the new name,
/// sources (paths included), storage policy and synchronization mode, everything else as
/// before.
pub proof fn lemma_update_then_get(
    entries: Seq<CatalogEntryView>,
    bindings: Seq<(Seq<char>, Seq<SourceView>)>,
    i: int,
    name: Seq<char>,
    placed: Seq<SourceView>,
    storage_policy: StoragePolicy,
    sync_mode: SyncMode,
)
    requires
        0 <= i < entries.len(),
        first_id(entry_ids(entries), entries[i].id) == Some(i),
        distinct_source_ids(placed),
    ensures
        ({
            let id = entries[i].id;
            let after = entries.update(i, CatalogEntryView {
                name,
                storage_policy,
                sync_mode,
                source_count: placed.len() as usize,
                sources: shared_sources(placed),
                ..entries[i]
            });
            let saved = bindings_saved(bindings, id, placed);
            &&& first_id(entry_ids(after), id) == Some(i)
            &&& entry_of(after[i], saved) == (EntryView {
                name,
                sources: placed,
                storage_policy,
                sync_mode,
                ..entry_of(entries[i], bindings)
            })
        }),
{
    let id = entries[i].id;
    let summary = CatalogEntryView {
        name,
        storage_policy,
        sync_mode,
        source_count: placed.len() as usize,
        sources: shared_sources(placed),
        ..entries[i]
    };
    let after = entries.update(i, summary);
    assert(entry_ids(after) =~= entry_ids(entries));
    let saved = bindings_saved(bindings, id, placed);
    lemma_first_id_bounds(binding_ids(bindings), id);
    let merged = match first_id(binding_ids(bindings), id) {
        Some(b) => merge_sources(bindings[b].1, placed),
        None => merge_sources(Seq::empty(), placed),
    };
    let b2: int = match first_id(binding_ids(bindings), id) {
        Some(b) => {
            assert(binding_ids(saved) =~= binding_ids(bindings)) by {
                assert(binding_ids(bindings)[b] == bindings[b].0);
            }
            b
        },
        None => {
            assert(binding_ids(saved) =~= binding_ids(bindings).push(id));
            lemma_first_id_push(binding_ids(bindings), id, id);
            bindings.len() as int
        },
    };
    assert(first_id(binding_ids(saved), id) == Some(b2));
    assert(saved[b2].1 == merged);
    lemma_merge_sources_lookup(
        match first_id(binding_ids(bindings), id) {
            Some(b) => bindings[b].1,
            None => Seq::empty(),
        },
        placed,
    );
    let got = entry_of(after[i], saved);
    assert(got.sources =~= placed) by {
        assert forall|k: int| 0 <= k < placed.len() implies got.sources[k] == placed[k] by {
            let m = first_id(source_ids(merged), placed[k].id)->0;
            assert(shared_sources(placed)[k].id == placed[k].id);
            assert(merged[m] == placed[k]);
        }
    }
}


/// Adding an archive and then reading it back (`get_entry` after `add_entry_sources_with_sync`)
/// gives the archive: with an id the catalog
/// does not hold yet and distinct source ids, the new last entry reads back exactly as
/// it was returned, device paths included.
pub proof fn lemma_add_then_get(
    entries: Seq<CatalogEntryView>,
    bindings: Seq<(Seq<char>, Seq<SourceView>)>,
    e: EntryView,
)
    requires
        first_id(entry_ids(entries), e.id) is None,
        distinct_source_ids(e.sources),
    ensures
        ({
            let after = entries.push(new_summary(e));
            let saved = bindings_saved(bindings, e.id, e.sources);
            &&& first_id(entry_ids(after), e.id) == Some(entries.len() as int)
            &&& entry_of(after[entries.len() as int], saved) == e
        }),
{
    let after = entries.push(new_summary(e));
    assert(entry_ids(after) =~= entry_ids(entries).push(e.id));
    lemma_first_id_push(entry_ids(entries), e.id, e.id);
    let saved = bindings_saved(bindings, e.id, e.sources);
    lemma_first_id_bounds(binding_ids(bindings), e.id);
    let merged = match first_id(binding_ids(bindings), e.id) {
        Some(b) => merge_sources(bindings[b].1, e.sources),
        None => merge_sources(Seq::empty(), e.sources),
    };
    let b2: int = match first_id(binding_ids(bindings), e.id) {
        Some(b) => {
            assert(binding_ids(saved) =~= binding_ids(bindings)) by {
                assert(binding_ids(bindings)[b] == bindings[b].0);
            }
            b
        },
        None => {
            assert(binding_ids(saved) =~= binding_ids(bindings).push(e.id));
            lemma_first_id_push(binding_ids(bindings), e.id, e.id);
            bindings.len() as int
        },
    };
    assert(first_id(binding_ids(saved), e.id) == Some(b2));
    assert(saved[b2].1 == merged);
    lemma_merge_sources_lookup(
        match first_id(binding_ids(bindings), e.id) {
            Some(b) => bindings[b].1,
            None => Seq::empty(),
        },
        e.sources,
    );
    assert(after[entries.len() as int] == new_summary(e));
    let got = entry_of(new_summary(e), saved);
    assert(got.sources =~= e.sources) by {
        assert forall|k: int| 0 <= k < e.sources.len() implies got.sources[k] == e.sources[k] by {
            let m = first_id(source_ids(merged), e.sources[k].id)->0;
            assert(shared_sources(e.sources)[k].id == e.sources[k].id);
            assert(merged[m] == e.sources[k]);
        }
    }
}

/// The timeline an entry lists after `update_snapshot_note` is the one it listed before,
/// with the note of that one snapshot replaced: a note takes no part in the order, and
/// with snapshot ids distinct, the snapshot found by its id is the only one changed.
pub proof fn lemma_note_update_keeps_timeline(snaps: Seq<SnapshotView>, k: int, note: Seq<char>)
    requires
        0 <= k < snaps.len(),
        forall|a: int, b: int|
            0 <= a < snaps.len() && 0 <= b < snaps.len() && a != b ==> (#[trigger] snaps[a]).id != (
            #[trigger] snaps[b]).id,
    ensures
        stable_sort(snaps.update(k, SnapshotView { note, ..snaps[k] }), newer_first()) == stable_sort(
            snaps,
            newer_first(),
        ).map_values(|t: SnapshotView| if t.id == snaps[k].id { SnapshotView { note, ..t } } else { t }),
{
    let id = snaps[k].id;
    let g = |t: SnapshotView| if t.id == id { SnapshotView { note, ..t } } else { t };
    assert forall|a: SnapshotView, b: SnapshotView| #[trigger] newer_first()(g(a), g(b)) == newer_first()(a, b) by {}
    assert(snaps.update(k, SnapshotView { note, ..snaps[k] }) =~= snaps.map_values(g)) by {
        assert forall|j: int| 0 <= j < snaps.len() implies snaps.update(k, SnapshotView { note, ..snaps[k] })[j]
            == snaps.map_values(g)[j] by {
            if j != k {
                assert(snaps[j].id != id);
            }
        }
    }
    crate::order::lemma_stable_sort_map(snaps, newer_first(), g);
}

} // verus!
