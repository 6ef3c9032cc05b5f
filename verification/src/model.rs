//! Domain types of the backup timeline, with their plain-value views.
use vstd::prelude::*;

verus! {

/// The kind of source tracked by Chronicle.
#[derive(Clone, Copy, Debug, PartialEq, Eq, Structural)]
pub enum EntryKind {
    /// A single file.
    File,
    /// A directory tree.
    Directory,
    /// A registry subkey.
    Registry,
}

/// Where an entry's snapshots are kept.
#[derive(Clone, Copy, Debug, PartialEq, Eq, Structural)]
pub enum StoragePolicy {
    Local,
    LocalAndRemote,
}

/// Whether an entry is synchronized by hand or after every snapshot.
#[derive(Clone, Copy, Debug, PartialEq, Eq, Structural)]
pub enum SyncMode {
    Manual,
    Automatic,
}

impl Default for SyncMode {
    fn default() -> (m: Self)
        ensures
            m == SyncMode::Manual,
    {
        SyncMode::Manual
    }
}

/// One file, directory or registry key captured by an entry.
#[derive(Clone, Debug, PartialEq, Eq)]
pub struct EntrySource {
    /// Stable slot identifier, kept when the path of the slot changes.
    pub id: String,
    /// File or directory name of the source.
    pub name: String,
    /// Path on this device; empty in shared metadata.
    pub path: String,
    pub kind: EntryKind,
}

pub struct SourceView {
    pub id: Seq<char>,
    pub name: Seq<char>,
    pub path: Seq<char>,
    pub kind: EntryKind,
}

impl View for EntrySource {
    type V = SourceView;

    open spec fn view(&self) -> SourceView {
        SourceView { id: self.id@, name: self.name@, path: self.path@, kind: self.kind }
    }
}

/// A named backup archive made of one or more sources.
#[derive(Clone, Debug, PartialEq, Eq)]
pub struct Entry {
    pub id: String,
    pub name: String,
    pub sources: Vec<EntrySource>,
    pub category_id: Option<String>,
    pub tags: Vec<String>,
    pub storage_policy: StoragePolicy,
    pub sync_mode: SyncMode,
    pub created_at_ms: u64,
    pub exclude_patterns: Vec<String>,
    pub auto_backup_enabled: bool,
}

pub struct EntryView {
    pub id: Seq<char>,
    pub name: Seq<char>,
    pub sources: Seq<SourceView>,
    pub category_id: Option<Seq<char>>,
    pub tags: Seq<Seq<char>>,
    pub storage_policy: StoragePolicy,
    pub sync_mode: SyncMode,
    pub created_at_ms: u64,
    pub exclude_patterns: Seq<Seq<char>>,
    pub auto_backup_enabled: bool,
}

pub open spec fn opt_view(s: Option<String>) -> Option<Seq<char>> {
    match s {
        Some(v) => Some(v@),
        None => None,
    }
}

pub open spec fn strings_view(s: Seq<String>) -> Seq<Seq<char>> {
    s.map_values(|x: String| x@)
}

pub open spec fn sources_view(s: Seq<EntrySource>) -> Seq<SourceView> {
    s.map_values(|x: EntrySource| x@)
}

impl View for Entry {
    type V = EntryView;

    open spec fn view(&self) -> EntryView {
        EntryView {
            id: self.id@,
            name: self.name@,
            sources: sources_view(self.sources@),
            category_id: opt_view(self.category_id),
            tags: strings_view(self.tags@),
            storage_policy: self.storage_policy,
            sync_mode: self.sync_mode,
            created_at_ms: self.created_at_ms,
            exclude_patterns: strings_view(self.exclude_patterns@),
            auto_backup_enabled: self.auto_backup_enabled,
        }
    }
}

/// A node of the category tree.
#[derive(Clone, Debug, PartialEq, Eq)]
pub struct Category {
    pub id: String,
    pub name: String,
    pub parent_id: Option<String>,
}

pub struct CategoryView {
    pub id: Seq<char>,
    pub name: Seq<char>,
    pub parent_id: Option<Seq<char>>,
}

impl View for Category {
    type V = CategoryView;

    open spec fn view(&self) -> CategoryView {
        CategoryView { id: self.id@, name: self.name@, parent_id: opt_view(self.parent_id) }
    }
}

/// Metadata for one file contained in a snapshot.
#[derive(Clone, Debug, PartialEq, Eq)]
pub struct SnapshotFile {
    /// Forward-slash-separated path relative to the entry root.
    pub relative_path: String,
    /// File content hash.
    pub content_hash: String,
    /// Uncompressed byte count.
    pub size_bytes: u64,
    /// Source modification time expressed as Unix milliseconds.
    pub modified_at_ms: u64,
}

pub struct FileView {
    pub relative_path: Seq<char>,
    pub content_hash: Seq<char>,
    pub size_bytes: u64,
    pub modified_at_ms: u64,
}

impl View for SnapshotFile {
    type V = FileView;

    open spec fn view(&self) -> FileView {
        FileView {
            relative_path: self.relative_path@,
            content_hash: self.content_hash@,
            size_bytes: self.size_bytes,
            modified_at_ms: self.modified_at_ms,
        }
    }
}

pub open spec fn entry_views(s: Seq<Entry>) -> Seq<EntryView> {
    s.map_values(|x: Entry| x@)
}

pub open spec fn files_view(s: Seq<SnapshotFile>) -> Seq<FileView> {
    s.map_values(|x: SnapshotFile| x@)
}

/// File-level difference from a snapshot's direct parent.
#[derive(Clone, Copy, Debug, Default, PartialEq, Eq, Structural)]
pub struct ChangeSummary {
    /// Files absent from the parent snapshot.
    pub added: u64,
    /// Files whose content differs from the parent snapshot.
    pub modified: u64,
    /// Files removed since the parent snapshot.
    pub deleted: u64,
}

/// Immutable metadata for one point-in-time backup.
#[derive(Clone, Debug, PartialEq, Eq)]
pub struct Snapshot {
    pub id: String,
    pub entry_id: String,
    pub parent_id: Option<String>,
    pub device_id: String,
    pub device_name: String,
    pub title: String,
    pub note: String,
    pub created_at_ms: u64,
    pub archive_name: String,
    pub object_hash: String,
    pub size_bytes: u64,
    pub files: Vec<SnapshotFile>,
    pub changes: ChangeSummary,
    /// Whether this was created automatically before a restore.
    pub safety: bool,
    /// Whether the snapshot is pinned against retention and deletion.
    pub locked: bool,
}

pub struct SnapshotView {
    pub id: Seq<char>,
    pub entry_id: Seq<char>,
    pub parent_id: Option<Seq<char>>,
    pub device_id: Seq<char>,
    pub device_name: Seq<char>,
    pub title: Seq<char>,
    pub note: Seq<char>,
    pub created_at_ms: u64,
    pub archive_name: Seq<char>,
    pub object_hash: Seq<char>,
    pub size_bytes: u64,
    pub files: Seq<FileView>,
    pub changes: ChangeSummary,
    pub safety: bool,
    pub locked: bool,
}

impl View for Snapshot {
    type V = SnapshotView;

    open spec fn view(&self) -> SnapshotView {
        SnapshotView {
            id: self.id@,
            entry_id: self.entry_id@,
            parent_id: opt_view(self.parent_id),
            device_id: self.device_id@,
            device_name: self.device_name@,
            title: self.title@,
            note: self.note@,
            created_at_ms: self.created_at_ms,
            archive_name: self.archive_name@,
            object_hash: self.object_hash@,
            size_bytes: self.size_bytes,
            files: files_view(self.files@),
            changes: self.changes,
            safety: self.safety,
            locked: self.locked,
        }
    }
}

pub open spec fn snapshots_view(s: Seq<Snapshot>) -> Seq<SnapshotView> {
    s.map_values(|x: Snapshot| x@)
}

pub open spec fn categories_view(s: Seq<Category>) -> Seq<CategoryView> {
    s.map_values(|x: Category| x@)
}

pub fn copy_opt_string(s: &Option<String>) -> (r: Option<String>)
    ensures
        opt_view(r) == opt_view(*s),
{
    match s {
        Some(v) => Some(v.clone()),
        None => None,
    }
}

pub fn copy_strings(s: &Vec<String>) -> (r: Vec<String>)
    ensures
        strings_view(r@) == strings_view(s@),
{
    let mut r: Vec<String> = Vec::new();
    let mut i: usize = 0;
    while i < s.len()
        invariant
            i <= s@.len(),
            strings_view(r@) == strings_view(s@.take(i as int)),
        decreases s@.len() - i,
    {
        let ghost prev = r@;
        let item = s[i].clone();
        r.push(item);
        proof {
            assert(r@ =~= prev.push(item));
            assert(s@.take(i + 1) =~= s@.take(i as int).push(s@[i as int]));
            assert(strings_view(r@) =~= strings_view(prev).push(item@));
            assert(strings_view(s@.take(i + 1)) =~= strings_view(s@.take(i as int)).push(s@[i as int]@));
        }
        i = i + 1;
    }
    proof {
        assert(s@.take(s@.len() as int) =~= s@);
    }
    r
}

impl EntrySource {
    pub fn duplicate(&self) -> (r: Self)
        ensures
            r@ == self@,
    {
        EntrySource {
            id: self.id.clone(),
            name: self.name.clone(),
            path: self.path.clone(),
            kind: self.kind,
        }
    }
}

pub fn copy_sources(s: &Vec<EntrySource>) -> (r: Vec<EntrySource>)
    ensures
        sources_view(r@) == sources_view(s@),
{
    let mut r: Vec<EntrySource> = Vec::new();
    let mut i: usize = 0;
    while i < s.len()
        invariant
            i <= s@.len(),
            sources_view(r@) == sources_view(s@.take(i as int)),
        decreases s@.len() - i,
    {
        let ghost prev = r@;
        let item = s[i].duplicate();
        r.push(item);
        proof {
            assert(r@ =~= prev.push(item));
            assert(s@.take(i + 1) =~= s@.take(i as int).push(s@[i as int]));
            assert(sources_view(r@) =~= sources_view(prev).push(item@));
            assert(sources_view(s@.take(i + 1)) =~= sources_view(s@.take(i as int)).push(s@[i as int]@));
        }
        i = i + 1;
    }
    proof {
        assert(s@.take(s@.len() as int) =~= s@);
    }
    r
}

impl Category {
    pub fn duplicate(&self) -> (r: Self)
        ensures
            r@ == self@,
    {
        Category {
            id: self.id.clone(),
            name: self.name.clone(),
            parent_id: copy_opt_string(&self.parent_id),
        }
    }
}

pub fn copy_categories(s: &Vec<Category>) -> (r: Vec<Category>)
    ensures
        categories_view(r@) == categories_view(s@),
{
    let mut r: Vec<Category> = Vec::new();
    let mut i: usize = 0;
    while i < s.len()
        invariant
            i <= s@.len(),
            categories_view(r@) == categories_view(s@.take(i as int)),
        decreases s@.len() - i,
    {
        let ghost prev = r@;
        let item = s[i].duplicate();
        r.push(item);
        proof {
            assert(r@ =~= prev.push(item));
            assert(s@.take(i + 1) =~= s@.take(i as int).push(s@[i as int]));
            assert(categories_view(r@) =~= categories_view(prev).push(item@));
            assert(categories_view(s@.take(i + 1)) =~= categories_view(s@.take(i as int)).push(s@[i as int]@));
        }
        i = i + 1;
    }
    proof {
        assert(s@.take(s@.len() as int) =~= s@);
    }
    r
}

impl SnapshotFile {
    pub fn duplicate(&self) -> (r: Self)
        ensures
            r@ == self@,
    {
        SnapshotFile {
            relative_path: self.relative_path.clone(),
            content_hash: self.content_hash.clone(),
            size_bytes: self.size_bytes,
            modified_at_ms: self.modified_at_ms,
        }
    }
}

pub fn copy_files(s: &Vec<SnapshotFile>) -> (r: Vec<SnapshotFile>)
    ensures
        files_view(r@) == files_view(s@),
{
    let mut r: Vec<SnapshotFile> = Vec::new();
    let mut i: usize = 0;
    while i < s.len()
        invariant
            i <= s@.len(),
            files_view(r@) == files_view(s@.take(i as int)),
        decreases s@.len() - i,
    {
        let ghost prev = r@;
        let item = s[i].duplicate();
        r.push(item);
        proof {
            assert(r@ =~= prev.push(item));
            assert(s@.take(i + 1) =~= s@.take(i as int).push(s@[i as int]));
            assert(files_view(r@) =~= files_view(prev).push(item@));
            assert(files_view(s@.take(i + 1)) =~= files_view(s@.take(i as int)).push(s@[i as int]@));
        }
        i = i + 1;
    }
    proof {
        assert(s@.take(s@.len() as int) =~= s@);
    }
    r
}

impl Snapshot {
    pub fn duplicate(&self) -> (r: Self)
        ensures
            r@ == self@,
    {
        Snapshot {
            id: self.id.clone(),
            entry_id: self.entry_id.clone(),
            parent_id: copy_opt_string(&self.parent_id),
            device_id: self.device_id.clone(),
            device_name: self.device_name.clone(),
            title: self.title.clone(),
            note: self.note.clone(),
            created_at_ms: self.created_at_ms,
            archive_name: self.archive_name.clone(),
            object_hash: self.object_hash.clone(),
            size_bytes: self.size_bytes,
            files: copy_files(&self.files),
            changes: self.changes,
            safety: self.safety,
            locked: self.locked,
        }
    }
}

pub fn copy_snapshots(s: &Vec<Snapshot>) -> (r: Vec<Snapshot>)
    ensures
        snapshots_view(r@) == snapshots_view(s@),
{
    let mut r: Vec<Snapshot> = Vec::new();
    let mut i: usize = 0;
    while i < s.len()
        invariant
            i <= s@.len(),
            snapshots_view(r@) == snapshots_view(s@.take(i as int)),
        decreases s@.len() - i,
    {
        let ghost prev = r@;
        let item = s[i].duplicate();
        r.push(item);
        proof {
            assert(r@ =~= prev.push(item));
            assert(s@.take(i + 1) =~= s@.take(i as int).push(s@[i as int]));
            assert(snapshots_view(r@) =~= snapshots_view(prev).push(item@));
            assert(snapshots_view(s@.take(i + 1)) =~= snapshots_view(s@.take(i as int)).push(s@[i as int]@));
        }
        i = i + 1;
    }
    proof {
        assert(s@.take(s@.len() as int) =~= s@);
    }
    r
}

impl Entry {
    pub fn duplicate(&self) -> (r: Self)
        ensures
            r@ == self@,
    {
        Entry {
            id: self.id.clone(),
            name: self.name.clone(),
            sources: copy_sources(&self.sources),
            category_id: copy_opt_string(&self.category_id),
            tags: copy_strings(&self.tags),
            storage_policy: self.storage_policy,
            sync_mode: self.sync_mode,
            created_at_ms: self.created_at_ms,
            exclude_patterns: copy_strings(&self.exclude_patterns),
            auto_backup_enabled: self.auto_backup_enabled,
        }
    }
}

} // verus!
