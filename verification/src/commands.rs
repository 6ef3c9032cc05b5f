//! The records the desktop interface shows, built from the repository's types, and the small
//! rules its commands apply to user input.
use crate::model::{
    categories_view, files_view, sources_view, Category, ChangeSummary, Entry, EntryKind,
    EntrySource, FileView, Snapshot, SnapshotFile, SourceView, StoragePolicy, SyncMode,
};
use crate::remote::str_is;
use crate::repository::join_path;
use crate::text::{chars_of, trim, trim_chars};
use vstd::prelude::*;

verus! {

/// An archive as the interface lists it.
#[derive(Clone, Debug)]
pub struct EntryDto {
    pub id: String,
    pub name: String,
    pub source_path: String,
    pub sources: Vec<EntrySourceDto>,
    pub category: String,
    pub category_id: Option<String>,
    pub tags: Vec<String>,
    pub kind: String,
    pub storage_policy: String,
    pub sync_mode: String,
    pub created_at: u64,
    pub updated_at: u64,
    pub total_bytes: u64,
    pub last_snapshot_at: Option<u64>,
}

#[derive(Clone, Debug)]
pub struct CategoryDto {
    pub id: String,
    pub name: String,
    pub parent_id: Option<String>,
}

#[derive(Clone, Debug)]
pub struct RepositoryInfoDto {
    pub path: String,
    pub total_bytes: u64,
}

#[derive(Clone, Debug)]
pub struct RecycleItemDto {
    pub id: String,
    pub kind: String,
    pub display_name: String,
    pub deleted_at: u64,
    pub size_bytes: u64,
    pub entry_count: usize,
}

#[derive(Clone, Debug)]
pub struct EntrySourceDto {
    pub id: String,
    pub name: String,
    pub path: String,
    pub kind: String,
}

#[derive(Clone, Debug)]
pub struct SnapshotFileDto {
    pub path: String,
    pub size: u64,
    pub last_modified: u64,
    pub hash: String,
}

#[derive(Clone, Debug)]
pub struct SnapshotDto {
    pub id: String,
    pub archive_id: String,
    pub title: String,
    pub created_at: u64,
    pub total_bytes: u64,
    pub content_hash: String,
    pub files: Vec<SnapshotFileDto>,
    pub changes: ChangeSummary,
    pub safety: bool,
    pub device_id: String,
    pub device_name: String,
}

/// One recorded failure shown in the diagnostics list.
#[derive(Clone, Debug)]
pub struct DiagnosticEntryDto {
    pub id: String,
    pub occurred_at: u64,
    pub operation: String,
    pub archive_id: Option<String>,
    pub source_id: Option<String>,
    pub message: String,
    pub details: String,
}

fn text(s: &str) -> (r: String)
    ensures
        r@ == s@,
{
    s.to_owned()
}

/// The name the interface gives a kind of source.
pub open spec fn kind_name(kind: EntryKind) -> Seq<char> {
    match kind {
        EntryKind::File => "file"@,
        EntryKind::Directory => "folder"@,
        EntryKind::Registry => "registry"@,
    }
}

fn kind_text(kind: EntryKind) -> (r: String)
    ensures
        r@ == kind_name(kind),
{
    match kind {
        EntryKind::File => text("file"),
        EntryKind::Directory => text("folder"),
        EntryKind::Registry => text("registry"),
    }
}

/// The interface record of one source of an archive.
pub fn entry_source_dto(source: EntrySource) -> (r: EntrySourceDto)
    ensures
        r.id == source.id,
        r.name == source.name,
        r.path == source.path,
        r.kind@ == kind_name(source.kind),
{
    let kind = kind_text(source.kind);
    EntrySourceDto { id: source.id, name: source.name, path: source.path, kind }
}

/// The interface record of a category.
pub fn category_dto(category: Category) -> (r: CategoryDto)
    ensures
        r.id == category.id,
        r.name == category.name,
        r.parent_id == category.parent_id,
{
    CategoryDto { id: category.id, name: category.name, parent_id: category.parent_id }
}

/// The interface record of one file of a snapshot.
pub fn snapshot_file_dto(file: SnapshotFile) -> (r: SnapshotFileDto)
    ensures
        r.path == file.relative_path,
        r.size == file.size_bytes,
        r.last_modified == file.modified_at_ms,
        r.hash == file.content_hash,
{
    SnapshotFileDto {
        path: file.relative_path,
        size: file.size_bytes,
        last_modified: file.modified_at_ms,
        hash: file.content_hash,
    }
}

/// The total size of the files of a snapshot.
pub open spec fn files_total(files: Seq<FileView>) -> int
    decreases files.len(),
{
    if files.len() == 0 {
        0
    } else {
        files_total(files.drop_last()) + files.last().size_bytes
    }
}

fn sum_files(files: &Vec<SnapshotFile>) -> (r: u64)
    requires
        files_total(files_view(files@)) <= u64::MAX,
    ensures
        r == files_total(files_view(files@)),
{
    let mut total: u64 = 0;
    let mut i: usize = 0;
    while i < files.len()
        invariant
            i <= files@.len(),
            total == files_total(files_view(files@.take(i as int))),
            files_total(files_view(files@)) <= u64::MAX,
        decreases files@.len() - i,
    {
        proof {
            assert(files_view(files@.take(i + 1)).drop_last() =~= files_view(files@.take(i as int)));
            lemma_files_total_prefix(files_view(files@), i + 1);
            assert(files_view(files@).take(i + 1) =~= files_view(files@.take(i + 1)));
        }
        total = total + files[i].size_bytes;
        i = i + 1;
    }
    proof {
        assert(files@.take(i as int) =~= files@);
    }
    total
}

/// A prefix of the files is no larger than all of them.
proof fn lemma_files_total_prefix(files: Seq<FileView>, n: int)
    requires
        0 <= n <= files.len(),
    ensures
        files_total(files.take(n)) <= files_total(files),
        files_total(files.take(n)) >= 0,
    decreases files.len() - n,
{
    if n < files.len() {
        lemma_files_total_prefix(files, n + 1);
        assert(files.take(n + 1).drop_last() =~= files.take(n));
    } else {
        assert(files.take(n) =~= files);
    }
    lemma_files_total_nonneg(files.take(n));
}

proof fn lemma_files_total_nonneg(files: Seq<FileView>)
    ensures
        files_total(files) >= 0,
    decreases files.len(),
{
    if files.len() > 0 {
        lemma_files_total_nonneg(files.drop_last());
    }
}

/// The interface record of a snapshot, with the total size of its files.
pub fn snapshot_dto(snapshot: Snapshot) -> (r: SnapshotDto)
    requires
        files_total(files_view(snapshot.files@)) <= u64::MAX,
    ensures
        r.id == snapshot.id,
        r.archive_id == snapshot.entry_id,
        r.title == snapshot.title,
        r.created_at == snapshot.created_at_ms,
        r.total_bytes == files_total(files_view(snapshot.files@)),
        r.content_hash == snapshot.object_hash,
        r.files@.len() == snapshot.files@.len(),
        forall|i: int|
            0 <= i < r.files@.len() ==> (#[trigger] r.files@[i]).path == snapshot.files@[i].relative_path
                && r.files@[i].size == snapshot.files@[i].size_bytes && r.files@[i].last_modified
                == snapshot.files@[i].modified_at_ms && r.files@[i].hash
                == snapshot.files@[i].content_hash,
        r.changes == snapshot.changes,
        r.safety == snapshot.safety,
        r.device_id == snapshot.device_id,
        r.device_name == snapshot.device_name,
{
    let total_bytes = sum_files(&snapshot.files);
    let ghost originals = snapshot.files@;
    let mut rest = snapshot.files;
    let mut files: Vec<SnapshotFileDto> = Vec::new();
    let mut n: usize = 0;
    let total = rest.len();
    while rest.len() > 0
        invariant
            rest@ == originals.skip(n as int),
            n <= originals.len(),
            originals.len() == total,
            files@.len() == n,
            forall|i: int|
                0 <= i < n ==> (#[trigger] files@[i]).path == originals[i].relative_path
                    && files@[i].size == originals[i].size_bytes && files@[i].last_modified
                    == originals[i].modified_at_ms && files@[i].hash == originals[i].content_hash,
        decreases rest@.len(),
    {
        let file = rest.remove(0);
        proof {
            assert(file == originals[n as int]);
        }
        files.push(snapshot_file_dto(file));
        n = n + 1;
        proof {
            assert(rest@ =~= originals.skip(n as int));
        }
    }
    SnapshotDto {
        id: snapshot.id,
        archive_id: snapshot.entry_id,
        title: snapshot.title,
        created_at: snapshot.created_at_ms,
        total_bytes,
        content_hash: snapshot.object_hash,
        files,
        changes: snapshot.changes,
        safety: snapshot.safety,
        device_id: snapshot.device_id,
        device_name: snapshot.device_name,
    }
}

/// The source paths of an archive joined with ` · `.
pub open spec fn joined_paths(sources: Seq<SourceView>) -> Seq<char>
    decreases sources.len(),
{
    if sources.len() == 0 {
        Seq::empty()
    } else if sources.len() == 1 {
        sources[0].path
    } else {
        joined_paths(sources.drop_last()) + " · "@ + sources.last().path
    }
}

fn join_source_paths(sources: &Vec<EntrySource>) -> (r: String)
    ensures
        r@ == joined_paths(sources_view(sources@)),
{
    let mut out: Vec<char> = Vec::new();
    let separator = chars_of(" · ");
    let mut i: usize = 0;
    while i < sources.len()
        invariant
            i <= sources@.len(),
            separator@ == " · "@,
            out@ == joined_paths(sources_view(sources@.take(i as int))),
        decreases sources@.len() - i,
    {
        proof {
            assert(sources_view(sources@.take(i + 1)).drop_last() =~= sources_view(
                sources@.take(i as int),
            ));
            assert(sources_view(sources@.take(i + 1)).last() == sources@[i as int]@);
            if i == 0 {
                assert(sources_view(sources@.take(0)) =~= Seq::<SourceView>::empty());
            }
        }
        if i > 0 {
            let mut j: usize = 0;
            let ghost start = out@;
            while j < separator.len()
                invariant
                    j <= separator@.len(),
                    out@ == start + separator@.take(j as int),
                decreases separator@.len() - j,
            {
                out.push(separator[j]);
                j = j + 1;
                proof {
                    assert(out@ =~= start + separator@.take(j as int));
                }
            }
            proof {
                assert(separator@.take(j as int) =~= separator@);
            }
        }
        let path = chars_of(sources[i].path.as_str());
        let ghost start = out@;
        let mut j: usize = 0;
        while j < path.len()
            invariant
                j <= path@.len(),
                out@ == start + path@.take(j as int),
            decreases path@.len() - j,
        {
            out.push(path[j]);
            j = j + 1;
            proof {
                assert(out@ =~= start + path@.take(j as int));
            }
        }
        proof {
            assert(path@.take(j as int) =~= path@);
            if i == 0 {
                assert(out@ =~= sources@[0].path@);
            }
        }
        i = i + 1;
    }
    proof {
        assert(sources@.take(i as int) =~= sources@);
    }
    crate::text::string_of(out.as_slice())
}

/// The interface kind of an archive: that of its only source, or a collection.
pub open spec fn entry_kind_name(sources: Seq<SourceView>) -> Seq<char> {
    if sources.len() == 1 {
        kind_name(sources[0].kind)
    } else {
        "collection"@
    }
}

/// The interface record of an archive, given its newest snapshot (if any) and the name of its
/// category (if it has one that exists).
pub fn entry_dto(entry: Entry, latest: Option<&Snapshot>, category_name: Option<String>) -> (r:
    EntryDto)
    requires
        latest matches Some(s) ==> files_total(files_view(s.files@)) <= u64::MAX,
    ensures
        r.id == entry.id,
        r.name == entry.name,
        r.source_path@ == joined_paths(sources_view(entry.sources@)),
        r.sources@.len() == entry.sources@.len(),
        forall|i: int|
            0 <= i < r.sources@.len() ==> (#[trigger] r.sources@[i]).id == entry.sources@[i].id
                && r.sources@[i].name == entry.sources@[i].name && r.sources@[i].path
                == entry.sources@[i].path && r.sources@[i].kind@ == kind_name(
                entry.sources@[i].kind,
            ),
        r.category@ == match category_name {
            Some(n) => n@,
            None => "未分类"@,
        },
        r.category_id == entry.category_id,
        r.tags == entry.tags,
        r.kind@ == entry_kind_name(sources_view(entry.sources@)),
        r.storage_policy@ == match entry.storage_policy {
            StoragePolicy::Local => "local"@,
            StoragePolicy::LocalAndRemote => "local_and_remote"@,
        },
        r.sync_mode@ == match entry.sync_mode {
            SyncMode::Manual => "manual"@,
            SyncMode::Automatic => "automatic"@,
        },
        r.created_at == entry.created_at_ms,
        r.updated_at == match latest {
            Some(s) => s.created_at_ms,
            None => entry.created_at_ms,
        },
        r.total_bytes == match latest {
            Some(s) => files_total(files_view(s.files@)),
            None => 0,
        },
        r.last_snapshot_at == match latest {
            Some(s) => Some(s.created_at_ms),
            None => None,
        },
{
    let source_path = join_source_paths(&entry.sources);
    let kind = if entry.sources.len() == 1 {
        kind_text(entry.sources[0].kind)
    } else {
        text("collection")
    };
    let ghost originals = entry.sources@;
    let mut rest = entry.sources;
    let mut sources: Vec<EntrySourceDto> = Vec::new();
    let mut n: usize = 0;
    let total = rest.len();
    while rest.len() > 0
        invariant
            rest@ == originals.skip(n as int),
            n <= originals.len(),
            originals.len() == total,
            sources@.len() == n,
            forall|i: int|
                0 <= i < n ==> (#[trigger] sources@[i]).id == originals[i].id && sources@[i].name
                    == originals[i].name && sources@[i].path == originals[i].path
                    && sources@[i].kind@ == kind_name(originals[i].kind),
        decreases rest@.len(),
    {
        let source = rest.remove(0);
        proof {
            assert(source == originals[n as int]);
        }
        sources.push(entry_source_dto(source));
        n = n + 1;
        proof {
            assert(rest@ =~= originals.skip(n as int));
        }
    }
    let storage_policy = match entry.storage_policy {
        StoragePolicy::Local => text("local"),
        StoragePolicy::LocalAndRemote => text("local_and_remote"),
    };
    let sync_mode = match entry.sync_mode {
        SyncMode::Manual => text("manual"),
        SyncMode::Automatic => text("automatic"),
    };
    let (updated_at, total_bytes, last_snapshot_at) = match latest {
        Some(s) => (s.created_at_ms, sum_files(&s.files), Some(s.created_at_ms)),
        None => (entry.created_at_ms, 0, None),
    };
    EntryDto {
        id: entry.id,
        name: entry.name,
        source_path,
        sources,
        category: match category_name {
            Some(n) => n,
            None => text("未分类"),
        },
        category_id: entry.category_id,
        tags: entry.tags,
        kind,
        storage_policy,
        sync_mode,
        created_at: entry.created_at_ms,
        updated_at,
        total_bytes,
        last_snapshot_at,
    }
}

/// The name of the first category with id `id`.
pub open spec fn category_name_of(categories: Seq<Category>, id: Seq<char>) -> Option<Seq<char>>
    decreases categories.len(),
{
    if categories.len() == 0 {
        None
    } else if categories[0].id@ == id {
        Some(categories[0].name@)
    } else {
        category_name_of(categories.drop_first(), id)
    }
}

fn find_category_name(categories: &Vec<Category>, id: &str) -> (r: Option<String>)
    ensures
        match r {
            Some(n) => category_name_of(categories@, id@) == Some(n@),
            None => category_name_of(categories@, id@) is None,
        },
{
    let mut i: usize = 0;
    proof {
        assert(categories@.skip(0) =~= categories@);
    }
    while i < categories.len()
        invariant
            i <= categories@.len(),
            category_name_of(categories@, id@) == category_name_of(categories@.skip(i as int), id@),
        decreases categories@.len() - i,
    {
        proof {
            assert(categories@.skip(i as int)[0] == categories@[i as int]);
            assert(categories@.skip(i as int).drop_first() =~= categories@.skip(i + 1));
        }
        if str_is(categories[i].id.as_str(), id) {
            return Some(categories[i].name.clone());
        }
        i = i + 1;
    }
    proof {
        assert(categories@.skip(i as int) =~= Seq::<Category>::empty());
    }
    None
}

/// The interface record of a listed archive: its category is named when it exists.
pub fn entry_row(entry: Entry, latest: Option<&Snapshot>, categories: &Vec<Category>) -> (r: EntryDto)
    requires
        latest matches Some(s) ==> files_total(files_view(s.files@)) <= u64::MAX,
    ensures
        r.id == entry.id,
        r.category@ == match entry.category_id {
            Some(c) => match category_name_of(categories@, c@) {
                Some(n) => n,
                None => "未分类"@,
            },
            None => "未分类"@,
        },
        r.category_id == entry.category_id,
        r.updated_at == match latest {
            Some(s) => s.created_at_ms,
            None => entry.created_at_ms,
        },
{
    let name = match &entry.category_id {
        Some(c) => find_category_name(categories, c.as_str()),
        None => None,
    };
    entry_dto(entry, latest, name)
}

pub open spec fn sync_mode_message() -> Seq<char> {
    "不支持的同步方式"@
}

/// Reads a synchronization mode chosen in the interface.
pub fn parse_sync_mode(value: &str) -> (r: Result<SyncMode, String>)
    ensures
        value@ == "manual"@ ==> r == Ok::<SyncMode, String>(SyncMode::Manual),
        value@ == "automatic"@ ==> r == Ok::<SyncMode, String>(SyncMode::Automatic),
        value@ != "manual"@ && value@ != "automatic"@ ==> (r matches Err(e) && e@
            == sync_mode_message()),
{
    proof {
        reveal_strlit("manual");
        reveal_strlit("automatic");
        assert("manual"@.len() != "automatic"@.len());
    }
    if str_is(value, "manual") {
        Ok(SyncMode::Manual)
    } else if str_is(value, "automatic") {
        Ok(SyncMode::Automatic)
    } else {
        Err(text("不支持的同步方式"))
    }
}

pub open spec fn storage_policy_message() -> Seq<char> {
    "不支持的保存方式"@
}

/// Reads a storage policy chosen in the interface.
pub fn parse_storage_policy(value: &str) -> (r: Result<StoragePolicy, String>)
    ensures
        value@ == "local"@ ==> r == Ok::<StoragePolicy, String>(StoragePolicy::Local),
        value@ == "local_and_remote"@ ==> r == Ok::<StoragePolicy, String>(
            StoragePolicy::LocalAndRemote,
        ),
        value@ != "local"@ && value@ != "local_and_remote"@ ==> (r matches Err(e) && e@
            == storage_policy_message()),
{
    proof {
        reveal_strlit("local");
        reveal_strlit("local_and_remote");
        assert("local"@.len() != "local_and_remote"@.len());
    }
    if str_is(value, "local") {
        Ok(StoragePolicy::Local)
    } else if str_is(value, "local_and_remote") {
        Ok(StoragePolicy::LocalAndRemote)
    } else {
        Err(text("不支持的保存方式"))
    }
}

/// Where deleted items go: nowhere when the recycle bin is off, else the configured folder,
/// or `recycle` below the repository when none (or only blanks) is configured.
pub fn recycle_root(repository_root: &str, enabled: bool, configured_path: Option<String>) -> (r:
    Option<String>)
    ensures
        !enabled ==> r is None,
        enabled ==> r is Some,
        enabled ==> match configured_path {
            Some(p) => if trim(p@).len() > 0 {
                r->Some_0@ == p@
            } else {
                r->Some_0@ == crate::repository::joined_path(repository_root@, "recycle"@)
            },
            None => r->Some_0@ == crate::repository::joined_path(repository_root@, "recycle"@),
        },
{
    if !enabled {
        return None;
    }
    match configured_path {
        Some(p) => {
            let chars = chars_of(p.as_str());
            if trim_chars(chars.as_slice()).len() > 0 {
                return Some(p);
            }
            Some(join_path(repository_root, "recycle"))
        },
        None => Some(join_path(repository_root, "recycle")),
    }
}

/// The diagnostics list after recording `entry`: newest first, at most two hundred kept.
pub fn with_diagnostic(entries: Vec<DiagnosticEntryDto>, entry: DiagnosticEntryDto) -> (r: Vec<
    DiagnosticEntryDto,
>)
    ensures
        r@ == (seq![entry] + entries@).take(
            if entries@.len() + 1 <= 200 {
                entries@.len() + 1int
            } else {
                200int
            },
        ),
{
    let mut all = entries;
    let ghost before = all@;
    all.insert(0, entry);
    proof {
        assert(all@ =~= seq![entry] + before);
    }
    if all.len() > 200 {
        all.truncate(200);
    }
    proof {
        if before.len() + 1 <= 200 {
            assert(all@ =~= (seq![entry] + before).take(before.len() + 1int));
        }
    }
    all
}

} // verus!
