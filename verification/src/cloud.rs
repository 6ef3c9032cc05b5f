//! Cloud synchronization decisions: request limits from settings, timeline comparison,
//! the choice between upload, download and merge, and catalog publication.
use crate::json::{
    copy_json, field, first_member, get, items_of, items_tree, lemma_member_tree, members_tree,
    text_of, uint_of, Json, JsonTree,
};
use crate::keyed::{
    string_listed, has_key_outside, keep_keys, lemma_pairs_map_append, pairs_map, value_nonempty,
};
use crate::model::{opt_view, sources_view, strings_view, EntrySource};
use crate::repository::{CatalogEntry, CatalogEntryView};
use crate::order::{
    insert_sorted, insertion_point, lemma_insert_at_point, lemma_stable_sort_permutes, stable_sort,
};
use crate::github::{count_nonempty, count_nonempty_parts};
use crate::remote::{
    path_escape_message, str_in, str_is, valid_relative_path_spec, validate_relative_path,
    OPEN_DAL_SCHEMES, PUBLIC_CONFIG_KEYS,
};
use crate::text::{chars_of, split, string_of};
use crate::webdav::WebDavError;
use crate::sync::RequestPolicy;
use vstd::prelude::*;

verus! {

/// A configured synchronization source, as the settings document describes it.
#[derive(Clone, Debug)]
pub struct CloudSourceInput {
    pub id: String,
    pub name: String,
    pub provider: String,
    pub endpoint: String,
    pub username: String,
    pub remote_path: String,
    pub credential_ref: String,
    pub repository: String,
    pub branch: String,
    pub scheme: String,
    /// Public service settings, one value per key.
    pub config: Vec<(String, String)>,
    pub secret_keys: Vec<String>,
    pub sync_enabled: bool,
}

/// One row of the remote overview: a configuration file or an archive.
#[derive(Clone, Debug)]
pub struct RemoteItemDto {
    pub id: String,
    pub name: String,
    pub kind: String,
    pub protected: bool,
    pub snapshot_count: usize,
    pub size_bytes: u64,
    pub updated_at: Option<u64>,
    pub sync_mode: String,
}

/// The remote overview of a source.
#[derive(Clone, Debug)]
pub struct CloudPreviewDto {
    pub source_name: String,
    pub library_id: Option<String>,
    pub items: Vec<RemoteItemDto>,
}

/// What a synchronization pass did, with the message shown to the user.
#[derive(Clone, Debug)]
pub struct SyncResultDto {
    pub status: String,
    pub message: String,
}

/// A repository created on GitHub for a source.
#[derive(Clone, Debug)]
pub struct CreatedGitHubRepositoryDto {
    pub repository: String,
    pub branch: String,
}

/// Whether a source has a saved credential; never the credential itself.
#[derive(Clone, Debug)]
pub struct CloudSourceStatusDto {
    pub source_id: String,
    pub credential_saved: bool,
}

/// The unsigned value of `cloud.<key>` in the settings, or `default`.
pub open spec fn cloud_setting(settings: JsonTree, key: Seq<char>, default: u64) -> u64 {
    let cloud = match field(settings, "cloud"@) {
        Some(c) => c,
        None => JsonTree::Null,
    };
    match uint_of(field(cloud, key)) {
        Some(n) => n,
        None => default,
    }
}

/// A concurrency width from the settings: two when unset or wider than the machine word.
pub open spec fn width_setting(settings: JsonTree, key: Seq<char>) -> usize {
    let n = cloud_setting(settings, key, 2);
    if n <= usize::MAX {
        n as usize
    } else {
        2
    }
}

/// The retry limit from the settings, capped at ten.
pub open spec fn retry_setting(settings: JsonTree) -> u8 {
    let n = cloud_setting(settings, "retryLimit"@, 5);
    if n <= 10 {
        n as u8
    } else {
        10
    }
}

/// The unsigned value of member `key`, read from a document.
fn member_u64(value: &Json, key: &str) -> (r: Option<u64>)
    ensures
        r == uint_of(field(value.tree(), key@)),
{
    proof {
        lemma_member_tree(*value, key@);
    }
    match get(value, key) {
        Some(Json::UInt(n)) => Some(*n),
        _ => None,
    }
}

/// The text of member `key`, copied out of a document.
fn member_text(value: &Json, key: &str) -> (r: Option<String>)
    ensures
        match r {
            Some(s) => text_of(field(value.tree(), key@)) == Some(s@),
            None => text_of(field(value.tree(), key@)) is None,
        },
{
    proof {
        lemma_member_tree(*value, key@);
    }
    match get(value, key) {
        Some(Json::Str(s)) => Some(s.clone()),
        _ => None,
    }
}

/// Whether member `key` of a document is the text `expected`.
fn member_is(value: &Json, key: &str, expected: &str) -> (r: bool)
    ensures
        r == (text_of(field(value.tree(), key@)) == Some(expected@)),
{
    proof {
        lemma_member_tree(*value, key@);
    }
    match get(value, key) {
        Some(Json::Str(s)) => str_is(s.as_str(), expected),
        _ => false,
    }
}

/// The request limits a settings document asks for; the backoff delays keep their defaults.
pub fn request_policy_from_settings(settings: &Json) -> (p: RequestPolicy)
    ensures
        p.max_concurrent_metadata_reads == width_setting(
            settings.tree(),
            "maxConcurrentMetadataReads"@,
        ),
        p.max_concurrent_transfers == width_setting(settings.tree(), "maxConcurrentTransfers"@),
        p.request_delay_ms == cloud_setting(settings.tree(), "requestDelayMs"@, 150),
        p.retry_limit == retry_setting(settings.tree()),
        p.base_retry_delay_ms == 1_000,
        p.max_retry_delay_ms == 30_000,
{
    proof {
        lemma_member_tree(*settings, "cloud"@);
    }
    let null = Json::Null;
    let cloud: &Json = match get(settings, "cloud") {
        Some(c) => c,
        None => &null,
    };
    let reads = match member_u64(cloud, "maxConcurrentMetadataReads") {
        Some(n) => n,
        None => 2,
    };
    let transfers = match member_u64(cloud, "maxConcurrentTransfers") {
        Some(n) => n,
        None => 2,
    };
    let delay = match member_u64(cloud, "requestDelayMs") {
        Some(n) => n,
        None => 150,
    };
    let retries = match member_u64(cloud, "retryLimit") {
        Some(n) => n,
        None => 5,
    };
    let defaults = RequestPolicy::default();
    RequestPolicy {
        max_concurrent_metadata_reads: if reads <= usize::MAX as u64 {
            reads as usize
        } else {
            2
        },
        max_concurrent_transfers: if transfers <= usize::MAX as u64 {
            transfers as usize
        } else {
            2
        },
        request_delay_ms: delay,
        retry_limit: if retries <= 10 {
            retries as u8
        } else {
            10
        },
        base_retry_delay_ms: defaults.base_retry_delay_ms,
        max_retry_delay_ms: defaults.max_retry_delay_ms,
    }
}

/// The string ids of the snapshots in a timeline, in order; items without one are skipped.
pub open spec fn ids_of(items: Seq<JsonTree>) -> Seq<Seq<char>>
    decreases items.len(),
{
    if items.len() == 0 {
        Seq::empty()
    } else {
        let rest = ids_of(items.drop_last());
        match text_of(field(items.last(), "id"@)) {
            Some(id) => rest.push(id),
            None => rest,
        }
    }
}

/// The snapshot ids of a timeline value; a value that is not an array has none.
pub open spec fn timeline_ids(timeline: JsonTree) -> Seq<Seq<char>> {
    match timeline {
        JsonTree::Array(items) => ids_of(items),
        _ => Seq::empty(),
    }
}

proof fn lemma_items_tree_step(items: Seq<Json>, i: int)
    requires
        0 <= i < items.len(),
    ensures
        items_tree(items.take(i + 1)).drop_last() =~= items_tree(items.take(i)),
        items_tree(items.take(i + 1)).last() == items[i].tree(),
        items_tree(items.take(i + 1)).len() == i + 1,
{
    assert(items.take(i + 1).drop_last() =~= items.take(i));
}

/// The snapshot ids of the items of a timeline.
fn ids_of_items(items: &Vec<Json>) -> (r: Vec<String>)
    ensures
        strings_view(r@) == ids_of(items_tree(items@)),
{
    let mut out: Vec<String> = Vec::new();
    let mut i: usize = 0;
    while i < items.len()
        invariant
            i <= items@.len(),
            strings_view(out@) == ids_of(items_tree(items@.take(i as int))),
        decreases items@.len() - i,
    {
        proof {
            lemma_items_tree_step(items@, i as int);
        }
        let ghost before = out@;
        match member_text(&items[i], "id") {
            Some(id) => {
                out.push(id);
            },
            None => {},
        }
        proof {
            assert(strings_view(out@) =~= ids_of(items_tree(items@.take(i + 1))));
        }
        i = i + 1;
    }
    proof {
        assert(items@.take(i as int) =~= items@);
    }
    out
}

/// The ids of the snapshots in a timeline, in timeline order.
pub fn snapshot_ids_from_timeline(timeline: &Json) -> (r: Vec<String>)
    ensures
        strings_view(r@) == timeline_ids(timeline.tree()),
{
    match timeline {
        Json::Array(items) => ids_of_items(items),
        _ => Vec::new(),
    }
}

/// Whether `ids` holds `id`.
fn has_text(ids: &Vec<String>, id: &str) -> (r: bool)
    ensures
        r == strings_view(ids@).contains(id@),
{
    let mut j: usize = 0;
    while j < ids.len()
        invariant
            j <= ids@.len(),
            forall|k: int| 0 <= k < j ==> #[trigger] ids@[k]@ != id@,
        decreases ids@.len() - j,
    {
        if str_is(ids[j].as_str(), id) {
            proof {
                assert(strings_view(ids@)[j as int] == id@);
            }
            return true;
        }
        j = j + 1;
    }
    proof {
        if strings_view(ids@).contains(id@) {
            let k = choose|k: int| 0 <= k < strings_view(ids@).len() && strings_view(ids@)[k] == id@;
            assert(ids@[k]@ == id@);
        }
    }
    false
}

/// Whether a local snapshot must be uploaded: it has no string id, or the remote lacks it.
pub open spec fn needs_upload(snapshot: JsonTree, remote_ids: Seq<Seq<char>>) -> bool {
    match text_of(field(snapshot, "id"@)) {
        Some(id) => !remote_ids.contains(id),
        None => true,
    }
}

/// The archive names of the local snapshots the remote lacks, in timeline order, or `None`
/// when one of them names no archive.
pub open spec fn missing_archives(items: Seq<JsonTree>, remote_ids: Seq<Seq<char>>) -> Option<
    Seq<Seq<char>>,
>
    decreases items.len(),
{
    if items.len() == 0 {
        Some(Seq::empty())
    } else {
        match missing_archives(items.drop_last(), remote_ids) {
            None => None,
            Some(names) => if needs_upload(items.last(), remote_ids) {
                match text_of(field(items.last(), "archive_name"@)) {
                    Some(name) => Some(names.push(name)),
                    None => None,
                }
            } else {
                Some(names)
            },
        }
    }
}

pub open spec fn missing_archive_message() -> Seq<char> {
    "本地时间线缺少压缩包名称"@
}

/// The archives to upload: those of the local snapshots whose ids the remote timeline lacks.
pub fn missing_snapshot_archives(local_snapshots: &Vec<Json>, remote_snapshot_ids: &Vec<String>) -> (r:
    Result<Vec<String>, String>)
    ensures
        match missing_archives(items_tree(local_snapshots@), strings_view(remote_snapshot_ids@)) {
            Some(names) => r is Ok && strings_view(r->Ok_0@) == names,
            None => r is Err && r->Err_0@ == missing_archive_message(),
        },
{
    let ghost remote = strings_view(remote_snapshot_ids@);
    let mut out: Vec<String> = Vec::new();
    let mut i: usize = 0;
    while i < local_snapshots.len()
        invariant
            i <= local_snapshots@.len(),
            remote == strings_view(remote_snapshot_ids@),
            missing_archives(items_tree(local_snapshots@.take(i as int)), remote) == Some(
                strings_view(out@),
            ),
        decreases local_snapshots@.len() - i,
    {
        proof {
            lemma_items_tree_step(local_snapshots@, i as int);
        }
        let snapshot = &local_snapshots[i];
        let upload = match member_text(snapshot, "id") {
            Some(id) => !has_text(remote_snapshot_ids, id.as_str()),
            None => true,
        };
        if upload {
            match member_text(snapshot, "archive_name") {
                Some(name) => {
                    out.push(name);
                },
                None => {
                    proof {
                        assert(missing_archives(items_tree(local_snapshots@.take(i + 1)), remote)
                            is None);
                        lemma_missing_stays_none(local_snapshots@, remote, i + 1);
                        assert(local_snapshots@.take(local_snapshots@.len() as int)
                            =~= local_snapshots@);
                    }
                    return Err("本地时间线缺少压缩包名称".to_owned());
                },
            }
        }
        proof {
            assert(strings_view(out@) =~= missing_archives(
                items_tree(local_snapshots@.take(i + 1)),
                remote,
            )->Some_0);
        }
        i = i + 1;
    }
    proof {
        assert(local_snapshots@.take(i as int) =~= local_snapshots@);
    }
    Ok(out)
}

/// Once a prefix of the timeline names no archive for an upload, the whole timeline does not.
proof fn lemma_missing_stays_none(items: Seq<Json>, remote: Seq<Seq<char>>, n: int)
    requires
        0 <= n <= items.len(),
        missing_archives(items_tree(items.take(n)), remote) is None,
    ensures
        missing_archives(items_tree(items.take(items.len() as int)), remote) is None,
    decreases items.len() - n,
{
    if n < items.len() {
        lemma_items_tree_step(items, n);
        lemma_missing_stays_none(items, remote, n + 1);
    }
}

/// What a synchronization pass of one archive does.
#[derive(Clone, Copy, Debug, PartialEq, Eq, Structural)]
pub enum SyncAction {
    /// Only the local side has the archive: upload it.
    UploadArchive,
    /// Only the remote side has the archive: download it.
    DownloadArchive,
    /// The archive settings differ: the user chooses a direction.
    Conflict,
    /// Each side has snapshots the other lacks: merge the remote ones, then upload.
    Merge,
    /// Only the local side has new snapshots: upload them.
    UploadNew,
    /// Only the remote side has new snapshots: download the archive.
    DownloadNew,
    /// Both sides hold the same snapshots.
    Current,
}

/// Whether some id of `a` is not in `b`.
pub open spec fn any_outside(a: Seq<Seq<char>>, b: Seq<Seq<char>>) -> bool {
    exists|i: int| 0 <= i < a.len() && !b.contains(#[trigger] a[i])
}

/// The pass for an archive present on the local side with snapshot ids `local` (or absent),
/// on the remote side with `remote` (or absent), whose settings agree on both sides or not.
pub open spec fn sync_plan(
    local: Option<Seq<Seq<char>>>,
    remote: Option<Seq<Seq<char>>>,
    settings_match: bool,
) -> Option<SyncAction> {
    match (local, remote) {
        (Some(_), None) => Some(SyncAction::UploadArchive),
        (None, Some(_)) => Some(SyncAction::DownloadArchive),
        (Some(l), Some(r)) => if !settings_match {
            Some(SyncAction::Conflict)
        } else if any_outside(l, r) && any_outside(r, l) {
            Some(SyncAction::Merge)
        } else if any_outside(l, r) {
            Some(SyncAction::UploadNew)
        } else if any_outside(r, l) {
            Some(SyncAction::DownloadNew)
        } else {
            Some(SyncAction::Current)
        },
        (None, None) => None,
    }
}

/// The status reported for a pass.
pub open spec fn sync_status(action: SyncAction) -> Seq<char> {
    match action {
        SyncAction::UploadArchive | SyncAction::Merge | SyncAction::UploadNew => "uploaded"@,
        SyncAction::DownloadArchive | SyncAction::DownloadNew => "downloaded"@,
        SyncAction::Conflict => "conflict"@,
        SyncAction::Current => "current"@,
    }
}

/// The message shown for a pass against GitHub or another service.
pub open spec fn sync_message(action: SyncAction, github: bool) -> Seq<char> {
    if github {
        match action {
            SyncAction::UploadArchive => "已上传本地存档到 GitHub"@,
            SyncAction::DownloadArchive => "已从 GitHub 下载存档"@,
            SyncAction::Conflict => "本地和 GitHub 的存档设置不同，请选择覆盖方向"@,
            SyncAction::Merge => "已合并 GitHub 与本地互不冲突的时间节点"@,
            SyncAction::UploadNew => "已上传 GitHub 缺少的时间节点"@,
            SyncAction::DownloadNew => "已下载 GitHub 新增时间节点"@,
            SyncAction::Current => "本地与 GitHub 已经一致"@,
        }
    } else {
        match action {
            SyncAction::UploadArchive => "已上传本地存档"@,
            SyncAction::DownloadArchive => "已下载远端存档"@,
            SyncAction::Conflict => "本地和远端的存档设置不同，请选择覆盖方向"@,
            SyncAction::Merge => "已合并两端互不冲突的时间节点"@,
            SyncAction::UploadNew => "已上传本地新增时间节点"@,
            SyncAction::DownloadNew => "已下载远端新增时间节点"@,
            SyncAction::Current => "本地与远端已经一致"@,
        }
    }
}

/// The error when neither side has the archive.
pub open spec fn archive_missing_message(github: bool) -> Seq<char> {
    if github {
        "本地和 GitHub 均找不到该存档"@
    } else {
        "本地和远端均找不到该存档"@
    }
}

/// Whether some id of `a` is not in `b`.
fn has_outside(a: &Vec<String>, b: &Vec<String>) -> (r: bool)
    ensures
        r == any_outside(strings_view(a@), strings_view(b@)),
{
    let mut i: usize = 0;
    while i < a.len()
        invariant
            i <= a@.len(),
            forall|k: int| 0 <= k < i ==> strings_view(b@).contains(#[trigger] strings_view(a@)[k]),
        decreases a@.len() - i,
    {
        if !has_text(b, a[i].as_str()) {
            proof {
                assert(strings_view(a@)[i as int] == a@[i as int]@);
            }
            return true;
        }
        proof {
            assert(strings_view(a@)[i as int] == a@[i as int]@);
        }
        i = i + 1;
    }
    false
}

fn text(s: &str) -> (r: String)
    ensures
        r@ == s@,
{
    s.to_owned()
}

fn sync_result(action: SyncAction, github: bool) -> (d: SyncResultDto)
    ensures
        d.status@ == sync_status(action),
        d.message@ == sync_message(action, github),
{
    let status = match action {
        SyncAction::UploadArchive | SyncAction::Merge | SyncAction::UploadNew => text("uploaded"),
        SyncAction::DownloadArchive | SyncAction::DownloadNew => text("downloaded"),
        SyncAction::Conflict => text("conflict"),
        SyncAction::Current => text("current"),
    };
    let message = if github {
        match action {
            SyncAction::UploadArchive => text("已上传本地存档到 GitHub"),
            SyncAction::DownloadArchive => text("已从 GitHub 下载存档"),
            SyncAction::Conflict => text("本地和 GitHub 的存档设置不同，请选择覆盖方向"),
            SyncAction::Merge => text("已合并 GitHub 与本地互不冲突的时间节点"),
            SyncAction::UploadNew => text("已上传 GitHub 缺少的时间节点"),
            SyncAction::DownloadNew => text("已下载 GitHub 新增时间节点"),
            SyncAction::Current => text("本地与 GitHub 已经一致"),
        }
    } else {
        match action {
            SyncAction::UploadArchive => text("已上传本地存档"),
            SyncAction::DownloadArchive => text("已下载远端存档"),
            SyncAction::Conflict => text("本地和远端的存档设置不同，请选择覆盖方向"),
            SyncAction::Merge => text("已合并两端互不冲突的时间节点"),
            SyncAction::UploadNew => text("已上传本地新增时间节点"),
            SyncAction::DownloadNew => text("已下载远端新增时间节点"),
            SyncAction::Current => text("本地与远端已经一致"),
        }
    };
    SyncResultDto { status, message }
}

/// Chooses the synchronization pass of one archive from the snapshot ids on each side
/// (`None` where the side lacks the archive) and whether the archive settings agree, and
/// reports it as the user will see it.
pub fn plan_sync(
    github: bool,
    local_ids: Option<&Vec<String>>,
    remote_ids: Option<&Vec<String>>,
    settings_match: bool,
) -> (r: Result<(SyncAction, SyncResultDto), String>)
    ensures
        match sync_plan(
            match local_ids {
                Some(l) => Some(strings_view(l@)),
                None => None,
            },
            match remote_ids {
                Some(v) => Some(strings_view(v@)),
                None => None,
            },
            settings_match,
        ) {
            Some(action) => r is Ok && r->Ok_0.0 == action && r->Ok_0.1.status@ == sync_status(
                action,
            ) && r->Ok_0.1.message@ == sync_message(action, github),
            None => r is Err && r->Err_0@ == archive_missing_message(github),
        },
{
    let action = match (local_ids, remote_ids) {
        (Some(_), None) => SyncAction::UploadArchive,
        (None, Some(_)) => SyncAction::DownloadArchive,
        (Some(l), Some(v)) => {
            if !settings_match {
                SyncAction::Conflict
            } else {
                let local_only = has_outside(l, v);
                let remote_only = has_outside(v, l);
                if local_only && remote_only {
                    SyncAction::Merge
                } else if local_only {
                    SyncAction::UploadNew
                } else if remote_only {
                    SyncAction::DownloadNew
                } else {
                    SyncAction::Current
                }
            }
        },
        (None, None) => {
            return Err(if github {
                text("本地和 GitHub 均找不到该存档")
            } else {
                text("本地和远端均找不到该存档")
            });
        },
    };
    Ok((action, sync_result(action, github)))
}

/// The overview row of one remote archive; a missing synchronization mode reads as manual.
pub fn archive_item(
    id: String,
    name: String,
    snapshot_count: usize,
    stored_bytes: u64,
    last_snapshot_at_ms: Option<u64>,
    sync_mode: Option<String>,
) -> (r: RemoteItemDto)
    ensures
        r.id == id,
        r.name == name,
        r.kind@ == "archive"@,
        !r.protected,
        r.snapshot_count == snapshot_count,
        r.size_bytes == stored_bytes,
        r.updated_at == last_snapshot_at_ms,
        r.sync_mode@ == match sync_mode {
            Some(m) => m@,
            None => "manual"@,
        },
{
    RemoteItemDto {
        id,
        name,
        kind: text("archive"),
        protected: false,
        snapshot_count,
        size_bytes: stored_bytes,
        updated_at: last_snapshot_at_ms,
        sync_mode: match sync_mode {
            Some(m) => m,
            None => text("manual"),
        },
    }
}

/// The overview row of a protected configuration file.
fn config_item(id: &str, name: &str, updated_at: Option<u64>) -> (r: RemoteItemDto)
    ensures
        r.id@ == id@,
        r.name@ == name@,
        r.kind@ == "config"@,
        r.protected,
        r.snapshot_count == 0,
        r.size_bytes == 0,
        r.updated_at == updated_at,
        r.sync_mode@ == "manual"@,
{
    RemoteItemDto {
        id: text(id),
        name: text(name),
        kind: text("config"),
        protected: true,
        snapshot_count: 0,
        size_bytes: 0,
        updated_at,
        sync_mode: text("manual"),
    }
}

/// The remote overview: the library and catalog files first, then the catalog's archives
/// (none when the remote has no catalog), with the library's id and last update.
pub fn cloud_preview(source_name: String, library: &Json, archives: Option<Vec<RemoteItemDto>>) -> (r:
    CloudPreviewDto)
    ensures
        r.source_name == source_name,
        match r.library_id {
            Some(id) => text_of(field(library.tree(), "libraryId"@)) == Some(id@),
            None => text_of(field(library.tree(), "libraryId"@)) is None,
        },
        r.items@.len() == 2 + match archives {
            Some(a) => a@.len(),
            None => 0,
        },
        r.items@[0].id@ == "config:library"@ && r.items@[0].name@ == "library.json"@
            && r.items@[0].kind@ == "config"@ && r.items@[0].protected
            && r.items@[0].snapshot_count == 0 && r.items@[0].size_bytes == 0
            && r.items@[0].updated_at == uint_of(field(library.tree(), "updatedAtMs"@))
            && r.items@[0].sync_mode@ == "manual"@,
        r.items@[1].id@ == "config:catalog"@ && r.items@[1].name@ == "catalog.json"@
            && r.items@[1].kind@ == "config"@ && r.items@[1].protected
            && r.items@[1].snapshot_count == 0 && r.items@[1].size_bytes == 0
            && r.items@[1].updated_at is None && r.items@[1].sync_mode@ == "manual"@,
        archives matches Some(a) ==> r.items@.skip(2) == a@,
{
    let mut items: Vec<RemoteItemDto> = Vec::new();
    items.push(config_item("config:library", "library.json", member_u64(library, "updatedAtMs")));
    items.push(config_item("config:catalog", "catalog.json", None));
    let ghost head = items@;
    match archives {
        Some(mut a) => {
            let ghost rows = a@;
            items.append(&mut a);
            proof {
                assert(items@.skip(2) =~= rows);
            }
        },
        None => {},
    }
    CloudPreviewDto { source_name, library_id: member_text(library, "libraryId"), items }
}

/// Whether a plain item's `id` member is the text `id`.
pub open spec fn id_is(item: JsonTree, id: Seq<char>) -> bool {
    text_of(field(item, "id"@)) == Some(id)
}

/// The first position of an item whose id is `id`.
pub open spec fn find_id(items: Seq<JsonTree>, id: Seq<char>) -> Option<int>
    decreases items.len(),
{
    if items.len() == 0 {
        None
    } else if id_is(items[0], id) {
        Some(0)
    } else {
        match find_id(items.drop_first(), id) {
            Some(k) => Some(k + 1),
            None => None,
        }
    }
}

/// The first position of a member named `key`.
pub open spec fn key_index(members: Seq<(Seq<char>, JsonTree)>, key: Seq<char>) -> Option<int>
    decreases members.len(),
{
    if members.len() == 0 {
        None
    } else if members[0].0 == key {
        Some(0)
    } else {
        match key_index(members.drop_first(), key) {
            Some(k) => Some(k + 1),
            None => None,
        }
    }
}

/// The members with `key` set to `value`: the first member of that name is replaced, or the
/// member is added at the end.
pub open spec fn put_field(members: Seq<(Seq<char>, JsonTree)>, key: Seq<char>, value: JsonTree) -> Seq<
    (Seq<char>, JsonTree),
> {
    match key_index(members, key) {
        Some(k) => members.update(k, (key, value)),
        None => members.push((key, value)),
    }
}

/// Keeps the items whose id is not `id` (an item without a string id is dropped when `id`
/// is `None`).
pub open spec fn keeps(id: Option<Seq<char>>) -> spec_fn(JsonTree) -> bool {
    |x: JsonTree| text_of(field(x, "id"@)) != id
}

pub open spec fn without_id(items: Seq<JsonTree>, id: Option<Seq<char>>) -> Seq<JsonTree> {
    items.filter(keeps(id))
}

/// The catalog entry `id` of the local catalog.
pub open spec fn local_entry(local: JsonTree, id: Seq<char>) -> Option<JsonTree> {
    match items_of(field(local, "entries"@)) {
        Some(es) => match find_id(es, id) {
            Some(k) => Some(es[k]),
            None => None,
        },
        None => None,
    }
}

/// The categories of the local catalog.
pub open spec fn local_categories(local: JsonTree) -> Seq<JsonTree> {
    match items_of(field(local, "categories"@)) {
        Some(c) => Some(c)->Some_0,
        None => Seq::empty(),
    }
}

/// The categories met walking up from category `start` through parent links, nearest
/// first, in at most `fuel` steps; `None` when the walk has not ended by then.  The walk ends
/// at a missing id or at a category without a parent.
pub open spec fn category_chain(cats: Seq<JsonTree>, start: Option<Seq<char>>, fuel: nat) -> Option<
    Seq<JsonTree>,
>
    decreases fuel,
{
    match start {
        None => Some(Seq::empty()),
        Some(cid) => match find_id(cats, cid) {
            None => Some(Seq::empty()),
            Some(k) => if fuel == 0 {
                None
            } else {
                match category_chain(
                    cats,
                    text_of(field(cats[k], "parent_id"@)),
                    (fuel - 1) as nat,
                ) {
                    Some(rest) => Some(seq![cats[k]] + rest),
                    None => None,
                }
            },
        },
    }
}

/// The categories an entry needs, from its own up to the root.
pub open spec fn required_categories(local: JsonTree, entry: JsonTree) -> Option<Seq<JsonTree>> {
    let cats = local_categories(local);
    category_chain(cats, text_of(field(entry, "category_id"@)), cats.len())
}

/// The walk up from entry `id`'s category ends: the catalog's category links hold no cycle
/// on that path.
pub open spec fn chain_ends(local: JsonTree, id: Seq<char>) -> bool {
    match local_entry(local, id) {
        Some(e) => required_categories(local, e) is Some,
        None => true,
    }
}

/// The remote categories after publishing `chain`: each replaces the categories with its id.
pub open spec fn with_categories(cats: Seq<JsonTree>, chain: Seq<JsonTree>) -> Seq<JsonTree>
    decreases chain.len(),
{
    if chain.len() == 0 {
        cats
    } else {
        let before = with_categories(cats, chain.drop_last());
        without_id(before, text_of(field(chain.last(), "id"@))).push(chain.last())
    }
}

pub open spec fn entry_missing_message() -> Seq<char> {
    "本地存档不存在"@
}

pub open spec fn bad_entries_message() -> Seq<char> {
    "远端存档清单格式无效"@
}

pub open spec fn bad_categories_message() -> Seq<char> {
    "远端分类清单格式无效"@
}

/// The members of the remote catalog: those of an object, none for anything else.
pub open spec fn remote_members(remote: JsonTree) -> Seq<(Seq<char>, JsonTree)> {
    match remote {
        JsonTree::Object(m) => m,
        _ => Seq::empty(),
    }
}

/// The members with entry `id` replaced by `entry` in the `entries` list (created when
/// absent), or `None` when `entries` is not a list.
pub open spec fn entries_published(
    members: Seq<(Seq<char>, JsonTree)>,
    entry: JsonTree,
    id: Seq<char>,
) -> Option<Seq<(Seq<char>, JsonTree)>> {
    let ev = first_member_of(members, "entries"@);
    if ev is Some && !(ev->Some_0 is Array) {
        None
    } else {
        let entries = match ev {
            Some(JsonTree::Array(es)) => es,
            _ => Seq::empty(),
        };
        Some(put_field(members, "entries"@, JsonTree::Array(without_id(entries, Some(id)).push(entry))))
    }
}

/// The members with the categories of `chain` published in the `categories` list (created
/// when absent), or `None` when `categories` is not a list.
pub open spec fn categories_published(
    members: Seq<(Seq<char>, JsonTree)>,
    chain: Seq<JsonTree>,
) -> Option<Seq<(Seq<char>, JsonTree)>> {
    let cv = first_member_of(members, "categories"@);
    if cv is Some && !(cv->Some_0 is Array) {
        None
    } else {
        let cats = match cv {
            Some(JsonTree::Array(c)) => c,
            _ => Seq::empty(),
        };
        Some(put_field(members, "categories"@, JsonTree::Array(with_categories(cats, chain))))
    }
}

/// The remote catalog after publishing local entry `id` (with the categories it needs), and
/// the error, if any.  The remote catalog is read as an object (anything else as an empty
/// one); the entries list is updated first, so a malformed category list leaves the entries
/// already updated.
pub open spec fn merged_catalog(remote: JsonTree, local: JsonTree, id: Seq<char>) -> (
    JsonTree,
    Option<Seq<char>>,
) {
    match local_entry(local, id) {
        None => (remote, Some(entry_missing_message())),
        Some(entry) => {
            let m0 = remote_members(remote);
            match entries_published(m0, entry, id) {
                None => (JsonTree::Object(m0), Some(bad_entries_message())),
                Some(m1) => {
                    let chain = match required_categories(local, entry) {
                        Some(c) => c,
                        None => Seq::empty(),
                    };
                    match categories_published(m1, chain) {
                        None => (JsonTree::Object(m1), Some(bad_categories_message())),
                        Some(m2) => (JsonTree::Object(m2), None),
                    }
                },
            }
        },
    }
}

/// The value of the first member named `key`.
pub open spec fn first_member_of(members: Seq<(Seq<char>, JsonTree)>, key: Seq<char>) -> Option<JsonTree> {
    match key_index(members, key) {
        Some(k) => Some(members[k].1),
        None => None,
    }
}

proof fn lemma_find_id_first(items: Seq<JsonTree>, id: Seq<char>, k: int)
    requires
        0 <= k < items.len(),
        id_is(items[k], id),
        forall|j: int| 0 <= j < k ==> !id_is(#[trigger] items[j], id),
    ensures
        find_id(items, id) == Some(k),
    decreases k,
{
    if k > 0 {
        assert forall|j: int| 0 <= j < k - 1 implies !id_is(#[trigger] items.drop_first()[j], id) by {
            assert(items.drop_first()[j] == items[j + 1]);
        }
        lemma_find_id_first(items.drop_first(), id, k - 1);
    }
}

proof fn lemma_find_id_none(items: Seq<JsonTree>, id: Seq<char>)
    requires
        forall|j: int| 0 <= j < items.len() ==> !id_is(#[trigger] items[j], id),
    ensures
        find_id(items, id) is None,
    decreases items.len(),
{
    if items.len() > 0 {
        assert forall|j: int| 0 <= j < items.len() - 1 implies !id_is(#[trigger] items.drop_first()[j], id) by {
            assert(items.drop_first()[j] == items[j + 1]);
        }
        lemma_find_id_none(items.drop_first(), id);
    }
}

proof fn lemma_find_id_bounds(items: Seq<JsonTree>, id: Seq<char>)
    ensures
        find_id(items, id) matches Some(k) ==> 0 <= k < items.len() && id_is(items[k], id),
    decreases items.len(),
{
    if items.len() > 0 {
        lemma_find_id_bounds(items.drop_first(), id);
    }
}

proof fn lemma_key_index_first(members: Seq<(Seq<char>, JsonTree)>, key: Seq<char>, k: int)
    requires
        0 <= k < members.len(),
        members[k].0 == key,
        forall|j: int| 0 <= j < k ==> (#[trigger] members[j]).0 != key,
    ensures
        key_index(members, key) == Some(k),
    decreases k,
{
    if k > 0 {
        assert forall|j: int| 0 <= j < k - 1 implies (#[trigger] members.drop_first()[j]).0 != key by {
            assert(members.drop_first()[j] == members[j + 1]);
        }
        lemma_key_index_first(members.drop_first(), key, k - 1);
    }
}

proof fn lemma_key_index_none(members: Seq<(Seq<char>, JsonTree)>, key: Seq<char>)
    requires
        forall|j: int| 0 <= j < members.len() ==> (#[trigger] members[j]).0 != key,
    ensures
        key_index(members, key) is None,
    decreases members.len(),
{
    if members.len() > 0 {
        assert forall|j: int| 0 <= j < members.len() - 1 implies (#[trigger] members.drop_first()[j]).0 != key by {
            assert(members.drop_first()[j] == members[j + 1]);
        }
        lemma_key_index_none(members.drop_first(), key);
    }
}

proof fn lemma_items_tree_index(items: Seq<Json>, k: int)
    requires
        0 <= k < items.len(),
    ensures
        items_tree(items).len() == items.len(),
        items_tree(items)[k] == items[k].tree(),
{
}

proof fn lemma_members_tree_index(members: Seq<(String, Json)>, k: int)
    requires
        0 <= k < members.len(),
    ensures
        members_tree(members).len() == members.len(),
        members_tree(members)[k] == (members[k].0@, members[k].1.tree()),
{
}

/// The first position of an item whose id is `id`.
fn find_with_id(items: &Vec<Json>, id: &str) -> (r: Option<usize>)
    ensures
        match r {
            Some(k) => find_id(items_tree(items@), id@) == Some(k as int),
            None => find_id(items_tree(items@), id@) is None,
        },
{
    let ghost t = items_tree(items@);
    let mut i: usize = 0;
    while i < items.len()
        invariant
            i <= items@.len(),
            t == items_tree(items@),
            t.len() == items@.len(),
            forall|j: int| 0 <= j < i ==> !id_is(#[trigger] t[j], id@),
        decreases items@.len() - i,
    {
        proof {
            lemma_items_tree_index(items@, i as int);
        }
        if member_is(&items[i], "id", id) {
            proof {
                lemma_find_id_first(t, id@, i as int);
            }
            return Some(i);
        }
        i = i + 1;
    }
    proof {
        lemma_find_id_none(t, id@);
    }
    None
}

/// The first position of a member named `key`.
fn key_position(members: &Vec<(String, Json)>, key: &str) -> (r: Option<usize>)
    ensures
        match r {
            Some(k) => key_index(members_tree(members@), key@) == Some(k as int),
            None => key_index(members_tree(members@), key@) is None,
        },
{
    let ghost t = members_tree(members@);
    let mut i: usize = 0;
    while i < members.len()
        invariant
            i <= members@.len(),
            t == members_tree(members@),
            t.len() == members@.len(),
            forall|j: int| 0 <= j < i ==> (#[trigger] t[j]).0 != key@,
        decreases members@.len() - i,
    {
        proof {
            lemma_members_tree_index(members@, i as int);
        }
        if str_is(members[i].0.as_str(), key) {
            proof {
                lemma_key_index_first(t, key@, i as int);
            }
            return Some(i);
        }
        i = i + 1;
    }
    proof {
        lemma_key_index_none(t, key@);
    }
    None
}

proof fn lemma_items_tree_push(items: Seq<Json>, x: Json)
    ensures
        items_tree(items.push(x)) =~= items_tree(items).push(x.tree()),
{
    assert forall|k: int| 0 <= k < items.len() + 1 implies #[trigger] items_tree(items.push(x))[k]
        == items_tree(items).push(x.tree())[k] by {
        lemma_items_tree_index(items.push(x), k);
        if k < items.len() {
            lemma_items_tree_index(items, k);
        }
    }
}

/// The items whose id is not `id`, copied, in order.
fn retain_without_id(items: &Vec<Json>, id: &Option<String>) -> (r: Vec<Json>)
    ensures
        items_tree(r@) == without_id(
            items_tree(items@),
            match id {
                Some(s) => Some(s@),
                None => None,
            },
        ),
{
    let ghost target = match id {
        Some(s) => Some(s@),
        None => None,
    };
    let ghost t = items_tree(items@);
    let mut out: Vec<Json> = Vec::new();
    let mut i: usize = 0;
    while i < items.len()
        invariant
            i <= items@.len(),
            t == items_tree(items@),
            t.len() == items@.len(),
            target == match id {
                Some(s) => Some(s@),
                None => None,
            },
            items_tree(out@) == t.take(i as int).filter(keeps(target)),
        decreases items@.len() - i,
    {
        proof {
            lemma_items_tree_index(items@, i as int);
            assert(t.take(i + 1).drop_last() =~= t.take(i as int));
        }
        let item_id = member_text(&items[i], "id");
        let keep = match (&item_id, id) {
            (Some(a), Some(b)) => !str_is(a.as_str(), b.as_str()),
            (None, None) => false,
            _ => true,
        };
        proof {
            assert(t.take(i + 1).last() == t[i as int]);
            assert(keep == keeps(target)(t[i as int]));
            assert(t.take(i + 1) =~= t.take(i as int).push(t[i as int]));
            t.take(i as int).lemma_filter_push(t[i as int], keeps(target));
        }
        if keep {
            let c = copy_json(&items[i]);
            proof {
                lemma_items_tree_push(out@, c);
            }
            out.push(c);
        }
        i = i + 1;
    }
    proof {
        assert(t.take(i as int) =~= t);
    }
    out
}

/// The categories an entry needs, copied out of the local category list, walking up from
/// category `start`.
fn collect_chain(cats: &Vec<Json>, start: Option<String>) -> (r: Vec<Json>)
    requires
        category_chain(items_tree(cats@), opt_view(start), cats@.len()) is Some,
    ensures
        items_tree(r@) == category_chain(items_tree(cats@), opt_view(start), cats@.len())->Some_0,
{
    let ghost t = items_tree(cats@);
    let ghost full = category_chain(t, opt_view(start), cats@.len())->Some_0;
    let mut out: Vec<Json> = Vec::new();
    let mut parent: Option<String> = start;
    let mut fuel: usize = cats.len();
    proof {
        assert(items_tree(out@) + full =~= full);
    }
    loop
        invariant
            t == items_tree(cats@),
            t.len() == cats@.len(),
            category_chain(t, opt_view(parent), fuel as nat) is Some,
            items_tree(out@) + category_chain(t, opt_view(parent), fuel as nat)->Some_0 == full,
        ensures
            items_tree(out@) == full,
        decreases fuel,
    {
        let k = match &parent {
            None => {
                proof {
                    assert(items_tree(out@) + Seq::<JsonTree>::empty() =~= items_tree(out@));
                }
                break;
            },
            Some(cid) => match find_with_id(cats, cid.as_str()) {
                None => {
                    proof {
                        assert(items_tree(out@) + Seq::<JsonTree>::empty() =~= items_tree(out@));
                    }
                    break;
                },
                Some(k) => k,
            },
        };
        proof {
            lemma_find_id_bounds(t, parent->Some_0@);
            lemma_items_tree_index(cats@, k as int);
        }
        let ghost rest = category_chain(
            t,
            text_of(field(t[k as int], "parent_id"@)),
            (fuel - 1) as nat,
        )->Some_0;
        let c = copy_json(&cats[k]);
        let next = member_text(&cats[k], "parent_id");
        let ghost before = out@;
        proof {
            lemma_items_tree_push(out@, c);
        }
        out.push(c);
        parent = next;
        fuel = fuel - 1;
        proof {
            assert(items_tree(before) + (seq![t[k as int]] + rest) =~= items_tree(out@) + rest);
        }
    }
    out
}

proof fn lemma_members_tree_update(members: Seq<(String, Json)>, k: int, x: (String, Json))
    requires
        0 <= k < members.len(),
    ensures
        members_tree(members.update(k, x)) =~= members_tree(members).update(k, (x.0@, x.1.tree())),
{
    assert forall|j: int| 0 <= j < members.len() implies #[trigger] members_tree(members.update(k, x))[j]
        == members_tree(members).update(k, (x.0@, x.1.tree()))[j] by {
        lemma_members_tree_index(members.update(k, x), j);
        lemma_members_tree_index(members, j);
    }
}

proof fn lemma_members_tree_push(members: Seq<(String, Json)>, x: (String, Json))
    ensures
        members_tree(members.push(x)) =~= members_tree(members).push((x.0@, x.1.tree())),
{
    assert forall|j: int| 0 <= j < members.len() + 1 implies #[trigger] members_tree(members.push(x))[j]
        == members_tree(members).push((x.0@, x.1.tree()))[j] by {
        lemma_members_tree_index(members.push(x), j);
        if j < members.len() {
            lemma_members_tree_index(members, j);
        }
    }
}

proof fn lemma_key_index_bounds(members: Seq<(Seq<char>, JsonTree)>, key: Seq<char>)
    ensures
        key_index(members, key) matches Some(k) ==> 0 <= k < members.len() && members[k].0 == key,
    decreases members.len(),
{
    if members.len() > 0 {
        lemma_key_index_bounds(members.drop_first(), key);
    }
}

/// Takes the array member `key` out of `members`, returning its position and items; an
/// absent member gives no position and no items.  When the member is not an array, `members`
/// is left as it was and `Err` is returned.
fn take_array(members: &mut Vec<(String, Json)>, key: &str) -> (r: Result<(Option<usize>, Vec<Json>), ()>)
    ensures
        match key_index(members_tree(old(members)@), key@) {
            Some(p) => match members_tree(old(members)@)[p].1 {
                JsonTree::Array(items) => r matches Ok((Some(q), v)) && q == p && items_tree(v@) == items
                    && final(members)@ == old(members)@.remove(p),
                _ => r is Err && final(members)@ == old(members)@,
            },
            None => r matches Ok((None, v)) && v@.len() == 0 && final(members)@ == old(members)@,
        },
{
    proof {
        lemma_key_index_bounds(members_tree(members@), key@);
    }
    match key_position(members, key) {
        Some(p) => {
            let ghost before = members@;
            proof {
                lemma_members_tree_index(members@, p as int);
            }
            let (k, v) = members.remove(p);
            match v {
                Json::Array(items) => Ok((Some(p), items)),
                other => {
                    members.insert(p, (k, other));
                    proof {
                        assert(members@ =~= before);
                    }
                    Err(())
                },
            }
        },
        None => Ok((None, Vec::new())),
    }
}

/// Sets member `key` to `value`: at position `at` where the member was taken out, or added
/// at the end when it was absent.
fn put_back(members: &mut Vec<(String, Json)>, at: Option<usize>, key: &str, value: Json)
    requires
        at matches Some(p) ==> p <= old(members)@.len(),
    ensures
        final(members)@ == match at {
            Some(p) => old(members)@.insert(p as int, (final(members)@[p as int].0, value)),
            None => old(members)@.push((final(members)@[old(members)@.len() as int].0, value)),
        },
        at matches Some(p) ==> final(members)@[p as int].0@ == key@,
        at is None ==> final(members)@[old(members)@.len() as int].0@ == key@,
{
    match at {
        Some(p) => {
            members.insert(p, (text(key), value));
        },
        None => {
            members.push((text(key), value));
        },
    }
}

/// Replaces entry `id` of the `entries` member by `entry`; on a malformed member nothing
/// changes and `false` is returned.
fn publish_entry(members: &mut Vec<(String, Json)>, entry: Json, id: &str) -> (ok: bool)
    ensures
        match entries_published(members_tree(old(members)@), entry.tree(), id@) {
            Some(m1) => ok && members_tree(final(members)@) == m1,
            None => !ok && final(members)@ == old(members)@,
        },
{
    let ghost m0 = members@;
    let ghost et = entry.tree();
    proof {
        lemma_key_index_bounds(members_tree(m0), "entries"@);
    }
    let (at, old_entries) = match take_array(members, "entries") {
        Ok(found) => found,
        Err(()) => {
            return false;
        },
    };
    let ghost entries0 = items_tree(old_entries@);
    proof {
        if at is None {
            assert(entries0 =~= Seq::<JsonTree>::empty());
        }
        assert(first_member_of(members_tree(m0), "entries"@) == match at {
            Some(p) => Some(JsonTree::Array(entries0)),
            None => None,
        });
    }
    let mut new_entries = retain_without_id(&old_entries, &Some(text(id)));
    proof {
        lemma_items_tree_push(new_entries@, entry);
    }
    new_entries.push(entry);
    let ghost published = JsonTree::Array(without_id(entries0, Some(id@)).push(et));
    assert(Json::Array(new_entries).tree() == published);
    let ghost value = Json::Array(new_entries);
    put_back(members, at, "entries", Json::Array(new_entries));
    proof {
        let m1 = members@;
        assert(m1[match at { Some(p) => p as int, None => m0.len() as int }].1 == value);
        match at {
            Some(p) => {
                lemma_members_tree_index(m0, p as int);
                assert(m1 =~= m0.update(p as int, m1[p as int]));
                lemma_members_tree_update(m0, p as int, m1[p as int]);
            },
            None => {
                lemma_members_tree_push(m0, m1[m0.len() as int]);
                assert(m1 =~= m0.push(m1[m0.len() as int]));
            },
        }
    }
    true
}

/// Publishes the categories of `chain` in the `categories` member; on a malformed member
/// nothing changes and `false` is returned.
fn publish_categories(members: &mut Vec<(String, Json)>, chain: &Vec<Json>) -> (ok: bool)
    ensures
        match categories_published(members_tree(old(members)@), items_tree(chain@)) {
            Some(m2) => ok && members_tree(final(members)@) == m2,
            None => !ok && final(members)@ == old(members)@,
        },
{
    let ghost m1 = members@;
    proof {
        lemma_key_index_bounds(members_tree(m1), "categories"@);
    }
    let (at, old_categories) = match take_array(members, "categories") {
        Ok(found) => found,
        Err(()) => {
            return false;
        },
    };
    let ghost cats0 = items_tree(old_categories@);
    let ghost ch = items_tree(chain@);
    let mut cats = old_categories;
    let mut j: usize = 0;
    while j < chain.len()
        invariant
            j <= chain@.len(),
            ch == items_tree(chain@),
            ch.len() == chain@.len(),
            items_tree(cats@) == with_categories(cats0, ch.take(j as int)),
        decreases chain@.len() - j,
    {
        proof {
            lemma_items_tree_index(chain@, j as int);
            assert(ch.take(j + 1).drop_last() =~= ch.take(j as int));
        }
        let cid = member_text(&chain[j], "id");
        let mut next = retain_without_id(&cats, &cid);
        let c = copy_json(&chain[j]);
        proof {
            lemma_items_tree_push(next@, c);
        }
        next.push(c);
        cats = next;
        j = j + 1;
    }
    proof {
        assert(ch.take(j as int) =~= ch);
        if at is None {
            assert(cats0 =~= Seq::<JsonTree>::empty());
        }
        assert(first_member_of(members_tree(m1), "categories"@) == match at {
            Some(p) => Some(JsonTree::Array(cats0)),
            None => None,
        });
    }
    let ghost value = Json::Array(cats);
    assert(value.tree() == JsonTree::Array(with_categories(cats0, ch)));
    put_back(members, at, "categories", Json::Array(cats));
    proof {
        let m2 = members@;
        assert(m2[match at { Some(p) => p as int, None => m1.len() as int }].1 == value);
        match at {
            Some(p) => {
                lemma_members_tree_index(m1, p as int);
                assert(m2 =~= m1.update(p as int, m2[p as int]));
                lemma_members_tree_update(m1, p as int, m2[p as int]);
            },
            None => {
                lemma_members_tree_push(m1, m2[m1.len() as int]);
                assert(m2 =~= m1.push(m2[m1.len() as int]));
            },
        }
    }
    true
}

fn chain_walk_ends(cats: &Vec<Json>, start: Option<String>) -> (r: bool)
    ensures
        r == category_chain(items_tree(cats@), opt_view(start), cats@.len()) is Some,
{
    let ghost t = items_tree(cats@);
    let ghost s0 = opt_view(start);
    let ghost goal = category_chain(t, s0, cats@.len()) is Some;
    let mut parent: Option<String> = start;
    let mut fuel: usize = cats.len();
    loop
        invariant
            s0 == opt_view(start),
            goal == (category_chain(items_tree(cats@), s0, cats@.len()) is Some),
            t == items_tree(cats@),
            t.len() == cats@.len(),
            goal == category_chain(t, opt_view(parent), fuel as nat) is Some,
        decreases fuel,
    {
        let k = match &parent {
            None => return true,
            Some(cid) => match find_with_id(cats, cid.as_str()) {
                None => return true,
                Some(k) => k,
            },
        };
        proof {
            lemma_find_id_bounds(t, parent->Some_0@);
            lemma_items_tree_index(cats@, k as int);
        }
        if fuel == 0 {
            return false;
        }
        parent = member_text(&cats[k], "parent_id");
        fuel = fuel - 1;
    }
}

/// Whether the walk up from entry `entry_id`'s category through parent links ends, so
/// that the entry can be published with `merge_catalog_entry`.
pub fn catalog_chain_ends(catalog: &Json, entry_id: &str) -> (r: bool)
    ensures
        r == chain_ends(catalog.tree(), entry_id@),
{
    let ghost lt = catalog.tree();
    proof {
        lemma_member_tree(*catalog, "entries"@);
        lemma_member_tree(*catalog, "categories"@);
    }
    let entries: &Vec<Json> = match get(catalog, "entries") {
        Some(Json::Array(es)) => es,
        _ => return true,
    };
    let k = match find_with_id(entries, entry_id) {
        Some(k) => k,
        None => return true,
    };
    proof {
        lemma_find_id_bounds(items_tree(entries@), entry_id@);
        lemma_items_tree_index(entries@, k as int);
    }
    let ghost et = entries@[k as int].tree();
    assert(local_entry(lt, entry_id@) == Some(et));
    let no_categories: Vec<Json> = Vec::new();
    let cats: &Vec<Json> = match get(catalog, "categories") {
        Some(Json::Array(c)) => c,
        _ => &no_categories,
    };
    assert(items_tree(cats@) == local_categories(lt)) by {
        assert(items_tree(no_categories@) =~= Seq::<JsonTree>::empty());
    }
    chain_walk_ends(cats, member_text(&entries[k], "category_id"))
}

/// Publishes local entry `entry_id` into the remote catalog: the remote entry with that id is
/// replaced by the local one, other remote entries stay, and the categories from the entry's
/// own up to the root are published the same way.  Local entries that were not asked for are
/// never added.
pub fn merge_catalog_entry(remote_catalog: &mut Json, local_catalog: &Json, entry_id: &str) -> (r:
    Result<(), String>)
    requires
        chain_ends(local_catalog.tree(), entry_id@),
    ensures
        final(remote_catalog).tree() == merged_catalog(
            old(remote_catalog).tree(),
            local_catalog.tree(),
            entry_id@,
        ).0,
        match merged_catalog(old(remote_catalog).tree(), local_catalog.tree(), entry_id@).1 {
            Some(m) => r is Err && r->Err_0@ == m,
            None => r is Ok,
        },
{
    let ghost lt = local_catalog.tree();
    proof {
        lemma_member_tree(*local_catalog, "entries"@);
        lemma_member_tree(*local_catalog, "categories"@);
    }
    let local_entries: &Vec<Json> = match get(local_catalog, "entries") {
        Some(Json::Array(es)) => es,
        _ => {
            return Err(text("本地存档不存在"));
        },
    };
    let k = match find_with_id(local_entries, entry_id) {
        Some(k) => k,
        None => {
            return Err(text("本地存档不存在"));
        },
    };
    proof {
        lemma_find_id_bounds(items_tree(local_entries@), entry_id@);
        lemma_items_tree_index(local_entries@, k as int);
    }
    let entry = copy_json(&local_entries[k]);
    let ghost et = entry.tree();
    assert(local_entry(lt, entry_id@) == Some(et));
    let no_categories: Vec<Json> = Vec::new();
    let local_cats: &Vec<Json> = match get(local_catalog, "categories") {
        Some(Json::Array(c)) => c,
        _ => &no_categories,
    };
    assert(items_tree(local_cats@) == local_categories(lt)) by {
        assert(items_tree(no_categories@) =~= Seq::<JsonTree>::empty());
    }
    let chain = collect_chain(local_cats, member_text(&entry, "category_id"));
    assert(items_tree(chain@) == required_categories(lt, et)->Some_0);
    let mut previous = Json::Null;
    std::mem::swap(&mut previous, remote_catalog);
    let ghost rt = previous.tree();
    let mut members: Vec<(String, Json)> = match previous {
        Json::Object(m) => m,
        _ => Vec::new(),
    };
    assert(members_tree(members@) == remote_members(rt)) by {
        assert(members_tree(Seq::<(String, Json)>::empty()) =~= Seq::empty());
    }
    if !publish_entry(&mut members, entry, entry_id) {
        *remote_catalog = Json::Object(members);
        return Err(text("远端存档清单格式无效"));
    }
    if !publish_categories(&mut members, &chain) {
        *remote_catalog = Json::Object(members);
        return Err(text("远端分类清单格式无效"));
    }
    *remote_catalog = Json::Object(members);
    Ok(())
}

/// A folder name read from a remote catalog: a relative path inside the remote root made of
/// exactly one non-empty component.
pub open spec fn single_folder(value: Seq<char>) -> bool {
    valid_relative_path_spec(value) && count_nonempty(split(value, '/')) == 1
}

pub open spec fn bad_folder_message() -> Seq<char> {
    "远端目录清单包含无效路径"@
}

/// Accepts a catalog folder or archive name only when it is one plain path component inside
/// the remote root.
pub fn checked_folder(value: &str) -> (r: Result<String, String>)
    ensures
        r is Ok <==> single_folder(value@),
        r matches Ok(v) ==> v@ == value@,
        r matches Err(m) ==> m@ == if valid_relative_path_spec(value@) {
            bad_folder_message()
        } else {
            path_escape_message()
        },
{
    match validate_relative_path(value) {
        Ok(()) => {},
        Err(WebDavError::Remote(m)) => {
            return Err(m);
        },
        Err(_) => {
            return Err(text("远端路径必须位于同步源目录内"));
        },
    }
    let chars = chars_of(value);
    if count_nonempty_parts(chars.as_slice()) == 1 {
        Ok(text(value))
    } else {
        Err(text("远端目录清单包含无效路径"))
    }
}

/// What the credential store holds for an object-store source before a patch.
pub enum SavedSecrets {
    /// Nothing is saved.
    Missing,
    /// Something is saved but it is not a tested bundle of secrets.
    Unreadable,
    /// The secrets of the saved bundle.
    Saved(Vec<(String, String)>),
}

pub open spec fn not_opendal_message() -> Seq<char> {
    "该同步源不是 OpenDAL"@
}

pub open spec fn unreadable_secrets_message() -> Seq<char> {
    "已保存的机密配置无效，请重新创建同步源"@
}

pub open spec fn undeclared_secret_message() -> Seq<char> {
    "机密字段未在同步源中声明"@
}

/// The secrets after applying `patch` to the saved ones, or the error: only object-store
/// sources have secrets, a saved bundle must be readable, and the patch may only name declared
/// secret keys.  Non-empty patch values replace saved ones (an empty value keeps the saved
/// one), and only declared keys are kept.
pub open spec fn patched_secrets(
    provider: Seq<char>,
    saved: SavedSecrets,
    patch: Seq<(String, String)>,
    keys: Seq<Seq<char>>,
) -> Result<Map<Seq<char>, Seq<char>>, Seq<char>> {
    if provider != "opendal"@ {
        Err(not_opendal_message())
    } else {
        match saved {
            SavedSecrets::Unreadable => Err(unreadable_secrets_message()),
            _ => if exists|i: int| 0 <= i < patch.len() && !keys.contains(#[trigger] patch[i].0@) {
                Err(undeclared_secret_message())
            } else {
                let base = match saved {
                    SavedSecrets::Saved(v) => pairs_map(v@),
                    _ => Map::empty(),
                };
                Ok(
                    base.union_prefer_right(pairs_map(patch.filter(value_nonempty()))).restrict(
                        keys.to_set(),
                    ),
                )
            },
        }
    }
}

/// Applies a patch of secrets to those saved for an object-store source.
pub fn merge_secret_patch(source: &CloudSourceInput, saved: SavedSecrets, patch: &Vec<(String, String)>) -> (r:
    Result<Vec<(String, String)>, String>)
    ensures
        match patched_secrets(source.provider@, saved, patch@, strings_view(source.secret_keys@)) {
            Ok(m) => r is Ok && pairs_map(r->Ok_0@) == m,
            Err(e) => r is Err && r->Err_0@ == e,
        },
{
    let ghost saved_before = saved;
    if !str_is(source.provider.as_str(), "opendal") {
        return Err(text("该同步源不是 OpenDAL"));
    }
    let base = match saved {
        SavedSecrets::Missing => Vec::new(),
        SavedSecrets::Unreadable => {
            return Err(text("已保存的机密配置无效，请重新创建同步源"));
        },
        SavedSecrets::Saved(v) => v,
    };
    if has_key_outside(patch, &source.secret_keys) {
        return Err(text("机密字段未在同步源中声明"));
    }
    let ghost base_pairs = base@;
    assert(pairs_map(base_pairs) == match saved_before {
        SavedSecrets::Saved(v) => pairs_map(v@),
        _ => Map::empty(),
    }) by {
        assert(pairs_map(Seq::<(String, String)>::empty()) =~= Map::empty());
    }
    let mut all = base;
    let mut i: usize = 0;
    while i < patch.len()
        invariant
            i <= patch@.len(),
            all@ == base_pairs + patch@.take(i as int).filter(value_nonempty()),
        decreases patch@.len() - i,
    {
        let item = (patch[i].0.clone(), patch[i].1.clone());
        proof {
            assert(item == patch@[i as int]);
            assert(patch@.take(i + 1) =~= patch@.take(i as int).push(item));
            patch@.take(i as int).lemma_filter_push(item, value_nonempty());
        }
        let nonempty = !patch[i].1.as_str().is_empty();
        assert(nonempty == value_nonempty()(item));
        if nonempty {
            all.push(item);
        }
        proof {
            assert(all@ =~= base_pairs + patch@.take(i + 1).filter(value_nonempty()));
        }
        i = i + 1;
    }
    proof {
        assert(patch@.take(i as int) =~= patch@);
        lemma_pairs_map_append(base_pairs, patch@.filter(value_nonempty()));
    }
    Ok(keep_keys(all, &source.secret_keys))
}

proof fn lemma_first_member_index(members: Seq<(Seq<char>, JsonTree)>, key: Seq<char>)
    ensures
        first_member(members, key) == first_member_of(members, key),
    decreases members.len(),
{
    if members.len() > 0 && members[0].0 != key {
        lemma_first_member_index(members.drop_first(), key);
        lemma_key_index_bounds(members.drop_first(), key);
    }
}

/// The configured sources of a settings document.
pub open spec fn cloud_sources(settings: JsonTree) -> Option<Seq<JsonTree>> {
    match field(settings, "cloud"@) {
        Some(c) => items_of(field(c, "sources"@)),
        None => None,
    }
}

/// The provider names of sources saved by earlier versions, renamed.
pub open spec fn routed_provider(provider: Option<Seq<char>>) -> Option<Seq<char>> {
    if provider == Some("github"@) {
        Some("legacy_github"@)
    } else if provider == Some("webdav"@) {
        Some("legacy_webdav"@)
    } else {
        None
    }
}

/// The settings of source `id`, with an old provider name renamed; `None` when the settings
/// have no such source.
pub open spec fn settings_source_of(settings: JsonTree, id: Seq<char>) -> Option<JsonTree> {
    match cloud_sources(settings) {
        Some(sources) => match find_id(sources, id) {
            Some(k) => {
                let source = sources[k];
                match routed_provider(text_of(field(source, "provider"@))) {
                    Some(p) => Some(
                        JsonTree::Object(
                            put_field(remote_members(source), "provider"@, JsonTree::Str(p)),
                        ),
                    ),
                    None => Some(source),
                }
            },
            None => None,
        },
        None => None,
    }
}

pub open spec fn source_missing_message() -> Seq<char> {
    "找不到云同步源"@
}

/// The settings of source `source_id`, ready to be read as a [`CloudSourceInput`]: sources
/// saved with the provider names `github` or `webdav` are routed to the legacy clients, all
/// their other settings (credential, branch, root) kept.
pub fn settings_source(settings: &Json, source_id: &str) -> (r: Result<Json, String>)
    ensures
        match settings_source_of(settings.tree(), source_id@) {
            Some(s) => r is Ok && r->Ok_0.tree() == s,
            None => r is Err && r->Err_0@ == source_missing_message(),
        },
{
    proof {
        lemma_member_tree(*settings, "cloud"@);
    }
    let sources: &Vec<Json> = match get(settings, "cloud") {
        Some(cloud) => {
            proof {
                lemma_member_tree(*cloud, "sources"@);
            }
            match get(cloud, "sources") {
                Some(Json::Array(items)) => items,
                _ => {
                    return Err(text("找不到云同步源"));
                },
            }
        },
        None => {
            return Err(text("找不到云同步源"));
        },
    };
    let k = match find_with_id(sources, source_id) {
        Some(k) => k,
        None => {
            return Err(text("找不到云同步源"));
        },
    };
    proof {
        lemma_find_id_bounds(items_tree(sources@), source_id@);
        lemma_items_tree_index(sources@, k as int);
    }
    let source = copy_json(&sources[k]);
    let renamed = if member_is(&source, "provider", "github") {
        text("legacy_github")
    } else if member_is(&source, "provider", "webdav") {
        text("legacy_webdav")
    } else {
        return Ok(source);
    };
    let ghost st = source.tree();
    match source {
        Json::Object(mut members) => {
            proof {
                lemma_member_tree(Json::Object(members), "provider"@);
                lemma_first_member_index(members_tree(members@), "provider"@);
                lemma_key_index_bounds(members_tree(members@), "provider"@);
            }
            let ghost m0 = members@;
            match key_position(&members, "provider") {
                Some(p) => {
                    proof {
                        lemma_members_tree_index(m0, p as int);
                    }
                    let _ = members.remove(p);
                    members.insert(p, (text("provider"), Json::Str(renamed)));
                    proof {
                        let m1 = members@;
                        assert(m1 =~= m0.update(p as int, m1[p as int]));
                        lemma_members_tree_update(m0, p as int, m1[p as int]);
                    }
                    Ok(Json::Object(members))
                },
                None => Ok(Json::Object(members)),
            }
        },
        other => Ok(other),
    }
}

/// Why a configured source is refused, given the ids of the sources before it.
pub open spec fn source_problem(source: CloudSourceInput, earlier_ids: Seq<Seq<char>>) -> Option<Seq<char>> {
    if earlier_ids.contains(source.id@) || source.id@.len() == 0 {
        Some("同步源标识重复或为空"@)
    } else if !(source.provider@ == "legacy_github"@ || source.provider@ == "legacy_webdav"@
        || source.provider@ == "opendal"@) {
        Some("不支持的同步源类型"@)
    } else if source.provider@ != "opendal"@ {
        None
    } else if !(exists|i: int| 0 <= i < 11 && (#[trigger] OPEN_DAL_SCHEMES@[i])@ == source.scheme@)
        || (exists|i: int|
        0 <= i < source.config@.len() && (!(exists|j: int|
            0 <= j < 9 && (#[trigger] PUBLIC_CONFIG_KEYS@[j])@ == (#[trigger] source.config@[i]).0@)
            || strings_view(source.secret_keys@).contains(source.config@[i].0@))) {
        Some("不支持的服务，或公开配置包含机密字段"@)
    } else {
        None
    }
}

/// Whether an accepted source's saved credential must be checked: an object-store source that
/// synchronizes while cloud synchronization is on.
pub open spec fn needs_credential_check(source: CloudSourceInput, cloud_enabled: bool) -> bool {
    cloud_enabled && source.sync_enabled && source.provider@ == "opendal"@
}

pub open spec fn source_ids(sources: Seq<CloudSourceInput>) -> Seq<Seq<char>> {
    sources.map_values(|s: CloudSourceInput| s.id@)
}

/// The first refused source of the list and why.
pub open spec fn first_problem(sources: Seq<CloudSourceInput>) -> Option<(int, Seq<char>)>
    decreases sources.len(),
{
    if sources.len() == 0 {
        None
    } else {
        match first_problem(sources.drop_last()) {
            Some(found) => Some(found),
            None => match source_problem(sources.last(), source_ids(sources.drop_last())) {
                Some(m) => Some(((sources.len() - 1) as int, m)),
                None => None,
            },
        }
    }
}

/// The positions, among the first `n` sources, of those whose credential must be checked.
pub open spec fn credential_checks(sources: Seq<CloudSourceInput>, n: int, cloud_enabled: bool) -> Seq<
    int,
>
    decreases n,
{
    if n <= 0 {
        Seq::empty()
    } else {
        let before = credential_checks(sources, n - 1, cloud_enabled);
        if needs_credential_check(sources[n - 1], cloud_enabled) {
            before.push(n - 1)
        } else {
            before
        }
    }
}

/// What checking the configured sources found: the sources whose saved credential must be
/// checked, in order, and the first refused source's error.  Every listed source comes before
/// the refused one, so checking the listed credentials in order and then reporting the error
/// reproduces the order in which the settings are examined.
pub struct SourcesCheck {
    pub credential_checks: Vec<usize>,
    pub problem: Option<String>,
}

/// Examines the configured sources in order: ids must be present and unique, providers known,
/// and object-store sources must name a compiled service and keep secrets out of their public
/// settings.
pub fn check_sources(sources: &Vec<CloudSourceInput>, cloud_enabled: bool) -> (r: SourcesCheck)
    ensures
        match first_problem(sources@) {
            Some((p, m)) => r.problem matches Some(e) && e@ == m && r.credential_checks@.map_values(
                |i: usize| i as int,
            ) == credential_checks(sources@, p, cloud_enabled),
            None => r.problem is None && r.credential_checks@.map_values(|i: usize| i as int)
                == credential_checks(sources@, sources@.len() as int, cloud_enabled),
        },
{
    let mut checks: Vec<usize> = Vec::new();
    let mut ids: Vec<String> = Vec::new();
    let mut i: usize = 0;
    while i < sources.len()
        invariant
            i <= sources@.len(),
            first_problem(sources@.take(i as int)) is None,
            strings_view(ids@) == source_ids(sources@.take(i as int)),
            checks@.map_values(|k: usize| k as int) == credential_checks(
                sources@,
                i as int,
                cloud_enabled,
            ),
        decreases sources@.len() - i,
    {
        let source = &sources[i];
        proof {
            assert(sources@.take(i + 1).drop_last() =~= sources@.take(i as int));
            assert(sources@.take(i + 1).last() == sources@[i as int]);
        }
        let problem = source_problem_of(source, &ids);
        match problem {
            Some(m) => {
                proof {
                    assert(first_problem(sources@.take(i + 1)) == Some((i as int, m@)));
                    lemma_first_problem_prefix(sources@, i + 1);
                    assert(sources@.take(sources@.len() as int) =~= sources@);
                }
                return SourcesCheck { credential_checks: checks, problem: Some(m) };
            },
            None => {},
        }
        let ghost before = checks@;
        if cloud_enabled && source.sync_enabled && str_is(source.provider.as_str(), "opendal") {
            checks.push(i);
            proof {
                assert(checks@.map_values(|k: usize| k as int) =~= before.map_values(
                    |k: usize| k as int,
                ).push(i as int));
            }
        }
        let ghost ids_before = ids@;
        ids.push(source.id.clone());
        proof {
            assert(strings_view(ids@) =~= strings_view(ids_before).push(source.id@));
            assert(source_ids(sources@.take(i + 1)) =~= source_ids(sources@.take(i as int)).push(
                source.id@,
            ));
        }
        i = i + 1;
    }
    proof {
        assert(sources@.take(i as int) =~= sources@);
    }
    SourcesCheck { credential_checks: checks, problem: None }
}

/// Once a prefix has a refused source, the whole list has the same first refusal.
proof fn lemma_first_problem_prefix(sources: Seq<CloudSourceInput>, n: int)
    requires
        0 <= n <= sources.len(),
        first_problem(sources.take(n)) is Some,
    ensures
        first_problem(sources.take(sources.len() as int)) == first_problem(sources.take(n)),
    decreases sources.len() - n,
{
    if n < sources.len() {
        assert(sources.take(n + 1).drop_last() =~= sources.take(n));
        lemma_first_problem_prefix(sources, n + 1);
    }
}

/// Why `source` is refused given the ids of the sources before it.
fn source_problem_of(source: &CloudSourceInput, earlier_ids: &Vec<String>) -> (r: Option<String>)
    ensures
        match source_problem(*source, strings_view(earlier_ids@)) {
            Some(m) => r matches Some(e) && e@ == m,
            None => r is None,
        },
{
    if string_listed(earlier_ids, source.id.as_str()) || source.id.as_str().is_empty() {
        return Some(text("同步源标识重复或为空"));
    }
    let provider = source.provider.as_str();
    if !(str_is(provider, "legacy_github") || str_is(provider, "legacy_webdav") || str_is(
        provider,
        "opendal",
    )) {
        return Some(text("不支持的同步源类型"));
    }
    if !str_is(provider, "opendal") {
        return None;
    }
    let schemes = OPEN_DAL_SCHEMES;
    let public = PUBLIC_CONFIG_KEYS;
    let scheme_known = str_in(source.scheme.as_str(), &schemes);
    let mut leaked = false;
    let mut i: usize = 0;
    while i < source.config.len()
        invariant
            i <= source.config@.len(),
            public@ == PUBLIC_CONFIG_KEYS@,
            leaked == exists|k: int|
                0 <= k < i && (!(exists|j: int|
                    0 <= j < 9 && (#[trigger] PUBLIC_CONFIG_KEYS@[j])@ == (
                    #[trigger] source.config@[k]).0@) || strings_view(source.secret_keys@).contains(
                    source.config@[k].0@,
                )),
        decreases source.config@.len() - i,
    {
        let key = source.config[i].0.as_str();
        let bad = !str_in(key, &public) || string_listed(&source.secret_keys, key);
        leaked = leaked || bad;
        i = i + 1;
    }
    if !scheme_known || leaked {
        return Some(text("不支持的服务，或公开配置包含机密字段"));
    }
    None
}

/// Whether a plain item's id is one of `ids`.
pub open spec fn id_listed(item: JsonTree, ids: Seq<Seq<char>>) -> bool {
    match text_of(field(item, "id"@)) {
        Some(id) => ids.contains(id),
        None => false,
    }
}

/// Keeps the items whose id is not listed (items without a string id are kept).
pub open spec fn unlisted(ids: Seq<Seq<char>>) -> spec_fn(JsonTree) -> bool {
    |x: JsonTree| !id_listed(x, ids)
}

/// The catalog without the entries whose ids are listed; a catalog without an entry list is
/// left as it is.
pub open spec fn without_entries(catalog: JsonTree, ids: Seq<Seq<char>>) -> JsonTree {
    match catalog {
        JsonTree::Object(m) => match key_index(m, "entries"@) {
            Some(k) => match m[k].1 {
                JsonTree::Array(es) => JsonTree::Object(
                    m.update(k, ("entries"@, JsonTree::Array(es.filter(unlisted(ids))))),
                ),
                _ => catalog,
            },
            None => catalog,
        },
        _ => catalog,
    }
}

/// Whether a document's `id` member is one of `ids`.
fn listed_id(item: &Json, ids: &Vec<String>) -> (r: bool)
    ensures
        r == id_listed(item.tree(), strings_view(ids@)),
{
    match member_text(item, "id") {
        Some(id) => has_text(ids, id.as_str()),
        None => false,
    }
}

/// The items whose id is not listed, copied, in order.
fn retain_unlisted(items: &Vec<Json>, ids: &Vec<String>) -> (r: Vec<Json>)
    ensures
        items_tree(r@) == items_tree(items@).filter(unlisted(strings_view(ids@))),
{
    let ghost t = items_tree(items@);
    let ghost keep = unlisted(strings_view(ids@));
    let mut out: Vec<Json> = Vec::new();
    let mut i: usize = 0;
    while i < items.len()
        invariant
            i <= items@.len(),
            t == items_tree(items@),
            t.len() == items@.len(),
            keep == unlisted(strings_view(ids@)),
            items_tree(out@) == t.take(i as int).filter(keep),
        decreases items@.len() - i,
    {
        proof {
            lemma_items_tree_index(items@, i as int);
            assert(t.take(i + 1) =~= t.take(i as int).push(t[i as int]));
            t.take(i as int).lemma_filter_push(t[i as int], keep);
        }
        if !listed_id(&items[i], ids) {
            let c = copy_json(&items[i]);
            proof {
                lemma_items_tree_push(out@, c);
            }
            out.push(c);
        }
        i = i + 1;
    }
    proof {
        assert(t.take(i as int) =~= t);
    }
    out
}

/// Removes the entries whose ids are listed from a remote catalog.
pub fn remove_remote_entries(catalog: &mut Json, entry_ids: &Vec<String>)
    ensures
        final(catalog).tree() == without_entries(old(catalog).tree(), strings_view(entry_ids@)),
{
    let mut previous = Json::Null;
    std::mem::swap(&mut previous, catalog);
    let ghost before = previous.tree();
    match previous {
        Json::Object(mut members) => {
            let ghost m0 = members@;
            proof {
                lemma_key_index_bounds(members_tree(m0), "entries"@);
            }
            match take_array(&mut members, "entries") {
                Ok((Some(at), entries)) => {
                    let kept = retain_unlisted(&entries, entry_ids);
                    put_back(&mut members, Some(at), "entries", Json::Array(kept));
                    proof {
                        let m1 = members@;
                        lemma_members_tree_index(m0, at as int);
                        assert(m1 =~= m0.update(at as int, m1[at as int]));
                        lemma_members_tree_update(m0, at as int, m1[at as int]);
                    }
                    *catalog = Json::Object(members);
                },
                _ => {
                    *catalog = Json::Object(members);
                },
            }
        },
        other => {
            *catalog = other;
        },
    }
}

pub open spec fn remote_entry_missing_message() -> Seq<char> {
    "远端存档不存在"@
}

pub open spec fn sync_mode_unsupported_message() -> Seq<char> {
    "不支持的同步方式"@
}

/// The remote catalog with entry `id`'s synchronization mode set, or the error: only
/// `manual` and `automatic` are modes, and the entry must be in the catalog's entry list.
pub open spec fn with_sync_mode(catalog: JsonTree, id: Seq<char>, mode: Seq<char>) -> Result<JsonTree, Seq<char>> {
    if mode != "manual"@ && mode != "automatic"@ {
        Err(sync_mode_unsupported_message())
    } else {
        match catalog {
            JsonTree::Object(m) => match key_index(m, "entries"@) {
                Some(k) => match m[k].1 {
                    JsonTree::Array(es) => match find_id(es, id) {
                        Some(j) => Ok(
                            JsonTree::Object(
                                m.update(
                                    k,
                                    (
                                        "entries"@,
                                        JsonTree::Array(
                                            es.update(
                                                j,
                                                JsonTree::Object(
                                                    put_field(
                                                        remote_members(es[j]),
                                                        "sync_mode"@,
                                                        JsonTree::Str(mode),
                                                    ),
                                                ),
                                            ),
                                        ),
                                    ),
                                ),
                            ),
                        ),
                        None => Err(remote_entry_missing_message()),
                    },
                    _ => Err(remote_entry_missing_message()),
                },
                None => Err(remote_entry_missing_message()),
            },
            _ => Err(remote_entry_missing_message()),
        }
    }
}

/// Sets `member` of an object to `value`.
fn set_member(value: Json, key: &str, item: Json) -> (r: Json)
    requires
        value is Object,
    ensures
        r.tree() == JsonTree::Object(put_field(remote_members(value.tree()), key@, item.tree())),
{
    match value {
        Json::Object(mut members) => {
            let ghost m0 = members@;
            proof {
                lemma_key_index_bounds(members_tree(m0), key@);
            }
            let ghost it = item.tree();
            match key_position(&members, key) {
                Some(p) => {
                    let _ = members.remove(p);
                    members.insert(p, (text(key), item));
                    proof {
                        let m1 = members@;
                        assert(m1 =~= m0.update(p as int, m1[p as int]));
                        lemma_members_tree_update(m0, p as int, m1[p as int]);
                    }
                },
                None => {
                    members.push((text(key), item));
                    proof {
                        let m1 = members@;
                        lemma_members_tree_push(m0, m1[m0.len() as int]);
                        assert(m1 =~= m0.push(m1[m0.len() as int]));
                    }
                },
            }
            Json::Object(members)
        },
        other => other,
    }
}

/// Sets the synchronization mode of remote entry `entry_id`.
pub fn set_remote_sync_mode(catalog: &mut Json, entry_id: &str, sync_mode: &str) -> (r: Result<
    (),
    String,
>)
    ensures
        match with_sync_mode(old(catalog).tree(), entry_id@, sync_mode@) {
            Ok(t) => r is Ok && final(catalog).tree() == t,
            Err(m) => r matches Err(e) && e@ == m && final(catalog).tree() == old(catalog).tree(),
        },
{
    if !str_is(sync_mode, "manual") && !str_is(sync_mode, "automatic") {
        return Err(text("不支持的同步方式"));
    }
    let mut previous = Json::Null;
    std::mem::swap(&mut previous, catalog);
    let ghost before = previous.tree();
    let mut members = match previous {
        Json::Object(m) => m,
        other => {
            *catalog = other;
            return Err(text("远端存档不存在"));
        },
    };
    let ghost m0 = members@;
    proof {
        lemma_key_index_bounds(members_tree(m0), "entries"@);
    }
    let (at, mut entries) = match take_array(&mut members, "entries") {
        Ok((Some(at), entries)) => (at, entries),
        _ => {
            *catalog = Json::Object(members);
            return Err(text("远端存档不存在"));
        },
    };
    proof {
        lemma_members_tree_index(m0, at as int);
    }
    let ghost es = items_tree(entries@);
    let j = match find_with_id(&entries, entry_id) {
        Some(j) => j,
        None => {
            let ghost restore = entries;
            put_back(&mut members, Some(at), "entries", Json::Array(entries));
            proof {
                let m1 = members@;
                assert(m1 =~= m0.update(at as int, m1[at as int]));
                lemma_members_tree_update(m0, at as int, m1[at as int]);
                assert(members_tree(m1) =~= members_tree(m0));
            }
            *catalog = Json::Object(members);
            return Err(text("远端存档不存在"));
        },
    };
    proof {
        lemma_find_id_bounds(es, entry_id@);
        lemma_items_tree_index(entries@, j as int);
    }
    let entry = entries.remove(j);
    let updated = set_member(entry, "sync_mode", Json::Str(text(sync_mode)));
    entries.insert(j, updated);
    proof {
        assert(items_tree(entries@) =~= es.update(j as int, updated.tree())) by {
            assert forall|x: int| 0 <= x < es.len() implies #[trigger] items_tree(entries@)[x]
                == es.update(j as int, updated.tree())[x] by {
                lemma_items_tree_index(entries@, x);
            }
        }
    }
    put_back(&mut members, Some(at), "entries", Json::Array(entries));
    proof {
        let m1 = members@;
        assert(m1 =~= m0.update(at as int, m1[at as int]));
        lemma_members_tree_update(m0, at as int, m1[at as int]);
    }
    *catalog = Json::Object(members);
    Ok(())
}

pub open spec fn folder_missing_message() -> Seq<char> {
    "远端存档缺少目录"@
}

pub open spec fn remote_archive_missing_message() -> Seq<char> {
    "远端时间线缺少压缩包名称"@
}

/// The error `checked_folder` gives for a name it refuses.
pub open spec fn folder_error(value: Seq<char>) -> Seq<char> {
    if valid_relative_path_spec(value) {
        bad_folder_message()
    } else {
        path_escape_message()
    }
}

/// The paths of the archives of the snapshots `snapshots` of the archive folder `folder`, or
/// the first problem: a snapshot without an archive name, or a name that is not a single
/// component.
pub open spec fn archive_paths(folder: Seq<char>, snapshots: Seq<JsonTree>) -> Result<Seq<Seq<char>>, Seq<char>>
    decreases snapshots.len(),
{
    if snapshots.len() == 0 {
        Ok(Seq::empty())
    } else {
        match archive_paths(folder, snapshots.drop_last()) {
            Err(e) => Err(e),
            Ok(paths) => match text_of(field(snapshots.last(), "archive_name"@)) {
                None => Err(remote_archive_missing_message()),
                Some(name) => if single_folder(name) {
                    Ok(paths.push("archives/"@ + folder + "/"@ + name))
                } else {
                    Err(folder_error(name))
                },
            },
        }
    }
}

/// The archive files to delete from a repository for the entries whose ids are listed, in
/// catalog order, or the first problem.
pub open spec fn deletion_paths_of(entries: Seq<JsonTree>, ids: Seq<Seq<char>>) -> Result<Seq<Seq<char>>, Seq<char>>
    decreases entries.len(),
{
    if entries.len() == 0 {
        Ok(Seq::empty())
    } else {
        match deletion_paths_of(entries.drop_last(), ids) {
            Err(e) => Err(e),
            Ok(paths) => {
                let e = entries.last();
                if !id_listed(e, ids) {
                    Ok(paths)
                } else {
                    match text_of(field(e, "folder"@)) {
                        None => Err(folder_missing_message()),
                        Some(folder) => match archive_paths(
                            folder,
                            match items_of(field(e, "snapshots"@)) {
                                Some(s) => s,
                                None => Seq::empty(),
                            },
                        ) {
                            Err(m) => Err(m),
                            Ok(more) => Ok(paths + more),
                        },
                    }
                }
            },
        }
    }
}

/// The entries of a catalog value: its entry list, or none.
pub open spec fn catalog_entries(catalog: JsonTree) -> Seq<JsonTree> {
    match items_of(field(catalog, "entries"@)) {
        Some(es) => es,
        None => Seq::empty(),
    }
}

fn concat_text(parts: &[&str]) -> (r: String)
    ensures
        r@ == concat_all(parts@.map_values(|p: &str| p@)),
{
    let mut out: Vec<char> = Vec::new();
    let mut i: usize = 0;
    while i < parts.len()
        invariant
            i <= parts@.len(),
            out@ == concat_all(parts@.take(i as int).map_values(|p: &str| p@)),
        decreases parts@.len() - i,
    {
        let chars = chars_of(parts[i]);
        let ghost start = out@;
        let mut j: usize = 0;
        while j < chars.len()
            invariant
                j <= chars@.len(),
                out@ == start + chars@.take(j as int),
            decreases chars@.len() - j,
        {
            out.push(chars[j]);
            j = j + 1;
            proof {
                assert(out@ =~= start + chars@.take(j as int));
            }
        }
        proof {
            assert(chars@.take(j as int) =~= chars@);
            assert(parts@.take(i + 1).map_values(|p: &str| p@).drop_last() =~= parts@.take(
                i as int,
            ).map_values(|p: &str| p@));
        }
        i = i + 1;
    }
    proof {
        assert(parts@.take(i as int) =~= parts@);
    }
    string_of(out.as_slice())
}

/// The texts joined end to end.
pub open spec fn concat_all(parts: Seq<Seq<char>>) -> Seq<char>
    decreases parts.len(),
{
    if parts.len() == 0 {
        Seq::empty()
    } else {
        concat_all(parts.drop_last()) + parts.last()
    }
}

/// The archive paths of the snapshots of one archive folder.
fn archive_paths_exec(folder: &str, snapshots: &Vec<Json>) -> (r: Result<Vec<String>, String>)
    ensures
        match archive_paths(folder@, items_tree(snapshots@)) {
            Ok(p) => r is Ok && strings_view(r->Ok_0@) == p,
            Err(m) => r is Err && r->Err_0@ == m,
        },
{
    let ghost t = items_tree(snapshots@);
    let mut out: Vec<String> = Vec::new();
    let mut i: usize = 0;
    proof {
        assert(t.take(0) =~= Seq::<JsonTree>::empty());
        assert(strings_view(out@) =~= Seq::<Seq<char>>::empty());
    }
    while i < snapshots.len()
        invariant
            i <= snapshots@.len(),
            t == items_tree(snapshots@),
            t.len() == snapshots@.len(),
            archive_paths(folder@, t.take(i as int)) == Ok::<Seq<Seq<char>>, Seq<char>>(
                strings_view(out@),
            ),
        decreases snapshots@.len() - i,
    {
        proof {
            lemma_items_tree_index(snapshots@, i as int);
            assert(t.take(i + 1).drop_last() =~= t.take(i as int));
            assert(t.take(i + 1).last() == t[i as int]);
        }
        let name = match member_text(&snapshots[i], "archive_name") {
            Some(n) => n,
            None => {
                proof {
                    lemma_archive_paths_error(folder@, t, i + 1);
                }
                return Err(text("远端时间线缺少压缩包名称"));
            },
        };
        match checked_folder(name.as_str()) {
            Ok(_) => {},
            Err(m) => {
                proof {
                    lemma_archive_paths_error(folder@, t, i + 1);
                }
                return Err(m);
            },
        }
        let pieces = ["archives/", folder, "/", name.as_str()];
        let path = concat_text(&pieces);
        proof {
            let parts = seq!["archives/"@, folder@, "/"@, name@];
            assert(pieces@.map_values(|p: &str| p@) =~= parts);
            assert(concat_all(parts) =~= "archives/"@ + folder@ + "/"@ + name@) by {
                reveal_with_fuel(concat_all, 5);
                assert(parts.drop_last().drop_last().drop_last().drop_last() =~= Seq::<Seq<char>>::empty());
                assert(parts.drop_last().drop_last().drop_last() =~= seq!["archives/"@]);
                assert(parts.drop_last().drop_last() =~= seq!["archives/"@, folder@]);
                assert(parts.drop_last() =~= seq!["archives/"@, folder@, "/"@]);
            }
        }
        let ghost before = out@;
        out.push(path);
        proof {
            assert(strings_view(out@) =~= strings_view(before).push(path@));
        }
        i = i + 1;
    }
    proof {
        assert(t.take(i as int) =~= t);
    }
    Ok(out)
}

/// Once a prefix of the timeline has a problem, the whole timeline has the same one.
proof fn lemma_archive_paths_error(folder: Seq<char>, t: Seq<JsonTree>, n: int)
    requires
        0 <= n <= t.len(),
        archive_paths(folder, t.take(n)) is Err,
    ensures
        archive_paths(folder, t) == archive_paths(folder, t.take(n)),
    decreases t.len() - n,
{
    if n < t.len() {
        assert(t.take(n + 1).drop_last() =~= t.take(n));
        lemma_archive_paths_error(folder, t, n + 1);
    } else {
        assert(t.take(n) =~= t);
    }
}

/// Once a prefix of the entries has a problem, all of them have the same one.
proof fn lemma_deletion_paths_error(t: Seq<JsonTree>, ids: Seq<Seq<char>>, n: int)
    requires
        0 <= n <= t.len(),
        deletion_paths_of(t.take(n), ids) is Err,
    ensures
        deletion_paths_of(t, ids) == deletion_paths_of(t.take(n), ids),
    decreases t.len() - n,
{
    if n < t.len() {
        assert(t.take(n + 1).drop_last() =~= t.take(n));
        lemma_deletion_paths_error(t, ids, n + 1);
    } else {
        assert(t.take(n) =~= t);
    }
}

/// The repository files to delete with the listed entries of a remote catalog: every archive
/// of their timelines, in catalog order.
pub fn deletion_paths(catalog: &Json, entry_ids: &Vec<String>) -> (r: Result<Vec<String>, String>)
    ensures
        match deletion_paths_of(catalog_entries(catalog.tree()), strings_view(entry_ids@)) {
            Ok(p) => r is Ok && strings_view(r->Ok_0@) == p,
            Err(m) => r is Err && r->Err_0@ == m,
        },
{
    proof {
        lemma_member_tree(*catalog, "entries"@);
    }
    let no_entries: Vec<Json> = Vec::new();
    let entries: &Vec<Json> = match get(catalog, "entries") {
        Some(Json::Array(es)) => es,
        _ => &no_entries,
    };
    let ghost t = items_tree(entries@);
    let ghost ids = strings_view(entry_ids@);
    assert(t == catalog_entries(catalog.tree())) by {
        assert(items_tree(no_entries@) =~= Seq::<JsonTree>::empty());
    }
    let mut out: Vec<String> = Vec::new();
    let mut i: usize = 0;
    proof {
        assert(t.take(0) =~= Seq::<JsonTree>::empty());
        assert(strings_view(out@) =~= Seq::<Seq<char>>::empty());
    }
    while i < entries.len()
        invariant
            i <= entries@.len(),
            t == items_tree(entries@),
            t.len() == entries@.len(),
            ids == strings_view(entry_ids@),
            t == catalog_entries(catalog.tree()),
            deletion_paths_of(t.take(i as int), ids) == Ok::<Seq<Seq<char>>, Seq<char>>(
                strings_view(out@),
            ),
        decreases entries@.len() - i,
    {
        proof {
            lemma_items_tree_index(entries@, i as int);
            assert(t.take(i + 1).drop_last() =~= t.take(i as int));
            assert(t.take(i + 1).last() == t[i as int]);
        }
        let entry = &entries[i];
        if listed_id(entry, entry_ids) {
            let folder = match member_text(entry, "folder") {
                Some(f) => f,
                None => {
                    proof {
                        assert(deletion_paths_of(t.take(i + 1), ids) == Err::<Seq<Seq<char>>, Seq<char>>(
                            folder_missing_message(),
                        ));
                        lemma_deletion_paths_error(t, ids, i + 1);
                    }
                    return Err(text("远端存档缺少目录"));
                },
            };
            proof {
                lemma_member_tree(*entry, "snapshots"@);
            }
            let no_snapshots: Vec<Json> = Vec::new();
            let snapshots: &Vec<Json> = match get(entry, "snapshots") {
                Some(Json::Array(s)) => s,
                _ => &no_snapshots,
            };
            assert(items_tree(snapshots@) == match items_of(field(t[i as int], "snapshots"@)) {
                Some(s) => s,
                None => Seq::empty(),
            }) by {
                assert(items_tree(no_snapshots@) =~= Seq::<JsonTree>::empty());
            }
            match archive_paths_exec(folder.as_str(), snapshots) {
                Ok(mut more) => {
                    let ghost before = out@;
                    let ghost added = more@;
                    out.append(&mut more);
                    proof {
                        assert(strings_view(out@) =~= strings_view(before) + strings_view(added));
                    }
                },
                Err(m) => {
                    proof {
                        assert(deletion_paths_of(t.take(i + 1), ids) == Err::<Seq<Seq<char>>, Seq<char>>(
                            m@,
                        ));
                        lemma_deletion_paths_error(t, ids, i + 1);
                    }
                    return Err(m);
                },
            }
        }
        i = i + 1;
    }
    proof {
        assert(t.take(i as int) =~= t);
    }
    Ok(out)
}

/// The archive folders of the listed entries of a remote catalog, in catalog order, or the
/// first problem: an entry without a folder, or a folder that is not a single component.
pub open spec fn deleted_folders_of(entries: Seq<JsonTree>, ids: Seq<Seq<char>>) -> Result<Seq<Seq<char>>, Seq<char>>
    decreases entries.len(),
{
    if entries.len() == 0 {
        Ok(Seq::empty())
    } else {
        match deleted_folders_of(entries.drop_last(), ids) {
            Err(e) => Err(e),
            Ok(folders) => {
                let e = entries.last();
                if !id_listed(e, ids) {
                    Ok(folders)
                } else {
                    match text_of(field(e, "folder"@)) {
                        None => Err(folder_missing_message()),
                        Some(folder) => if single_folder(folder) {
                            Ok(folders.push("archives/"@ + folder))
                        } else {
                            Err(folder_error(folder))
                        },
                    }
                }
            },
        }
    }
}

proof fn lemma_deleted_folders_error(t: Seq<JsonTree>, ids: Seq<Seq<char>>, n: int)
    requires
        0 <= n <= t.len(),
        deleted_folders_of(t.take(n), ids) is Err,
    ensures
        deleted_folders_of(t, ids) == deleted_folders_of(t.take(n), ids),
    decreases t.len() - n,
{
    if n < t.len() {
        assert(t.take(n + 1).drop_last() =~= t.take(n));
        lemma_deleted_folders_error(t, ids, n + 1);
    } else {
        assert(t.take(n) =~= t);
    }
}

/// The remote archive folders (`archives/<folder>`) of the listed entries.
pub fn deleted_folders(catalog: &Json, entry_ids: &Vec<String>) -> (r: Result<Vec<String>, String>)
    ensures
        match deleted_folders_of(catalog_entries(catalog.tree()), strings_view(entry_ids@)) {
            Ok(p) => r is Ok && strings_view(r->Ok_0@) == p,
            Err(m) => r is Err && r->Err_0@ == m,
        },
{
    proof {
        lemma_member_tree(*catalog, "entries"@);
    }
    let no_entries: Vec<Json> = Vec::new();
    let entries: &Vec<Json> = match get(catalog, "entries") {
        Some(Json::Array(es)) => es,
        _ => &no_entries,
    };
    let ghost t = items_tree(entries@);
    let ghost ids = strings_view(entry_ids@);
    assert(t == catalog_entries(catalog.tree())) by {
        assert(items_tree(no_entries@) =~= Seq::<JsonTree>::empty());
    }
    let mut out: Vec<String> = Vec::new();
    let mut i: usize = 0;
    proof {
        assert(t.take(0) =~= Seq::<JsonTree>::empty());
        assert(strings_view(out@) =~= Seq::<Seq<char>>::empty());
    }
    while i < entries.len()
        invariant
            i <= entries@.len(),
            t == items_tree(entries@),
            t.len() == entries@.len(),
            ids == strings_view(entry_ids@),
            t == catalog_entries(catalog.tree()),
            deleted_folders_of(t.take(i as int), ids) == Ok::<Seq<Seq<char>>, Seq<char>>(
                strings_view(out@),
            ),
        decreases entries@.len() - i,
    {
        proof {
            lemma_items_tree_index(entries@, i as int);
            assert(t.take(i + 1).drop_last() =~= t.take(i as int));
            assert(t.take(i + 1).last() == t[i as int]);
        }
        let entry = &entries[i];
        if listed_id(entry, entry_ids) {
            let folder = match member_text(entry, "folder") {
                Some(f) => f,
                None => {
                    proof {
                        assert(deleted_folders_of(t.take(i + 1), ids) == Err::<Seq<Seq<char>>, Seq<char>>(
                            folder_missing_message(),
                        ));
                        lemma_deleted_folders_error(t, ids, i + 1);
                    }
                    return Err(text("远端存档缺少目录"));
                },
            };
            match checked_folder(folder.as_str()) {
                Ok(_) => {},
                Err(m) => {
                    proof {
                        assert(deleted_folders_of(t.take(i + 1), ids) == Err::<Seq<Seq<char>>, Seq<char>>(
                            m@,
                        ));
                        lemma_deleted_folders_error(t, ids, i + 1);
                    }
                    return Err(m);
                },
            }
            let pieces = ["archives/", folder.as_str()];
            let path = concat_text(&pieces);
            proof {
                let parts = seq!["archives/"@, folder@];
                assert(pieces@.map_values(|p: &str| p@) =~= parts);
                assert(concat_all(parts) =~= "archives/"@ + folder@) by {
                    reveal_with_fuel(concat_all, 3);
                    assert(parts.drop_last().drop_last() =~= Seq::<Seq<char>>::empty());
                    assert(parts.drop_last() =~= seq!["archives/"@]);
                }
            }
            let ghost before = out@;
            out.push(path);
            proof {
                assert(strings_view(out@) =~= strings_view(before).push(path@));
            }
        }
        i = i + 1;
    }
    proof {
        assert(t.take(i as int) =~= t);
    }
    Ok(out)
}

pub open spec fn remote_hash_missing_message() -> Seq<char> {
    "远端时间线缺少校验值"@
}

/// What downloading a remote snapshot needs: its archive name, which must be a single path
/// component, and the hash its archive must have; or the problem.
pub open spec fn fetch_plan_of(snapshot: JsonTree) -> Result<(Seq<char>, Seq<char>), Seq<char>> {
    match text_of(field(snapshot, "archive_name"@)) {
        None => Err(remote_archive_missing_message()),
        Some(name) => if !single_folder(name) {
            Err(folder_error(name))
        } else {
            match text_of(field(snapshot, "object_hash"@)) {
                None => Err(remote_hash_missing_message()),
                Some(hash) => Ok((name, hash)),
            }
        },
    }
}

/// The archive name and expected hash of a remote snapshot to download.
pub fn fetch_plan(snapshot: &Json) -> (r: Result<(String, String), String>)
    ensures
        match fetch_plan_of(snapshot.tree()) {
            Ok((name, hash)) => r is Ok && r->Ok_0.0@ == name && r->Ok_0.1@ == hash,
            Err(m) => r is Err && r->Err_0@ == m,
        },
{
    let name = match member_text(snapshot, "archive_name") {
        Some(n) => n,
        None => {
            return Err(text("远端时间线缺少压缩包名称"));
        },
    };
    match checked_folder(name.as_str()) {
        Ok(_) => {},
        Err(m) => {
            return Err(m);
        },
    }
    match member_text(snapshot, "object_hash") {
        Some(hash) => Ok((name, hash)),
        None => Err(text("远端时间线缺少校验值")),
    }
}

/// Whether a remote snapshot is missing locally: it has no string id, or the local timeline
/// lacks its id.
pub open spec fn missing_locally(snapshot: JsonTree, local_ids: Seq<Seq<char>>) -> bool {
    match text_of(field(snapshot, "id"@)) {
        Some(id) => !local_ids.contains(id),
        None => true,
    }
}

/// The positions of the remote snapshots missing locally, in order.
pub open spec fn missing_positions(remote: Seq<JsonTree>, local_ids: Seq<Seq<char>>) -> Seq<int>
    decreases remote.len(),
{
    if remote.len() == 0 {
        Seq::empty()
    } else {
        let before = missing_positions(remote.drop_last(), local_ids);
        if missing_locally(remote.last(), local_ids) {
            before.push(remote.len() - 1)
        } else {
            before
        }
    }
}

/// The positions of the remote snapshots that the local timeline lacks.
pub fn remote_only_positions(local_ids: &Vec<String>, remote: &Vec<Json>) -> (r: Vec<usize>)
    ensures
        r@.map_values(|i: usize| i as int) == missing_positions(
            items_tree(remote@),
            strings_view(local_ids@),
        ),
{
    let ghost t = items_tree(remote@);
    let mut out: Vec<usize> = Vec::new();
    let mut i: usize = 0;
    proof {
        assert(t.take(0) =~= Seq::<JsonTree>::empty());
        assert(out@.map_values(|k: usize| k as int) =~= Seq::<int>::empty());
    }
    while i < remote.len()
        invariant
            i <= remote@.len(),
            t == items_tree(remote@),
            t.len() == remote@.len(),
            out@.map_values(|k: usize| k as int) == missing_positions(
                t.take(i as int),
                strings_view(local_ids@),
            ),
        decreases remote@.len() - i,
    {
        proof {
            lemma_items_tree_index(remote@, i as int);
            assert(t.take(i + 1).drop_last() =~= t.take(i as int));
            assert(t.take(i + 1).last() == t[i as int]);
        }
        let missing = match member_text(&remote[i], "id") {
            Some(id) => !has_text(local_ids, id.as_str()),
            None => true,
        };
        let ghost before = out@;
        if missing {
            out.push(i);
            proof {
                assert(out@.map_values(|k: usize| k as int) =~= before.map_values(|k: usize| k as int).push(
                    i as int,
                ));
            }
        }
        i = i + 1;
    }
    proof {
        assert(t.take(i as int) =~= t);
    }
    out
}

/// The creation time a timeline is ordered by: `created_at_ms`, or zero.
pub open spec fn created_key(snapshot: JsonTree) -> u64 {
    match uint_of(field(snapshot, "created_at_ms"@)) {
        Some(n) => n,
        None => 0,
    }
}

/// Strictly earlier creation time.
pub open spec fn created_before() -> spec_fn(JsonTree, JsonTree) -> bool {
    |a: JsonTree, b: JsonTree| created_key(a) < created_key(b)
}

/// The sum of the snapshot sizes given as unsigned integers.
pub open spec fn sizes_total(items: Seq<JsonTree>) -> int
    decreases items.len(),
{
    if items.len() == 0 {
        0
    } else {
        sizes_total(items.drop_last()) + match uint_of(field(items.last(), "size_bytes"@)) {
            Some(n) => n as int,
            None => 0,
        }
    }
}

/// The latest creation time given as an unsigned integer, or zero.
pub open spec fn latest_created(items: Seq<JsonTree>) -> u64
    decreases items.len(),
{
    if items.len() == 0 {
        0
    } else {
        let before = latest_created(items.drop_last());
        match uint_of(field(items.last(), "created_at_ms"@)) {
            Some(n) => if n > before {
                n
            } else {
                before
            },
            None => before,
        }
    }
}

/// A merged timeline with the summary the catalog keeps of it.
pub struct TimelineSummary {
    pub timeline: Vec<Json>,
    pub snapshot_count: u64,
    pub stored_bytes: u64,
    pub last_snapshot_at_ms: u64,
}

proof fn lemma_sizes_total_prefix(items: Seq<JsonTree>, n: int)
    requires
        0 <= n <= items.len(),
    ensures
        0 <= sizes_total(items.take(n)) <= sizes_total(items),
    decreases items.len() - n,
{
    if n < items.len() {
        lemma_sizes_total_prefix(items, n + 1);
        assert(items.take(n + 1).drop_last() =~= items.take(n));
    } else {
        assert(items.take(n) =~= items);
    }
    lemma_sizes_total_nonneg(items.take(n));
}

proof fn lemma_sizes_total_nonneg(items: Seq<JsonTree>)
    ensures
        sizes_total(items) >= 0,
    decreases items.len(),
{
    if items.len() > 0 {
        lemma_sizes_total_nonneg(items.drop_last());
    }
}

/// The local timeline with the downloaded snapshots added, ordered by creation time (equal
/// times keep their order, local ones first), with its count, total size and latest time.
pub fn merged_timeline(local: Vec<Json>, fetched: Vec<Json>) -> (r: TimelineSummary)
    requires
        sizes_total(items_tree(local@ + fetched@)) <= u64::MAX,
    ensures
        items_tree(r.timeline@) == stable_sort(items_tree(local@ + fetched@), created_before()),
        r.snapshot_count == local@.len() + fetched@.len(),
        r.stored_bytes == sizes_total(items_tree(local@ + fetched@)),
        r.last_snapshot_at_ms == latest_created(items_tree(local@ + fetched@)),
{
    let mut all = local;
    let mut more = fetched;
    all.append(&mut more);
    let ghost t = items_tree(all@);
    let mut total: u64 = 0;
    let mut latest: u64 = 0;
    let mut i: usize = 0;
    while i < all.len()
        invariant
            i <= all@.len(),
            t == items_tree(all@),
            t.len() == all@.len(),
            sizes_total(t) <= u64::MAX,
            total == sizes_total(t.take(i as int)),
            latest == latest_created(t.take(i as int)),
        decreases all@.len() - i,
    {
        proof {
            lemma_items_tree_index(all@, i as int);
            assert(t.take(i + 1).drop_last() =~= t.take(i as int));
            assert(t.take(i + 1).last() == t[i as int]);
            lemma_sizes_total_prefix(t, i + 1);
        }
        match member_u64(&all[i], "size_bytes") {
            Some(n) => {
                total = total + n;
            },
            None => {},
        }
        match member_u64(&all[i], "created_at_ms") {
            Some(n) => {
                if n > latest {
                    latest = n;
                }
            },
            None => {},
        }
        i = i + 1;
    }
    proof {
        assert(t.take(i as int) =~= t);
    }
    let count = all.len() as u64;
    let ghost before = created_before();
    let mut sorted: Vec<Json> = Vec::new();
    let mut rest = all;
    let mut n: usize = 0;
    let size = rest.len();
    proof {
        assert(t.take(0) =~= Seq::<JsonTree>::empty());
        assert(items_tree(sorted@) =~= Seq::<JsonTree>::empty());
        assert(rest@.skip(0) =~= rest@);
    }
    let ghost whole = rest@;
    while rest.len() > 0
        invariant
            whole.len() == size,
            n <= size,
            rest@ == whole.skip(n as int),
            t == items_tree(whole),
            t.len() == whole.len(),
            before == created_before(),
            items_tree(sorted@) == stable_sort(t.take(n as int), before),
        decreases rest@.len(),
    {
        let x = rest.remove(0);
        proof {
            assert(x == whole[n as int]);
            lemma_items_tree_index(whole, n as int);
        }
        let key = match member_u64(&x, "created_at_ms") {
            Some(k) => k,
            None => 0,
        };
        let p = created_slot(&sorted, key);
        let ghost prev = items_tree(sorted@);
        proof {
            lemma_created_slot_point(prev, x.tree(), p as int);
            let s = t.take(n + 1);
            assert(s.drop_last() =~= t.take(n as int));
            assert(s.last() == x.tree());
        }
        let ghost old_sorted = sorted@;
        sorted.insert(p, x);
        proof {
            assert(items_tree(sorted@) =~= prev.insert(p as int, x.tree())) by {
                assert forall|j: int| 0 <= j < sorted@.len() implies #[trigger] items_tree(sorted@)[j]
                    == prev.insert(p as int, x.tree())[j] by {
                    lemma_items_tree_index(sorted@, j);
                    if j < p {
                        lemma_items_tree_index(old_sorted, j);
                    } else if j > p {
                        lemma_items_tree_index(old_sorted, j - 1);
                    }
                }
            }
            lemma_insert_at_point(prev, x.tree(), before);
            assert(prev.insert(p as int, x.tree()) =~= prev.take(p as int) + seq![x.tree()] + prev.skip(
                p as int,
            ));
        }
        n = n + 1;
        proof {
            assert(rest@ =~= whole.skip(n as int));
        }
    }
    proof {
        assert(t.take(n as int) =~= t);
    }
    TimelineSummary {
        timeline: sorted,
        snapshot_count: count,
        stored_bytes: total,
        last_snapshot_at_ms: latest,
    }
}

/// The first position of `sorted` whose creation time is later than `key`.
fn created_slot(sorted: &Vec<Json>, key: u64) -> (p: usize)
    ensures
        p <= sorted@.len(),
        forall|j: int| 0 <= j < p ==> created_key(#[trigger] items_tree(sorted@)[j]) <= key,
        p < sorted@.len() ==> key < created_key(items_tree(sorted@)[p as int]),
{
    let mut i: usize = 0;
    while i < sorted.len()
        invariant
            i <= sorted@.len(),
            forall|j: int| 0 <= j < i ==> created_key(#[trigger] items_tree(sorted@)[j]) <= key,
        decreases sorted@.len() - i,
    {
        proof {
            lemma_items_tree_index(sorted@, i as int);
        }
        let k = match member_u64(&sorted[i], "created_at_ms") {
            Some(k) => k,
            None => 0,
        };
        if key < k {
            return i;
        }
        i = i + 1;
    }
    i
}

proof fn lemma_created_slot_point(sorted: Seq<JsonTree>, x: JsonTree, p: int)
    requires
        0 <= p <= sorted.len(),
        forall|j: int| 0 <= j < p ==> created_key(#[trigger] sorted[j]) <= created_key(x),
        p < sorted.len() ==> created_key(x) < created_key(sorted[p]),
    ensures
        insertion_point(sorted, x, created_before()) == p,
    decreases p,
{
    if p > 0 {
        assert(!created_before()(x, sorted[0]));
        assert forall|j: int| 0 <= j < p - 1 implies created_key(#[trigger] sorted.drop_first()[j])
            <= created_key(x) by {
            assert(sorted.drop_first()[j] == sorted[j + 1]);
        }
        lemma_created_slot_point(sorted.drop_first(), x, p - 1);
    } else if sorted.len() > 0 {
        assert(created_before()(x, sorted[0]));
    }
}

/// The catalog with entry `id`'s timeline summary replaced; `None` when the catalog has no
/// such entry.
pub open spec fn with_timeline(
    catalog: JsonTree,
    id: Seq<char>,
    timeline: Seq<JsonTree>,
    count: u64,
    stored: u64,
    latest: u64,
) -> Option<JsonTree> {
    match catalog {
        JsonTree::Object(m) => match key_index(m, "entries"@) {
            Some(k) => match m[k].1 {
                JsonTree::Array(es) => match find_id(es, id) {
                    Some(j) => {
                        let e0 = remote_members(es[j]);
                        let e1 = put_field(e0, "snapshot_count"@, JsonTree::UInt(count));
                        let e2 = put_field(e1, "stored_bytes"@, JsonTree::UInt(stored));
                        let e3 = put_field(e2, "last_snapshot_at_ms"@, JsonTree::UInt(latest));
                        let e4 = put_field(e3, "snapshots"@, JsonTree::Array(timeline));
                        Some(
                            JsonTree::Object(
                                m.update(
                                    k,
                                    ("entries"@, JsonTree::Array(es.update(j, JsonTree::Object(e4)))),
                                ),
                            ),
                        )
                    },
                    None => None,
                },
                _ => None,
            },
            None => None,
        },
        _ => None,
    }
}

/// Writes a merged timeline into entry `entry_id` of a local catalog; returns whether the
/// entry was found (the catalog is unchanged when it was not).
pub fn apply_timeline(catalog: &mut Json, entry_id: &str, summary: TimelineSummary) -> (found: bool)
    ensures
        match with_timeline(
            old(catalog).tree(),
            entry_id@,
            items_tree(summary.timeline@),
            summary.snapshot_count,
            summary.stored_bytes,
            summary.last_snapshot_at_ms,
        ) {
            Some(t) => found && final(catalog).tree() == t,
            None => !found && final(catalog).tree() == old(catalog).tree(),
        },
{
    let mut previous = Json::Null;
    std::mem::swap(&mut previous, catalog);
    let mut members = match previous {
        Json::Object(m) => m,
        other => {
            *catalog = other;
            return false;
        },
    };
    let ghost m0 = members@;
    proof {
        lemma_key_index_bounds(members_tree(m0), "entries"@);
    }
    let (at, mut entries) = match take_array(&mut members, "entries") {
        Ok((Some(at), entries)) => (at, entries),
        _ => {
            *catalog = Json::Object(members);
            return false;
        },
    };
    proof {
        lemma_members_tree_index(m0, at as int);
    }
    let ghost es = items_tree(entries@);
    let j = match find_with_id(&entries, entry_id) {
        Some(j) => j,
        None => {
            put_back(&mut members, Some(at), "entries", Json::Array(entries));
            proof {
                let m1 = members@;
                assert(m1 =~= m0.update(at as int, m1[at as int]));
                lemma_members_tree_update(m0, at as int, m1[at as int]);
                assert(members_tree(m1) =~= members_tree(m0));
            }
            *catalog = Json::Object(members);
            return false;
        },
    };
    proof {
        lemma_find_id_bounds(es, entry_id@);
        lemma_items_tree_index(entries@, j as int);
    }
    let entry = entries.remove(j);
    let entry = match entry {
        Json::Object(m) => Json::Object(m),
        _ => Json::Object(Vec::new()),
    };
    assert(remote_members(entry.tree()) == remote_members(es[j as int])) by {
        assert(members_tree(Seq::<(String, Json)>::empty()) =~= Seq::empty());
    }
    let entry = set_member(entry, "snapshot_count", Json::UInt(summary.snapshot_count));
    let entry = set_member(entry, "stored_bytes", Json::UInt(summary.stored_bytes));
    let entry = set_member(entry, "last_snapshot_at_ms", Json::UInt(summary.last_snapshot_at_ms));
    let ghost timeline = items_tree(summary.timeline@);
    let updated = set_member(entry, "snapshots", Json::Array(summary.timeline));
    entries.insert(j, updated);
    proof {
        assert(items_tree(entries@) =~= es.update(j as int, updated.tree())) by {
            assert forall|x: int| 0 <= x < es.len() implies #[trigger] items_tree(entries@)[x]
                == es.update(j as int, updated.tree())[x] by {
                lemma_items_tree_index(entries@, x);
            }
        }
    }
    put_back(&mut members, Some(at), "entries", Json::Array(entries));
    proof {
        let m1 = members@;
        assert(m1 =~= m0.update(at as int, m1[at as int]));
        lemma_members_tree_update(m0, at as int, m1[at as int]);
    }
    *catalog = Json::Object(members);
    true
}

proof fn lemma_key_index_spec(members: Seq<(Seq<char>, JsonTree)>, key: Seq<char>)
    ensures
        match key_index(members, key) {
            Some(i) => 0 <= i < members.len() && members[i].0 == key && forall|j: int|
                0 <= j < i ==> (#[trigger] members[j]).0 != key,
            None => forall|j: int| 0 <= j < members.len() ==> (#[trigger] members[j]).0 != key,
        },
    decreases members.len(),
{
    if members.len() > 0 {
        lemma_key_index_spec(members.drop_first(), key);
        match key_index(members.drop_first(), key) {
            Some(i) => {
                assert forall|j: int| 0 <= j < i + 1 && members[0].0 != key implies (
                #[trigger] members[j]).0 != key by {
                    if j > 0 {
                        assert(members[j] == members.drop_first()[j - 1]);
                    }
                }
            },
            None => {
                assert forall|j: int| 0 <= j < members.len() && members[0].0 != key implies (
                #[trigger] members[j]).0 != key by {
                    if j > 0 {
                        assert(members[j] == members.drop_first()[j - 1]);
                    }
                }
            },
        }
    }
}

/// Reading a member after setting one: the set value under its key, the old value under any
/// other key.
proof fn lemma_put_field_lookup(
    members: Seq<(Seq<char>, JsonTree)>,
    key: Seq<char>,
    value: JsonTree,
    other: Seq<char>,
)
    ensures
        first_member(put_field(members, key, value), other) == if other == key {
            Some(value)
        } else {
            first_member(members, other)
        },
{
    let updated = put_field(members, key, value);
    lemma_key_index_spec(members, key);
    lemma_key_index_spec(members, other);
    lemma_first_member_index(updated, other);
    lemma_first_member_index(members, other);
    match key_index(members, key) {
        Some(p) => {
            assert(updated == members.update(p, (key, value)));
            if other == key {
                lemma_key_index_first(updated, other, p);
            } else {
                match key_index(members, other) {
                    Some(q) => {
                        lemma_key_index_first(updated, other, q);
                    },
                    None => {
                        lemma_key_index_none(updated, other);
                    },
                }
            }
        },
        None => {
            assert(updated == members.push((key, value)));
            if other == key {
                lemma_key_index_first(updated, other, members.len() as int);
            } else {
                match key_index(members, other) {
                    Some(q) => {
                        lemma_key_index_first(updated, other, q);
                    },
                    None => {
                        lemma_key_index_none(updated, other);
                    },
                }
            }
        },
    }
}

/// Publishing an entry adds no other local entry to the remote catalog: afterwards every
/// remote entry is the published one or was already there, and the published id occurs
/// exactly once.
pub proof fn lemma_merge_publishes_only_the_selected_entry(remote: JsonTree, local: JsonTree, id: Seq<char>)
    requires
        merged_catalog(remote, local, id).1 is None,
    ensures
        forall|x: JsonTree|
            catalog_entries(merged_catalog(remote, local, id).0).contains(x) ==> x == local_entry(
                local,
                id,
            )->Some_0 || catalog_entries(remote).contains(x),
        catalog_entries(merged_catalog(remote, local, id).0).filter(|x: JsonTree| id_is(x, id)).len()
            == 1,
{
    broadcast use vstd::seq_lib::group_filter_ensures;

    let entry = local_entry(local, id)->Some_0;
    let m0 = remote_members(remote);
    let ev = first_member_of(m0, "entries"@);
    let entries = match ev {
        Some(JsonTree::Array(es)) => es,
        _ => Seq::empty(),
    };
    let kept = without_id(entries, Some(id));
    let published = kept.push(entry);
    let m1 = put_field(m0, "entries"@, JsonTree::Array(published));
    let chain = match required_categories(local, entry) {
        Some(c) => c,
        None => Seq::empty(),
    };
    let cv = first_member_of(m1, "categories"@);
    let cats = match cv {
        Some(JsonTree::Array(c)) => c,
        _ => Seq::empty(),
    };
    let m2 = put_field(m1, "categories"@, JsonTree::Array(with_categories(cats, chain)));
    assert(merged_catalog(remote, local, id).0 == JsonTree::Object(m2));
    reveal_strlit("entries");
    reveal_strlit("categories");
    assert("entries"@ != "categories"@) by {
        assert("entries"@.len() != "categories"@.len());
    }
    lemma_put_field_lookup(m1, "categories"@, JsonTree::Array(with_categories(cats, chain)), "entries"@);
    lemma_put_field_lookup(m0, "entries"@, JsonTree::Array(published), "entries"@);
    assert(catalog_entries(JsonTree::Object(m2)) == published);
    lemma_first_member_index(m0, "entries"@);
    assert(catalog_entries(remote) == entries);
    assert forall|x: JsonTree| published.contains(x) implies x == entry || entries.contains(x) by {
        if x != entry {
            let j = choose|j: int| 0 <= j < published.len() && published[j] == x;
            assert(j < kept.len());
            assert(kept[j] == x);
            assert(entries.filter(keeps(Some(id))).contains(x));
            entries.lemma_filter_contains_rev(keeps(Some(id)), x);
        }
    }
    match items_of(field(local, "entries"@)) {
        Some(es) => {
            lemma_find_id_bounds(es, id);
        },
        None => {},
    }
    assert(id_is(entry, id));
    let pred = |x: JsonTree| id_is(x, id);
    assert forall|i: int| 0 <= i < kept.len() implies !pred(#[trigger] kept[i]) by {
        assert(keeps(Some(id))(kept[i]));
    }
    kept.lemma_all_neg_filter_empty(pred);
    kept.lemma_filter_push(entry, pred);
}

/// Every planned upload is the archive of a local snapshot the remote lacks, and every local
/// snapshot the remote lacks has its archive planned.
pub proof fn lemma_upload_plan_is_exactly_the_missing_snapshots(items: Seq<JsonTree>, remote_ids: Seq<Seq<char>>)
    requires
        missing_archives(items, remote_ids) is Some,
    ensures
        forall|k: int|
            0 <= k < missing_archives(items, remote_ids)->Some_0.len() ==> exists|i: int|
                0 <= i < items.len() && needs_upload(#[trigger] items[i], remote_ids) && text_of(
                    field(items[i], "archive_name"@),
                ) == Some(#[trigger] missing_archives(items, remote_ids)->Some_0[k]),
        forall|i: int|
            0 <= i < items.len() && needs_upload(#[trigger] items[i], remote_ids) ==> missing_archives(
                items,
                remote_ids,
            )->Some_0.contains(text_of(field(items[i], "archive_name"@))->Some_0),
    decreases items.len(),
{
    if items.len() > 0 {
        let init = items.drop_last();
        lemma_upload_plan_is_exactly_the_missing_snapshots(init, remote_ids);
        let before = missing_archives(init, remote_ids)->Some_0;
        let names = missing_archives(items, remote_ids)->Some_0;
        let last = items.last();
        assert forall|k: int| 0 <= k < names.len() implies exists|i: int|
            0 <= i < items.len() && needs_upload(#[trigger] items[i], remote_ids) && text_of(
                field(items[i], "archive_name"@),
            ) == Some(#[trigger] names[k]) by {
            if k < before.len() {
                assert(names[k] == before[k]);
                let i = choose|i: int|
                    0 <= i < init.len() && needs_upload(#[trigger] init[i], remote_ids) && text_of(
                        field(init[i], "archive_name"@),
                    ) == Some(before[k]);
                assert(items[i] == init[i]);
            } else {
                assert(items[items.len() - 1] == last);
            }
        }
        assert forall|i: int|
            0 <= i < items.len() && needs_upload(#[trigger] items[i], remote_ids) implies names.contains(
            text_of(field(items[i], "archive_name"@))->Some_0,
        ) by {
            if i < init.len() {
                assert(items[i] == init[i]);
                let name = text_of(field(init[i], "archive_name"@))->Some_0;
                assert(before.contains(name));
                let k = choose|k: int| 0 <= k < before.len() && before[k] == name;
                assert(names[k] == name);
            } else {
                assert(names[names.len() - 1] == text_of(field(last, "archive_name"@))->Some_0);
            }
        }
    }
}

/// A sequence in non-decreasing creation order.
pub open spec fn in_created_order(items: Seq<JsonTree>) -> bool {
    forall|i: int, j: int| 0 <= i < j < items.len() ==> created_key(#[trigger] items[i]) <= created_key(
        #[trigger] items[j],
    )
}

proof fn lemma_insert_keeps_created_order(sorted: Seq<JsonTree>, x: JsonTree)
    requires
        in_created_order(sorted),
    ensures
        in_created_order(insert_sorted(sorted, x, created_before())),
{
    lemma_insert_at_point(sorted, x, created_before());
    let p = insertion_point(sorted, x, created_before());
    let r = insert_sorted(sorted, x, created_before());
    assert(r == sorted.take(p) + seq![x] + sorted.skip(p));
    assert forall|i: int, j: int| 0 <= i < j < r.len() implies created_key(#[trigger] r[i])
        <= created_key(#[trigger] r[j]) by {
        if j < p {
            assert(r[i] == sorted[i] && r[j] == sorted[j]);
        } else if j == p {
            assert(r[j] == x);
            assert(r[i] == sorted[i]);
            assert(!created_before()(x, sorted[i]));
        } else if i < p {
            assert(r[i] == sorted[i]);
            assert(r[j] == sorted[j - 1]);
        } else if i == p {
            assert(r[i] == x);
            assert(r[j] == sorted[j - 1]);
            assert(created_before()(x, sorted[p]));
            if j - 1 > p {
                assert(created_key(sorted[p]) <= created_key(sorted[j - 1]));
            }
        } else {
            assert(r[i] == sorted[i - 1]);
            assert(r[j] == sorted[j - 1]);
        }
    }
}

/// A merged timeline is ordered by creation time and holds exactly the snapshots it was made
/// of.
pub proof fn lemma_merged_timeline_ordered(items: Seq<JsonTree>)
    ensures
        in_created_order(stable_sort(items, created_before())),
        stable_sort(items, created_before()).to_multiset() == items.to_multiset(),
    decreases items.len(),
{
    lemma_stable_sort_permutes(items, created_before());
    if items.len() > 0 {
        lemma_merged_timeline_ordered(items.drop_last());
        lemma_insert_keeps_created_order(stable_sort(items.drop_last(), created_before()), items.last());
    }
}

/// After removing entries, none of the listed ids is left in the catalog.
pub proof fn lemma_removed_entries_are_gone(catalog: JsonTree, ids: Seq<Seq<char>>)
    requires
        items_of(field(catalog, "entries"@)) is Some,
    ensures
        forall|i: int|
            0 <= i < catalog_entries(without_entries(catalog, ids)).len() ==> !id_listed(
                #[trigger] catalog_entries(without_entries(catalog, ids))[i],
                ids,
            ),
{
    broadcast use vstd::seq_lib::group_filter_ensures;

    let m = remote_members(catalog);
    lemma_first_member_index(m, "entries"@);
    lemma_key_index_spec(m, "entries"@);
    let k = key_index(m, "entries"@)->Some_0;
    let es = match m[k].1 {
        JsonTree::Array(es) => es,
        _ => Seq::empty(),
    };
    let updated = m.update(k, ("entries"@, JsonTree::Array(es.filter(unlisted(ids)))));
    lemma_key_index_first(updated, "entries"@, k);
    lemma_first_member_index(updated, "entries"@);
    assert(catalog_entries(without_entries(catalog, ids)) == es.filter(unlisted(ids)));
    assert forall|i: int| 0 <= i < es.filter(unlisted(ids)).len() implies !id_listed(
        #[trigger] es.filter(unlisted(ids))[i],
        ids,
    ) by {
        assert(unlisted(ids)(es.filter(unlisted(ids))[i]));
    }
}

/// Reading an entry's synchronization mode back gives the mode just set.
pub proof fn lemma_sync_mode_reads_back(catalog: JsonTree, id: Seq<char>, mode: Seq<char>)
    requires
        with_sync_mode(catalog, id, mode) is Ok,
    ensures
        find_id(catalog_entries(with_sync_mode(catalog, id, mode)->Ok_0), id) matches Some(j)
            && text_of(
            field(catalog_entries(with_sync_mode(catalog, id, mode)->Ok_0)[j], "sync_mode"@),
        ) == Some(mode),
{
    let m = remote_members(catalog);
    lemma_key_index_spec(m, "entries"@);
    let k = key_index(m, "entries"@)->Some_0;
    let es = match m[k].1 {
        JsonTree::Array(es) => es,
        _ => Seq::empty(),
    };
    lemma_find_id_bounds(es, id);
    let j = find_id(es, id)->Some_0;
    let fields = remote_members(es[j]);
    let entry = JsonTree::Object(put_field(fields, "sync_mode"@, JsonTree::Str(mode)));
    let new_es = es.update(j, entry);
    let updated = m.update(k, ("entries"@, JsonTree::Array(new_es)));
    lemma_key_index_first(updated, "entries"@, k);
    lemma_first_member_index(updated, "entries"@);
    assert(catalog_entries(with_sync_mode(catalog, id, mode)->Ok_0) == new_es);
    lemma_put_field_lookup(fields, "sync_mode"@, JsonTree::Str(mode), "sync_mode"@);
    lemma_put_field_lookup(fields, "sync_mode"@, JsonTree::Str(mode), "id"@);
    reveal_strlit("id");
    reveal_strlit("sync_mode");
    assert("id"@ != "sync_mode"@) by {
        assert("id"@.len() != "sync_mode"@.len());
    }
    assert(id_is(new_es[j], id));
    assert forall|x: int| 0 <= x < j implies !id_is(#[trigger] new_es[x], id) by {
        assert(new_es[x] == es[x]);
        lemma_find_id_before(es, id, x);
    }
    lemma_find_id_first(new_es, id, j);
}

proof fn lemma_find_id_before(items: Seq<JsonTree>, id: Seq<char>, x: int)
    requires
        find_id(items, id) matches Some(j) && 0 <= x < j,
    ensures
        !id_is(items[x], id),
    decreases items.len(),
{
    lemma_find_id_bounds(items, id);
    if x > 0 && items.len() > 0 && !id_is(items[0], id) {
        assert(items.drop_first()[x - 1] == items[x]);
        lemma_find_id_before(items.drop_first(), id, x - 1);
    }
}

/// A document with `key` set to `value`; a `null` document becomes an object first.
pub open spec fn with_member(doc: JsonTree, key: Seq<char>, value: JsonTree) -> JsonTree {
    JsonTree::Object(put_field(remote_members(doc), key, value))
}

/// Sets `key` of a document that is an object or `null`.
pub fn set_in_document(doc: Json, key: &str, value: Json) -> (r: Json)
    requires
        doc is Object || doc is Null,
    ensures
        r.tree() == with_member(doc.tree(), key@, value.tree()),
{
    let base = match doc {
        Json::Object(m) => Json::Object(m),
        _ => Json::Object(Vec::new()),
    };
    assert(remote_members(base.tree()) == remote_members(doc.tree())) by {
        assert(members_tree(Seq::<(String, Json)>::empty()) =~= Seq::empty());
    }
    set_member(base, key, value)
}

/// A new library document: format 2 with a fresh library id.
pub open spec fn new_library(library_id: Seq<char>) -> JsonTree {
    JsonTree::Object(
        seq![("formatVersion"@, JsonTree::UInt(2)), ("libraryId"@, JsonTree::Str(library_id))],
    )
}

/// The library document to publish: the saved one (a new one when none is saved), stamped
/// with the time of this update.
pub fn updated_library(saved: Option<Json>, library_id: String, now_ms: u64) -> (r: Json)
    requires
        saved matches Some(j) ==> (j is Object || j is Null),
    ensures
        r.tree() == with_member(
            match saved {
                Some(j) => j.tree(),
                None => new_library(library_id@),
            },
            "updatedAtMs"@,
            JsonTree::UInt(now_ms),
        ),
{
    let base = match saved {
        Some(j) => j,
        None => {
            let mut members: Vec<(String, Json)> = Vec::new();
            members.push((text("formatVersion"), Json::UInt(2)));
            members.push((text("libraryId"), Json::Str(library_id)));
            let doc = Json::Object(members);
            proof {
                assert(members_tree(members@) =~= seq![
                    ("formatVersion"@, JsonTree::UInt(2)),
                    ("libraryId"@, JsonTree::Str(library_id@)),
                ]);
            }
            doc
        },
    };
    set_in_document(base, "updatedAtMs", Json::UInt(now_ms))
}

/// An empty catalog of the given format, stamped with the time it was made.
pub open spec fn empty_catalog_of(format_version: JsonTree, now_ms: u64) -> JsonTree {
    JsonTree::Object(
        seq![
            ("format_version"@, format_version),
            ("updated_at_ms"@, JsonTree::UInt(now_ms)),
            ("categories"@, JsonTree::Array(Seq::empty())),
            ("entries"@, JsonTree::Array(Seq::empty())),
        ],
    )
}

/// An empty catalog of format `format_version`.
pub fn empty_catalog(format_version: Json, now_ms: u64) -> (r: Json)
    ensures
        r.tree() == empty_catalog_of(format_version.tree(), now_ms),
{
    let ghost fv = format_version.tree();
    let mut members: Vec<(String, Json)> = Vec::new();
    members.push((text("format_version"), format_version));
    members.push((text("updated_at_ms"), Json::UInt(now_ms)));
    members.push((text("categories"), Json::Array(Vec::new())));
    members.push((text("entries"), Json::Array(Vec::new())));
    proof {
        assert(items_tree(Seq::<Json>::empty()) =~= Seq::empty());
        assert(members_tree(members@) =~= seq![
            ("format_version"@, fv),
            ("updated_at_ms"@, JsonTree::UInt(now_ms)),
            ("categories"@, JsonTree::Array(Seq::empty())),
            ("entries"@, JsonTree::Array(Seq::empty())),
        ]);
    }
    Json::Object(members)
}

/// How a source is reached.
#[derive(Clone, Copy, Debug, PartialEq, Eq, Structural)]
pub enum ClientKind {
    /// Through an object-store service.
    OpenDal,
    /// Through the WebDAV client.
    WebDav,
}

pub open spec fn github_client_message() -> Seq<char> {
    "GitHub 同步接口尚未启用"@
}

/// The storage client a provider uses; GitHub sources have a client of their own.
pub fn client_kind(provider: &str) -> (r: Result<ClientKind, String>)
    ensures
        provider@ == "opendal"@ ==> r == Ok::<ClientKind, String>(ClientKind::OpenDal),
        provider@ == "legacy_webdav"@ ==> r == Ok::<ClientKind, String>(ClientKind::WebDav),
        provider@ != "opendal"@ && provider@ != "legacy_webdav"@ ==> (r matches Err(m) && m@
            == github_client_message()),
{
    proof {
        reveal_strlit("opendal");
        reveal_strlit("legacy_webdav");
        assert("opendal"@.len() != "legacy_webdav"@.len());
    }
    if str_is(provider, "opendal") {
        Ok(ClientKind::OpenDal)
    } else if str_is(provider, "legacy_webdav") {
        Ok(ClientKind::WebDav)
    } else {
        Err(text("GitHub 同步接口尚未启用"))
    }
}

/// The credential-store service that holds a provider's secrets.
pub open spec fn credential_service_spec(provider: Seq<char>) -> Seq<char> {
    if provider == "legacy_github"@ {
        "Chronicle GitHub"@
    } else if provider == "opendal"@ {
        "Chronicle OpenDAL"@
    } else {
        "Chronicle WebDAV"@
    }
}

/// Where a source's secret is kept: the credential-store service of its provider, and its
/// credential reference as the account, or its id when it has none.
pub fn credential_location(source: &CloudSourceInput) -> (r: (&'static str, String))
    ensures
        r.0@ == credential_service_spec(source.provider@),
        r.1@ == (if source.credential_ref@.len() == 0 {
            source.id@
        } else {
            source.credential_ref@
        }),
{
    let service: &'static str = if str_is(source.provider.as_str(), "legacy_github") {
        "Chronicle GitHub"
    } else if str_is(source.provider.as_str(), "opendal") {
        "Chronicle OpenDAL"
    } else {
        "Chronicle WebDAV"
    };
    let account = if source.credential_ref.as_str().is_empty() {
        source.id.as_str().to_owned()
    } else {
        source.credential_ref.as_str().to_owned()
    };
    (service, account)
}

/// Settings whose sources are all accepted name each source once, by a non-empty id, with
/// a known provider, and keep every declared secret out of the public settings of their
/// object-store sources.
pub proof fn lemma_accepted_sources_are_distinct(sources: Seq<CloudSourceInput>)
    requires
        first_problem(sources) is None,
    ensures
        forall|i: int, j: int|
            0 <= i < sources.len() && 0 <= j < sources.len() && i != j ==> (#[trigger] sources[i]).id@
                != (#[trigger] sources[j]).id@,
        forall|i: int|
            0 <= i < sources.len() ==> (#[trigger] sources[i]).id@.len() > 0 && (sources[i].provider@
                == "legacy_github"@ || sources[i].provider@ == "legacy_webdav"@ || sources[i].provider@
                == "opendal"@),
        forall|i: int, k: int|
            0 <= i < sources.len() && (#[trigger] sources[i]).provider@ == "opendal"@ && 0 <= k
                < sources[i].config@.len() ==> !strings_view(sources[i].secret_keys@).contains(
                #[trigger] sources[i].config@[k].0@,
            ),
    decreases sources.len(),
{
    if sources.len() > 0 {
        let init = sources.drop_last();
        let last = sources.last();
        lemma_accepted_sources_are_distinct(init);
        assert(source_problem(last, source_ids(init)) is None);
        assert forall|i: int, j: int|
            0 <= i < sources.len() && 0 <= j < sources.len() && i != j implies (#[trigger] sources[i]).id@
                != (#[trigger] sources[j]).id@ by {
            if i == sources.len() - 1 {
                assert(source_ids(init)[j] == sources[j].id@);
                assert(source_ids(init).contains(sources[j].id@));
            } else if j == sources.len() - 1 {
                assert(source_ids(init)[i] == sources[i].id@);
                assert(source_ids(init).contains(sources[i].id@));
            } else {
                assert(init[i] == sources[i] && init[j] == sources[j]);
            }
        }
        assert forall|i: int| 0 <= i < sources.len() implies (#[trigger] sources[i]).id@.len() > 0 && (
        sources[i].provider@ == "legacy_github"@ || sources[i].provider@ == "legacy_webdav"@
            || sources[i].provider@ == "opendal"@) by {
            if i < sources.len() - 1 {
                assert(init[i] == sources[i]);
            }
        }
        assert forall|i: int, k: int|
            0 <= i < sources.len() && (#[trigger] sources[i]).provider@ == "opendal"@ && 0 <= k
                < sources[i].config@.len() implies !strings_view(sources[i].secret_keys@).contains(
            #[trigger] sources[i].config@[k].0@,
        ) by {
            if i < sources.len() - 1 {
                assert(init[i] == sources[i]);
            }
        }
    }
}

/// Whether two catalog summaries of an archive agree on its settings: everything the catalog
/// shares except the timeline and the figures derived from it (snapshot count, stored bytes,
/// last snapshot time).
pub open spec fn same_settings(a: CatalogEntryView, b: CatalogEntryView) -> bool {
    &&& a.id == b.id
    &&& a.name == b.name
    &&& a.folder == b.folder
    &&& a.category_id == b.category_id
    &&& a.tags == b.tags
    &&& a.storage_policy == b.storage_policy
    &&& a.sync_mode == b.sync_mode
    &&& a.source_count == b.source_count
    &&& a.sources == b.sources
    &&& a.created_at_ms == b.created_at_ms
}

fn same_opt_text(a: &Option<String>, b: &Option<String>) -> (r: bool)
    ensures
        r == (opt_view(*a) == opt_view(*b)),
{
    match (a, b) {
        (Some(x), Some(y)) => str_is(x.as_str(), y.as_str()),
        (None, None) => true,
        _ => false,
    }
}

fn same_texts(a: &Vec<String>, b: &Vec<String>) -> (r: bool)
    ensures
        r == (strings_view(a@) == strings_view(b@)),
{
    if a.len() != b.len() {
        proof {
            assert(strings_view(a@).len() != strings_view(b@).len());
        }
        return false;
    }
    let mut i: usize = 0;
    while i < a.len()
        invariant
            i <= a@.len(),
            a@.len() == b@.len(),
            forall|j: int| 0 <= j < i ==> a@[j]@ == b@[j]@,
        decreases a@.len() - i,
    {
        if !str_is(a[i].as_str(), b[i].as_str()) {
            proof {
                assert(strings_view(a@)[i as int] != strings_view(b@)[i as int]);
            }
            return false;
        }
        i = i + 1;
    }
    proof {
        assert(strings_view(a@) =~= strings_view(b@));
    }
    true
}

fn same_sources(a: &Vec<EntrySource>, b: &Vec<EntrySource>) -> (r: bool)
    ensures
        r == (sources_view(a@) == sources_view(b@)),
{
    if a.len() != b.len() {
        proof {
            assert(sources_view(a@).len() != sources_view(b@).len());
        }
        return false;
    }
    let mut i: usize = 0;
    while i < a.len()
        invariant
            i <= a@.len(),
            a@.len() == b@.len(),
            forall|j: int| 0 <= j < i ==> a@[j]@ == b@[j]@,
        decreases a@.len() - i,
    {
        let x = &a[i];
        let y = &b[i];
        if !(str_is(x.id.as_str(), y.id.as_str()) && str_is(x.name.as_str(), y.name.as_str()) && str_is(
            x.path.as_str(),
            y.path.as_str(),
        ) && x.kind == y.kind) {
            proof {
                assert(sources_view(a@)[i as int] != sources_view(b@)[i as int]);
            }
            return false;
        }
        i = i + 1;
    }
    proof {
        assert(sources_view(a@) =~= sources_view(b@));
    }
    true
}

/// Whether the local and the remote summary of an archive agree on its settings; when they
/// do not, synchronizing it asks which side to keep.
pub fn settings_match(local: &CatalogEntry, remote: &CatalogEntry) -> (r: bool)
    ensures
        r == same_settings(local@, remote@),
{
    str_is(local.id.as_str(), remote.id.as_str()) && str_is(local.name.as_str(), remote.name.as_str())
        && str_is(local.folder.as_str(), remote.folder.as_str()) && same_opt_text(
        &local.category_id,
        &remote.category_id,
    ) && same_texts(&local.tags, &remote.tags) && local.storage_policy == remote.storage_policy
        && local.sync_mode == remote.sync_mode && local.source_count == remote.source_count
        && same_sources(&local.sources, &remote.sources) && local.created_at_ms == remote.created_at_ms
}

/// A member other than `path`.
pub open spec fn not_path() -> spec_fn((Seq<char>, JsonTree)) -> bool {
    |m: (Seq<char>, JsonTree)| m.0 != "path"@
}

/// A source description without its device path.
pub open spec fn without_path(item: JsonTree) -> JsonTree {
    match item {
        JsonTree::Object(m) => JsonTree::Object(m.filter(not_path())),
        _ => item,
    }
}

/// An archive's `entry.json` as it is uploaded: the device paths of its sources removed;
/// anything that is not a source object is left as it is.
pub open spec fn without_source_paths(doc: JsonTree) -> JsonTree {
    match doc {
        JsonTree::Object(m) => match key_index(m, "sources"@) {
            Some(k) => match m[k].1 {
                JsonTree::Array(items) => JsonTree::Object(
                    m.update(k, ("sources"@, JsonTree::Array(items.map_values(|x: JsonTree| without_path(x))))),
                ),
                _ => doc,
            },
            None => doc,
        },
        _ => doc,
    }
}

fn drop_path_members(members: Vec<(String, Json)>) -> (r: Vec<(String, Json)>)
    ensures
        members_tree(r@) == members_tree(members@).filter(not_path()),
{
    let ghost all = members@;
    let total = members.len();
    let mut rest = members;
    let mut kept: Vec<(String, Json)> = Vec::new();
    let mut n: usize = 0;
    proof {
        assert(all.take(0) =~= Seq::<(String, Json)>::empty());
        assert(members_tree(all.take(0)) =~= Seq::<(Seq<char>, JsonTree)>::empty());
        reveal(Seq::filter);
        assert(rest@ =~= all.skip(0));
    }
    while rest.len() > 0
        invariant
            all.len() == total,
            n <= all.len(),
            rest@ == all.skip(n as int),
            members_tree(kept@) == members_tree(all.take(n as int)).filter(not_path()),
        decreases rest@.len(),
    {
        let m = rest.remove(0);
        proof {
            assert(m == all[n as int]);
            assert(all.take(n + 1) =~= all.take(n as int).push(m));
            lemma_members_tree_push(all.take(n as int), m);
            members_tree(all.take(n as int)).lemma_filter_push((m.0@, m.1.tree()), not_path());
        }
        if !str_is(m.0.as_str(), "path") {
            let ghost before = kept@;
            kept.push(m);
            proof {
                lemma_members_tree_push(before, m);
            }
        }
        n = n + 1;
        proof {
            assert(rest@ =~= all.skip(n as int));
        }
    }
    proof {
        assert(all.take(n as int) =~= all);
    }
    kept
}

fn drop_item_path(item: Json) -> (r: Json)
    ensures
        r.tree() == without_path(item.tree()),
{
    match item {
        Json::Object(members) => Json::Object(drop_path_members(members)),
        other => other,
    }
}

fn drop_items_paths(items: Vec<Json>) -> (r: Vec<Json>)
    ensures
        items_tree(r@) == items_tree(items@).map_values(|x: JsonTree| without_path(x)),
{
    let ghost all = items@;
    let total = items.len();
    let mut rest = items;
    let mut out: Vec<Json> = Vec::new();
    let mut n: usize = 0;
    proof {
        assert(rest@ =~= all.skip(0));
    }
    while rest.len() > 0
        invariant
            all.len() == total,
            n <= all.len(),
            rest@ == all.skip(n as int),
            out@.len() == n,
            forall|j: int| 0 <= j < n ==> (#[trigger] out@[j]).tree() == without_path(all[j].tree()),
        decreases rest@.len(),
    {
        let x = rest.remove(0);
        proof {
            assert(x == all[n as int]);
        }
        let y = drop_item_path(x);
        out.push(y);
        n = n + 1;
        proof {
            assert(rest@ =~= all.skip(n as int));
        }
    }
    proof {
        assert(items_tree(out@) =~= items_tree(all).map_values(|x: JsonTree| without_path(x)));
    }
    out
}

/// The archive document to upload: `entry.json` with the device paths of its sources removed.
pub fn upload_entry_document(doc: &Json) -> (r: Json)
    ensures
        r.tree() == without_source_paths(doc.tree()),
{
    let copy = copy_json(doc);
    match copy {
        Json::Object(mut members) => {
            let ghost m0 = members@;
            proof {
                lemma_key_index_bounds(members_tree(m0), "sources"@);
            }
            match take_array(&mut members, "sources") {
                Ok((Some(at), items)) => {
                    let stripped = drop_items_paths(items);
                    put_back(&mut members, Some(at), "sources", Json::Array(stripped));
                    proof {
                        let m1 = members@;
                        lemma_members_tree_index(m0, at as int);
                        assert(m1 =~= m0.update(at as int, m1[at as int]));
                        lemma_members_tree_update(m0, at as int, m1[at as int]);
                    }
                    Json::Object(members)
                },
                _ => Json::Object(members),
            }
        },
        other => other,
    }
}

/// The name a remote archive folder (`archives/<folder>`) is kept under while a deletion
/// is published: the deletion's id and the folder's own name.
pub open spec fn delete_staging_spec(remote_folder: Seq<char>, deletion_id: Seq<char>) -> Seq<char> {
    ".chronicle-delete-"@ + deletion_id + "-"@ + remote_folder.skip(9)
}

proof fn lemma_deleted_folders_prefixed(t: Seq<JsonTree>, ids: Seq<Seq<char>>)
    ensures
        deleted_folders_of(t, ids) matches Ok(p) ==> forall|k: int|
            0 <= k < p.len() ==> (#[trigger] p[k]).len() >= 9 && p[k].take(9) == "archives/"@,
    decreases t.len(),
{
    reveal_strlit("archives/");
    if t.len() > 0 {
        lemma_deleted_folders_prefixed(t.drop_last(), ids);
        match deleted_folders_of(t, ids) {
            Ok(p) => {
                match deleted_folders_of(t.drop_last(), ids) {
                    Ok(q) => {
                        assert forall|k: int| 0 <= k < p.len() implies (#[trigger] p[k]).len() >= 9
                            && p[k].take(9) == "archives/"@ by {
                            if k < q.len() {
                                assert(p[k] == q[k]);
                            } else {
                                let f = text_of(field(t.last(), "folder"@))->0;
                                assert(p[k] == "archives/"@ + f);
                                assert(p[k].take(9) =~= "archives/"@);
                            }
                        }
                    },
                    Err(_) => {},
                }
            },
            Err(_) => {},
        }
    }
}

/// The moves that set the listed entries' remote archive folders aside before the catalog
/// without them is published: each folder and the name it is kept under, in catalog order.
/// If publishing fails they are undone, last first; once it succeeds the kept folders are
/// deleted. A listed entry without a valid folder is the error, as `deleted_folders` gives it.
pub fn staged_deletions(catalog: &Json, entry_ids: &Vec<String>, deletion_id: &str) -> (r: Result<
    Vec<(String, String)>,
    String,
>)
    ensures
        match deleted_folders_of(catalog_entries(catalog.tree()), strings_view(entry_ids@)) {
            Ok(p) => r matches Ok(v) && v@.len() == p.len() && forall|k: int|
                0 <= k < p.len() ==> (#[trigger] v@[k]).0@ == p[k] && v@[k].1@ == delete_staging_spec(
                    p[k],
                    deletion_id@,
                ),
            Err(m) => r matches Err(e) && e@ == m,
        },
{
    let folders = match deleted_folders(catalog, entry_ids) {
        Ok(f) => f,
        Err(e) => return Err(e),
    };
    let ghost p = strings_view(folders@);
    proof {
        lemma_deleted_folders_prefixed(catalog_entries(catalog.tree()), strings_view(entry_ids@));
    }
    let prefix = chars_of(".chronicle-delete-");
    let id_chars = chars_of(deletion_id);
    let dash = chars_of("-");
    let head = crate::text::concat_chars(prefix.as_slice(), id_chars.as_slice());
    let head = crate::text::concat_chars(head.as_slice(), dash.as_slice());
    let mut moves: Vec<(String, String)> = Vec::new();
    let mut k: usize = 0;
    while k < folders.len()
        invariant
            k <= folders@.len(),
            p == strings_view(folders@),
            head@ == ".chronicle-delete-"@ + deletion_id@ + "-"@,
            forall|j: int| 0 <= j < p.len() ==> (#[trigger] p[j]).len() >= 9,
            moves@.len() == k,
            forall|j: int|
                0 <= j < k ==> (#[trigger] moves@[j]).0@ == p[j] && moves@[j].1@ == delete_staging_spec(
                    p[j],
                    deletion_id@,
                ),
        decreases folders@.len() - k,
    {
        let remote = chars_of(folders[k].as_str());
        proof {
            assert(p[k as int] == folders@[k as int]@);
        }
        let name = crate::text::copy_range(remote.as_slice(), 9, remote.len());
        let staged = crate::text::concat_chars(head.as_slice(), name.as_slice());
        proof {
            assert(name@ =~= p[k as int].skip(9));
            assert(staged@ =~= delete_staging_spec(p[k as int], deletion_id@));
        }
        moves.push((folders[k].clone(), string_of(staged.as_slice())));
        k = k + 1;
    }
    Ok(moves)
}

/// A change to make on the remote side.
#[derive(Clone, Debug)]
pub enum RemoteStep {
    Delete(String),
    Move(String, String),
}

/// The remote folders of replacing an archive: its folder under `archives`, and the name
/// the old folder is kept under while the new one is uploaded.
pub fn upload_folders(folder: &str, unique: &str) -> (r: (String, String))
    ensures
        r.0@ == "archives/"@ + folder@,
        r.1@ == ".chronicle-upload-old-"@ + unique@,
{
    let a = crate::text::concat_chars(chars_of("archives/").as_slice(), chars_of(folder).as_slice());
    let b = crate::text::concat_chars(chars_of(".chronicle-upload-old-").as_slice(), chars_of(unique).as_slice());
    (string_of(a.as_slice()), string_of(b.as_slice()))
}

/// What ends the replacement of a remote archive folder: after a failed upload, the partial
/// folder is deleted and the old one, if there was one, moved back; after a successful one,
/// the old folder, if there was one, is deleted.
pub open spec fn upload_finish_spec(
    succeeded: bool,
    had_remote: bool,
    remote_folder: Seq<char>,
    old_folder: Seq<char>,
) -> Seq<(bool, Seq<char>, Seq<char>)> {
    if succeeded {
        if had_remote {
            seq![(true, old_folder, Seq::empty())]
        } else {
            Seq::empty()
        }
    } else if had_remote {
        seq![(true, remote_folder, Seq::empty()), (false, old_folder, remote_folder)]
    } else {
        seq![(true, remote_folder, Seq::empty())]
    }
}

/// A step as (is a deletion, path, destination of a move).
pub open spec fn step_view(s: RemoteStep) -> (bool, Seq<char>, Seq<char>) {
    match s {
        RemoteStep::Delete(p) => (true, p@, Seq::empty()),
        RemoteStep::Move(from, to) => (false, from@, to@),
    }
}

/// The remote steps that finish (or roll back) the replacement of an archive folder.
pub fn upload_finish_steps(succeeded: bool, had_remote: bool, remote_folder: &str, old_folder: &str) -> (r:
    Vec<RemoteStep>)
    ensures
        r@.map_values(|s: RemoteStep| step_view(s)) == upload_finish_spec(
            succeeded,
            had_remote,
            remote_folder@,
            old_folder@,
        ),
{
    let mut steps: Vec<RemoteStep> = Vec::new();
    if succeeded {
        if had_remote {
            steps.push(RemoteStep::Delete(text(old_folder)));
        }
    } else {
        steps.push(RemoteStep::Delete(text(remote_folder)));
        if had_remote {
            steps.push(RemoteStep::Move(text(old_folder), text(remote_folder)));
        }
    }
    proof {
        assert(steps@.map_values(|s: RemoteStep| step_view(s)) =~= upload_finish_spec(
            succeeded,
            had_remote,
            remote_folder@,
            old_folder@,
        ));
    }
    steps
}

/// What downloading each snapshot of a remote timeline needs, in order, or the first
/// problem.
pub open spec fn fetch_plans(snapshots: Seq<JsonTree>) -> Result<Seq<(Seq<char>, Seq<char>)>, Seq<char>>
    decreases snapshots.len(),
{
    if snapshots.len() == 0 {
        Ok(Seq::empty())
    } else {
        match fetch_plans(snapshots.drop_last()) {
            Err(e) => Err(e),
            Ok(ps) => match fetch_plan_of(snapshots.last()) {
                Err(m) => Err(m),
                Ok(p) => Ok(ps.push(p)),
            },
        }
    }
}

/// What replacing a local archive by its remote copy needs: the remote folder (a single
/// component), the archive name and expected hash of each remote snapshot, and the remote
/// summary of the archive; or the problem, found before anything is downloaded.
pub open spec fn download_plan_of(catalog: JsonTree, id: Seq<char>) -> Result<
    (Seq<char>, Seq<(Seq<char>, Seq<char>)>, JsonTree),
    Seq<char>,
> {
    let es = catalog_entries(catalog);
    match find_id(es, id) {
        None => Err(remote_entry_missing_message()),
        Some(k) => match text_of(field(es[k], "folder"@)) {
            None => Err(folder_missing_message()),
            Some(folder) => if !single_folder(folder) {
                Err(folder_error(folder))
            } else {
                match fetch_plans(
                    match items_of(field(es[k], "snapshots"@)) {
                        Some(s) => s,
                        None => Seq::empty(),
                    },
                ) {
                    Err(m) => Err(m),
                    Ok(ps) => Ok((folder, ps, es[k])),
                }
            },
        },
    }
}

/// The download of one remote archive: where it is, what to fetch, and the summary that
/// replaces the local one.
#[derive(Debug)]
pub struct DownloadPlan {
    pub folder: String,
    /// Archive name and expected SHA-256 of each snapshot.
    pub archives: Vec<(String, String)>,
    pub summary: Json,
}

pub open spec fn pairs_view(v: Seq<(String, String)>) -> Seq<(Seq<char>, Seq<char>)> {
    v.map_values(|p: (String, String)| (p.0@, p.1@))
}

proof fn lemma_fetch_plans_error(s: Seq<JsonTree>, n: int)
    requires
        0 <= n <= s.len(),
        fetch_plans(s.take(n)) is Err,
    ensures
        fetch_plans(s) == fetch_plans(s.take(n)),
    decreases s.len(),
{
    if n == s.len() {
        assert(s.take(n) =~= s);
    } else {
        assert(s.drop_last().take(n) =~= s.take(n));
        lemma_fetch_plans_error(s.drop_last(), n);
    }
}

fn fetch_plans_exec(snapshots: &Vec<Json>) -> (r: Result<Vec<(String, String)>, String>)
    ensures
        match fetch_plans(items_tree(snapshots@)) {
            Ok(ps) => r matches Ok(v) && pairs_view(v@) == ps,
            Err(m) => r matches Err(e) && e@ == m,
        },
{
    let ghost t = items_tree(snapshots@);
    let mut out: Vec<(String, String)> = Vec::new();
    let mut i: usize = 0;
    proof {
        assert(t.take(0) =~= Seq::<JsonTree>::empty());
        assert(pairs_view(out@) =~= Seq::<(Seq<char>, Seq<char>)>::empty());
    }
    while i < snapshots.len()
        invariant
            i <= snapshots@.len(),
            t == items_tree(snapshots@),
            t.len() == snapshots@.len(),
            fetch_plans(t.take(i as int)) == Ok::<Seq<(Seq<char>, Seq<char>)>, Seq<char>>(pairs_view(out@)),
        decreases snapshots@.len() - i,
    {
        proof {
            lemma_items_tree_index(snapshots@, i as int);
            assert(t.take(i + 1).drop_last() =~= t.take(i as int));
            assert(t.take(i + 1).last() == t[i as int]);
        }
        match fetch_plan(&snapshots[i]) {
            Ok(p) => {
                let ghost before = out@;
                out.push(p);
                proof {
                    assert(pairs_view(out@) =~= pairs_view(before).push((out@.last().0@, out@.last().1@)));
                }
            },
            Err(m) => {
                proof {
                    lemma_fetch_plans_error(t, i + 1);
                }
                return Err(m);
            },
        }
        i = i + 1;
    }
    proof {
        assert(t.take(i as int) =~= t);
    }
    Ok(out)
}

/// Plans the download of archive `entry_id` from a remote catalog, before anything is
/// fetched.
pub fn download_plan(remote_catalog: &Json, entry_id: &str) -> (r: Result<DownloadPlan, String>)
    ensures
        match download_plan_of(remote_catalog.tree(), entry_id@) {
            Ok((folder, archives, summary)) => r matches Ok(p) && p.folder@ == folder && pairs_view(
                p.archives@,
            ) == archives && p.summary.tree() == summary,
            Err(m) => r matches Err(e) && e@ == m,
        },
{
    proof {
        lemma_member_tree(*remote_catalog, "entries"@);
    }
    let no_entries: Vec<Json> = Vec::new();
    let entries: &Vec<Json> = match get(remote_catalog, "entries") {
        Some(Json::Array(es)) => es,
        _ => &no_entries,
    };
    assert(items_tree(entries@) == catalog_entries(remote_catalog.tree())) by {
        assert(items_tree(no_entries@) =~= Seq::<JsonTree>::empty());
    }
    let k = match find_with_id(entries, entry_id) {
        Some(k) => k,
        None => return Err(text("远端存档不存在")),
    };
    proof {
        lemma_find_id_bounds(items_tree(entries@), entry_id@);
        lemma_items_tree_index(entries@, k as int);
    }
    let entry = &entries[k];
    let folder = match member_text(entry, "folder") {
        Some(f) => f,
        None => return Err(text("远端存档缺少目录")),
    };
    let folder = match checked_folder(folder.as_str()) {
        Ok(f) => f,
        Err(m) => return Err(m),
    };
    proof {
        lemma_member_tree(*entry, "snapshots"@);
    }
    let no_snapshots: Vec<Json> = Vec::new();
    let snapshots: &Vec<Json> = match get(entry, "snapshots") {
        Some(Json::Array(s)) => s,
        _ => &no_snapshots,
    };
    assert(items_tree(snapshots@) == match items_of(field(entry.tree(), "snapshots"@)) {
        Some(s) => s,
        None => Seq::empty(),
    }) by {
        assert(items_tree(no_snapshots@) =~= Seq::<JsonTree>::empty());
    }
    let archives = match fetch_plans_exec(snapshots) {
        Ok(a) => a,
        Err(m) => return Err(m),
    };
    Ok(DownloadPlan { folder, archives, summary: copy_json(entry) })
}

pub open spec fn download_hash_message() -> Seq<char> {
    "远端快照校验失败，本地内容未更改"@
}

pub open spec fn local_catalog_message() -> Seq<char> {
    "本地清单格式无效"@
}

/// Whether every fetched archive has the hash its snapshot records.
pub open spec fn hashes_match(archives: Seq<(Seq<char>, Seq<char>)>, fetched: Seq<Seq<char>>) -> bool {
    forall|i: int| 0 <= i < archives.len() ==> fetched[i] == #[trigger] archives[i].1
}

/// The local catalog after a download: the archive's local summary replaced by the remote
/// one, at the end of the entry list; a catalog without an entry list is refused.
pub open spec fn with_downloaded(local: JsonTree, id: Seq<char>, summary: JsonTree) -> Option<JsonTree> {
    match local {
        JsonTree::Object(m) => match key_index(m, "entries"@) {
            Some(k) => match m[k].1 {
                JsonTree::Array(es) => Some(
                    JsonTree::Object(m.update(k, ("entries"@, JsonTree::Array(es.filter(unlisted(seq![id])).push(summary))))),
                ),
                _ => None,
            },
            None => None,
        },
        _ => None,
    }
}

/// Decides a download once every archive has been fetched and hashed: unless every hash is
/// the expected one, nothing local changes; otherwise the new local catalog carries the
/// remote summary.
pub fn download_outcome(plan: &DownloadPlan, entry_id: &str, fetched_hashes: &Vec<String>, local_catalog: &Json) -> (r:
    Result<Json, String>)
    requires
        fetched_hashes@.len() == plan.archives@.len(),
    ensures
        !hashes_match(pairs_view(plan.archives@), strings_view(fetched_hashes@)) ==> (r matches Err(e) && e@
            == download_hash_message()),
        hashes_match(pairs_view(plan.archives@), strings_view(fetched_hashes@)) ==> match with_downloaded(
            local_catalog.tree(),
            entry_id@,
            plan.summary.tree(),
        ) {
            Some(c) => r matches Ok(v) && v.tree() == c,
            None => r matches Err(e) && e@ == local_catalog_message(),
        },
{
    let mut i: usize = 0;
    while i < plan.archives.len()
        invariant
            i <= plan.archives@.len(),
            fetched_hashes@.len() == plan.archives@.len(),
            forall|j: int| 0 <= j < i ==> strings_view(fetched_hashes@)[j] == #[trigger] pairs_view(plan.archives@)[j].1,
        decreases plan.archives@.len() - i,
    {
        if !str_is(fetched_hashes[i].as_str(), plan.archives[i].1.as_str()) {
            proof {
                assert(strings_view(fetched_hashes@)[i as int] != pairs_view(plan.archives@)[i as int].1);
            }
            return Err(text("远端快照校验失败，本地内容未更改"));
        }
        i = i + 1;
    }
    let copy = copy_json(local_catalog);
    match copy {
        Json::Object(mut members) => {
            let ghost m0 = members@;
            proof {
                lemma_key_index_bounds(members_tree(m0), "entries"@);
            }
            match take_array(&mut members, "entries") {
                Ok((Some(at), entries)) => {
                    let mut ids: Vec<String> = Vec::new();
                    ids.push(text(entry_id));
                    proof {
                        assert(strings_view(ids@) =~= seq![entry_id@]);
                    }
                    let mut kept = retain_unlisted(&entries, &ids);
                    let ghost k0 = kept@;
                    kept.push(copy_json(&plan.summary));
                    proof {
                        assert(items_tree(kept@) =~= items_tree(k0).push(plan.summary.tree()));
                    }
                    put_back(&mut members, Some(at), "entries", Json::Array(kept));
                    proof {
                        let m1 = members@;
                        lemma_members_tree_index(m0, at as int);
                        assert(m1 =~= m0.update(at as int, m1[at as int]));
                        lemma_members_tree_update(m0, at as int, m1[at as int]);
                    }
                    Ok(Json::Object(members))
                },
                _ => Err(text("本地清单格式无效")),
            }
        },
        _ => Err(text("本地清单格式无效")),
    }
}

} // verus!
