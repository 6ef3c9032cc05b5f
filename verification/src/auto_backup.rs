//! Automatic backups: merge windows that turn a burst of changes into one snapshot,
//! suppression of the changes a restore writes, and which snapshots retention removes.
use crate::json::{as_u64, get, member, Json};
use crate::exclusions::{compiled_rules, excluded_from, rules_outcome, ExclusionRules};
use crate::model::{
    entry_views, snapshots_view, sources_view, strings_view, Entry, EntryKind, EntrySource,
    EntryView, Snapshot, SnapshotView, SourceView,
};
use crate::text::{replace_char, trim_end_char};
use crate::order::{newer_first, sort_snapshots, stable_sort};
use crate::remote::str_is;
use vstd::prelude::*;

verus! {

/// The archives whose merge window is open: a change was seen and one snapshot of the latest
/// state is owed when the window ends.
pub struct MergeWindows {
    open: Vec<String>,
}

/// Whether one of `v` is `id`.
pub open spec fn holds(v: Seq<String>, id: Seq<char>) -> bool {
    exists|i: int| 0 <= i < v.len() && (#[trigger] v[i])@ == id
}

proof fn lemma_holds_push(v: Seq<String>, x: String, id: Seq<char>)
    ensures
        holds(v.push(x), id) == (holds(v, id) || x@ == id),
{
    if holds(v, id) {
        let k = choose|k: int| 0 <= k < v.len() && (#[trigger] v[k])@ == id;
        assert(v.push(x)[k] == v[k]);
    }
    if x@ == id {
        assert(v.push(x)[v.len() as int] == x);
    }
    if holds(v.push(x), id) {
        let k = choose|k: int| 0 <= k < v.len() + 1 && (#[trigger] v.push(x)[k])@ == id;
        if k < v.len() {
            assert(v.push(x)[k] == v[k]);
        }
    }
}

impl MergeWindows {
    /// The archive ids with an open window.
    pub closed spec fn ids(&self) -> Set<Seq<char>> {
        Set::new(|id: Seq<char>| holds(self.open@, id))
    }

    /// No window is open.
    pub fn new() -> (r: Self)
        ensures
            r.ids() == Set::<Seq<char>>::empty(),
    {
        let r = MergeWindows { open: Vec::new() };
        proof {
            assert(r.ids() =~= Set::<Seq<char>>::empty());
        }
        r
    }

    fn position(&self, entry_id: &str) -> (r: Option<usize>)
        ensures
            match r {
                Some(i) => i < self.open@.len() && self.open@[i as int]@ == entry_id@,
                None => !self.ids().contains(entry_id@),
            },
    {
        let mut i: usize = 0;
        while i < self.open.len()
            invariant
                i <= self.open@.len(),
                forall|k: int| 0 <= k < i ==> (#[trigger] self.open@[k])@ != entry_id@,
            decreases self.open@.len() - i,
        {
            if str_is(self.open[i].as_str(), entry_id) {
                return Some(i);
            }
            i = i + 1;
        }
        None
    }
}

/// Records a change of an archive; returns whether it opens the archive's merge window
/// (no window was open). The window later yields exactly one snapshot of the latest state.
pub fn record_auto_backup_change(windows: &mut MergeWindows, entry_id: &str) -> (r: bool)
    ensures
        r == !old(windows).ids().contains(entry_id@),
        final(windows).ids() == old(windows).ids().insert(entry_id@),
{
    match windows.position(entry_id) {
        Some(i) => {
            proof {
                assert(windows.open@[i as int]@ == entry_id@);
            }
            proof {
                assert(windows.ids().contains(entry_id@));
                assert(windows.ids().insert(entry_id@) =~= windows.ids());
            }
            false
        },
        None => {
            let ghost before = windows.ids();
            let ghost prev = windows.open@;
            let id = entry_id.to_owned();
            windows.open.push(id);
            proof {
                assert forall|x: Seq<char>| windows.ids().contains(x) == before.insert(entry_id@).contains(x) by {
                    lemma_holds_push(prev, id, x);
                }
                assert(windows.ids() =~= before.insert(entry_id@));
            }
            true
        },
    }
}

/// Ends an archive's merge window; returns whether one was open, that is, whether the
/// snapshot of the latest state is owed now.
pub fn take_trailing_backup(windows: &mut MergeWindows, entry_id: &str) -> (r: bool)
    ensures
        r == old(windows).ids().contains(entry_id@),
        final(windows).ids() == old(windows).ids().remove(entry_id@),
{
    let ghost before = windows.ids();
    let ghost all = windows.open@;
    let mut kept: Vec<String> = Vec::new();
    let mut found = false;
    let mut i: usize = 0;
    proof {
        assert(all.take(0) =~= Seq::<String>::empty());
    }
    while i < windows.open.len()
        invariant
            i <= all.len(),
            all == windows.open@,
            before == windows.ids(),
            found == holds(all.take(i as int), entry_id@),
            !holds(kept@, entry_id@),
            forall|id: Seq<char>| id != entry_id@ ==> (#[trigger] holds(kept@, id) == holds(all.take(i as int), id)),
        decreases all.len() - i,
    {
        let ghost prev = kept@;
        let item = windows.open[i].clone();
        proof {
            assert(all.take(i + 1) =~= all.take(i as int).push(all[i as int]));
        }
        if str_is(item.as_str(), entry_id) {
            found = true;
            proof {
                assert forall|id: Seq<char>| id != entry_id@ implies (#[trigger] holds(kept@, id) == holds(all.take(i + 1), id)) by {
                    lemma_holds_push(all.take(i as int), all[i as int], id);
                }
                lemma_holds_push(all.take(i as int), all[i as int], entry_id@);
            }
        } else {
            kept.push(item);
            proof {
                lemma_holds_push(prev, item, entry_id@);
                lemma_holds_push(all.take(i as int), all[i as int], entry_id@);
                assert forall|id: Seq<char>| id != entry_id@ implies (#[trigger] holds(kept@, id) == holds(all.take(i + 1), id)) by {
                    lemma_holds_push(all.take(i as int), all[i as int], id);
                    lemma_holds_push(prev, item, id);
                }
            }
        }
        i = i + 1;
    }
    proof {
        assert(all.take(all.len() as int) =~= all);
    }
    windows.open = kept;
    proof {
        assert forall|id: Seq<char>| windows.ids().contains(id) == before.remove(entry_id@).contains(id) by {}
        assert(windows.ids() =~= before.remove(entry_id@));
    }
    found
}

/// Per archive: a restore in progress (`None`), or the time (in milliseconds of a monotonic
/// clock) until which the changes a finished restore wrote are ignored.
pub struct Suppressions {
    items: Vec<(String, Option<u64>)>,
}

/// The suppression recorded for an archive, if any.
pub open spec fn lookup(items: Seq<(String, Option<u64>)>, id: Seq<char>) -> Option<Option<u64>>
    decreases items.len(),
{
    if items.len() == 0 {
        None
    } else if items[0].0@ == id {
        Some(items[0].1)
    } else {
        lookup(items.drop_first(), id)
    }
}

impl Suppressions {
    /// The suppression recorded for an archive, if any.
    pub closed spec fn of(&self, id: Seq<char>) -> Option<Option<u64>> {
        lookup(self.items@, id)
    }

    /// Nothing is suppressed.
    pub fn new() -> (r: Self)
        ensures
            forall|id: Seq<char>| r.of(id) is None,
    {
        Suppressions { items: Vec::new() }
    }

    fn find(&self, id: &str) -> (r: Option<usize>)
        ensures
            match r {
                Some(i) => i < self.items@.len() && self.of(id@) == Some(self.items@[i as int].1),
                None => self.of(id@) is None,
            },
    {
        let ghost items = self.items@;
        let mut i: usize = 0;
        proof {
            assert(items.skip(0) =~= items);
        }
        while i < self.items.len()
            invariant
                i <= items.len(),
                items == self.items@,
                lookup(items, id@) == lookup(items.skip(i as int), id@),
            decreases items.len() - i,
        {
            proof {
                assert(items.skip(i as int)[0] == items[i as int]);
                assert(items.skip(i as int).drop_first() =~= items.skip(i + 1));
            }
            if str_is(self.items[i].0.as_str(), id) {
                return Some(i);
            }
            i = i + 1;
        }
        proof {
            assert(items.skip(i as int) =~= Seq::<(String, Option<u64>)>::empty());
        }
        None
    }

    /// Removes every record of `id`.
    fn forget(&mut self, id: &str)
        ensures
            final(self).of(id@) is None,
            forall|other: Seq<char>| other != id@ ==> final(self).of(other) == old(self).of(other),
    {
        let ghost all = self.items@;
        let mut kept: Vec<(String, Option<u64>)> = Vec::new();
        let mut i: usize = 0;
        proof {
            assert(all.skip(0) =~= all);
        }
        while i < self.items.len()
            invariant
                i <= all.len(),
                all == self.items@,
                lookup(kept@, id@) is None,
                forall|other: Seq<char>|
                    other != id@ ==> lookup(all, other) == match lookup(kept@, other) {
                        Some(v) => Some(v),
                        None => lookup(all.skip(i as int), other),
                    },
            decreases all.len() - i,
        {
            let ghost prev = kept@;
            let item = (self.items[i].0.clone(), self.items[i].1);
            proof {
                assert(all.skip(i as int)[0] == all[i as int]);
                assert(all.skip(i as int).drop_first() =~= all.skip(i + 1));
                assert(item.0@ == all[i as int].0@);
            }
            if !str_is(item.0.as_str(), id) {
                kept.push(item);
                proof {
                    lemma_lookup_push(prev, item, id@);
                    assert forall|other: Seq<char>| other != id@ implies lookup(all, other) == match lookup(kept@, other) {
                        Some(v) => Some(v),
                        None => lookup(all.skip(i + 1), other),
                    } by {
                        lemma_lookup_push(prev, item, other);
                    }
                }
            } else {
                proof {
                    assert forall|other: Seq<char>| other != id@ implies lookup(all, other) == match lookup(kept@, other) {
                        Some(v) => Some(v),
                        None => lookup(all.skip(i + 1), other),
                    } by {}
                }
            }
            i = i + 1;
        }
        self.items = kept;
        proof {
            assert forall|other: Seq<char>| other != id@ implies self.of(other) == old(self).of(other) by {
                assert(all.skip(all.len() as int) =~= Seq::<(String, Option<u64>)>::empty());
            }
        }
    }

    fn set(&mut self, id: &str, value: Option<u64>)
        ensures
            final(self).of(id@) == Some(value),
            forall|other: Seq<char>| other != id@ ==> final(self).of(other) == old(self).of(other),
    {
        self.forget(id);
        let ghost prev = self.items@;
        self.items.insert(0, (id.to_owned(), value));
        proof {
            assert(self.items@.drop_first() =~= prev);
        }
    }
}

proof fn lemma_lookup_push(items: Seq<(String, Option<u64>)>, item: (String, Option<u64>), id: Seq<char>)
    ensures
        lookup(items.push(item), id) == match lookup(items, id) {
            Some(v) => Some(v),
            None => if item.0@ == id {
                Some(item.1)
            } else {
                None
            },
        },
    decreases items.len(),
{
    if items.len() > 0 {
        lemma_lookup_push(items.drop_first(), item, id);
        assert(items.push(item)[0] == items[0]);
        assert(items.push(item).drop_first() =~= items.drop_first().push(item));
    } else {
        assert(items.push(item)[0] == item);
        assert(items.push(item).drop_first() =~= Seq::<(String, Option<u64>)>::empty());
        assert(lookup(Seq::<(String, Option<u64>)>::empty(), id) is None);
    }
}

/// Starts ignoring an archive's changes: a restore is writing it.
pub fn begin_restore_suppression(suppressions: &mut Suppressions, entry_id: &str)
    ensures
        final(suppressions).of(entry_id@) == Some(None::<u64>),
        forall|other: Seq<char>| other != entry_id@ ==> final(suppressions).of(other) == old(suppressions).of(other),
{
    suppressions.set(entry_id, None);
}

/// The restore finished at `now_ms`: its changes are ignored for `delay_ms` more.
pub fn finish_restore_suppression(suppressions: &mut Suppressions, entry_id: &str, now_ms: u64, delay_ms: u64)
    requires
        now_ms + delay_ms <= u64::MAX,
    ensures
        final(suppressions).of(entry_id@) == Some(Some((now_ms + delay_ms) as u64)),
        forall|other: Seq<char>| other != entry_id@ ==> final(suppressions).of(other) == old(suppressions).of(other),
{
    suppressions.set(entry_id, Some(now_ms + delay_ms));
}

/// Stops ignoring an archive's changes.
pub fn cancel_restore_suppression(suppressions: &mut Suppressions, entry_id: &str)
    ensures
        final(suppressions).of(entry_id@) is None,
        forall|other: Seq<char>| other != entry_id@ ==> final(suppressions).of(other) == old(suppressions).of(other),
{
    suppressions.forget(entry_id);
}

/// Whether an archive's changes are ignored at `now_ms`: while a restore writes it, and
/// until its suppression ends; an ended suppression is dropped.
pub fn is_restore_suppressed(suppressions: &mut Suppressions, entry_id: &str, now_ms: u64) -> (r: bool)
    ensures
        r == match old(suppressions).of(entry_id@) {
            Some(None) => true,
            Some(Some(until)) => now_ms < until,
            None => false,
        },
        forall|other: Seq<char>| other != entry_id@ ==> final(suppressions).of(other) == old(suppressions).of(other),
        final(suppressions).of(entry_id@) == match old(suppressions).of(entry_id@) {
            Some(Some(until)) => if now_ms < until {
                Some(Some(until))
            } else {
                None
            },
            other => other,
        },
{
    match suppressions.find(entry_id) {
        None => false,
        Some(i) => match suppressions.items[i].1 {
            None => true,
            Some(until) => {
                if now_ms < until {
                    true
                } else {
                    suppressions.forget(entry_id);
                    false
                }
            },
        },
    }
}

/// The snapshots retention removes: ordinary ones (neither safety nor locked) beyond the
/// newest `limit`, newest first.
pub open spec fn retention_spec(snapshots: Seq<SnapshotView>, limit: nat) -> Seq<Seq<char>> {
    let ordinary = stable_sort(snapshots.filter(|s: SnapshotView| !s.safety && !s.locked), newer_first());
    ordinary.skip(if limit <= ordinary.len() {
        limit as int
    } else {
        ordinary.len() as int
    }).map_values(|s: SnapshotView| s.id)
}

/// The ids of the snapshots retention removes from a timeline.
pub fn retention_candidates(snapshots: &Vec<Snapshot>, limit: usize) -> (r: Vec<String>)
    ensures
        crate::model::strings_view(r@) == retention_spec(snapshots_view(snapshots@), limit as nat),
{
    let ghost all = snapshots_view(snapshots@);
    let ghost keep = |s: SnapshotView| !s.safety && !s.locked;
    let mut ordinary: Vec<Snapshot> = Vec::new();
    let mut i: usize = 0;
    while i < snapshots.len()
        invariant
            i <= snapshots@.len(),
            all == snapshots_view(snapshots@),
            keep == (|s: SnapshotView| !s.safety && !s.locked),
            snapshots_view(ordinary@) == all.take(i as int).filter(keep),
        decreases snapshots@.len() - i,
    {
        let s = snapshots[i].duplicate();
        proof {
            assert(all.take(i + 1) =~= all.take(i as int).push(s@));
            all.take(i as int).lemma_filter_push(s@, keep);
        }
        if !s.safety && !s.locked {
            let ghost prev = ordinary@;
            ordinary.push(s);
            proof {
                assert(snapshots_view(ordinary@) =~= snapshots_view(prev).push(s@));
            }
        }
        i = i + 1;
    }
    proof {
        assert(all.take(snapshots@.len() as int) =~= all);
    }
    let sorted = sort_snapshots(&ordinary, true);
    let ghost sv = snapshots_view(sorted@);
    let start: usize = if limit <= sorted.len() {
        limit
    } else {
        sorted.len()
    };
    let mut ids: Vec<String> = Vec::new();
    let mut k: usize = start;
    while k < sorted.len()
        invariant
            start <= k <= sorted@.len(),
            sv == snapshots_view(sorted@),
            crate::model::strings_view(ids@) == sv.subrange(start as int, k as int).map_values(|s: SnapshotView| s.id),
        decreases sorted@.len() - k,
    {
        let ghost prev = ids@;
        let id = sorted[k].id.clone();
        ids.push(id);
        proof {
            assert(sv[k as int].id == id@);
            assert(crate::model::strings_view(ids@) =~= crate::model::strings_view(prev).push(id@));
            assert(sv.subrange(start as int, k + 1) =~= sv.subrange(start as int, k as int).push(sv[k as int]));
            assert(crate::model::strings_view(ids@) =~= sv.subrange(start as int, k + 1).map_values(
                |s: SnapshotView| s.id,
            ));
        }
        k = k + 1;
    }
    proof {
        assert(sv.subrange(start as int, sorted@.len() as int) =~= sv.skip(start as int));
    }
    ids
}

/// The merge delay in seconds: `app.autoBackupDelaySeconds` where it is an unsigned number,
/// else five, kept between one and three hundred.
pub open spec fn delay_spec(settings: Json) -> u64 {
    let raw = match as_u64(member_of(member(settings, "app"@), "autoBackupDelaySeconds"@)) {
        Some(n) => n,
        None => 5,
    };
    if raw < 1 {
        1
    } else if raw > 300 {
        300
    } else {
        raw
    }
}

/// The member `key` of an optional object.
pub open spec fn member_of(value: Option<Json>, key: Seq<char>) -> Option<Json> {
    match value {
        Some(v) => member(v, key),
        None => None,
    }
}

/// How many ordinary snapshots retention keeps, where `app.retentionCount` is an unsigned
/// number.
pub open spec fn retention_spec_setting(settings: Json) -> Option<u64> {
    as_u64(member_of(member(settings, "app"@), "retentionCount"@))
}

fn member_u64(settings: &Json, key: &str) -> (r: Option<u64>)
    ensures
        r == as_u64(member_of(member(*settings, "app"@), key@)),
{
    proof {
        reveal_strlit("app");
    }
    match get(settings, "app") {
        Some(app) => match get(app, key) {
            Some(Json::UInt(n)) => Some(*n),
            _ => None,
        },
        None => None,
    }
}

/// The merge delay in seconds that the settings document asks for.
pub fn auto_backup_delay(settings: &Json) -> (r: u64)
    ensures
        r == delay_spec(*settings),
{
    let raw = match member_u64(settings, "autoBackupDelaySeconds") {
        Some(n) => n,
        None => 5,
    };
    if raw < 1 {
        1
    } else if raw > 300 {
        300
    } else {
        raw
    }
}

/// How many ordinary snapshots retention keeps, as the settings document asks.
pub fn retention_count(settings: &Json) -> (r: Option<u64>)
    ensures
        r == retention_spec_setting(*settings),
{
    member_u64(settings, "retentionCount")
}

/// Whether an archive is watched: automatic backup is on for it, and it has a file or
/// directory source with a path on this device.
pub open spec fn watched(e: EntryView) -> bool {
    e.auto_backup_enabled && exists|i: int|
        0 <= i < e.sources.len() && (#[trigger] e.sources[i]).kind != EntryKind::Registry && e.sources[i].path.len() > 0
}

/// The archives automatic backup watches, in order.
pub fn watched_entries(entries: Vec<Entry>) -> (r: Vec<Entry>)
    ensures
        entry_views(r@) == entry_views(entries@).filter(|e: EntryView| watched(e)),
{
    let ghost all = entry_views(entries@);
    let ghost keep = |e: EntryView| watched(e);
    let mut rest = entries;
    let mut kept: Vec<Entry> = Vec::new();
    let ghost mut k: int = 0;
    proof {
        assert(entry_views(rest@) =~= all.skip(0));
        assert(all.take(0) =~= Seq::<EntryView>::empty());
        assert(entry_views(kept@) =~= Seq::<EntryView>::empty().filter(keep));
    }
    while rest.len() > 0
        invariant
            0 <= k <= all.len(),
            keep == (|e: EntryView| watched(e)),
            entry_views(rest@) == all.skip(k),
            entry_views(kept@) == all.take(k).filter(keep),
        decreases rest@.len(),
    {
        let ghost old_rest = rest@;
        let e = rest.remove(0);
        proof {
            assert(entry_views(old_rest).len() == old_rest.len());
            assert(entry_views(old_rest)[0] == e@);
            assert(all.skip(k)[0] == all[k]);
            assert(rest@ =~= old_rest.skip(1));
            assert(entry_views(rest@) =~= entry_views(old_rest).skip(1));
            assert(all.skip(k).skip(1) =~= all.skip(k + 1));
            assert(entry_views(rest@) =~= all.skip(k + 1));
            assert(all.take(k + 1) =~= all.take(k).push(e@));
            all.take(k).lemma_filter_push(e@, keep);
        }
        let mut found = false;
        let mut j: usize = 0;
        while j < e.sources.len()
            invariant
                j <= e.sources@.len(),
                found == exists|m: int|
                    0 <= m < j && (#[trigger] e@.sources[m]).kind != EntryKind::Registry && e@.sources[m].path.len() > 0,
            decreases e.sources@.len() - j,
        {
            proof {
                assert(e@.sources[j as int] == e.sources@[j as int]@);
            }
            if e.sources[j].kind != EntryKind::Registry && !e.sources[j].path.as_str().is_empty() {
                found = true;
            }
            j = j + 1;
        }
        if e.auto_backup_enabled && found {
            let ghost prev = kept@;
            kept.push(e);
            proof {
                assert(entry_views(kept@) =~= entry_views(prev).push(e@));
            }
        }
        proof {
            k = k + 1;
        }
    }
    proof {
        assert(all.take(k) =~= all);
    }
    kept
}

/// What a file-system notification reports, reduced to what the decision reads.
#[derive(Clone, Copy, Debug, PartialEq, Eq, Structural)]
pub enum ChangeKind {
    Create,
    Modify,
    Remove,
    /// Access and metadata-only notifications.
    Other,
}

/// One changed path, and whether it is (or, for a removal, was) a directory.
#[derive(Clone, Debug)]
pub struct ChangedPath {
    pub path: String,
    pub is_dir: bool,
}

/// A file-system notification: its kind, whether it reports a removed folder, and the paths.
#[derive(Clone, Debug)]
pub struct WatchEvent {
    pub kind: ChangeKind,
    pub folder_removed: bool,
    pub paths: Vec<ChangedPath>,
}

/// Whether two paths are equal component by component (`Path` equality), by the path
/// rules of the platform the library is built for (Windows or Unix).
pub uninterp spec fn same_path(a: Seq<char>, b: Seq<char>) -> bool;

/// The path of `path` relative to `root` (`Path::strip_prefix`), as text; `None` when `root`
/// is not a leading run of `path`'s components, by the path rules of the platform the
/// library is built for.
pub uninterp spec fn path_below(path: Seq<char>, root: Seq<char>) -> Option<Seq<char>>;

/// Compares two paths with `std::path::Path`'s equality.
#[verifier::external_body]
fn paths_equal(a: &str, b: &str) -> (r: bool)
    ensures
        r == same_path(a@, b@),
{
    std::path::Path::new(a) == std::path::Path::new(b)
}

/// `std::path::Path::strip_prefix`, read back as text.
#[verifier::external_body]
pub(crate) fn strip_root(path: &str, root: &str) -> (r: Option<String>)
    ensures
        match r {
            Some(rel) => path_below(path@, root@) == Some(rel@),
            None => path_below(path@, root@) is None,
        },
{
    std::path::Path::new(path)
        .strip_prefix(root)
        .ok()
        .map(|relative| relative.to_string_lossy().into_owned())
}

/// Notifications that may change a save: creations, modifications and removals.
pub open spec fn relevant_change(kind: ChangeKind) -> bool {
    kind == ChangeKind::Create || kind == ChangeKind::Modify || kind == ChangeKind::Remove
}

/// The form in which exclusion rules read a path.
pub open spec fn rule_path(path: Seq<char>) -> Seq<char> {
    trim_end_char(replace_char(path, '\\', '/'), '/')
}

/// Whether a changed path concerns a source under the given rules: a file source when the
/// path is the file itself and its name is not excluded; a directory source when the path
/// lies below it and is not excluded there.
pub open spec fn change_hits_source(
    paths: Seq<Seq<char>>,
    dirs: Seq<Seq<char>>,
    source: SourceView,
    changed: Seq<char>,
    changed_is_dir: bool,
    folder_removed: bool,
) -> bool {
    if source.kind == EntryKind::File {
        same_path(changed, source.path) && !excluded_from(paths, dirs, rule_path(source.name), false)
    } else {
        match path_below(changed, source.path) {
            Some(rel) => !excluded_from(paths, dirs, rule_path(rel), changed_is_dir || folder_removed),
            None => false,
        }
    }
}

/// Whether a notification concerns an archive whose exclusion rules compile to the given
/// globs: some non-registry source is hit by some changed path.
pub open spec fn event_hits(
    paths: Seq<Seq<char>>,
    dirs: Seq<Seq<char>>,
    sources: Seq<SourceView>,
    event: WatchEvent,
) -> bool {
    relevant_change(event.kind) && exists|i: int, j: int|
        0 <= i < sources.len() && 0 <= j < event.paths@.len() && (#[trigger] sources[i]).kind
            != EntryKind::Registry && change_hits_source(
            paths,
            dirs,
            sources[i],
            (#[trigger] event.paths@[j]).path@,
            event.paths@[j].is_dir,
            event.folder_removed,
        )
}

/// Whether a notification concerns an archive, given its compiled exclusion rules.
pub fn event_matches_entry(sources: &Vec<EntrySource>, rules: &ExclusionRules, event: &WatchEvent) -> (r: bool)
    ensures
        r == event_hits(rules.path_globs(), rules.directory_globs(), sources_view(sources@), *event),
{
    if !(event.kind == ChangeKind::Create || event.kind == ChangeKind::Modify || event.kind
        == ChangeKind::Remove) {
        return false;
    }
    let ghost pg = rules.path_globs();
    let ghost dg = rules.directory_globs();
    let ghost sv = sources_view(sources@);
    let mut i: usize = 0;
    while i < sources.len()
        invariant
            i <= sources@.len(),
            relevant_change(event.kind),
            pg == rules.path_globs(),
            dg == rules.directory_globs(),
            sv == sources_view(sources@),
            forall|a: int, b: int|
                0 <= a < i && 0 <= b < event.paths@.len() ==> !((#[trigger] sv[a]).kind
                    != EntryKind::Registry && change_hits_source(
                    pg,
                    dg,
                    sv[a],
                    (#[trigger] event.paths@[b]).path@,
                    event.paths@[b].is_dir,
                    event.folder_removed,
                )),
        decreases sources@.len() - i,
    {
        let source = &sources[i];
        proof {
            assert(sv[i as int] == source@);
        }
        if source.kind != EntryKind::Registry {
            let mut j: usize = 0;
            while j < event.paths.len()
                invariant
                    j <= event.paths@.len(),
                    i < sources@.len(),
                    relevant_change(event.kind),
                    pg == rules.path_globs(),
                    dg == rules.directory_globs(),
                    sv == sources_view(sources@),
                    sv[i as int] == source@,
                    source.kind != EntryKind::Registry,
                    forall|b: int|
                        0 <= b < j ==> !change_hits_source(
                            pg,
                            dg,
                            sv[i as int],
                            (#[trigger] event.paths@[b]).path@,
                            event.paths@[b].is_dir,
                            event.folder_removed,
                        ),
                decreases event.paths@.len() - j,
            {
                let changed = &event.paths[j];
                let hit = if source.kind == EntryKind::File {
                    paths_equal(changed.path.as_str(), source.path.as_str()) && !rules.is_excluded(
                        source.name.as_str(),
                        false,
                    )
                } else {
                    match strip_root(changed.path.as_str(), source.path.as_str()) {
                        Some(relative) => !rules.is_excluded(
                            relative.as_str(),
                            changed.is_dir || event.folder_removed,
                        ),
                        None => false,
                    }
                };
                if hit {
                    proof {
                        assert(sv[i as int].kind != EntryKind::Registry && change_hits_source(
                            pg,
                            dg,
                            sv[i as int],
                            event.paths@[j as int].path@,
                            event.paths@[j as int].is_dir,
                            event.folder_removed,
                        ));
                    }
                    return true;
                }
                j = j + 1;
            }
        }
        i = i + 1;
    }
    false
}

/// Whether a notification should start (or extend) an automatic backup of an archive.  The
/// archive's exclusion rules are compiled first; when they do not compile (or their globs
/// cannot be combined into a matcher) the notification is ignored.
pub fn entry_accepts_event(entry: &Entry, event: &WatchEvent) -> (r: bool)
    ensures
        r == (relevant_change(event.kind) && match rules_outcome(strings_view(entry.exclude_patterns@)) {
            Ok((paths, dirs)) => event_hits(paths, dirs, sources_view(entry.sources@), *event),
            Err(_) => false,
        }),
{
    if !(event.kind == ChangeKind::Create || event.kind == ChangeKind::Modify || event.kind
        == ChangeKind::Remove) {
        return false;
    }
    match ExclusionRules::new(&entry.exclude_patterns) {
        Ok(rules) => event_matches_entry(&entry.sources, &rules, event),
        Err(_) => false,
    }
}

/// The number of snapshots that count toward retention: those neither locked nor safety.
pub open spec fn ordinary_count(snapshots: Seq<SnapshotView>) -> nat {
    snapshots.filter(|s: SnapshotView| !s.safety && !s.locked).len()
}

/// Whether some snapshot with this id is neither locked nor a safety snapshot.
pub open spec fn ordinary_id(snapshots: Seq<SnapshotView>, id: Seq<char>) -> bool {
    exists|j: int|
        0 <= j < snapshots.len() && snapshots[j].id == id && !snapshots[j].locked
            && !snapshots[j].safety
}

/// Retention never removes a locked or a safety snapshot, and those do not count toward the
/// number kept: exactly the ordinary snapshots beyond the newest `limit` are removed.
pub proof fn lemma_retention_spares_protected(snapshots: Seq<SnapshotView>, limit: nat)
    ensures
        retention_spec(snapshots, limit).len() == (if limit <= ordinary_count(snapshots) {
            ordinary_count(snapshots) - limit
        } else {
            0
        }),
        forall|k: int|
            0 <= k < retention_spec(snapshots, limit).len() ==> ordinary_id(
                snapshots,
                #[trigger] retention_spec(snapshots, limit)[k],
            ),
{
    broadcast use vstd::seq_lib::group_to_multiset_ensures;

    let keep = |s: SnapshotView| !s.safety && !s.locked;
    let f = snapshots.filter(keep);
    let ordinary = stable_sort(f, newer_first());
    crate::order::lemma_stable_sort_permutes(f, newer_first());
    snapshots.filter_lemma(keep);
    let l: int = if limit <= ordinary.len() {
        limit as int
    } else {
        ordinary.len() as int
    };
    assert forall|k: int| 0 <= k < retention_spec(snapshots, limit).len() implies ordinary_id(
        snapshots,
        #[trigger] retention_spec(snapshots, limit)[k],
    ) by {
        let e = ordinary[l + k];
        assert(ordinary.contains(e));
        assert(ordinary.to_multiset().count(e) > 0);
        assert(f.contains(e));
        let fi = choose|fi: int| 0 <= fi < f.len() && f[fi] == e;
        assert(keep(f[fi]));
        snapshots.lemma_filter_contains_rev(keep, e);
        let j = choose|j: int| 0 <= j < snapshots.len() && snapshots[j] == e;
        assert(snapshots[j].id == retention_spec(snapshots, limit)[k]);
    }
}

} // verus!
