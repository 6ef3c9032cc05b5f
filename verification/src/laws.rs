//! Laws that span calls of the library, each stated over the values that the calls'
//! contracts give: the state a call leaves, and what a later call returns on it.
use crate::model::{CategoryView, EntryView, SnapshotView, SourceView};
use crate::order::{newer_first, older_first, stable_sort};
use crate::update::{hex_lower, sha256};
use crate::registry::normalize_path_spec;
use crate::removal::{entries_not_in, other_categories, subtree_categories, subtree_entries};
use crate::repository::{
    bindings_saved, distinct_places, distinct_slots, distinct_source_ids, entry_ids, entry_of, first_id,
    lemma_first_id_bounds, new_summary, normalized_tags, parents_known, restore_problem,
    snapshot_ids, CatalogEntryView, LocalRepository,
};
use crate::model::{StoragePolicy, SyncMode};
use crate::sources::shared_sources;
use vstd::prelude::*;

verus! {

/// `normalize_path` gives back a path it has already normalized.
pub proof fn law_normalize_path_twice(path: Seq<char>)
    requires
        normalize_path_spec(path) is Ok,
    ensures
        normalize_path_spec(normalize_path_spec(path)->Ok_0) == Ok::<Seq<char>, Seq<char>>(
            normalize_path_spec(path)->Ok_0,
        ),
{
    crate::registry::lemma_normalize_path_idempotent(path);
}

/// `set_entry_tags` with the tags an entry already has changes nothing: after setting
/// `tags` on entry `i`, setting its stored tags again leaves the catalog as it was.
pub proof fn law_set_entry_tags_twice(entries: Seq<CatalogEntryView>, i: int, tags: Seq<Seq<char>>)
    requires
        0 <= i < entries.len(),
    ensures
        ({
            let once = entries.update(i, CatalogEntryView { tags: normalized_tags(tags), ..entries[i] });
            once.update(i, CatalogEntryView { tags: normalized_tags(once[i].tags), ..once[i] }) == once
        }),
{
    crate::repository::lemma_normalized_tags_idempotent(tags);
    let once = entries.update(i, CatalogEntryView { tags: normalized_tags(tags), ..entries[i] });
    assert(once.update(i, CatalogEntryView { tags: normalized_tags(once[i].tags), ..once[i] }) =~= once);
}

/// `get_entry` right after `add_entry_sources_with_sync` returned `e` gives `e` back, device
/// paths included, when the new id is not yet in the catalog and the source ids are
/// distinct (the ids are random, so neither is promised by the adding call itself).
pub proof fn law_get_after_add(before: LocalRepository, after: LocalRepository, e: EntryView)
    requires
        after.entries() == before.entries().push(new_summary(e)),
        after.bindings() == bindings_saved(before.bindings(), e.id, e.sources),
        first_id(entry_ids(before.entries()), e.id) is None,
        distinct_source_ids(e.sources),
    ensures
        first_id(entry_ids(after.entries()), e.id) matches Some(i) && entry_of(after.entries()[i], after.bindings())
            == e,
{
    crate::repository::lemma_add_then_get(before.entries(), before.bindings(), e);
}

/// `get_entry` right after `update_entry_with_sync` (or `update_entry`) returned `e` gives
/// `e` back when its source ids are distinct; the entry keeps its place and everything the
/// update does not set.
pub proof fn law_get_after_update(
    before: LocalRepository,
    after: LocalRepository,
    entry_id: Seq<char>,
    name: Seq<char>,
    placed: Seq<SourceView>,
    storage_policy: StoragePolicy,
    sync_mode: SyncMode,
)
    requires
        first_id(entry_ids(before.entries()), entry_id) is Some,
        distinct_source_ids(placed),
        ({
            let i = first_id(entry_ids(before.entries()), entry_id)->0;
            &&& after.entries() == before.entries().update(
                i,
                CatalogEntryView {
                    name,
                    storage_policy,
                    sync_mode,
                    source_count: placed.len() as usize,
                    sources: shared_sources(placed),
                    ..before.entries()[i]
                },
            )
            &&& after.bindings() == bindings_saved(before.bindings(), entry_id, placed)
        }),
    ensures
        ({
            let i = first_id(entry_ids(before.entries()), entry_id)->0;
            &&& first_id(entry_ids(after.entries()), entry_id) == Some(i)
            &&& entry_of(after.entries()[i], after.bindings()) == (EntryView {
                name,
                sources: placed,
                storage_policy,
                sync_mode,
                ..entry_of(before.entries()[i], before.bindings())
            })
        }),
{
    let i = first_id(entry_ids(before.entries()), entry_id)->0;
    lemma_first_id_bounds(entry_ids(before.entries()), entry_id);
    assert(entry_ids(before.entries())[i] == before.entries()[i].id);
    crate::repository::lemma_update_then_get(
        before.entries(),
        before.bindings(),
        i,
        name,
        placed,
        storage_policy,
        sync_mode,
    );
}

/// `list_snapshots` right after `update_snapshot_note` gives the timeline it gave before,
/// with the note of that one snapshot replaced (snapshot ids within an entry being
/// distinct).
pub proof fn law_list_after_note(snaps: Seq<SnapshotView>, snapshot_id: Seq<char>, note: Seq<char>)
    requires
        first_id(snapshot_ids(snaps), snapshot_id) is Some,
        forall|a: int, b: int|
            0 <= a < snaps.len() && 0 <= b < snaps.len() && a != b ==> (#[trigger] snaps[a]).id != (
            #[trigger] snaps[b]).id,
    ensures
        ({
            let k = first_id(snapshot_ids(snaps), snapshot_id)->0;
            stable_sort(snaps.update(k, SnapshotView { note, ..snaps[k] }), newer_first()) == stable_sort(
                snaps,
                newer_first(),
            ).map_values(|t: SnapshotView| if t.id == snapshot_id { SnapshotView { note, ..t } } else { t })
        }),
{
    let k = first_id(snapshot_ids(snaps), snapshot_id)->0;
    lemma_first_id_bounds(snapshot_ids(snaps), snapshot_id);
    assert(snapshot_ids(snaps)[k] == snaps[k].id);
    crate::repository::lemma_note_update_keeps_timeline(snaps, k, note);
}

/// `restore_recycle_item` with the manifest that `delete_category_to_bin` returned gives
/// back the catalog as it was before the deletion, when nothing conflicting was added in
/// between: the restore finds no conflict, and the catalog again holds exactly the same
/// categories and the same archives (the restored ones after the others).
pub proof fn law_restore_after_delete_category(
    before: LocalRepository,
    deleted: LocalRepository,
    restored: LocalRepository,
    category_id: Seq<char>,
)
    requires
        distinct_slots(before.entries()),
        distinct_places(before.categories()),
        parents_known(before.categories()),
        deleted.categories() == other_categories(before.categories(), category_id),
        deleted.entries() == entries_not_in(
            before.entries(),
            subtree_entries(before.categories(), before.entries(), category_id),
        ),
        restored.categories() == deleted.categories() + subtree_categories(before.categories(), category_id),
        restored.entries() == deleted.entries() + subtree_entries(
            before.categories(),
            before.entries(),
            category_id,
        ),
    ensures
        restore_problem(
            deleted.entries(),
            deleted.categories(),
            subtree_entries(before.categories(), before.entries(), category_id),
            subtree_categories(before.categories(), category_id),
            Seq::new(subtree_entries(before.categories(), before.entries(), category_id).len(), |i: int| false),
        ) is None,
        restored.categories().to_multiset() == before.categories().to_multiset(),
        restored.entries().to_multiset() == before.entries().to_multiset(),
{
    crate::repository::lemma_restore_undoes_delete_category(before.entries(), before.categories(), category_id);
}

/// A move that `move_category` accepts keeps the category links free of cycles: when no
/// category is its own ancestor before the move, none is after it.
pub proof fn law_move_keeps_acyclic(categories: Seq<CategoryView>, id: Seq<char>, parent: Option<Seq<char>>)
    requires
        crate::tree::categories_acyclic(categories),
        crate::repository::move_allowed(categories, id, parent),
        !crate::repository::meets_ancestor(categories, parent, id, (categories.len() + 1) as nat),
    ensures
        crate::tree::categories_acyclic(crate::repository::moved(categories, id, parent)),
{
    crate::tree::lemma_move_keeps_acyclic(categories, id, parent);
}

/// A snapshot verifies right after it is created: when `create_snapshot` returned `s` for
/// the archive bytes `archive` (with an id no timeline held), `verify_snapshot(s.id, archive)`
/// on the catalog it left finds `s` under its entry, and its digest matches, so it returns
/// `Ok(true)`.
pub proof fn law_fresh_snapshot_verifies(
    before: LocalRepository,
    after: LocalRepository,
    i: int,
    s: SnapshotView,
    archive: Seq<u8>,
)
    requires
        0 <= i < before.entries().len(),
        forall|j: int|
            0 <= j < before.entries().len() ==> crate::repository::id_unused(
                (#[trigger] before.entries()[j]).snapshots,
                s.id,
            ),
        s.object_hash == hex_lower(sha256(archive)),
        s.entry_id == before.entries()[i].id,
        after.entries() == before.entries().update(
            i,
            crate::repository::refreshed(
                before.entries()[i],
                stable_sort(stable_sort(before.entries()[i].snapshots, newer_first()).push(s), older_first()),
            ),
        ),
    ensures
        crate::repository::find_snapshot(after.entries(), s.id) == Some(s),
        first_id(entry_ids(after.entries()), s.entry_id) is Some,
        hex_lower(sha256(archive)) == s.object_hash,
{
    crate::repository::lemma_created_snapshot_verifies(before.entries(), i, s, archive);
}

/// What a recycle bin adds to `total_stored_bytes_with_recycle` is never negative, and a bin
/// whose files all lie under the repository root adds nothing: every file is counted once.
pub proof fn law_recycle_inside_adds_nothing(files: Seq<(Seq<char>, u64)>, root: Seq<char>)
    ensures
        crate::repository::bytes_outside(files, root) >= 0,
        (forall|k: int| 0 <= k < files.len() ==> crate::auto_backup::path_below((#[trigger] files[k]).0, root) is Some)
            ==> crate::repository::bytes_outside(files, root) == 0,
    decreases files.len(),
{
    crate::repository::lemma_bytes_outside_nonneg(files, root);
    if files.len() > 0 {
        law_recycle_inside_adds_nothing(files.drop_last(), root);
        if forall|k: int| 0 <= k < files.len() ==> crate::auto_backup::path_below((#[trigger] files[k]).0, root) is Some {
            assert forall|k: int| 0 <= k < files.drop_last().len() implies crate::auto_backup::path_below(
                (#[trigger] files.drop_last()[k]).0,
                root,
            ) is Some by {
                assert(files.drop_last()[k] == files[k]);
            }
            assert(files.last() == files[files.len() - 1]);
        }
    }
}

} // verus!
