//! The recycle bin: what a deletion bundle records, how the bin lists its bundles, and
//! which entry folders a deletion copies into a bundle or moves out of the way.
use crate::model::{categories_view, Category};
use crate::order::stable_sort;
use crate::removal::{other_categories, subtree_categories, subtree_entries, entries_not_in};
use crate::repository::{
    entries_view, entries_without, entry_ids, first_id, has_category, same_but_entries, joined_path, join_path, CatalogEntry, LocalRepository, RecycleItem, RecycleManifest,
    Removal, StorageError,
};
use vstd::prelude::*;

verus! {

/// The manifest of the bundle that keeps one deleted archive: its summary alone, under the
/// archive's name.
pub fn entry_recycle_manifest(batch_id: String, deleted_at_ms: u64, summary: CatalogEntry) -> (m: RecycleManifest)
    ensures
        m.format_version == 1,
        m.id@ == batch_id@,
        m.kind@ == "entry"@,
        m.display_name@ == summary@.name,
        m.deleted_at_ms == deleted_at_ms,
        m.categories@.len() == 0,
        entries_view(m.entries@) == seq![summary@],
{
    let display_name = summary.name.clone();
    let ghost s = summary@;
    let entries = vec![summary];
    proof {
        assert(entries_view(entries@) =~= seq![s]);
    }
    RecycleManifest {
        format_version: 1,
        id: batch_id,
        kind: "entry".to_owned(),
        display_name,
        deleted_at_ms,
        categories: Vec::new(),
        entries,
    }
}

/// The manifest of the bundle that keeps a deleted category: the removed categories and
/// entries as the catalog held them, under the category's name.
pub fn category_recycle_manifest(batch_id: String, deleted_at_ms: u64, removal: Removal) -> (m: RecycleManifest)
    ensures
        m.format_version == 1,
        m.id@ == batch_id@,
        m.kind@ == "category"@,
        m.display_name@ == removal.display_name@,
        m.deleted_at_ms == deleted_at_ms,
        categories_view(m.categories@) == categories_view(removal.categories@),
        entries_view(m.entries@) == entries_view(removal.entries@),
{
    RecycleManifest {
        format_version: 1,
        id: batch_id,
        kind: "category".to_owned(),
        display_name: removal.display_name,
        deleted_at_ms,
        categories: removal.categories,
        entries: removal.entries,
    }
}

impl LocalRepository {
    /// Deletes one archive into the recycle bin: the catalog changes as `delete_entry`
    /// changes it, and the result is the manifest of the bundle `batch_id`, deleted at
    /// `deleted_at_ms`, of kind `entry`, holding the archive's catalog summary alone.
    pub fn delete_entry_to_bin(&mut self, entry_id: &str, batch_id: String, deleted_at_ms: u64) -> (r: Result<
        RecycleManifest,
        StorageError,
    >)
        ensures
            same_but_entries(*final(self), *old(self)),
            match first_id(entry_ids(old(self).entries()), entry_id@) {
                None => r matches Err(StorageError::EntryNotFound(id)) && id@ == entry_id@
                    && final(self).entries() == old(self).entries(),
                Some(i) => r matches Ok(m) && m.format_version == 1 && m.id@ == batch_id@ && m.kind@ == "entry"@
                    && m.display_name@ == old(self).entries()[i].name && m.deleted_at_ms == deleted_at_ms
                    && m.categories@.len() == 0 && entries_view(m.entries@) == seq![old(self).entries()[i]]
                    && final(self).entries() == entries_without(old(self).entries(), entry_id@),
            },
    {
        match self.delete_entry(entry_id) {
            Ok(summary) => Ok(entry_recycle_manifest(batch_id, deleted_at_ms, summary)),
            Err(e) => Err(e),
        }
    }

    /// Deletes a category, its subcategories and the archives filed in them into the
    /// recycle bin: the catalog changes as `delete_category` changes it, and the result is
    /// the manifest of the bundle `batch_id`, deleted at `deleted_at_ms`, of kind `category`,
    /// holding exactly the removed categories and archives. Listed with `recycle_item_of`,
    /// the bundle counts as many archives as were removed.
    pub fn delete_category_to_bin(&mut self, category_id: &str, batch_id: String, deleted_at_ms: u64) -> (r:
        Result<RecycleManifest, StorageError>)
        ensures
            final(self).root_path() == old(self).root_path(),
            final(self).bindings() == old(self).bindings(),
            final(self).device_id() == old(self).device_id(),
            final(self).device_name() == old(self).device_name(),
            !has_category(old(self).categories(), category_id@) ==> (r matches Err(
                StorageError::ParentCategoryNotFound(id),
            ) && id@ == category_id@ && final(self).categories() == old(self).categories()
                && final(self).entries() == old(self).entries()),
            has_category(old(self).categories(), category_id@) ==> (r matches Ok(m) && {
                let cats = subtree_categories(old(self).categories(), category_id@);
                let gone = subtree_entries(old(self).categories(), old(self).entries(), category_id@);
                &&& m.format_version == 1
                &&& m.id@ == batch_id@
                &&& m.kind@ == "category"@
                &&& m.deleted_at_ms == deleted_at_ms
                &&& categories_view(m.categories@) == cats
                &&& entries_view(m.entries@) == gone
                &&& m.entries@.len() == gone.len()
                &&& final(self).categories() == other_categories(old(self).categories(), category_id@)
                &&& final(self).entries() == entries_not_in(old(self).entries(), gone)
            }),
    {
        match self.delete_category(category_id) {
            Ok(removal) => Ok(category_recycle_manifest(batch_id, deleted_at_ms, removal)),
            Err(e) => Err(e),
        }
    }
}

/// How the bin lists a bundle: its manifest's id, kind, name and time, the bytes the
/// bundle takes, and how many archives it holds.
pub fn recycle_item_of(manifest: &RecycleManifest, size_bytes: u64) -> (r: RecycleItem)
    ensures
        r.id@ == manifest.id@,
        r.kind@ == manifest.kind@,
        r.display_name@ == manifest.display_name@,
        r.deleted_at_ms == manifest.deleted_at_ms,
        r.size_bytes == size_bytes,
        r.entry_count == manifest.entries@.len(),
{
    RecycleItem {
        id: manifest.id.clone(),
        kind: manifest.kind.clone(),
        display_name: manifest.display_name.clone(),
        deleted_at_ms: manifest.deleted_at_ms,
        size_bytes,
        entry_count: manifest.entries.len(),
    }
}

/// Bundles ordered latest deletion first.
pub open spec fn deleted_later_first() -> spec_fn(RecycleItem, RecycleItem) -> bool {
    |a: RecycleItem, b: RecycleItem| a.deleted_at_ms > b.deleted_at_ms
}

fn item_slot(sorted: &Vec<RecycleItem>, at: u64) -> (p: usize)
    ensures
        p <= sorted@.len(),
        forall|j: int| 0 <= j < p ==> !(at > (#[trigger] sorted@[j]).deleted_at_ms),
        p < sorted@.len() ==> at > sorted@[p as int].deleted_at_ms,
{
    let mut p: usize = 0;
    while p < sorted.len()
        invariant
            p <= sorted@.len(),
            forall|j: int| 0 <= j < p ==> !(at > (#[trigger] sorted@[j]).deleted_at_ms),
        decreases sorted@.len() - p,
    {
        if at > sorted[p].deleted_at_ms {
            return p;
        }
        p = p + 1;
    }
    p
}

/// The bin's bundles, latest deletion first; bundles deleted at the same time keep the
/// order they were found in.
pub fn order_recycle_items(items: Vec<RecycleItem>) -> (r: Vec<RecycleItem>)
    ensures
        r@ == stable_sort(items@, deleted_later_first()),
{
    let n: usize = items.len();
    let ghost all = items@;
    let ghost before = deleted_later_first();
    let mut rest = items;
    let mut sorted: Vec<RecycleItem> = Vec::new();
    let mut i: usize = 0;
    while rest.len() > 0
        invariant
            i <= all.len(),
            all.len() == n,
            rest@ == all.skip(i as int),
            before == deleted_later_first(),
            sorted@ == stable_sort(all.take(i as int), before),
        decreases rest@.len(),
    {
        let x = rest.remove(0);
        proof {
            assert(x == all[i as int]);
            assert(rest@ =~= all.skip(i + 1));
        }
        let p = item_slot(&sorted, x.deleted_at_ms);
        let ghost prev = sorted@;
        proof {
            crate::order::lemma_slot_is_point(prev, x, before, p as int);
            let s = all.take(i + 1);
            assert(s.drop_last() =~= all.take(i as int));
            assert(s.last() == x);
        }
        sorted.insert(p, x);
        i = i + 1;
    }
    proof {
        assert(all.take(i as int) =~= all);
    }
    sorted
}

/// The folder of each present entry, as a pair of the path under `from_dir` and the path
/// under `to_dir`, in the entries' order: what a deletion copies into its bundle, or moves
/// aside before the catalog is written (and moves back, in reverse order, if that fails).
pub open spec fn folder_moves(
    from_dir: Seq<char>,
    to_dir: Seq<char>,
    folders: Seq<Seq<char>>,
    present: Seq<bool>,
) -> Seq<(Seq<char>, Seq<char>)>
    decreases folders.len(),
{
    if folders.len() == 0 {
        Seq::empty()
    } else {
        let k = folders.len() - 1;
        let earlier = folder_moves(from_dir, to_dir, folders.drop_last(), present);
        if present[k] {
            earlier.push((joined_path(from_dir, folders[k]), joined_path(to_dir, folders[k])))
        } else {
            earlier
        }
    }
}

/// The folders of `entries`, in order.
pub open spec fn entry_folders(entries: Seq<CatalogEntry>) -> Seq<Seq<char>> {
    entries.map_values(|e: CatalogEntry| e@.folder)
}

/// The moves of the folders of `entries` from `from_dir` to `to_dir`, skipping the
/// entries whose folder is not present (`present` says which are, one flag per entry).
pub fn plan_folder_moves(
    from_dir: &str,
    to_dir: &str,
    entries: &Vec<CatalogEntry>,
    present: &Vec<bool>,
) -> (r: Vec<(String, String)>)
    requires
        present@.len() == entries@.len(),
    ensures
        r@.map_values(|m: (String, String)| (m.0@, m.1@)) == folder_moves(
            from_dir@,
            to_dir@,
            entry_folders(entries@),
            present@,
        ),
{
    let ghost folders = entry_folders(entries@);
    let mut moves: Vec<(String, String)> = Vec::new();
    let mut k: usize = 0;
    while k < entries.len()
        invariant
            k <= entries@.len(),
            present@.len() == entries@.len(),
            folders == entry_folders(entries@),
            moves@.map_values(|m: (String, String)| (m.0@, m.1@)) == folder_moves(
                from_dir@,
                to_dir@,
                folders.take(k as int),
                present@,
            ),
        decreases entries@.len() - k,
    {
        let ghost prev = moves@;
        let ghost taken = folders.take(k + 1);
        proof {
            assert(taken.drop_last() =~= folders.take(k as int));
            assert(taken[k as int] == entries@[k as int]@.folder);
        }
        if present[k] {
            let folder = entries[k].folder.as_str();
            let from = join_path(from_dir, folder);
            let to = join_path(to_dir, folder);
            moves.push((from, to));
            proof {
                assert(moves@.map_values(|m: (String, String)| (m.0@, m.1@)) =~= prev.map_values(
                    |m: (String, String)| (m.0@, m.1@),
                ).push((joined_path(from_dir@, taken[k as int]), joined_path(to_dir@, taken[k as int]))));
            }
        }
        k = k + 1;
    }
    proof {
        assert(folders.take(entries@.len() as int) =~= folders);
    }
    moves
}

} // verus!
