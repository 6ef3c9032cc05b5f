//! What deleting a category removes: its subtree of categories and the entries filed in it.
use crate::model::{categories_view, copy_opt_string, Category, CategoryView};
use crate::remote::str_is;
use crate::repository::{entries_view, CatalogEntry, CatalogEntryView};
use vstd::prelude::*;

verus! {

/// Whether category `id` lies in the subtree below `root` (or is `root`), reached through at
/// most `depth` parent links.
pub open spec fn in_subtree(categories: Seq<CategoryView>, root: Seq<char>, id: Seq<char>, depth: nat) -> bool
    decreases depth,
{
    id == root || (depth > 0 && exists|k: int|
        0 <= k < categories.len() && #[trigger] categories[k].id == id
            && categories[k].parent_id is Some && in_subtree(
            categories,
            root,
            categories[k].parent_id->0,
            (depth - 1) as nat,
        ))
}

/// Whether `id` lies in the subtree of `root`, at any depth up to the number of categories.
pub open spec fn below(categories: Seq<CategoryView>, root: Seq<char>, id: Seq<char>) -> bool {
    in_subtree(categories, root, id, categories.len())
}

/// The categories of the subtree of `root`, in catalog order.
pub open spec fn subtree_categories(categories: Seq<CategoryView>, root: Seq<char>) -> Seq<CategoryView> {
    categories.filter(|c: CategoryView| below(categories, root, c.id))
}

/// The categories outside the subtree of `root`, in catalog order.
pub open spec fn other_categories(categories: Seq<CategoryView>, root: Seq<char>) -> Seq<CategoryView> {
    categories.filter(|c: CategoryView| !below(categories, root, c.id))
}

/// The entries filed in a category of the subtree of `root`, in catalog order.
pub open spec fn subtree_entries(
    categories: Seq<CategoryView>,
    entries: Seq<CatalogEntryView>,
    root: Seq<char>,
) -> Seq<CatalogEntryView> {
    entries.filter(
        |e: CatalogEntryView|
            match e.category_id {
                Some(c) => below(categories, root, c),
                None => false,
            },
    )
}

/// The entries whose id is not the id of an entry in `removed`, in catalog order.
pub open spec fn entries_not_in(entries: Seq<CatalogEntryView>, removed: Seq<CatalogEntryView>) -> Seq<CatalogEntryView> {
    entries.filter(|e: CatalogEntryView| !(exists|j: int| 0 <= j < removed.len() && #[trigger] removed[j].id == e.id))
}

fn contains_id(ids: &Vec<String>, id: &str) -> (r: bool)
    ensures
        r == exists|j: int| 0 <= j < ids@.len() && #[trigger] ids@[j]@ == id@,
{
    let mut j: usize = 0;
    while j < ids.len()
        invariant
            j <= ids@.len(),
            forall|k: int| 0 <= k < j ==> #[trigger] ids@[k]@ != id@,
        decreases ids@.len() - j,
    {
        if str_is(ids[j].as_str(), id) {
            return true;
        }
        j = j + 1;
    }
    false
}

/// The ids of the subtree of `root` reached through at most `depth` parent links: `root`
/// and every category whose parent is in the subtree one level less deep.
fn subtree_ids(categories: &Vec<Category>, root: &str, depth: usize) -> (ids: Vec<String>)
    ensures
        forall|id: Seq<char>|
            (exists|j: int| 0 <= j < ids@.len() && #[trigger] ids@[j]@ == id) <==> in_subtree(
                categories_view(categories@),
                root@,
                id,
                depth as nat,
            ),
    decreases depth,
{
    let ghost cats = categories_view(categories@);
    let mut ids: Vec<String> = Vec::new();
    ids.push(root.to_owned());
    if depth == 0 {
        proof {
            assert forall|id: Seq<char>|
                (exists|j: int| 0 <= j < ids@.len() && #[trigger] ids@[j]@ == id) implies in_subtree(cats, root@, id, 0) by {
                let j = choose|j: int| 0 <= j < ids@.len() && #[trigger] ids@[j]@ == id;
                assert(j == 0);
            }
            assert forall|id: Seq<char>| in_subtree(cats, root@, id, 0) implies (exists|j: int|
                0 <= j < ids@.len() && #[trigger] ids@[j]@ == id) by {
                assert(ids@[0]@ == id);
            }
        }
        return ids;
    }
    let inner = subtree_ids(categories, root, depth - 1);
    let ghost d1: nat = (depth - 1) as nat;
    let mut k: usize = 0;
    while k < categories.len()
        invariant
            k <= categories@.len(),
            cats == categories_view(categories@),
            depth > 0,
            d1 == depth - 1,
            ids@.len() >= 1,
            ids@[0]@ == root@,
            forall|id: Seq<char>|
                (exists|j: int| 0 <= j < inner@.len() && #[trigger] inner@[j]@ == id) <==> in_subtree(
                    cats,
                    root@,
                    id,
                    d1,
                ),
            forall|j: int|
                1 <= j < ids@.len() ==> exists|m: int|
                    0 <= m < k && (#[trigger] ids@[j])@ == cats[m].id && cats[m].parent_id is Some
                        && in_subtree(cats, root@, cats[m].parent_id->0, d1),
            forall|m: int|
                0 <= m < k && #[trigger] cats[m].parent_id is Some && in_subtree(
                    cats,
                    root@,
                    cats[m].parent_id->0,
                    d1,
                ) ==> exists|j: int| 0 <= j < ids@.len() && #[trigger] ids@[j]@ == cats[m].id,
        decreases categories@.len() - k,
    {
        let c = &categories[k];
        proof {
            assert(cats[k as int] == c@);
        }
        let hit = match &c.parent_id {
            Some(p) => contains_id(&inner, p.as_str()),
            None => false,
        };
        let ghost prev = ids@;
        if hit {
            ids.push(c.id.clone());
            proof {
                assert(ids@[ids@.len() - 1]@ == cats[k as int].id);
                assert forall|j: int|
                    1 <= j < ids@.len() implies exists|m: int|
                        0 <= m < k + 1 && (#[trigger] ids@[j])@ == cats[m].id && cats[m].parent_id is Some
                            && in_subtree(cats, root@, cats[m].parent_id->0, d1) by {
                    if j < prev.len() {
                        assert(ids@[j] == prev[j]);
                    } else {
                        assert(ids@[j]@ == cats[k as int].id);
                    }
                }
            }
        }
        proof {
            assert forall|m: int|
                0 <= m < k + 1 && #[trigger] cats[m].parent_id is Some && in_subtree(
                    cats,
                    root@,
                    cats[m].parent_id->0,
                    d1,
                ) implies exists|j: int| 0 <= j < ids@.len() && #[trigger] ids@[j]@ == cats[m].id by {
                if m < k {
                    let j = choose|j: int| 0 <= j < prev.len() && #[trigger] prev[j]@ == cats[m].id;
                    assert(ids@[j] == prev[j]);
                } else {
                    assert(ids@[ids@.len() - 1]@ == cats[k as int].id);
                }
            }
        }
        k = k + 1;
    }
    proof {
        assert forall|id: Seq<char>|
            (exists|j: int| 0 <= j < ids@.len() && #[trigger] ids@[j]@ == id) implies in_subtree(cats, root@, id, depth as nat) by {
            let j = choose|j: int| 0 <= j < ids@.len() && #[trigger] ids@[j]@ == id;
            if j > 0 {
                let m = choose|m: int|
                    0 <= m < categories@.len() && (#[trigger] ids@[j])@ == cats[m].id && cats[m].parent_id is Some
                        && in_subtree(cats, root@, cats[m].parent_id->0, d1);
                assert(cats[m].id == id);
            }
        }
        assert forall|id: Seq<char>| in_subtree(cats, root@, id, depth as nat) implies (exists|j: int|
            0 <= j < ids@.len() && #[trigger] ids@[j]@ == id) by {
            if id == root@ {
                assert(ids@[0]@ == id);
            } else {
                let m = choose|m: int|
                    0 <= m < cats.len() && #[trigger] cats[m].id == id && cats[m].parent_id is Some
                        && in_subtree(cats, root@, cats[m].parent_id->0, d1);
                assert(cats[m].parent_id is Some);
            }
        }
    }
    ids
}

/// The ids of every category below `root` (and `root` itself).
pub fn subtree_id_list(categories: &Vec<Category>, root: &str) -> (ids: Vec<String>)
    ensures
        forall|id: Seq<char>|
            (exists|j: int| 0 <= j < ids@.len() && #[trigger] ids@[j]@ == id) <==> below(
                categories_view(categories@),
                root@,
                id,
            ),
{
    subtree_ids(categories, root, categories.len())
}

/// Splits categories into those of the subtree of `root` and the others, both in order.
pub fn split_categories(categories: &Vec<Category>, root: &str) -> (r: (Vec<Category>, Vec<Category>))
    ensures
        categories_view(r.0@) == subtree_categories(categories_view(categories@), root@),
        categories_view(r.1@) == other_categories(categories_view(categories@), root@),
{
    let ids = subtree_id_list(categories, root);
    let ghost cats = categories_view(categories@);
    let ghost inside = |c: CategoryView| below(cats, root@, c.id);
    let ghost outside = |c: CategoryView| !below(cats, root@, c.id);
    let mut taken: Vec<Category> = Vec::new();
    let mut kept: Vec<Category> = Vec::new();
    let mut k: usize = 0;
    while k < categories.len()
        invariant
            k <= categories@.len(),
            cats == categories_view(categories@),
            inside == (|c: CategoryView| below(cats, root@, c.id)),
            outside == (|c: CategoryView| !below(cats, root@, c.id)),
            forall|id: Seq<char>|
                (exists|j: int| 0 <= j < ids@.len() && #[trigger] ids@[j]@ == id) <==> below(cats, root@, id),
            categories_view(taken@) == cats.take(k as int).filter(inside),
            categories_view(kept@) == cats.take(k as int).filter(outside),
        decreases categories@.len() - k,
    {
        let c = categories[k].duplicate();
        proof {
            assert(cats.take(k + 1).drop_last() =~= cats.take(k as int));
            assert(cats.take(k + 1).last() == c@);
            cats.take(k as int).lemma_filter_push(c@, inside);
            cats.take(k as int).lemma_filter_push(c@, outside);
            assert(cats.take(k + 1) =~= cats.take(k as int).push(c@));
        }
        let ghost prev_taken = taken@;
        let ghost prev_kept = kept@;
        if contains_id(&ids, c.id.as_str()) {
            taken.push(c);
            proof {
                assert(categories_view(taken@) =~= categories_view(prev_taken).push(c@));
            }
        } else {
            kept.push(c);
            proof {
                assert(categories_view(kept@) =~= categories_view(prev_kept).push(c@));
            }
        }
        k = k + 1;
    }
    proof {
        assert(cats.take(categories@.len() as int) =~= cats);
    }
    (taken, kept)
}

/// The entries filed in a category of the subtree of `root`, in order.
pub fn entries_in_subtree(categories: &Vec<Category>, entries: &Vec<CatalogEntry>, root: &str) -> (r: Vec<CatalogEntry>)
    ensures
        entries_view(r@) == subtree_entries(categories_view(categories@), entries_view(entries@), root@),
{
    let ids = subtree_id_list(categories, root);
    let ghost cats = categories_view(categories@);
    let ghost es = entries_view(entries@);
    let ghost inside = |e: CatalogEntryView|
        match e.category_id {
            Some(c) => below(cats, root@, c),
            None => false,
        };
    let mut taken: Vec<CatalogEntry> = Vec::new();
    let mut k: usize = 0;
    while k < entries.len()
        invariant
            k <= entries@.len(),
            es == entries_view(entries@),
            inside == (|e: CatalogEntryView|
                match e.category_id {
                    Some(c) => below(cats, root@, c),
                    None => false,
                }),
            forall|id: Seq<char>|
                (exists|j: int| 0 <= j < ids@.len() && #[trigger] ids@[j]@ == id) <==> below(cats, root@, id),
            entries_view(taken@) == es.take(k as int).filter(inside),
        decreases entries@.len() - k,
    {
        let e = entries[k].duplicate();
        proof {
            assert(es.take(k + 1) =~= es.take(k as int).push(e@));
            es.take(k as int).lemma_filter_push(e@, inside);
        }
        let hit = match &e.category_id {
            Some(c) => contains_id(&ids, c.as_str()),
            None => false,
        };
        let ghost prev = taken@;
        if hit {
            taken.push(e);
            proof {
                assert(entries_view(taken@) =~= entries_view(prev).push(e@));
            }
        }
        k = k + 1;
    }
    proof {
        assert(es.take(entries@.len() as int) =~= es);
    }
    taken
}

/// The entries whose id is not the id of an entry in `removed`, in order.
pub fn keep_entries_not_in(entries: &Vec<CatalogEntry>, removed: &Vec<CatalogEntry>) -> (r: Vec<CatalogEntry>)
    ensures
        entries_view(r@) == entries_not_in(entries_view(entries@), entries_view(removed@)),
{
    let mut removed_ids: Vec<String> = Vec::new();
    let mut j: usize = 0;
    while j < removed.len()
        invariant
            j <= removed@.len(),
            removed_ids@.len() == j,
            forall|m: int| 0 <= m < j ==> (#[trigger] removed_ids@[m])@ == removed@[m].id@,
        decreases removed@.len() - j,
    {
        removed_ids.push(removed[j].id.clone());
        j = j + 1;
    }
    let ghost es = entries_view(entries@);
    let ghost rs = entries_view(removed@);
    let ghost keep = |e: CatalogEntryView| !(exists|j: int| 0 <= j < rs.len() && #[trigger] rs[j].id == e.id);
    let mut kept: Vec<CatalogEntry> = Vec::new();
    let mut k: usize = 0;
    while k < entries.len()
        invariant
            k <= entries@.len(),
            es == entries_view(entries@),
            rs == entries_view(removed@),
            keep == (|e: CatalogEntryView| !(exists|j: int| 0 <= j < rs.len() && #[trigger] rs[j].id == e.id)),
            removed_ids@.len() == removed@.len(),
            forall|m: int| 0 <= m < removed@.len() ==> (#[trigger] removed_ids@[m])@ == removed@[m].id@,
            entries_view(kept@) == es.take(k as int).filter(keep),
        decreases entries@.len() - k,
    {
        let e = entries[k].duplicate();
        proof {
            assert(es.take(k + 1) =~= es.take(k as int).push(e@));
            es.take(k as int).lemma_filter_push(e@, keep);
        }
        let found = contains_id(&removed_ids, e.id.as_str());
        proof {
            if found {
                let m = choose|m: int| 0 <= m < removed_ids@.len() && #[trigger] removed_ids@[m]@ == e.id@;
                assert(rs[m].id == e@.id);
            } else {
                assert forall|m: int| 0 <= m < rs.len() implies #[trigger] rs[m].id != e@.id by {
                    assert(removed_ids@[m]@ == rs[m].id);
                }
            }
        }
        let ghost prev = kept@;
        if !found {
            kept.push(e);
            proof {
                assert(entries_view(kept@) =~= entries_view(prev).push(e@));
            }
        }
        k = k + 1;
    }
    proof {
        assert(es.take(entries@.len() as int) =~= es);
    }
    kept
}

} // verus!
