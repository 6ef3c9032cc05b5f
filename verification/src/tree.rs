//! The category tree: walks up parent links, and why a checked move keeps the tree free of
//! cycles.
use crate::model::CategoryView;
use crate::repository::{
    category_ids, first_id, has_category, lemma_first_id_bounds, meets_ancestor, move_allowed,
    moved, parent_of,
};
use vstd::prelude::*;

verus! {

/// Where `m` steps up the parent links from `start` lead.
pub open spec fn walk(categories: Seq<CategoryView>, start: Option<Seq<char>>, m: nat) -> Option<Seq<char>>
    decreases m,
{
    if m == 0 {
        start
    } else {
        match start {
            None => None,
            Some(c) => walk(categories, parent_of(categories, c), (m - 1) as nat),
        }
    }
}

/// No category is its own ancestor: walking up from any category's parent never comes back
/// to it within as many steps as there are categories.
pub open spec fn categories_acyclic(categories: Seq<CategoryView>) -> bool {
    forall|i: int|
        0 <= i < categories.len() ==> !meets_ancestor(
            categories,
            parent_of(categories, #[trigger] categories[i].id),
            categories[i].id,
            categories.len(),
        )
}

proof fn lemma_walk_none(categories: Seq<CategoryView>, m: nat)
    ensures
        walk(categories, None, m) is None,
    decreases m,
{
}

proof fn lemma_meets_walk(categories: Seq<CategoryView>, start: Option<Seq<char>>, target: Seq<char>, k: nat)
    ensures
        meets_ancestor(categories, start, target, k) ==> exists|m: nat|
            m <= k && walk(categories, start, m) == Some(target),
    decreases k,
{
    if meets_ancestor(categories, start, target, k) {
        match start {
            None => {},
            Some(c) => {
                if c == target {
                    assert(walk(categories, start, 0) == Some(target));
                } else {
                    lemma_meets_walk(categories, parent_of(categories, c), target, (k - 1) as nat);
                    let m = choose|m: nat|
                        m <= k - 1 && walk(categories, parent_of(categories, c), m) == Some(target);
                    assert(walk(categories, start, m + 1) == Some(target));
                }
            },
        }
    }
}

proof fn lemma_walk_meets(
    categories: Seq<CategoryView>,
    start: Option<Seq<char>>,
    target: Seq<char>,
    m: nat,
    k: nat,
)
    requires
        m <= k,
        walk(categories, start, m) == Some(target),
    ensures
        meets_ancestor(categories, start, target, k),
    decreases m,
{
    if m > 0 {
        match start {
            None => {
                lemma_walk_none(categories, m);
            },
            Some(c) => {
                if c != target {
                    lemma_walk_meets(categories, parent_of(categories, c), target, (m - 1) as nat, (k - 1) as nat);
                }
            },
        }
    }
}

proof fn lemma_walk_add(categories: Seq<CategoryView>, start: Option<Seq<char>>, a: nat, b: nat)
    ensures
        walk(categories, start, a + b) == walk(categories, walk(categories, start, a), b),
    decreases a,
{
    if a > 0 {
        match start {
            None => {
                lemma_walk_none(categories, a + b);
                lemma_walk_none(categories, a);
                lemma_walk_none(categories, b);
            },
            Some(c) => {
                lemma_walk_add(categories, parent_of(categories, c), (a - 1) as nat, b);
                assert((a + b - 1) as nat == (a - 1) as nat + b);
            },
        }
    }
}

/// The first of the first `m + 1` steps from `start` that reaches `x`, if any.
proof fn first_hit(categories: Seq<CategoryView>, start: Option<Seq<char>>, x: Seq<char>, m: nat) -> (s: Option<nat>)
    ensures
        match s {
            Some(s) => s <= m && walk(categories, start, s) == Some(x) && forall|j: nat|
                j < s ==> walk(categories, start, j) != Some(x),
            None => forall|j: nat| j <= m ==> walk(categories, start, j) != Some(x),
        },
    decreases m,
{
    if m == 0 {
        if walk(categories, start, 0) == Some(x) {
            Some(0)
        } else {
            assert forall|j: nat| j <= m implies walk(categories, start, j) != Some(x) by {
                assert(j == 0);
            }
            None
        }
    } else {
        match first_hit(categories, start, x, (m - 1) as nat) {
            Some(s) => Some(s),
            None => {
                if walk(categories, start, m) == Some(x) {
                    Some(m)
                } else {
                    assert forall|j: nat| j <= m implies walk(categories, start, j) != Some(x) by {
                        if j < m {
                            assert(j <= (m - 1) as nat);
                        }
                    }
                    None
                }
            },
        }
    }
}

proof fn lemma_moved_parent(categories: Seq<CategoryView>, x: Seq<char>, parent: Option<Seq<char>>, c: Seq<char>)
    requires
        has_category(categories, x),
    ensures
        parent_of(moved(categories, x, parent), c) == if c == x {
            parent
        } else {
            parent_of(categories, c)
        },
{
    let after = moved(categories, x, parent);
    lemma_first_id_bounds(category_ids(categories), x);
    let k = first_id(category_ids(categories), x)->0;
    assert(category_ids(after) =~= category_ids(categories));
    lemma_first_id_bounds(category_ids(categories), c);
    match first_id(category_ids(categories), c) {
        Some(k2) => {
            if c != x {
                assert(category_ids(categories)[k] == x);
                assert(k2 != k);
            }
        },
        None => {},
    }
}

/// Walks that do not pass the moved category take the same steps after the move.
proof fn lemma_walk_agrees(
    categories: Seq<CategoryView>,
    x: Seq<char>,
    parent: Option<Seq<char>>,
    start: Option<Seq<char>>,
    m: nat,
)
    requires
        has_category(categories, x),
        forall|j: nat| j < m ==> walk(categories, start, j) != Some(x),
    ensures
        walk(moved(categories, x, parent), start, m) == walk(categories, start, m),
    decreases m,
{
    if m > 0 {
        match start {
            None => {},
            Some(c) => {
                assert(walk(categories, start, 0) != Some(x));
                lemma_moved_parent(categories, x, parent, c);
                let next = parent_of(categories, c);
                assert forall|j: nat| j < (m - 1) as nat implies walk(categories, next, j) != Some(x) by {
                    assert(walk(categories, start, j + 1) == walk(categories, next, j));
                }
                lemma_walk_agrees(categories, x, parent, next, (m - 1) as nat);
            },
        }
    }
}

/// A move that passes the checks of `move_category` keeps the category tree free of cycles:
/// when no category is its own ancestor before the move, none is after it.
pub proof fn lemma_move_keeps_acyclic(categories: Seq<CategoryView>, id: Seq<char>, parent: Option<Seq<char>>)
    requires
        categories_acyclic(categories),
        move_allowed(categories, id, parent),
        !meets_ancestor(categories, parent, id, (categories.len() + 1) as nat),
    ensures
        categories_acyclic(moved(categories, id, parent)),
{
    let after = moved(categories, id, parent);
    let n = categories.len();
    lemma_first_id_bounds(category_ids(categories), id);
    assert(after.len() == n);
    assert forall|i: int| 0 <= i < after.len() implies !meets_ancestor(
        after,
        parent_of(after, #[trigger] after[i].id),
        after[i].id,
        after.len(),
    ) by {
        let c = after[i].id;
        assert(c == categories[i].id);
        if meets_ancestor(after, parent_of(after, c), c, n) {
            lemma_meets_walk(after, parent_of(after, c), c, n);
            let m = choose|m: nat| m <= n && walk(after, parent_of(after, c), m) == Some(c);
            assert(walk(after, Some(c), m + 1) == Some(c));
            match first_hit(categories, Some(c), id, m) {
                None => {
                    lemma_walk_agrees(categories, id, parent, Some(c), m + 1);
                    assert(walk(categories, Some(c), m + 1) == Some(c));
                    assert(walk(categories, parent_of(categories, c), m) == Some(c));
                    lemma_walk_meets(categories, parent_of(categories, c), c, m, n);
                    assert(!meets_ancestor(categories, parent_of(categories, categories[i].id), categories[i].id, n));
                },
                Some(s) => {
                    lemma_walk_agrees(categories, id, parent, Some(c), s);
                    assert(walk(after, Some(c), s) == Some(id));
                    lemma_walk_add(after, Some(c), s, (m + 1 - s) as nat);
                    assert(s + (m + 1 - s) as nat == m + 1);
                    lemma_moved_parent(categories, id, parent, id);
                    assert(walk(after, Some(id), (m + 1 - s) as nat) == walk(after, parent, (m - s) as nat));
                    assert forall|j: nat| j < (m - s) as nat implies walk(categories, parent, j) != Some(id) by {
                        if walk(categories, parent, j) == Some(id) {
                            lemma_walk_meets(categories, parent, id, j, (n + 1) as nat);
                        }
                    }
                    lemma_walk_agrees(categories, id, parent, parent, (m - s) as nat);
                    assert(walk(categories, parent, (m - s) as nat) == Some(c));
                    lemma_walk_add(categories, parent, (m - s) as nat, s);
                    assert(walk(categories, Some(c), s) == Some(id));
                    assert(walk(categories, parent, (m - s) as nat + s) == Some(id));
                    lemma_walk_meets(categories, parent, id, (m - s) as nat + s, (n + 1) as nat);
                },
            }
        }
    }
}

} // verus!
