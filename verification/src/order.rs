//! Stable ordering: the order a stable sort gives, and lexicographic text order.
use crate::model::{entry_views, snapshots_view, Entry, EntryView, Snapshot, SnapshotView};
use crate::text::chars_of;
use vstd::prelude::*;

verus! {

/// `x` inserted after every element it does not strictly precede (the first position
/// whose element `x` strictly precedes), which keeps equal elements in arrival order.
pub open spec fn insert_sorted<T>(sorted: Seq<T>, x: T, before: spec_fn(T, T) -> bool) -> Seq<T>
    decreases sorted.len(),
{
    if sorted.len() == 0 {
        seq![x]
    } else if before(x, sorted[0]) {
        seq![x] + sorted
    } else {
        seq![sorted[0]] + insert_sorted(sorted.drop_first(), x, before)
    }
}

/// The result of a stable sort of `s` by the strict order `before`.
pub open spec fn stable_sort<T>(s: Seq<T>, before: spec_fn(T, T) -> bool) -> Seq<T>
    decreases s.len(),
{
    if s.len() == 0 {
        Seq::empty()
    } else {
        insert_sorted(stable_sort(s.drop_last(), before), s.last(), before)
    }
}

/// The first position of `sorted` whose element `x` strictly precedes, or the length.
pub open spec fn insertion_point<T>(sorted: Seq<T>, x: T, before: spec_fn(T, T) -> bool) -> int
    decreases sorted.len(),
{
    if sorted.len() == 0 {
        0
    } else if before(x, sorted[0]) {
        0
    } else {
        1 + insertion_point(sorted.drop_first(), x, before)
    }
}

pub proof fn lemma_insert_at_point<T>(sorted: Seq<T>, x: T, before: spec_fn(T, T) -> bool)
    ensures
        0 <= insertion_point(sorted, x, before) <= sorted.len(),
        insert_sorted(sorted, x, before) == sorted.take(insertion_point(sorted, x, before)) + seq![x]
            + sorted.skip(insertion_point(sorted, x, before)),
        forall|j: int|
            0 <= j < insertion_point(sorted, x, before) ==> !before(x, #[trigger] sorted[j]),
        insertion_point(sorted, x, before) < sorted.len() ==> before(
            x,
            sorted[insertion_point(sorted, x, before)],
        ),
    decreases sorted.len(),
{
    if sorted.len() == 0 {
        assert(sorted.take(0) + seq![x] + sorted.skip(0) =~= seq![x]);
    } else if before(x, sorted[0]) {
        assert(sorted.take(0) + seq![x] + sorted.skip(0) =~= seq![x] + sorted);
    } else {
        let rest = sorted.drop_first();
        lemma_insert_at_point(rest, x, before);
        let p = insertion_point(rest, x, before);
        assert(sorted.take(p + 1) =~= seq![sorted[0]] + rest.take(p));
        assert(sorted.skip(p + 1) =~= rest.skip(p));
        assert(seq![sorted[0]] + (rest.take(p) + seq![x] + rest.skip(p)) =~= sorted.take(p + 1)
            + seq![x] + sorted.skip(p + 1));
        assert forall|j: int| 0 <= j < p + 1 implies !before(x, #[trigger] sorted[j]) by {
            if j > 0 {
                assert(sorted[j] == rest[j - 1]);
            }
        }
    }
}

/// A stable sort keeps exactly the elements it was given.
pub proof fn lemma_stable_sort_permutes<T>(s: Seq<T>, before: spec_fn(T, T) -> bool)
    ensures
        stable_sort(s, before).to_multiset() == s.to_multiset(),
        stable_sort(s, before).len() == s.len(),
    decreases s.len(),
{
    broadcast use vstd::seq_lib::group_to_multiset_ensures;

    if s.len() > 0 {
        let init = s.drop_last();
        lemma_stable_sort_permutes(init, before);
        let sorted = stable_sort(init, before);
        lemma_insert_at_point(sorted, s.last(), before);
        let p = insertion_point(sorted, s.last(), before);
        let a = sorted.take(p);
        let b = sorted.skip(p);
        assert(a + b =~= sorted);
        vstd::seq_lib::lemma_multiset_commutative(a, b);
        vstd::seq_lib::lemma_multiset_commutative(a + seq![s.last()], b);
        vstd::seq_lib::lemma_multiset_commutative(a, seq![s.last()]);
        assert(s =~= init.push(s.last()));
    }
}

/// Lexicographic order of character sequences by code point (the order of `str`).
pub open spec fn lex_lt(a: Seq<char>, b: Seq<char>) -> bool
    decreases a.len(),
{
    if a.len() == 0 {
        b.len() > 0
    } else if b.len() == 0 {
        false
    } else if a[0] != b[0] {
        a[0] < b[0]
    } else {
        lex_lt(a.drop_first(), b.drop_first())
    }
}

/// Whether `a` sorts strictly before `b` in text order.
pub fn text_less(a: &[char], b: &[char]) -> (r: bool)
    ensures
        r == lex_lt(a@, b@),
{
    let mut i: usize = 0;
    proof {
        assert(a@.skip(0) =~= a@);
        assert(b@.skip(0) =~= b@);
    }
    while i < a.len() && i < b.len()
        invariant
            i <= a@.len(),
            i <= b@.len(),
            lex_lt(a@, b@) == lex_lt(a@.skip(i as int), b@.skip(i as int)),
        decreases a@.len() - i,
    {
        let x = a[i];
        let y = b[i];
        proof {
            assert(a@.skip(i as int)[0] == x);
            assert(b@.skip(i as int)[0] == y);
            assert(a@.skip(i as int).drop_first() =~= a@.skip(i + 1));
            assert(b@.skip(i as int).drop_first() =~= b@.skip(i + 1));
        }
        if x != y {
            return x < y;
        }
        i = i + 1;
    }
    proof {
        if i == a@.len() {
            assert(a@.skip(i as int).len() == 0);
        } else {
            assert(b@.skip(i as int).len() == 0);
        }
    }
    i == a.len() && i < b.len()
}

proof fn lemma_insert_sorted_map<T>(sorted: Seq<T>, x: T, before: spec_fn(T, T) -> bool, g: spec_fn(T) -> T)
    requires
        forall|a: T, b: T| #[trigger] before(g(a), g(b)) == before(a, b),
    ensures
        insert_sorted(sorted.map_values(g), g(x), before) == insert_sorted(sorted, x, before).map_values(g),
    decreases sorted.len(),
{
    let m = sorted.map_values(g);
    if sorted.len() == 0 {
        assert(seq![g(x)] =~= seq![x].map_values(g));
    } else {
        assert(m[0] == g(sorted[0]));
        assert(before(g(x), g(sorted[0])) == before(x, sorted[0]));
        if before(x, sorted[0]) {
            assert(seq![g(x)] + m =~= (seq![x] + sorted).map_values(g));
        } else {
            assert(m.drop_first() =~= sorted.drop_first().map_values(g));
            lemma_insert_sorted_map(sorted.drop_first(), x, before, g);
            assert(seq![m[0]] + insert_sorted(m.drop_first(), g(x), before) =~= (seq![sorted[0]] + insert_sorted(
                sorted.drop_first(),
                x,
                before,
            )).map_values(g));
        }
    }
}

/// A stable sort commutes with a change of the elements that keeps their order: sorting
/// the changed elements gives the sorted elements, changed.
pub proof fn lemma_stable_sort_map<T>(s: Seq<T>, before: spec_fn(T, T) -> bool, g: spec_fn(T) -> T)
    requires
        forall|a: T, b: T| #[trigger] before(g(a), g(b)) == before(a, b),
    ensures
        stable_sort(s.map_values(g), before) == stable_sort(s, before).map_values(g),
    decreases s.len(),
{
    if s.len() == 0 {
        assert(stable_sort(s, before).map_values(g) =~= Seq::<T>::empty());
    } else {
        let m = s.map_values(g);
        assert(m.drop_last() =~= s.drop_last().map_values(g));
        assert(m.last() == g(s.last()));
        lemma_stable_sort_map(s.drop_last(), before, g);
        lemma_insert_sorted_map(stable_sort(s.drop_last(), before), s.last(), before, g);
    }
}

/// Entries ordered by name, in text order.
pub open spec fn name_before() -> spec_fn(EntryView, EntryView) -> bool {
    |a: EntryView, b: EntryView| lex_lt(a.name, b.name)
}

/// Snapshots ordered newest first.
pub open spec fn newer_first() -> spec_fn(SnapshotView, SnapshotView) -> bool {
    |a: SnapshotView, b: SnapshotView| a.created_at_ms > b.created_at_ms
}

/// Snapshots ordered oldest first.
pub open spec fn older_first() -> spec_fn(SnapshotView, SnapshotView) -> bool {
    |a: SnapshotView, b: SnapshotView| a.created_at_ms < b.created_at_ms
}

/// Where a stable insertion puts `x` among `sorted`, for the order `name_before`.
fn entry_slot(sorted: &Vec<Entry>, name: &[char]) -> (p: usize)
    ensures
        p <= sorted@.len(),
        forall|j: int| 0 <= j < p ==> !lex_lt(name@, #[trigger] entry_views(sorted@)[j].name),
        p < sorted@.len() ==> lex_lt(name@, entry_views(sorted@)[p as int].name),
{
    let mut p: usize = 0;
    while p < sorted.len()
        invariant
            p <= sorted@.len(),
            forall|j: int| 0 <= j < p ==> !lex_lt(name@, #[trigger] entry_views(sorted@)[j].name),
        decreases sorted@.len() - p,
    {
        let other = chars_of(sorted[p].name.as_str());
        proof {
            assert(entry_views(sorted@)[p as int].name == other@);
        }
        if text_less(name, other.as_slice()) {
            return p;
        }
        p = p + 1;
    }
    p
}

pub proof fn lemma_slot_is_point<T>(sorted: Seq<T>, x: T, before: spec_fn(T, T) -> bool, p: int)
    requires
        0 <= p <= sorted.len(),
        forall|j: int| 0 <= j < p ==> !before(x, #[trigger] sorted[j]),
        p < sorted.len() ==> before(x, sorted[p]),
    ensures
        insert_sorted(sorted, x, before) == sorted.insert(p, x),
{
    lemma_insert_at_point(sorted, x, before);
    let q = insertion_point(sorted, x, before);
    if q < p {
        assert(!before(x, sorted[q]));
    }
    if p < q {
        assert(!before(x, sorted[p]));
    }
    assert(sorted.take(p) + seq![x] + sorted.skip(p) =~= sorted.insert(p, x));
}

/// Sorts entries by name, keeping entries with equal names in their given order.
pub fn sort_entries_by_name(items: &Vec<Entry>) -> (r: Vec<Entry>)
    ensures
        entry_views(r@) == stable_sort(entry_views(items@), name_before()),
{
    let mut sorted: Vec<Entry> = Vec::new();
    let mut i: usize = 0;
    while i < items.len()
        invariant
            i <= items@.len(),
            entry_views(sorted@) == stable_sort(entry_views(items@).take(i as int), name_before()),
        decreases items@.len() - i,
    {
        let x = items[i].duplicate();
        let name = chars_of(x.name.as_str());
        let p = entry_slot(&sorted, name.as_slice());
        let ghost prev = sorted@;
        proof {
            let before = name_before();
            assert forall|j: int| 0 <= j < p implies !before(x@, #[trigger] entry_views(prev)[j]) by {
                assert(!lex_lt(name@, entry_views(prev)[j].name));
            }
            lemma_slot_is_point(entry_views(prev), x@, before, p as int);
            let s = entry_views(items@).take(i + 1);
            assert(s.drop_last() =~= entry_views(items@).take(i as int));
            assert(s.last() == x@);
        }
        sorted.insert(p, x);
        proof {
            assert(entry_views(sorted@) =~= entry_views(prev).insert(p as int, x@));
        }
        i = i + 1;
    }
    proof {
        assert(entry_views(items@).take(items@.len() as int) =~= entry_views(items@));
    }
    sorted
}

fn snapshot_slot(sorted: &Vec<Snapshot>, at: u64, newest_first: bool) -> (p: usize)
    ensures
        p <= sorted@.len(),
        forall|j: int|
            0 <= j < p ==> !(if newest_first {
                at > (#[trigger] snapshots_view(sorted@)[j]).created_at_ms
            } else {
                at < snapshots_view(sorted@)[j].created_at_ms
            }),
        p < sorted@.len() ==> (if newest_first {
            at > snapshots_view(sorted@)[p as int].created_at_ms
        } else {
            at < snapshots_view(sorted@)[p as int].created_at_ms
        }),
{
    let mut p: usize = 0;
    while p < sorted.len()
        invariant
            p <= sorted@.len(),
            forall|j: int|
                0 <= j < p ==> !(if newest_first {
                    at > (#[trigger] snapshots_view(sorted@)[j]).created_at_ms
                } else {
                    at < snapshots_view(sorted@)[j].created_at_ms
                }),
        decreases sorted@.len() - p,
    {
        let other = sorted[p].created_at_ms;
        proof {
            assert(snapshots_view(sorted@)[p as int].created_at_ms == other);
        }
        if (newest_first && at > other) || (!newest_first && at < other) {
            return p;
        }
        p = p + 1;
    }
    p
}

/// Sorts snapshots by creation time, newest or oldest first, keeping snapshots created at
/// the same time in their given order.
pub fn sort_snapshots(items: &Vec<Snapshot>, newest_first: bool) -> (r: Vec<Snapshot>)
    ensures
        snapshots_view(r@) == stable_sort(
            snapshots_view(items@),
            if newest_first {
                newer_first()
            } else {
                older_first()
            },
        ),
{
    let ghost before = if newest_first {
        newer_first()
    } else {
        older_first()
    };
    let mut sorted: Vec<Snapshot> = Vec::new();
    let mut i: usize = 0;
    while i < items.len()
        invariant
            i <= items@.len(),
            before == if newest_first {
                newer_first()
            } else {
                older_first()
            },
            snapshots_view(sorted@) == stable_sort(snapshots_view(items@).take(i as int), before),
        decreases items@.len() - i,
    {
        let x = items[i].duplicate();
        let p = snapshot_slot(&sorted, x.created_at_ms, newest_first);
        let ghost prev = sorted@;
        proof {
            assert forall|j: int| 0 <= j < p implies !before(x@, #[trigger] snapshots_view(prev)[j]) by {
                assert(snapshots_view(prev)[j] == snapshots_view(prev)[j]);
            }
            lemma_slot_is_point(snapshots_view(prev), x@, before, p as int);
            let s = snapshots_view(items@).take(i + 1);
            assert(s.drop_last() =~= snapshots_view(items@).take(i as int));
            assert(s.last() == x@);
        }
        sorted.insert(p, x);
        proof {
            assert(snapshots_view(sorted@) =~= snapshots_view(prev).insert(p as int, x@));
        }
        i = i + 1;
    }
    proof {
        assert(snapshots_view(items@).take(items@.len() as int) =~= snapshots_view(items@));
    }
    sorted
}


/// Whether `before` is a strict total order: never reflexive, transitive, and relating
/// any two different elements one way or the other.
pub open spec fn strict_total<T>(before: spec_fn(T, T) -> bool) -> bool {
    &&& forall|a: T| !#[trigger] before(a, a)
    &&& forall|a: T, b: T, c: T| #[trigger] before(a, b) && #[trigger] before(b, c) ==> before(a, c)
    &&& forall|a: T, b: T| a != b ==> #[trigger] before(a, b) || #[trigger] before(b, a)
}

/// Whether no element of `s` strictly precedes an earlier one.
pub open spec fn sorted_by<T>(s: Seq<T>, before: spec_fn(T, T) -> bool) -> bool {
    forall|i: int, j: int| 0 <= i < j < s.len() ==> !before(#[trigger] s[j], #[trigger] s[i])
}

proof fn lemma_lex_lt_irreflexive(a: Seq<char>)
    ensures
        !lex_lt(a, a),
    decreases a.len(),
{
    if a.len() > 0 {
        lemma_lex_lt_irreflexive(a.drop_first());
    }
}

proof fn lemma_lex_lt_transitive(a: Seq<char>, b: Seq<char>, c: Seq<char>)
    requires
        lex_lt(a, b),
        lex_lt(b, c),
    ensures
        lex_lt(a, c),
    decreases a.len(),
{
    if a.len() > 0 && b.len() > 0 && c.len() > 0 && a[0] == b[0] && b[0] == c[0] {
        lemma_lex_lt_transitive(a.drop_first(), b.drop_first(), c.drop_first());
    }
}

proof fn lemma_lex_lt_total(a: Seq<char>, b: Seq<char>)
    requires
        a != b,
    ensures
        lex_lt(a, b) || lex_lt(b, a),
    decreases a.len(),
{
    if a.len() == 0 && b.len() == 0 {
        assert(a =~= b);
    }
    if a.len() > 0 && b.len() > 0 && a[0] == b[0] {
        if a.drop_first() == b.drop_first() {
            assert(a =~= seq![a[0]] + a.drop_first());
            assert(b =~= seq![b[0]] + b.drop_first());
        }
        lemma_lex_lt_total(a.drop_first(), b.drop_first());
    }
}

/// Texts ordered by `lex_lt`.
pub open spec fn text_before() -> spec_fn(Seq<char>, Seq<char>) -> bool {
    |a: Seq<char>, b: Seq<char>| lex_lt(a, b)
}

/// Text order is a strict total order.
pub proof fn lemma_text_order_total()
    ensures
        strict_total(text_before()),
{
    assert forall|a: Seq<char>| !#[trigger] text_before()(a, a) by {
        lemma_lex_lt_irreflexive(a);
    }
    assert forall|a: Seq<char>, b: Seq<char>, c: Seq<char>|
        #[trigger] text_before()(a, b) && #[trigger] text_before()(b, c) implies text_before()(a, c) by {
        lemma_lex_lt_transitive(a, b, c);
    }
    assert forall|a: Seq<char>, b: Seq<char>| a != b implies #[trigger] text_before()(a, b)
        || #[trigger] text_before()(b, a) by {
        lemma_lex_lt_total(a, b);
    }
}

proof fn lemma_insert_sorted_sorted<T>(sorted: Seq<T>, x: T, before: spec_fn(T, T) -> bool)
    requires
        strict_total(before),
        sorted_by(sorted, before),
    ensures
        sorted_by(insert_sorted(sorted, x, before), before),
{
    lemma_insert_at_point(sorted, x, before);
    let p = insertion_point(sorted, x, before);
    let r = insert_sorted(sorted, x, before);
    assert forall|i: int, j: int| 0 <= i < j < r.len() implies !before(#[trigger] r[j], #[trigger] r[i]) by {
        if j < p {
            assert(r[i] == sorted[i] && r[j] == sorted[j]);
        } else if j == p {
            assert(r[i] == sorted[i] && r[j] == x);
            if before(x, sorted[i]) {
                assert(false);
            }
        } else if i > p {
            assert(r[i] == sorted[i - 1] && r[j] == sorted[j - 1]);
        } else if i == p {
            assert(r[i] == x && r[j] == sorted[j - 1]);
            assert(before(x, sorted[p]));
            if before(sorted[j - 1], x) {
                if j - 1 > p {
                    assert(!before(sorted[j - 1], sorted[p]));
                }
                assert(before(sorted[j - 1], sorted[p]));
            }
        } else {
            assert(r[i] == sorted[i] && r[j] == sorted[j - 1]);
        }
    }
}

/// A stable sort by a strict total order gives a sorted sequence.
pub proof fn lemma_stable_sort_sorted<T>(s: Seq<T>, before: spec_fn(T, T) -> bool)
    requires
        strict_total(before),
    ensures
        sorted_by(stable_sort(s, before), before),
    decreases s.len(),
{
    if s.len() > 0 {
        lemma_stable_sort_sorted(s.drop_last(), before);
        lemma_insert_sorted_sorted(stable_sort(s.drop_last(), before), s.last(), before);
    }
}

/// Two sequences sorted by a strict total order that hold the same elements are equal.
pub proof fn lemma_sorted_unique<T>(a: Seq<T>, b: Seq<T>, before: spec_fn(T, T) -> bool)
    requires
        strict_total(before),
        sorted_by(a, before),
        sorted_by(b, before),
        a.to_multiset() == b.to_multiset(),
    ensures
        a == b,
    decreases a.len(),
{
    broadcast use vstd::seq_lib::group_to_multiset_ensures;

    if a.len() == 0 {
        assert(a.len() == a.to_multiset().len());
        assert(b.len() == b.to_multiset().len());
        assert(b =~= a);
    } else {
        assert(a.len() == a.to_multiset().len());
        assert(b.len() == b.to_multiset().len());
        assert(a.contains(a[0]));
        assert(a.to_multiset().count(a[0]) > 0);
        assert(b.contains(a[0]));
        assert(b.contains(b[0]));
        assert(b.to_multiset().count(b[0]) > 0);
        assert(a.contains(b[0]));
        let k = choose|k: int| 0 <= k < b.len() && b[k] == a[0];
        let m = choose|m: int| 0 <= m < a.len() && a[m] == b[0];
        if k > 0 {
            assert(!before(b[k], b[0]));
        }
        if m > 0 {
            assert(!before(a[m], a[0]));
        }
        assert(a[0] == b[0]);
        assert(a.remove(0) =~= a.drop_first());
        assert(b.remove(0) =~= b.drop_first());
        assert(a.drop_first().to_multiset() == b.drop_first().to_multiset());
        assert(sorted_by(a.drop_first(), before)) by {
            assert forall|i: int, j: int| 0 <= i < j < a.drop_first().len() implies !before(
                #[trigger] a.drop_first()[j],
                #[trigger] a.drop_first()[i],
            ) by {
                assert(a.drop_first()[i] == a[i + 1] && a.drop_first()[j] == a[j + 1]);
            }
        }
        assert(sorted_by(b.drop_first(), before)) by {
            assert forall|i: int, j: int| 0 <= i < j < b.drop_first().len() implies !before(
                #[trigger] b.drop_first()[j],
                #[trigger] b.drop_first()[i],
            ) by {
                assert(b.drop_first()[i] == b[i + 1] && b.drop_first()[j] == b[j + 1]);
            }
        }
        lemma_sorted_unique(a.drop_first(), b.drop_first(), before);
        assert(a =~= seq![a[0]] + a.drop_first());
        assert(b =~= seq![b[0]] + b.drop_first());
    }
}

/// Sorting by a strict total order depends only on which elements there are: sequences
/// holding the same elements sort to the same sequence.
pub proof fn lemma_stable_sort_same_elements<T>(s: Seq<T>, t: Seq<T>, before: spec_fn(T, T) -> bool)
    requires
        strict_total(before),
        s.to_multiset() == t.to_multiset(),
    ensures
        stable_sort(s, before) == stable_sort(t, before),
{
    lemma_stable_sort_sorted(s, before);
    lemma_stable_sort_sorted(t, before);
    lemma_stable_sort_permutes(s, before);
    lemma_stable_sort_permutes(t, before);
    lemma_sorted_unique(stable_sort(s, before), stable_sort(t, before), before);
}

/// A reversed sequence holds the same elements.
pub proof fn lemma_reverse_same_elements<T>(s: Seq<T>)
    ensures
        s.reverse().to_multiset() == s.to_multiset(),
    decreases s.len(),
{
    broadcast use vstd::seq_lib::group_to_multiset_ensures;

    if s.len() > 0 {
        let init = s.drop_last();
        lemma_reverse_same_elements(init);
        assert(s.reverse() =~= seq![s.last()] + init.reverse());
        vstd::seq_lib::lemma_multiset_commutative(seq![s.last()], init.reverse());
        vstd::seq_lib::lemma_multiset_commutative(init, seq![s.last()]);
        assert(init + seq![s.last()] =~= s);
    }
}

fn text_slot(sorted: &Vec<String>, x: &str) -> (p: usize)
    ensures
        p <= sorted@.len(),
        forall|j: int| 0 <= j < p ==> !lex_lt(x@, #[trigger] sorted@[j]@),
        p < sorted@.len() ==> lex_lt(x@, sorted@[p as int]@),
{
    let xs = chars_of(x);
    let mut p: usize = 0;
    while p < sorted.len()
        invariant
            p <= sorted@.len(),
            xs@ == x@,
            forall|j: int| 0 <= j < p ==> !lex_lt(x@, #[trigger] sorted@[j]@),
        decreases sorted@.len() - p,
    {
        let other = chars_of(sorted[p].as_str());
        if text_less(xs.as_slice(), other.as_slice()) {
            return p;
        }
        p = p + 1;
    }
    p
}

/// Sorts texts in text order (`lex_lt`), as `slice::sort` orders `String`s.
pub fn sort_texts(items: &Vec<String>) -> (r: Vec<String>)
    ensures
        crate::model::strings_view(r@) == stable_sort(crate::model::strings_view(items@), text_before()),
{
    let ghost all = crate::model::strings_view(items@);
    let ghost before = text_before();
    let mut sorted: Vec<String> = Vec::new();
    let mut i: usize = 0;
    proof {
        assert(all.take(0) =~= Seq::<Seq<char>>::empty());
        assert(crate::model::strings_view(sorted@) =~= Seq::<Seq<char>>::empty());
    }
    while i < items.len()
        invariant
            i <= items@.len(),
            all == crate::model::strings_view(items@),
            before == text_before(),
            crate::model::strings_view(sorted@) == stable_sort(all.take(i as int), before),
        decreases items@.len() - i,
    {
        let x = items[i].clone();
        let p = text_slot(&sorted, x.as_str());
        let ghost prev = sorted@;
        proof {
            let sv = crate::model::strings_view(prev);
            assert forall|j: int| 0 <= j < p implies !before(x@, #[trigger] sv[j]) by {
                assert(sv[j] == prev[j]@);
            }
            if p < sv.len() {
                assert(sv[p as int] == prev[p as int]@);
            }
            lemma_slot_is_point(sv, x@, before, p as int);
            let t = all.take(i + 1);
            assert(t.drop_last() =~= all.take(i as int));
            assert(t.last() == x@);
        }
        sorted.insert(p, x);
        proof {
            assert(crate::model::strings_view(sorted@) =~= crate::model::strings_view(prev).insert(p as int, x@));
        }
        i = i + 1;
    }
    proof {
        assert(all.take(items@.len() as int) =~= all);
    }
    sorted
}

} // verus!
