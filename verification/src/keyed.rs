//! Text-to-text settings held as a list of pairs: the map they stand for lets a later pair
//! override an earlier one with the same key, as collecting them into a hash map does.
use crate::model::strings_view;
use crate::remote::str_is;
use vstd::prelude::*;

verus! {

/// The map a list of pairs stands for; a later pair wins over an earlier one.
pub open spec fn pairs_map(pairs: Seq<(String, String)>) -> Map<Seq<char>, Seq<char>>
    decreases pairs.len(),
{
    if pairs.len() == 0 {
        Map::empty()
    } else {
        pairs_map(pairs.drop_last()).insert(pairs.last().0@, pairs.last().1@)
    }
}

/// The keys of a list of pairs, in order.
pub open spec fn pair_keys(pairs: Seq<(String, String)>) -> Seq<Seq<char>> {
    pairs.map_values(|p: (String, String)| p.0@)
}

/// Keeps the pairs whose key is in `keys`.
pub open spec fn key_in(keys: Seq<Seq<char>>) -> spec_fn((String, String)) -> bool {
    |p: (String, String)| keys.contains(p.0@)
}

/// Keeps the pairs whose value is not empty.
pub open spec fn value_nonempty() -> spec_fn((String, String)) -> bool {
    |p: (String, String)| p.1@.len() > 0
}

pub proof fn lemma_pairs_map_push(pairs: Seq<(String, String)>, p: (String, String))
    ensures
        pairs_map(pairs.push(p)) == pairs_map(pairs).insert(p.0@, p.1@),
{
    assert(pairs.push(p).drop_last() =~= pairs);
}

/// The keys of the map are the keys of the pairs.
pub proof fn lemma_pairs_map_keys(pairs: Seq<(String, String)>)
    ensures
        forall|k: Seq<char>| #[trigger] pairs_map(pairs).contains_key(k) <==> pair_keys(pairs).contains(k),
    decreases pairs.len(),
{
    if pairs.len() > 0 {
        lemma_pairs_map_keys(pairs.drop_last());
        let last = pairs.last();
        let pk = pair_keys(pairs);
        let pd = pair_keys(pairs.drop_last());
        assert(pk =~= pd.push(last.0@));
        assert forall|k: Seq<char>| #[trigger] pairs_map(pairs).contains_key(k) <==> pk.contains(k) by {
            assert(pairs_map(pairs) == pairs_map(pairs.drop_last()).insert(last.0@, last.1@));
            assert(pairs_map(pairs.drop_last()).contains_key(k) <==> pd.contains(k));
            if pk.contains(k) {
                let j = choose|j: int| 0 <= j < pk.len() && pk[j] == k;
                if j < pd.len() {
                    assert(pd[j] == k);
                    assert(pd.contains(k));
                }
            }
            if pd.contains(k) {
                let j = choose|j: int| 0 <= j < pd.len() && pd[j] == k;
                assert(pk[j] == k);
            }
            if k == last.0@ {
                assert(pk[pk.len() - 1] == k);
            }
        }
    }
}

/// Filtering the pairs by key restricts the map to those keys.
pub proof fn lemma_pairs_map_restrict(pairs: Seq<(String, String)>, keys: Seq<Seq<char>>)
    ensures
        pairs_map(pairs.filter(key_in(keys))) =~= pairs_map(pairs).restrict(keys.to_set()),
    decreases pairs.len(),
{
    reveal(Seq::filter);
    if pairs.len() > 0 {
        lemma_pairs_map_restrict(pairs.drop_last(), keys);
        let last = pairs.last();
        if key_in(keys)(last) {
            lemma_pairs_map_push(pairs.drop_last().filter(key_in(keys)), last);
        }
    }
}

/// Appending pairs lets the appended ones win.
pub proof fn lemma_pairs_map_append(a: Seq<(String, String)>, b: Seq<(String, String)>)
    ensures
        pairs_map(a + b) =~= pairs_map(a).union_prefer_right(pairs_map(b)),
    decreases b.len(),
{
    if b.len() == 0 {
        assert(a + b =~= a);
    } else {
        lemma_pairs_map_append(a, b.drop_last());
        assert((a + b).drop_last() =~= a + b.drop_last());
        assert((a + b).last() == b.last());
    }
}

/// A copy of a list of pairs.
pub fn copy_pairs(pairs: &Vec<(String, String)>) -> (r: Vec<(String, String)>)
    ensures
        r@.len() == pairs@.len(),
        forall|i: int| 0 <= i < pairs@.len() ==> (#[trigger] r@[i]).0@ == pairs@[i].0@ && r@[i].1@
            == pairs@[i].1@,
        pairs_map(r@) == pairs_map(pairs@),
        pair_keys(r@) == pair_keys(pairs@),
{
    let mut out: Vec<(String, String)> = Vec::new();
    let mut i: usize = 0;
    while i < pairs.len()
        invariant
            i <= pairs@.len(),
            out@.len() == i,
            forall|j: int| 0 <= j < i ==> (#[trigger] out@[j]).0@ == pairs@[j].0@ && out@[j].1@
                == pairs@[j].1@,
            pairs_map(out@) == pairs_map(pairs@.take(i as int)),
        decreases pairs@.len() - i,
    {
        let p = (pairs[i].0.clone(), pairs[i].1.clone());
        proof {
            lemma_pairs_map_push(out@, p);
            assert(pairs@.take(i + 1).drop_last() =~= pairs@.take(i as int));
        }
        out.push(p);
        i = i + 1;
    }
    proof {
        assert(pairs@.take(i as int) =~= pairs@);
        assert(pair_keys(out@) =~= pair_keys(pairs@));
    }
    out
}

/// The value of `key`: that of the last pair with this key.
pub fn pairs_get(pairs: &Vec<(String, String)>, key: &str) -> (r: Option<String>)
    ensures
        match r {
            Some(v) => pairs_map(pairs@).contains_key(key@) && pairs_map(pairs@)[key@] == v@,
            None => !pairs_map(pairs@).contains_key(key@),
        },
{
    let mut i: usize = pairs.len();
    proof {
        assert(pairs@.take(i as int) =~= pairs@);
        assert(pairs@.skip(i as int) =~= Seq::<(String, String)>::empty());
        assert(pairs_map(pairs@).union_prefer_right(Map::<Seq<char>, Seq<char>>::empty()) =~= pairs_map(pairs@));
    }
    while i > 0
        invariant
            i <= pairs@.len(),
            pairs_map(pairs@) == pairs_map(pairs@.take(i as int)).union_prefer_right(
                pairs_map(pairs@.skip(i as int)),
            ),
            !pairs_map(pairs@.skip(i as int)).contains_key(key@),
        decreases i,
    {
        let j = i - 1;
        proof {
            let front = pairs@.take(j as int);
            assert(pairs@.take(i as int) =~= front.push(pairs@[j as int]));
            lemma_pairs_map_push(front, pairs@[j as int]);
            assert(pairs@.skip(j as int) =~= seq![pairs@[j as int]] + pairs@.skip(i as int));
            lemma_pairs_map_append(seq![pairs@[j as int]], pairs@.skip(i as int));
            lemma_pairs_map_push(Seq::<(String, String)>::empty(), pairs@[j as int]);
            assert(seq![pairs@[j as int]] =~= Seq::<(String, String)>::empty().push(pairs@[j as int]));
        }
        if str_is(pairs[j].0.as_str(), key) {
            proof {
                assert(pairs@ =~= pairs@.take(i as int) + pairs@.skip(i as int));
                lemma_pairs_map_append(pairs@.take(i as int), pairs@.skip(i as int));
            }
            return Some(pairs[j].1.clone());
        }
        i = j;
    }
    proof {
        assert(pairs@.take(0) =~= Seq::<(String, String)>::empty());
    }
    None
}

/// Whether some key of `pairs` is not in `keys`.
pub fn has_key_outside(pairs: &Vec<(String, String)>, keys: &Vec<String>) -> (r: bool)
    ensures
        r == exists|i: int|
            0 <= i < pairs@.len() && !strings_view(keys@).contains(#[trigger] pairs@[i].0@),
{
    let mut i: usize = 0;
    while i < pairs.len()
        invariant
            i <= pairs@.len(),
            forall|j: int| 0 <= j < i ==> strings_view(keys@).contains(#[trigger] pairs@[j].0@),
        decreases pairs@.len() - i,
    {
        if !string_listed(keys, pairs[i].0.as_str()) {
            return true;
        }
        i = i + 1;
    }
    false
}

/// Whether `list` holds `s`.
pub fn string_listed(list: &Vec<String>, s: &str) -> (r: bool)
    ensures
        r == strings_view(list@).contains(s@),
{
    let mut j: usize = 0;
    while j < list.len()
        invariant
            j <= list@.len(),
            forall|k: int| 0 <= k < j ==> #[trigger] list@[k]@ != s@,
        decreases list@.len() - j,
    {
        if str_is(list[j].as_str(), s) {
            proof {
                assert(strings_view(list@)[j as int] == s@);
            }
            return true;
        }
        j = j + 1;
    }
    proof {
        if strings_view(list@).contains(s@) {
            let k = choose|k: int| 0 <= k < strings_view(list@).len() && strings_view(list@)[k] == s@;
            assert(list@[k]@ == s@);
        }
    }
    false
}

/// The pairs whose key is in `keys`, in order.
pub fn keep_keys(pairs: Vec<(String, String)>, keys: &Vec<String>) -> (r: Vec<(String, String)>)
    ensures
        r@ == pairs@.filter(key_in(strings_view(keys@))),
        pairs_map(r@) == pairs_map(pairs@).restrict(strings_view(keys@).to_set()),
{
    let ghost all = pairs@;
    let ghost ks = strings_view(keys@);
    let total = pairs.len();
    let mut rest = pairs;
    let mut out: Vec<(String, String)> = Vec::new();
    let mut n: usize = 0;
    while rest.len() > 0
        invariant
            rest@ == all.skip(n as int),
            n <= all.len(),
            all.len() == total,
            ks == strings_view(keys@),
            out@ == all.take(n as int).filter(key_in(ks)),
        decreases rest@.len(),
    {
        let p = rest.remove(0);
        proof {
            assert(p == all[n as int]);
            assert(all.take(n + 1) =~= all.take(n as int).push(p));
            all.take(n as int).lemma_filter_push(p, key_in(ks));
        }
        if string_listed(keys, p.0.as_str()) {
            out.push(p);
        }
        n = n + 1;
        proof {
            assert(rest@ =~= all.skip(n as int));
        }
    }
    proof {
        assert(all.take(n as int) =~= all);
        lemma_pairs_map_restrict(all, ks);
    }
    out
}

} // verus!
