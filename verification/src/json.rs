//! A plain model of JSON documents, read and written by `serde_json`.
use vstd::prelude::*;

verus! {

/// A JSON document: numbers keep the three kinds `serde_json` distinguishes, objects keep
/// their members in the order `serde_json` yields them (sorted by key, without duplicates).
#[derive(Debug)]
pub enum Json {
    Null,
    Bool(bool),
    /// A non-negative integer.
    UInt(u64),
    /// A negative integer.
    NegInt(i64),
    /// Any other number, in the text `serde_json` prints for it.
    Float(String),
    Str(String),
    Array(Vec<Json>),
    Object(Vec<(String, Json)>),
}

/// The parsed document `serde_json::from_slice` returns for `bytes`, or `None` when it fails.
pub uninterp spec fn parsed_json(bytes: Seq<u8>) -> Option<Json>;

/// The bytes `serde_json::to_vec` writes for a document.
pub uninterp spec fn serialized_json(value: JsonTree) -> Seq<u8>;

/// The `serde_json` document model.
#[verifier::external_type_specification]
#[verifier::external_body]
pub struct ExJsonValue(serde_json::Value);

#[verifier::external_body]
fn from_serde(value: serde_json::Value) -> Json {
    match value {
        serde_json::Value::Null => Json::Null,
        serde_json::Value::Bool(b) => Json::Bool(b),
        serde_json::Value::Number(n) => match (n.as_u64(), n.as_i64()) {
            (Some(u), _) => Json::UInt(u),
            (None, Some(i)) => Json::NegInt(i),
            (None, None) => Json::Float(n.to_string()),
        },
        serde_json::Value::String(s) => Json::Str(s),
        serde_json::Value::Array(items) => Json::Array(items.into_iter().map(from_serde).collect()),
        serde_json::Value::Object(map) => Json::Object(
            map.into_iter().map(|(k, v)| (k, from_serde(v))).collect(),
        ),
    }
}

#[verifier::external_body]
fn to_serde(value: &Json) -> serde_json::Value {
    match value {
        Json::Null => serde_json::Value::Null,
        Json::Bool(b) => serde_json::Value::Bool(*b),
        Json::UInt(u) => serde_json::Value::from(*u),
        Json::NegInt(i) => serde_json::Value::from(*i),
        Json::Float(text) => serde_json::from_str(text).unwrap_or(serde_json::Value::Null),
        Json::Str(s) => serde_json::Value::String(s.clone()),
        Json::Array(items) => serde_json::Value::Array(items.iter().map(to_serde).collect()),
        Json::Object(members) => serde_json::Value::Object(
            members.iter().map(|(k, v)| (k.clone(), to_serde(v))).collect(),
        ),
    }
}

/// Parses a JSON document (`serde_json::from_slice`).
#[verifier::external_body]
pub fn parse_json(bytes: &[u8]) -> (r: Option<Json>)
    ensures
        r == parsed_json(bytes@),
{
    serde_json::from_slice::<serde_json::Value>(bytes).ok().map(from_serde)
}

/// Writes a JSON document compactly (`serde_json::to_vec`).
#[verifier::external_body]
pub fn write_json(value: &Json) -> (r: Vec<u8>)
    ensures
        r@ == serialized_json(value.tree()),
{
    serde_json::to_vec(&to_serde(value)).unwrap_or_default()
}

/// The first member named `key` in `members`.
pub open spec fn find_member(members: Seq<(String, Json)>, key: Seq<char>) -> Option<Json>
    decreases members.len(),
{
    if members.len() == 0 {
        None
    } else if members[0].0@ == key {
        Some(members[0].1)
    } else {
        find_member(members.drop_first(), key)
    }
}

/// The member `key` of an object, if the value is an object that has one.
pub open spec fn member(value: Json, key: Seq<char>) -> Option<Json> {
    match value {
        Json::Object(members) => find_member(members@, key),
        _ => None,
    }
}

proof fn lemma_find_member_skip(members: Seq<(String, Json)>, key: Seq<char>, i: int)
    requires
        0 <= i <= members.len(),
        forall|j: int| 0 <= j < i ==> (#[trigger] members[j]).0@ != key,
    ensures
        find_member(members, key) == find_member(members.skip(i), key),
    decreases i,
{
    if i > 0 {
        assert(members.drop_first().skip(i - 1) =~= members.skip(i));
        lemma_find_member_skip(members.drop_first(), key, i - 1);
    } else {
        assert(members.skip(0) =~= members);
    }
}

/// Looks up the first member `key` of an object.
pub fn get<'a>(value: &'a Json, key: &str) -> (r: Option<&'a Json>)
    ensures
        match (r, member(*value, key@)) {
            (Some(v), Some(m)) => *v == m,
            (None, None) => true,
            _ => false,
        },
{
    match value {
        Json::Object(members) => {
            let mut i: usize = 0;
            while i < members.len()
                invariant
                    i <= members@.len(),
                    member(*value, key@) == find_member(members@, key@),
                    forall|j: int| 0 <= j < i ==> (#[trigger] members@[j]).0@ != key@,
                decreases members@.len() - i,
            {
                proof {
                    lemma_find_member_skip(members@, key@, i as int);
                }
                if crate::remote::str_is(members[i].0.as_str(), key) {
                    proof {
                        let rest = members@.skip(i as int);
                        assert(rest[0] == members@[i as int]);
                        assert(members@[i as int].0@ == key@);
                        assert(find_member(rest, key@) == Some(rest[0].1));
                        assert(member(*value, key@) == Some(members@[i as int].1));
                    }
                    return Some(&members[i].1);
                }
                proof {
                    assert(members@.skip(i as int)[0] == members@[i as int]);
                    assert(members@.skip(i as int).drop_first() =~= members@.skip(i + 1));
                }
                i = i + 1;
            }
            proof {
                lemma_find_member_skip(members@, key@, i as int);
                assert(members@.skip(i as int) =~= Seq::<(String, Json)>::empty());
            }
            None
        },
        _ => None,
    }
}

/// The unsigned integer a value holds, as `Value::as_u64` reads it.
pub open spec fn as_u64(value: Option<Json>) -> Option<u64> {
    match value {
        Some(Json::UInt(n)) => Some(n),
        _ => None,
    }
}

/// The string a value holds, as `Value::as_str` reads it.
pub open spec fn as_str(value: Option<Json>) -> Option<Seq<char>> {
    match value {
        Some(Json::Str(s)) => Some(s@),
        _ => None,
    }
}

/// The plain value a JSON document stands for.
pub enum JsonTree {
    Null,
    Bool(bool),
    UInt(u64),
    NegInt(i64),
    Float(Seq<char>),
    Str(Seq<char>),
    Array(Seq<JsonTree>),
    Object(Seq<(Seq<char>, JsonTree)>),
}

impl Json {
    /// This document as a plain value.
    pub open spec fn tree(self) -> JsonTree
        decreases self, 1int,
    {
        match self {
            Json::Null => JsonTree::Null,
            Json::Bool(b) => JsonTree::Bool(b),
            Json::UInt(n) => JsonTree::UInt(n),
            Json::NegInt(n) => JsonTree::NegInt(n),
            Json::Float(t) => JsonTree::Float(t@),
            Json::Str(s) => JsonTree::Str(s@),
            Json::Array(items) => JsonTree::Array(items_tree(items@)),
            Json::Object(members) => JsonTree::Object(members_tree(members@)),
        }
    }
}

/// Array items as plain values.
pub open spec fn items_tree(items: Seq<Json>) -> Seq<JsonTree>
    decreases items, 0int,
{
    Seq::new(
        items.len(),
        |i: int|
            if 0 <= i < items.len() {
                items[i].tree()
            } else {
                JsonTree::Null
            },
    )
}

/// Object members as plain values.
pub open spec fn members_tree(members: Seq<(String, Json)>) -> Seq<(Seq<char>, JsonTree)>
    decreases members, 0int,
{
    Seq::new(
        members.len(),
        |i: int|
            if 0 <= i < members.len() {
                (members[i].0@, members[i].1.tree())
            } else {
                (Seq::empty(), JsonTree::Null)
            },
    )
}

/// The first member named `key` among plain members.
pub open spec fn first_member(members: Seq<(Seq<char>, JsonTree)>, key: Seq<char>) -> Option<JsonTree>
    decreases members.len(),
{
    if members.len() == 0 {
        None
    } else if members[0].0 == key {
        Some(members[0].1)
    } else {
        first_member(members.drop_first(), key)
    }
}

/// The member `key` of a plain object, if the value is an object that has one.
pub open spec fn field(value: JsonTree, key: Seq<char>) -> Option<JsonTree> {
    match value {
        JsonTree::Object(members) => first_member(members, key),
        _ => None,
    }
}

/// The text a plain value holds, if it is a string.
pub open spec fn text_of(value: Option<JsonTree>) -> Option<Seq<char>> {
    match value {
        Some(JsonTree::Str(s)) => Some(s),
        _ => None,
    }
}

/// The unsigned integer a plain value holds.
pub open spec fn uint_of(value: Option<JsonTree>) -> Option<u64> {
    match value {
        Some(JsonTree::UInt(n)) => Some(n),
        _ => None,
    }
}

/// The items of a plain value, if it is an array.
pub open spec fn items_of(value: Option<JsonTree>) -> Option<Seq<JsonTree>> {
    match value {
        Some(JsonTree::Array(items)) => Some(items),
        _ => None,
    }
}

proof fn lemma_first_member_tree(members: Seq<(String, Json)>, key: Seq<char>)
    ensures
        first_member(members_tree(members), key) == match find_member(members, key) {
            Some(m) => Some(m.tree()),
            None => None,
        },
    decreases members.len(),
{
    if members.len() > 0 {
        assert(members_tree(members).drop_first() =~= members_tree(members.drop_first()));
        lemma_first_member_tree(members.drop_first(), key);
    }
}

/// Looking a member up in a document agrees with looking it up in its plain value.
pub proof fn lemma_member_tree(value: Json, key: Seq<char>)
    ensures
        field(value.tree(), key) == match member(value, key) {
            Some(m) => Some(m.tree()),
            None => None,
        },
{
    if let Json::Object(members) = value {
        lemma_first_member_tree(members@, key);
    }
}

proof fn lemma_items_tree_at(items: Seq<Json>, k: int)
    requires
        0 <= k < items.len(),
    ensures
        items_tree(items).len() == items.len(),
        items_tree(items)[k] == items[k].tree(),
{
}

proof fn lemma_members_tree_at(members: Seq<(String, Json)>, k: int)
    requires
        0 <= k < members.len(),
    ensures
        members_tree(members).len() == members.len(),
        members_tree(members)[k] == (members[k].0@, members[k].1.tree()),
{
}

/// A copy of a document.
pub fn copy_json(value: &Json) -> (r: Json)
    ensures
        r.tree() == value.tree(),
    decreases value,
{
    match value {
        Json::Null => Json::Null,
        Json::Bool(b) => Json::Bool(*b),
        Json::UInt(n) => Json::UInt(*n),
        Json::NegInt(n) => Json::NegInt(*n),
        Json::Float(t) => Json::Float(t.clone()),
        Json::Str(s) => Json::Str(s.clone()),
        Json::Array(items) => {
            let mut out: Vec<Json> = Vec::new();
            let mut i: usize = 0;
            while i < items.len()
                invariant
                    *value == Json::Array(*items),
                    i <= items@.len(),
                    out@.len() == i,
                    items_tree(out@) =~= items_tree(items@.take(i as int)),
                decreases items@.len() - i,
            {
                proof {
                    assert(decreases_to!(*value => (*value)->Array_0));
                    assert(decreases_to!(*items => items@));
                    assert(decreases_to!(items@ => items@[i as int]));
                }
                let item = copy_json(&items[i]);
                let ghost before = out@;
                out.push(item);
                i = i + 1;
                proof {
                    assert(out@ == before.push(item));
                    assert forall|k: int| 0 <= k < i implies #[trigger] items_tree(out@)[k]
                        == items_tree(items@.take(i as int))[k] by {
                        lemma_items_tree_at(out@, k);
                        lemma_items_tree_at(items@.take(i as int), k);
                        if k < i - 1 {
                            lemma_items_tree_at(before, k);
                            lemma_items_tree_at(items@.take(i - 1), k);
                            assert(items_tree(before)[k] == items_tree(items@.take(i - 1))[k]);
                        }
                    }
                    assert(items_tree(out@) =~= items_tree(items@.take(i as int)));
                }
            }
            proof {
                assert(items@.take(i as int) =~= items@);
            }
            Json::Array(out)
        },
        Json::Object(members) => {
            let mut out: Vec<(String, Json)> = Vec::new();
            let mut i: usize = 0;
            while i < members.len()
                invariant
                    *value == Json::Object(*members),
                    i <= members@.len(),
                    out@.len() == i,
                    members_tree(out@) =~= members_tree(members@.take(i as int)),
                decreases members@.len() - i,
            {
                proof {
                    assert(decreases_to!(*value => (*value)->Object_0));
                    assert(decreases_to!(*members => members@));
                    assert(decreases_to!(members@ => members@[i as int]));
                    assert(decreases_to!(members@[i as int] => members@[i as int].1));
                }
                let key = members[i].0.clone();
                let item = copy_json(&members[i].1);
                let ghost before = out@;
                out.push((key, item));
                i = i + 1;
                proof {
                    assert(out@ == before.push((key, item)));
                    assert forall|k: int| 0 <= k < i implies #[trigger] members_tree(out@)[k]
                        == members_tree(members@.take(i as int))[k] by {
                        lemma_members_tree_at(out@, k);
                        lemma_members_tree_at(members@.take(i as int), k);
                        if k < i - 1 {
                            lemma_members_tree_at(before, k);
                            lemma_members_tree_at(members@.take(i - 1), k);
                            assert(members_tree(before)[k] == members_tree(members@.take(i - 1))[k]);
                        }
                    }
                    assert(members_tree(out@) =~= members_tree(members@.take(i as int)));
                }
            }
            proof {
                assert(members@.take(i as int) =~= members@);
            }
            Json::Object(out)
        },
    }
}

/// The text of a plain string value, copied out of a document.
pub fn str_value(value: Option<&Json>) -> (r: Option<String>)
    ensures
        match r {
            Some(s) => value matches Some(v) && text_of(Some(v.tree())) == Some(s@),
            None => value matches Some(v) ==> text_of(Some(v.tree())) is None,
        },
{
    match value {
        Some(Json::Str(s)) => Some(s.clone()),
        _ => None,
    }
}

} // verus!
