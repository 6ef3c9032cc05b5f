//! The requests that write one commit to a GitHub repository through its Git data API: a
//! blob for each binary file (small JSON files are written inline into the tree), the
//! tree on top of the branch's tree, the commit, and the move of the branch to it.
use crate::json::{items_tree, members_tree, Json, JsonTree};
use crate::remote::base64_standard;
use crate::text::{chars_of, eq_ignore_ascii_case, eq_ignore_ascii_case_spec};
use vstd::prelude::*;

verus! {

/// The position of the last `c` in `s`.
pub open spec fn last_index(s: Seq<char>, c: char) -> Option<int>
    decreases s.len(),
{
    if s.len() == 0 {
        None
    } else if s.last() == c {
        Some(s.len() - 1)
    } else {
        last_index(s.drop_last(), c)
    }
}

/// Where `last_index` finds `c`, it is a position of `s` that holds `c`.
pub proof fn lemma_last_index_in_range(s: Seq<char>, c: char)
    ensures
        last_index(s, c) matches Some(k) ==> 0 <= k < s.len() && s[k] == c,
    decreases s.len(),
{
    if s.len() > 0 && s.last() != c {
        lemma_last_index_in_range(s.drop_last(), c);
    }
}

/// The last component of a `/`-separated path.
pub open spec fn file_name_of(path: Seq<char>) -> Seq<char> {
    match last_index(path, '/') {
        Some(k) => path.skip(k + 1),
        None => path,
    }
}

/// Whether a path's file name has the extension `json` (ignoring ASCII case): a dot that
/// is not the name's first character, followed by `json`. The file name is the text after
/// the last `/`, which is what `Path::extension` looks at for the repository paths this is
/// asked about (paths that end in a name, not in `/` or a `.` component).
pub open spec fn json_extension(path: Seq<char>) -> bool {
    let name = file_name_of(path);
    match last_index(name, '.') {
        Some(d) => d > 0 && eq_ignore_ascii_case_spec(name.skip(d + 1), "json"@),
        None => false,
    }
}

/// The largest JSON file written inline into a tree: one mebibyte.
pub const MAX_INLINE_BYTES: usize = 1_048_576;

/// The tree entry that writes a file inline: its text, mode `100644`, its path, type `blob`.
pub open spec fn inline_entry_tree(path: Seq<char>, text: Seq<char>) -> JsonTree {
    JsonTree::Object(
        seq![
            ("content"@, JsonTree::Str(text)),
            ("mode"@, JsonTree::Str("100644"@)),
            ("path"@, JsonTree::Str(path)),
            ("type"@, JsonTree::Str("blob"@)),
        ],
    )
}

fn text(s: &str) -> (r: String)
    ensures
        r@ == s@,
{
    s.to_owned()
}

fn last_index_of(s: &Vec<char>, c: char) -> (r: Option<usize>)
    ensures
        match last_index(s@, c) {
            Some(k) => r == Some(k as usize),
            None => r is None,
        },
{
    let mut n = s.len();
    proof {
        assert(s@.take(n as int) =~= s@);
    }
    while n > 0
        invariant
            n <= s@.len(),
            last_index(s@, c) == last_index(s@.take(n as int), c),
        decreases n,
    {
        proof {
            assert(s@.take(n as int).drop_last() =~= s@.take(n - 1));
            assert(s@.take(n as int).last() == s@[n - 1]);
        }
        if s[n - 1] == c {
            proof {
                lemma_last_index_in_range(s@, c);
            }
            return Some(n - 1);
        }
        n = n - 1;
    }
    proof {
        assert(s@.take(0) =~= Seq::<char>::empty());
    }
    None
}

/// Whether a path names a JSON file, as `json_extension` says.
pub fn is_json_path(path: &str) -> (r: bool)
    ensures
        r == json_extension(path@),
{
    let chars = chars_of(path);
    proof {
        lemma_last_index_in_range(path@, '/');
    }
    let name = match last_index_of(&chars, '/') {
        Some(k) => crate::text::copy_range(chars.as_slice(), k + 1, chars.len()),
        None => chars,
    };
    proof {
        assert(name@ =~= file_name_of(path@));
    }
    proof {
        lemma_last_index_in_range(name@, '.');
    }
    match last_index_of(&name, '.') {
        Some(d) => {
            if d == 0 {
                return false;
            }
            let ext = crate::text::copy_range(name.as_slice(), d + 1, name.len());
            let json = chars_of("json");
            eq_ignore_ascii_case(ext.as_slice(), json.as_slice())
        },
        None => false,
    }
}

/// The tree entry that writes `contents` at `path` inline, when that is how they are
/// written: a JSON file of at most one mebibyte whose bytes are UTF-8 text. Every other
/// file goes up as a blob first (`blob_request`).
pub fn inline_tree_entry(path: &str, contents: &[u8]) -> (r: Option<Json>)
    ensures
        (json_extension(path@) && contents@.len() <= MAX_INLINE_BYTES && vstd::utf8::valid_utf8(contents@))
            ==> (r matches Some(j) && j.tree() == inline_entry_tree(path@, vstd::utf8::decode_utf8(contents@))),
        !(json_extension(path@) && contents@.len() <= MAX_INLINE_BYTES && vstd::utf8::valid_utf8(contents@))
            ==> r is None,
{
    if !is_json_path(path) || contents.len() > MAX_INLINE_BYTES {
        return None;
    }
    let decoded = match crate::galgame::decode_utf8(contents) {
        Some(t) => t,
        None => return None,
    };
    let mut members: Vec<(String, Json)> = Vec::new();
    members.push((text("content"), Json::Str(decoded)));
    members.push((text("mode"), Json::Str(text("100644"))));
    members.push((text("path"), Json::Str(text(path))));
    members.push((text("type"), Json::Str(text("blob"))));
    proof {
        assert(members_tree(members@) =~= seq![
            ("content"@, JsonTree::Str(vstd::utf8::decode_utf8(contents@))),
            ("mode"@, JsonTree::Str("100644"@)),
            ("path"@, JsonTree::Str(path@)),
            ("type"@, JsonTree::Str("blob"@)),
        ]);
    }
    Some(Json::Object(members))
}

/// The request that uploads `contents` as a blob: the bytes in standard base64.
pub fn blob_request(contents: &[u8]) -> (r: Json)
    ensures
        r.tree() == JsonTree::Object(
            seq![
                ("content"@, JsonTree::Str(base64_standard(contents@))),
                ("encoding"@, JsonTree::Str("base64"@)),
            ],
        ),
{
    let mut members: Vec<(String, Json)> = Vec::new();
    members.push((text("content"), Json::Str(crate::remote::encode_base64(contents))));
    members.push((text("encoding"), Json::Str(text("base64"))));
    proof {
        assert(members_tree(members@) =~= seq![
            ("content"@, JsonTree::Str(base64_standard(contents@))),
            ("encoding"@, JsonTree::Str("base64"@)),
        ]);
    }
    Json::Object(members)
}

/// The tree entry that writes the uploaded blob `sha` at `path`.
pub fn blob_tree_entry(path: &str, sha: &str) -> (r: Json)
    ensures
        r.tree() == JsonTree::Object(
            seq![
                ("mode"@, JsonTree::Str("100644"@)),
                ("path"@, JsonTree::Str(path@)),
                ("sha"@, JsonTree::Str(sha@)),
                ("type"@, JsonTree::Str("blob"@)),
            ],
        ),
{
    let mut members: Vec<(String, Json)> = Vec::new();
    members.push((text("mode"), Json::Str(text("100644"))));
    members.push((text("path"), Json::Str(text(path))));
    members.push((text("sha"), Json::Str(text(sha))));
    members.push((text("type"), Json::Str(text("blob"))));
    proof {
        assert(members_tree(members@) =~= seq![
            ("mode"@, JsonTree::Str("100644"@)),
            ("path"@, JsonTree::Str(path@)),
            ("sha"@, JsonTree::Str(sha@)),
            ("type"@, JsonTree::Str("blob"@)),
        ]);
    }
    Json::Object(members)
}

/// The request that makes a tree of `entries` on top of the tree `base_tree`.
pub fn tree_request(base_tree: &str, entries: Vec<Json>) -> (r: Json)
    ensures
        r.tree() == JsonTree::Object(
            seq![("base_tree"@, JsonTree::Str(base_tree@)), ("tree"@, JsonTree::Array(items_tree(entries@)))],
        ),
{
    let ghost items = items_tree(entries@);
    let mut members: Vec<(String, Json)> = Vec::new();
    members.push((text("base_tree"), Json::Str(text(base_tree))));
    members.push((text("tree"), Json::Array(entries)));
    proof {
        assert(members_tree(members@) =~= seq![
            ("base_tree"@, JsonTree::Str(base_tree@)),
            ("tree"@, JsonTree::Array(items)),
        ]);
    }
    Json::Object(members)
}

/// The request that makes a commit of the tree `tree` with the message `message` and the
/// single parent `parent`.
pub fn commit_request(message: &str, tree: &str, parent: &str) -> (r: Json)
    ensures
        r.tree() == JsonTree::Object(
            seq![
                ("message"@, JsonTree::Str(message@)),
                ("parents"@, JsonTree::Array(seq![JsonTree::Str(parent@)])),
                ("tree"@, JsonTree::Str(tree@)),
            ],
        ),
{
    let parents: Vec<Json> = vec![Json::Str(text(parent))];
    proof {
        assert(items_tree(parents@) =~= seq![JsonTree::Str(parent@)]);
    }
    let mut members: Vec<(String, Json)> = Vec::new();
    members.push((text("message"), Json::Str(text(message))));
    members.push((text("parents"), Json::Array(parents)));
    members.push((text("tree"), Json::Str(text(tree))));
    proof {
        assert(members_tree(members@) =~= seq![
            ("message"@, JsonTree::Str(message@)),
            ("parents"@, JsonTree::Array(seq![JsonTree::Str(parent@)])),
            ("tree"@, JsonTree::Str(tree@)),
        ]);
    }
    Json::Object(members)
}

/// The request that moves the branch to the commit `sha`, refusing anything but a
/// fast-forward.
pub fn ref_update_request(sha: &str) -> (r: Json)
    ensures
        r.tree() == JsonTree::Object(seq![("force"@, JsonTree::Bool(false)), ("sha"@, JsonTree::Str(sha@))]),
{
    let mut members: Vec<(String, Json)> = Vec::new();
    members.push((text("force"), Json::Bool(false)));
    members.push((text("sha"), Json::Str(text(sha))));
    proof {
        assert(members_tree(members@) =~= seq![("force"@, JsonTree::Bool(false)), ("sha"@, JsonTree::Str(sha@))]);
    }
    Json::Object(members)
}

} // verus!
