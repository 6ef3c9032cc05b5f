//! Scoped Windows registry snapshots: supported subkey paths and snapshot validation.
use crate::json::{member, parse_json, Json};
use crate::remote::str_is;
use crate::text::{
    chars_equal, chars_of, concat_chars, contains_char, copy_range, seq_ascii_upper, split,
    split_chars, string_of, upper_ascii,
};
use vstd::prelude::*;

verus! {

/// How a registry snapshot is written back.
#[derive(Clone, Copy, Debug, Default, PartialEq, Eq, Structural)]
pub enum RegistryRestoreMode {
    /// Values and subkeys of the snapshot are written; everything else stays.
    #[default]
    Merge,
    /// Values and subkeys absent from the snapshot are removed as well.
    Overwrite,
}

/// Number of UTF-16 code units `c` takes.
pub open spec fn utf16_width(c: char) -> nat {
    if (c as u32) < 0x10000 {
        1
    } else {
        2
    }
}

/// Number of UTF-16 code units of `s` (what `encode_utf16().count()` returns).
pub open spec fn utf16_len(s: Seq<char>) -> nat
    decreases s.len(),
{
    if s.len() == 0 {
        0
    } else {
        utf16_len(s.drop_last()) + utf16_width(s.last())
    }
}

/// A single registry key name that cannot address anything outside its parent.
pub open spec fn valid_component_spec(name: Seq<char>) -> bool {
    name.len() > 0 && name != seq!['.'] && name != seq!['.', '.'] && !name.contains('\\')
        && !name.contains('/') && !name.contains('\0') && utf16_len(name) <= 255
}

/// The first position of `c` in `s`.
pub open spec fn first_index(s: Seq<char>, c: char) -> Option<int>
    decreases s.len(),
{
    if s.len() == 0 {
        None
    } else if s[0] == c {
        Some(0)
    } else {
        match first_index(s.drop_first(), c) {
            Some(i) => Some(i + 1),
            None => None,
        }
    }
}

pub open spec fn msg_missing_subkey() -> Seq<char> {
    "请选择 HKCU 或 HKLM 下的具体注册表子键"@
}

pub open spec fn msg_unsupported_hive() -> Seq<char> {
    "仅支持 HKCU 和 HKLM 注册表子键"@
}

pub open spec fn msg_invalid_subkey() -> Seq<char> {
    "注册表路径包含无效子键或路径跳转"@
}

pub open spec fn msg_bad_format() -> Seq<char> {
    "注册表快照格式无效"@
}

pub open spec fn msg_mismatch() -> Seq<char> {
    "注册表快照版本、视图或目标路径不匹配"@
}

pub open spec fn msg_bad_value() -> Seq<char> {
    "注册表快照包含无效值、重复名称或 REG_LINK 链接"@
}

pub open spec fn msg_bad_child() -> Seq<char> {
    "注册表快照包含越界子键或重复名称"@
}

/// The canonical form of a supported registry path, or the message that rejects it.
pub open spec fn normalize_path_spec(path: Seq<char>) -> Result<Seq<char>, Seq<char>> {
    match first_index(path, '\\') {
        None => Err(msg_missing_subkey()),
        Some(k) => {
            let hive = seq_ascii_upper(path.take(k));
            let subkey = path.skip(k + 1);
            let canonical = if hive == "HKCU"@ || hive == "HKEY_CURRENT_USER"@ {
                Some("HKEY_CURRENT_USER"@)
            } else if hive == "HKLM"@ || hive == "HKEY_LOCAL_MACHINE"@ {
                Some("HKEY_LOCAL_MACHINE"@)
            } else {
                None
            };
            match canonical {
                None => Err(msg_unsupported_hive()),
                Some(h) => if forall|i: int|
                    0 <= i < split(subkey, '\\').len() ==> valid_component_spec(
                        #[trigger] split(subkey, '\\')[i],
                    ) {
                    Ok(h + seq!['\\'] + subkey)
                } else {
                    Err(msg_invalid_subkey())
                },
            }
        },
    }
}

fn utf16_len_at_most(s: &[char], limit: usize) -> (r: bool)
    ensures
        r == (utf16_len(s@) <= limit),
{
    let mut total: usize = 0;
    let mut i: usize = 0;
    while i < s.len()
        invariant
            i <= s@.len(),
            total == utf16_len(s@.take(i as int)),
            total <= limit,
        decreases s@.len() - i,
    {
        let width: usize = if (s[i] as u32) < 0x10000 {
            1
        } else {
            2
        };
        proof {
            assert(s@.take(i + 1).drop_last() =~= s@.take(i as int));
        }
        if width > limit - total {
            proof {
                lemma_utf16_len_prefix(s@, i + 1);
            }
            return false;
        }
        total = total + width;
        i = i + 1;
    }
    proof {
        assert(s@.take(s@.len() as int) =~= s@);
    }
    true
}

proof fn lemma_utf16_len_prefix(s: Seq<char>, k: int)
    requires
        0 <= k <= s.len(),
    ensures
        utf16_len(s.take(k)) <= utf16_len(s),
    decreases s.len() - k,
{
    if k < s.len() {
        lemma_utf16_len_prefix(s, k + 1);
        assert(s.take(k + 1).drop_last() =~= s.take(k));
    } else {
        assert(s.take(k) =~= s);
    }
}

/// Whether a key name is a safe single component.
pub fn valid_component(name: &[char]) -> (r: bool)
    ensures
        r == valid_component_spec(name@),
{
    let is_dot = (name.len() == 1 && name[0] == '.') || (name.len() == 2 && name[0] == '.'
        && name[1] == '.');
    proof {
        if name@.len() == 1 && name@[0] == '.' {
            assert(name@ =~= seq!['.']);
        }
        if name@.len() == 2 && name@[0] == '.' && name@[1] == '.' {
            assert(name@ =~= seq!['.', '.']);
        }
    }
    name.len() > 0 && !is_dot && !contains_char(name, '\\') && !contains_char(name, '/')
        && !contains_char(name, '\0') && utf16_len_at_most(name, 255)
}

pub(crate) fn find_char(s: &[char], c: char) -> (r: Option<usize>)
    ensures
        match r {
            Some(i) => first_index(s@, c) == Some(i as int) && i < s@.len(),
            None => first_index(s@, c) is None,
        },
{
    let mut i: usize = 0;
    proof {
        assert(s@.skip(0) =~= s@);
    }
    while i < s.len()
        invariant
            i <= s@.len(),
            forall|j: int| 0 <= j < i ==> s@[j] != c,
            first_index(s@, c) == match first_index(s@.skip(i as int), c) {
                Some(k) => Some(k + i),
                None => None,
            },
        decreases s@.len() - i,
    {
        proof {
            assert(s@.skip(i as int).drop_first() =~= s@.skip(i + 1));
        }
        if s[i] == c {
            return Some(i);
        }
        i = i + 1;
    }
    proof {
        assert(s@.skip(i as int) =~= Seq::<char>::empty());
    }
    None
}

fn all_valid_components(subkey: &[char]) -> (r: bool)
    ensures
        r == forall|i: int|
            0 <= i < split(subkey@, '\\').len() ==> valid_component_spec(
                #[trigger] split(subkey@, '\\')[i],
            ),
{
    let parts = split_chars(subkey, '\\');
    let ghost views = parts@.map_values(|p: Vec<char>| p@);
    let mut i: usize = 0;
    while i < parts.len()
        invariant
            views == split(subkey@, '\\'),
            views == parts@.map_values(|p: Vec<char>| p@),
            i <= parts@.len(),
            forall|j: int| 0 <= j < i ==> valid_component_spec(#[trigger] views[j]),
        decreases parts@.len() - i,
    {
        proof {
            assert(views[i as int] == parts@[i as int]@);
        }
        if !valid_component(parts[i].as_slice()) {
            return false;
        }
        i = i + 1;
    }
    true
}

/// Normalizes a supported registry subkey path.
///
/// Rejects unsupported hives, empty components and traversal.
pub fn normalize_path(path: &str) -> (r: Result<String, String>)
    ensures
        match normalize_path_spec(path@) {
            Ok(p) => r matches Ok(s) && s@ == p,
            Err(m) => r matches Err(e) && e@ == m,
        },
{
    let chars = chars_of(path);
    let k = match find_char(chars.as_slice(), '\\') {
        Some(k) => k,
        None => return Err(string_of(chars_of("请选择 HKCU 或 HKLM 下的具体注册表子键").as_slice())),
    };
    let n = chars.len();
    assert(k < n);
    let head = copy_range(chars.as_slice(), 0, k);
    let subkey = copy_range(chars.as_slice(), k + 1, n);
    proof {
        assert(head@ =~= path@.take(k as int));
        assert(subkey@ =~= path@.skip(k + 1));
    }
    let hive = upper_ascii(head.as_slice());
    let canonical = if chars_equal(hive.as_slice(), chars_of("HKCU").as_slice()) || chars_equal(
        hive.as_slice(),
        chars_of("HKEY_CURRENT_USER").as_slice(),
    ) {
        chars_of("HKEY_CURRENT_USER")
    } else if chars_equal(hive.as_slice(), chars_of("HKLM").as_slice()) || chars_equal(
        hive.as_slice(),
        chars_of("HKEY_LOCAL_MACHINE").as_slice(),
    ) {
        chars_of("HKEY_LOCAL_MACHINE")
    } else {
        return Err(string_of(chars_of("仅支持 HKCU 和 HKLM 注册表子键").as_slice()));
    };
    if !all_valid_components(subkey.as_slice()) {
        return Err(string_of(chars_of("注册表路径包含无效子键或路径跳转").as_slice()));
    }
    let sep: [char; 1] = ['\\'];
    proof {
        assert(sep@ =~= seq!['\\']);
    }
    let with_sep = concat_chars(canonical.as_slice(), sep.as_slice());
    let full = concat_chars(with_sep.as_slice(), subkey.as_slice());
    Ok(string_of(full.as_slice()))
}

// ---------------------------------------------------------------------------------------
// Snapshot documents.
// A snapshot is `{"format_version": u32, "view": str, "path": str, "root": null | node}`,
// a node is `{"values": {name: {"vtype": u32, "bytes": [u8]}}, "children": {name: node}}`;
// every field is required and no other field is allowed.
// ---------------------------------------------------------------------------------------

pub open spec fn is_u32(j: Json) -> bool {
    j matches Json::UInt(n) && n <= u32::MAX
}

pub open spec fn is_byte(j: Json) -> bool {
    j matches Json::UInt(n) && n <= 255
}

/// Every member key is one of `allowed`.
pub open spec fn keys_within(ms: Seq<(String, Json)>, allowed: Seq<Seq<char>>) -> bool {
    forall|i: int| 0 <= i < ms.len() ==> allowed.contains((#[trigger] ms[i]).0@)
}

pub open spec fn bytes_shape(items: Seq<Json>) -> bool {
    forall|i: int| 0 <= i < items.len() ==> is_byte(#[trigger] items[i])
}

/// `{"vtype": u32, "bytes": [u8]}` with no other member.
pub open spec fn value_shape(j: Json) -> bool {
    match j {
        Json::Object(ms) => keys_within(ms@, seq!["vtype"@, "bytes"@]) && (match find_member_spec(
            ms@,
            "vtype"@,
        ) {
            Some(v) => is_u32(v),
            None => false,
        }) && (match find_member_spec(ms@, "bytes"@) {
            Some(Json::Array(items)) => bytes_shape(items@),
            _ => false,
        }),
        _ => false,
    }
}

pub open spec fn find_member_spec(ms: Seq<(String, Json)>, key: Seq<char>) -> Option<Json> {
    crate::json::find_member(ms, key)
}

pub open spec fn values_shape(ms: Seq<(String, Json)>) -> bool {
    forall|i: int| 0 <= i < ms.len() ==> value_shape((#[trigger] ms[i]).1)
}

/// A node document, with every nested node well-formed too.
pub open spec fn node_shape(j: Json) -> bool
    decreases j,
{
    match j {
        Json::Object(ms) => keys_within(ms@, seq!["values"@, "children"@]) && node_members_shape(
            ms@,
            false,
            false,
        ),
        _ => false,
    }
}

/// Walks the members of a node: `values` must be an object of values, `children` an object
/// of nodes; both must occur.
pub open spec fn node_members_shape(ms: Seq<(String, Json)>, seen_values: bool, seen_children: bool) -> bool
    decreases ms,
{
    if ms.len() == 0 {
        seen_values && seen_children
    } else if ms[0].0@ == "values"@ {
        (match ms[0].1 {
            Json::Object(vs) => values_shape(vs@),
            _ => false,
        }) && node_members_shape(ms.drop_first(), true, seen_children)
    } else if ms[0].0@ == "children"@ {
        (match ms[0].1 {
            Json::Object(cs) => children_shape(cs@),
            _ => false,
        }) && node_members_shape(ms.drop_first(), seen_values, true)
    } else {
        false
    }
}

pub open spec fn children_shape(cs: Seq<(String, Json)>) -> bool
    decreases cs,
{
    if cs.len() == 0 {
        true
    } else {
        node_shape(cs[0].1) && children_shape(cs.drop_first())
    }
}

/// The lower-case form `str::to_lowercase` gives.
pub uninterp spec fn lowercase(s: Seq<char>) -> Seq<char>;

/// Lower-cases a string with full Unicode case mapping (`str::to_lowercase`).
#[verifier::external_body]
pub fn to_lowercase(s: &str) -> (r: String)
    ensures
        r@ == lowercase(s@),
{
    s.to_lowercase()
}

/// The `vtype` a value document holds.
pub open spec fn vtype_of(j: Json) -> u64 {
    match j {
        Json::Object(ms) => match find_member_spec(ms@, "vtype"@) {
            Some(Json::UInt(n)) => n,
            _ => 0,
        },
        _ => 0,
    }
}

/// Whether the values of a node, read in order, contain an unsafe name, a name equal to an
/// earlier one ignoring case, a link or an unknown type.
pub open spec fn values_fault(vs: Seq<(String, Json)>, seen: Seq<Seq<char>>) -> bool
    decreases vs.len(),
{
    if vs.len() == 0 {
        false
    } else {
        let name = vs[0].0@;
        let vtype = vtype_of(vs[0].1);
        if name.contains('\0') || utf16_len(name) > 16383 || seen.contains(lowercase(name)) || vtype
            > 11 || vtype == 6 {
            true
        } else {
            values_fault(vs.drop_first(), seen.push(lowercase(name)))
        }
    }
}

/// The first rule a node breaks, depth first: `Some(true)` for a value, `Some(false)` for
/// a subkey; `None` when it breaks none.
pub open spec fn node_fault(j: Json) -> Option<bool>
    decreases j,
{
    match j {
        Json::Object(ms) => if values_member_fault(ms@) {
            Some(true)
        } else {
            children_member_fault(ms@)
        },
        _ => None,
    }
}

pub open spec fn values_member_fault(ms: Seq<(String, Json)>) -> bool
    decreases ms.len(),
{
    if ms.len() == 0 {
        false
    } else if ms[0].0@ == "values"@ {
        match ms[0].1 {
            Json::Object(vs) => values_fault(vs@, Seq::empty()),
            _ => false,
        }
    } else {
        values_member_fault(ms.drop_first())
    }
}

pub open spec fn children_member_fault(ms: Seq<(String, Json)>) -> Option<bool>
    decreases ms,
{
    if ms.len() == 0 {
        None
    } else if ms[0].0@ == "children"@ {
        match ms[0].1 {
            Json::Object(cs) => children_fault(cs@, Seq::empty()),
            _ => None,
        }
    } else {
        children_member_fault(ms.drop_first())
    }
}

pub open spec fn children_fault(cs: Seq<(String, Json)>, seen: Seq<Seq<char>>) -> Option<bool>
    decreases cs,
{
    if cs.len() == 0 {
        None
    } else {
        let name = cs[0].0@;
        if !valid_component_spec(name) || seen.contains(lowercase(name)) {
            Some(false)
        } else {
            match node_fault(cs[0].1) {
                Some(m) => Some(m),
                None => children_fault(cs.drop_first(), seen.push(lowercase(name))),
            }
        }
    }
}

/// A snapshot document with the four required members and nothing else.
pub open spec fn snapshot_shape(j: Json) -> bool {
    match j {
        Json::Object(ms) => keys_within(ms@, seq!["format_version"@, "view"@, "path"@, "root"@])
            && (match find_member_spec(ms@, "format_version"@) {
            Some(v) => is_u32(v),
            None => false,
        }) && (find_member_spec(ms@, "view"@) matches Some(Json::Str(_))) && (find_member_spec(
            ms@,
            "path"@,
        ) matches Some(Json::Str(_))) && (match find_member_spec(ms@, "root"@) {
            Some(Json::Null) => true,
            Some(node) => node_shape(node),
            None => false,
        }),
        _ => false,
    }
}

pub open spec fn str_member(j: Json, key: Seq<char>) -> Seq<char> {
    match member(j, key) {
        Some(Json::Str(s)) => s@,
        _ => Seq::empty(),
    }
}

/// Why a snapshot may not be restored to `target`, or `None` when it may.
pub open spec fn snapshot_problem(target: Seq<char>, bytes: Seq<u8>) -> Option<Seq<char>> {
    match normalize_path_spec(target) {
        Err(m) => Some(m),
        Ok(canonical) => match crate::json::parsed_json(bytes) {
            None => Some(msg_bad_format()),
            Some(doc) => if !snapshot_shape(doc) {
                Some(msg_bad_format())
            } else {
                let path = str_member(doc, "path"@);
                if !(member(doc, "format_version"@) == Some(Json::UInt(1))) || str_member(
                    doc,
                    "view"@,
                ) != "64"@ {
                    Some(msg_mismatch())
                } else {
                    match normalize_path_spec(path) {
                        Err(m) => Some(m),
                        Ok(p) => if p != path || lowercase(path) != lowercase(canonical) {
                            Some(msg_mismatch())
                        } else {
                            match member(doc, "root"@) {
                                Some(Json::Null) => None,
                                Some(node) => match node_fault(node) {
                                    Some(true) => Some(msg_bad_value()),
                                    Some(false) => Some(msg_bad_child()),
                                    None => None,
                                },
                                None => None,
                            }
                        },
                    }
                }
            },
        },
    }
}

pub open spec fn str_views(s: Seq<&str>) -> Seq<Seq<char>> {
    s.map_values(|a: &str| a@)
}

fn key_in(key: &String, allowed: &[&str]) -> (r: bool)
    ensures
        r == str_views(allowed@).contains(key@),
{
    let mut i: usize = 0;
    while i < allowed.len()
        invariant
            i <= allowed@.len(),
            forall|j: int| 0 <= j < i ==> (#[trigger] allowed@[j])@ != key@,
        decreases allowed@.len() - i,
    {
        if str_is(key.as_str(), allowed[i]) {
            proof {
                assert(str_views(allowed@)[i as int] == key@);
            }
            return true;
        }
        i = i + 1;
    }
    proof {
        if str_views(allowed@).contains(key@) {
            let k = choose|k: int|
                0 <= k < allowed@.len() && #[trigger] str_views(allowed@)[k]
                    == key@;
            assert(allowed@[k]@ == key@);
        }
    }
    false
}

fn keys_ok(ms: &Vec<(String, Json)>, allowed: &[&str]) -> (r: bool)
    ensures
        r == keys_within(ms@, str_views(allowed@)),
{
    let mut i: usize = 0;
    while i < ms.len()
        invariant
            i <= ms@.len(),
            forall|j: int|
                0 <= j < i ==> str_views(allowed@).contains((#[trigger] ms@[j]).0@),
        decreases ms@.len() - i,
    {
        if !key_in(&ms[i].0, allowed) {
            return false;
        }
        i = i + 1;
    }
    true
}

fn bytes_ok(items: &Vec<Json>) -> (r: bool)
    ensures
        r == bytes_shape(items@),
{
    let mut i: usize = 0;
    while i < items.len()
        invariant
            i <= items@.len(),
            forall|j: int| 0 <= j < i ==> is_byte(#[trigger] items@[j]),
        decreases items@.len() - i,
    {
        match &items[i] {
            Json::UInt(n) => {
                if *n > 255 {
                    return false;
                }
            },
            _ => {
                return false;
            },
        }
        i = i + 1;
    }
    true
}

fn value_ok(j: &Json) -> (r: bool)
    ensures
        r == value_shape(*j),
{
    match j {
        Json::Object(ms) => {
            let allowed: [&str; 2] = ["vtype", "bytes"];
            proof {
                assert(str_views(allowed@) =~= seq!["vtype"@, "bytes"@]);
            }
            if !keys_ok(ms, allowed.as_slice()) {
                return false;
            }
            let vtype_ok = match crate::json::get(j, "vtype") {
                Some(Json::UInt(n)) => *n <= 0xffff_ffff,
                _ => false,
            };
            let bytes_good = match crate::json::get(j, "bytes") {
                Some(Json::Array(items)) => bytes_ok(items),
                _ => false,
            };
            vtype_ok && bytes_good
        },
        _ => false,
    }
}

fn values_ok(vs: &Vec<(String, Json)>) -> (r: bool)
    ensures
        r == values_shape(vs@),
{
    let mut i: usize = 0;
    while i < vs.len()
        invariant
            i <= vs@.len(),
            forall|j: int| 0 <= j < i ==> value_shape((#[trigger] vs@[j]).1),
        decreases vs@.len() - i,
    {
        if !value_ok(&vs[i].1) {
            return false;
        }
        i = i + 1;
    }
    true
}

/// Whether a node document, and every node below it, is well-formed.
fn node_ok(j: &Json) -> (r: bool)
    ensures
        r == node_shape(*j),
    decreases *j,
{
    match j {
        Json::Object(ms) => {
            let allowed: [&str; 2] = ["values", "children"];
            proof {
                assert(str_views(allowed@) =~= seq!["values"@, "children"@]);
            }
            if !keys_ok(ms, allowed.as_slice()) {
                return false;
            }
            let mut seen_values = false;
            let mut seen_children = false;
            let mut i: usize = 0;
            proof {
                assert(ms@.skip(0) =~= ms@);
            }
            while i < ms.len()
                invariant
                    *j == Json::Object(*ms),
                    i <= ms@.len(),
                    node_members_shape(ms@, false, false) == node_members_shape(
                        ms@.skip(i as int),
                        seen_values,
                        seen_children,
                    ),
                decreases ms@.len() - i,
            {
                let ghost rest = ms@.skip(i as int);
                proof {
                    assert(rest[0] == ms@[i as int]);
                    assert(rest.drop_first() =~= ms@.skip(i + 1));
                }
                let key = &ms[i].0;
                if str_is(key.as_str(), "values") {
                    let good = match &ms[i].1 {
                        Json::Object(vs) => values_ok(vs),
                        _ => false,
                    };
                    if !good {
                        return false;
                    }
                    seen_values = true;
                } else if str_is(key.as_str(), "children") {
                    let good = match &ms[i].1 {
                        Json::Object(cs) => {
                            let mut k: usize = 0;
                            proof {
                                assert(cs@.skip(0) =~= cs@);
                            }
                            while k < cs.len()
                                invariant
                                    *j == Json::Object(*ms),
                                    i < ms@.len(),
                                    ms@[i as int].1 == Json::Object(*cs),
                                    k <= cs@.len(),
                                    children_shape(cs@) == children_shape(cs@.skip(k as int)),
                                    node_members_shape(ms@, false, false) == node_members_shape(
                                        ms@.skip(i as int),
                                        seen_values,
                                        seen_children,
                                    ),
                                    ms@.skip(i as int)[0] == ms@[i as int],
                                    ms@[i as int].0@ == "children"@,
                                    ms@[i as int].0@ != "values"@,
                                decreases cs@.len() - k,
                            {
                                proof {
                                    assert(cs@.skip(k as int)[0] == cs@[k as int]);
                                    assert(cs@.skip(k as int).drop_first() =~= cs@.skip(k + 1));
                                    assert((*j)->Object_0 == *ms);
                                    assert(decreases_to!(*j => (*j)->Object_0));
                                    assert(decreases_to!(*ms => ms@));
                                    assert(decreases_to!(ms@ => ms@[i as int]));
                                    assert(decreases_to!(ms@[i as int] => ms@[i as int].1));
                                    assert((ms@[i as int].1)->Object_0 == *cs);
                                    assert(decreases_to!(ms@[i as int].1 => (ms@[i as int].1)->Object_0));
                                    assert(decreases_to!(*cs => cs@));
                                    assert(decreases_to!(cs@ => cs@[k as int]));
                                    assert(decreases_to!(cs@[k as int] => cs@[k as int].1));
                                }
                                if !node_ok(&cs[k].1) {
                                    return false;
                                }
                                k = k + 1;
                            }
                            proof {
                                assert(cs@.skip(k as int) =~= Seq::<(String, Json)>::empty());
                            }
                            true
                        },
                        _ => false,
                    };
                    if !good {
                        return false;
                    }
                    seen_children = true;
                } else {
                    return false;
                }
                i = i + 1;
            }
            proof {
                assert(ms@.skip(i as int) =~= Seq::<(String, Json)>::empty());
            }
            seen_values && seen_children
        },
        _ => false,
    }
}

pub open spec fn string_views(s: Seq<String>) -> Seq<Seq<char>> {
    s.map_values(|x: String| x@)
}

fn seen_contains(seen: &Vec<String>, name: &String) -> (r: bool)
    ensures
        r == string_views(seen@).contains(name@),
{
    let mut i: usize = 0;
    while i < seen.len()
        invariant
            i <= seen@.len(),
            forall|j: int| 0 <= j < i ==> (#[trigger] seen@[j])@ != name@,
        decreases seen@.len() - i,
    {
        if str_is(seen[i].as_str(), name.as_str()) {
            proof {
                assert(string_views(seen@)[i as int] == name@);
            }
            return true;
        }
        i = i + 1;
    }
    proof {
        if string_views(seen@).contains(name@) {
            let k = choose|k: int|
                0 <= k < seen@.len() && #[trigger] string_views(seen@)[k] == name@;
            assert(seen@[k]@ == name@);
        }
    }
    false
}

fn vtype_exec(j: &Json) -> (v: u64)
    ensures
        v == vtype_of(*j),
{
    match j {
        Json::Object(_) => match crate::json::get(j, "vtype") {
            Some(Json::UInt(n)) => *n,
            _ => 0,
        },
        _ => 0,
    }
}

fn values_fault_exec(vs: &Vec<(String, Json)>) -> (r: bool)
    ensures
        r == values_fault(vs@, Seq::empty()),
{
    let mut seen: Vec<String> = Vec::new();
    let mut i: usize = 0;
    proof {
        assert(vs@.skip(0) =~= vs@);
        assert(string_views(seen@) =~= Seq::<Seq<char>>::empty());
    }
    while i < vs.len()
        invariant
            i <= vs@.len(),
            values_fault(vs@, Seq::empty()) == values_fault(
                vs@.skip(i as int),
                string_views(seen@),
            ),
        decreases vs@.len() - i,
    {
        let ghost rest = vs@.skip(i as int);
        proof {
            assert(rest[0] == vs@[i as int]);
            assert(rest.drop_first() =~= vs@.skip(i + 1));
        }
        let name = &vs[i].0;
        let chars = chars_of(name.as_str());
        let lowered = to_lowercase(name.as_str());
        let vtype = vtype_exec(&vs[i].1);
        if contains_char(chars.as_slice(), '\0') || !utf16_len_at_most(chars.as_slice(), 16383)
            || seen_contains(&seen, &lowered) || vtype > 11 || vtype == 6 {
            return true;
        }
        let ghost before = string_views(seen@);
        seen.push(lowered);
        proof {
            assert(string_views(seen@) =~= before.push(lowercase(name@)));
        }
        i = i + 1;
    }
    proof {
        assert(vs@.skip(i as int) =~= Seq::<(String, Json)>::empty());
    }
    false
}

fn values_member_fault_exec(ms: &Vec<(String, Json)>) -> (r: bool)
    ensures
        r == values_member_fault(ms@),
{
    let mut i: usize = 0;
    proof {
        assert(ms@.skip(0) =~= ms@);
    }
    while i < ms.len()
        invariant
            i <= ms@.len(),
            values_member_fault(ms@) == values_member_fault(ms@.skip(i as int)),
        decreases ms@.len() - i,
    {
        proof {
            assert(ms@.skip(i as int)[0] == ms@[i as int]);
            assert(ms@.skip(i as int).drop_first() =~= ms@.skip(i + 1));
        }
        if str_is(ms[i].0.as_str(), "values") {
            return match &ms[i].1 {
                Json::Object(vs) => values_fault_exec(vs),
                _ => false,
            };
        }
        i = i + 1;
    }
    proof {
        assert(ms@.skip(i as int) =~= Seq::<(String, Json)>::empty());
    }
    false
}

/// The first rule a node document breaks, depth first.
fn node_fault_exec(j: &Json) -> (r: Option<bool>)
    ensures
        r == node_fault(*j),
    decreases *j,
{
    match j {
        Json::Object(ms) => {
            if values_member_fault_exec(ms) {
                return Some(true);
            }
            let mut i: usize = 0;
            proof {
                assert(ms@.skip(0) =~= ms@);
            }
            while i < ms.len()
                invariant
                    *j == Json::Object(*ms),
                    !values_member_fault(ms@),
                    i <= ms@.len(),
                    children_member_fault(ms@) == children_member_fault(ms@.skip(i as int)),
                decreases ms@.len() - i,
            {
                proof {
                    assert(ms@.skip(i as int)[0] == ms@[i as int]);
                    assert(ms@.skip(i as int).drop_first() =~= ms@.skip(i + 1));
                }
                if str_is(ms[i].0.as_str(), "children") {
                    match &ms[i].1 {
                        Json::Object(cs) => {
                            let mut seen: Vec<String> = Vec::new();
                            let mut k: usize = 0;
                            proof {
                                assert(cs@.skip(0) =~= cs@);
                                assert(string_views(seen@) =~= Seq::<Seq<char>>::empty());
                            }
                            while k < cs.len()
                                invariant
                                    *j == Json::Object(*ms),
                                    !values_member_fault(ms@),
                                    i < ms@.len(),
                                    ms@[i as int].1 == Json::Object(*cs),
                                    children_member_fault(ms@) == children_fault(cs@, Seq::empty()),
                                    k <= cs@.len(),
                                    children_fault(cs@, Seq::empty()) == children_fault(
                                        cs@.skip(k as int),
                                        string_views(seen@),
                                    ),
                                decreases cs@.len() - k,
                            {
                                let ghost rest = cs@.skip(k as int);
                                proof {
                                    assert(rest[0] == cs@[k as int]);
                                    assert(rest.drop_first() =~= cs@.skip(k + 1));
                                    assert((*j)->Object_0 == *ms);
                                    assert(decreases_to!(*j => (*j)->Object_0));
                                    assert(decreases_to!(*ms => ms@));
                                    assert(decreases_to!(ms@ => ms@[i as int]));
                                    assert(decreases_to!(ms@[i as int] => ms@[i as int].1));
                                    assert((ms@[i as int].1)->Object_0 == *cs);
                                    assert(decreases_to!(ms@[i as int].1 => (ms@[i as int].1)->Object_0));
                                    assert(decreases_to!(*cs => cs@));
                                    assert(decreases_to!(cs@ => cs@[k as int]));
                                    assert(decreases_to!(cs@[k as int] => cs@[k as int].1));
                                }
                                let name = &cs[k].0;
                                let chars = chars_of(name.as_str());
                                let lowered = to_lowercase(name.as_str());
                                if !valid_component(chars.as_slice()) || seen_contains(&seen, &lowered) {
                                    return Some(false);
                                }
                                match node_fault_exec(&cs[k].1) {
                                    Some(m) => {
                                        return Some(m);
                                    },
                                    None => {},
                                }
                                let ghost before = string_views(seen@);
                                seen.push(lowered);
                                proof {
                                    assert(string_views(seen@) =~= before.push(
                                        lowercase(name@),
                                    ));
                                }
                                k = k + 1;
                            }
                            proof {
                                assert(cs@.skip(k as int) =~= Seq::<(String, Json)>::empty());
                            }
                            return None;
                        },
                        _ => {
                            return None;
                        },
                    }
                }
                i = i + 1;
            }
            None
        },
        _ => None,
    }
}

fn snapshot_ok(doc: &Json) -> (r: bool)
    ensures
        r == snapshot_shape(*doc),
{
    match doc {
        Json::Object(ms) => {
            let allowed: [&str; 4] = ["format_version", "view", "path", "root"];
            proof {
                assert(str_views(allowed@) =~= seq![
                    "format_version"@,
                    "view"@,
                    "path"@,
                    "root"@,
                ]);
            }
            if !keys_ok(ms, allowed.as_slice()) {
                return false;
            }
            let version_ok = match crate::json::get(doc, "format_version") {
                Some(Json::UInt(n)) => *n <= 0xffff_ffff,
                _ => false,
            };
            let view_ok = match crate::json::get(doc, "view") {
                Some(Json::Str(_)) => true,
                _ => false,
            };
            let path_ok = match crate::json::get(doc, "path") {
                Some(Json::Str(_)) => true,
                _ => false,
            };
            let root_ok = match crate::json::get(doc, "root") {
                Some(Json::Null) => true,
                Some(node) => node_ok(node),
                None => false,
            };
            version_ok && view_ok && path_ok && root_ok
        },
        _ => false,
    }
}

fn message(text: &str) -> (s: String)
    ensures
        s@ == text@,
{
    string_of(chars_of(text).as_slice())
}

/// Checks a snapshot before restoring it: it must be well-formed, target `path` exactly,
/// and hold no unsafe names, duplicates (ignoring case), links or unknown value types.
pub fn validate_snapshot(path: &str, bytes: &[u8]) -> (r: Result<(), String>)
    ensures
        match snapshot_problem(path@, bytes@) {
            None => r is Ok,
            Some(m) => r matches Err(e) && e@ == m,
        },
{
    let canonical = match normalize_path(path) {
        Ok(p) => p,
        Err(m) => return Err(m),
    };
    let doc = match parse_json(bytes) {
        Some(d) => d,
        None => return Err(message("注册表快照格式无效")),
    };
    if !snapshot_ok(&doc) {
        return Err(message("注册表快照格式无效"));
    }
    let version_one = match crate::json::get(&doc, "format_version") {
        Some(Json::UInt(n)) => *n == 1,
        _ => false,
    };
    let view_ok = match crate::json::get(&doc, "view") {
        Some(Json::Str(v)) => str_is(v.as_str(), "64"),
        _ => false,
    };
    if !version_one || !view_ok {
        return Err(message("注册表快照版本、视图或目标路径不匹配"));
    }
    let stored = match crate::json::get(&doc, "path") {
        Some(Json::Str(p)) => p,
        _ => return Err(message("注册表快照格式无效")),
    };
    let normalized = match normalize_path(stored.as_str()) {
        Ok(p) => p,
        Err(m) => return Err(m),
    };
    let same_case = to_lowercase(stored.as_str());
    let target_case = to_lowercase(canonical.as_str());
    if !str_is(normalized.as_str(), stored.as_str()) || !str_is(
        same_case.as_str(),
        target_case.as_str(),
    ) {
        return Err(message("注册表快照版本、视图或目标路径不匹配"));
    }
    match crate::json::get(&doc, "root") {
        Some(Json::Null) => Ok(()),
        Some(node) => match node_fault_exec(node) {
            Some(true) => Err(message("注册表快照包含无效值、重复名称或 REG_LINK 链接")),
            Some(false) => Err(message("注册表快照包含越界子键或重复名称")),
            None => Ok(()),
        },
        None => Ok(()),
    }
}

proof fn lemma_first_index_after(h: Seq<char>, rest: Seq<char>, c: char)
    requires
        !h.contains(c),
    ensures
        first_index(h + seq![c] + rest, c) == Some(h.len() as int),
    decreases h.len(),
{
    if h.len() > 0 {
        assert(h.drop_first().len() < h.len());
        assert(!h.drop_first().contains(c)) by {
            if h.drop_first().contains(c) {
                let j = choose|j: int| 0 <= j < h.drop_first().len() && h.drop_first()[j] == c;
                assert(h[j + 1] == c);
            }
        }
        lemma_first_index_after(h.drop_first(), rest, c);
        assert((h + seq![c] + rest).drop_first() =~= h.drop_first() + seq![c] + rest);
        assert((h + seq![c] + rest)[0] == h[0]);
        assert(h.contains(h[0]));
    } else {
        assert((h + seq![c] + rest)[0] == c);
    }
}

/// A canonical hive name: upper case, without a backslash.
proof fn lemma_canonical_hive(h: Seq<char>)
    requires
        h == "HKEY_CURRENT_USER"@ || h == "HKEY_LOCAL_MACHINE"@,
    ensures
        !h.contains('\\'),
        seq_ascii_upper(h) == h,
{
    reveal_strlit("HKEY_CURRENT_USER");
    reveal_strlit("HKEY_LOCAL_MACHINE");
    assert(seq_ascii_upper(h) =~= h);
}

/// Normalizing a normalized registry path gives it back unchanged.
pub proof fn lemma_normalize_path_idempotent(path: Seq<char>)
    requires
        normalize_path_spec(path) is Ok,
    ensures
        normalize_path_spec(normalize_path_spec(path)->Ok_0) == normalize_path_spec(path),
{
    let k = first_index(path, '\\')->0;
    let hive = seq_ascii_upper(path.take(k));
    let subkey = path.skip(k + 1);
    let h: Seq<char> = if hive == "HKCU"@ || hive == "HKEY_CURRENT_USER"@ {
        "HKEY_CURRENT_USER"@
    } else {
        "HKEY_LOCAL_MACHINE"@
    };
    let r = h + seq!['\\'] + subkey;
    assert(normalize_path_spec(path) == Ok::<Seq<char>, Seq<char>>(r));
    lemma_canonical_hive(h);
    lemma_first_index_after(h, subkey, '\\');
    assert(r.take(h.len() as int) =~= h);
    assert(r.skip(h.len() as int + 1) =~= subkey);
    reveal_strlit("HKEY_CURRENT_USER");
    reveal_strlit("HKEY_LOCAL_MACHINE");
    reveal_strlit("HKCU");
    reveal_strlit("HKLM");
    assert(seq_ascii_upper(r.take(h.len() as int)) == h);
    assert("HKEY_LOCAL_MACHINE"@.len() == 18);
    assert("HKEY_CURRENT_USER"@.len() == 17);
    assert("HKCU"@.len() == 4);
    assert(normalize_path_spec(r) == Ok::<Seq<char>, Seq<char>>(r));
}

pub open spec fn export_unsupported_message() -> Seq<char> {
    "当前系统不支持 Windows 注册表备份"@
}

pub open spec fn restore_unsupported_message() -> Seq<char> {
    "当前系统不支持 Windows 注册表恢复"@
}

/// The platform's registry export. This library reaches no Windows registry, so every
/// export is refused with the message the platforms without one give.
pub fn export(path: &str) -> (r: Result<Vec<u8>, String>)
    ensures
        r matches Err(m) && m@ == export_unsupported_message(),
{
    Err(message("当前系统不支持 Windows 注册表备份"))
}

/// The platform's write of a snapshot that `validate_snapshot` accepted for `path`. This
/// library reaches no Windows registry, so it is refused with the message the platforms
/// without one give.
pub fn restore(path: &str, bytes: &[u8], mode: RegistryRestoreMode) -> (r: Result<(), String>)
    requires
        snapshot_problem(path@, bytes@) is None,
    ensures
        r matches Err(m) && m@ == restore_unsupported_message(),
{
    Err(message("当前系统不支持 Windows 注册表恢复"))
}

/// Exports a registry subkey as a snapshot, through the platform's `export`.
pub fn export_key(path: &str) -> (r: Result<Vec<u8>, String>)
    ensures
        r matches Err(m) && m@ == export_unsupported_message(),
{
    export(path)
}

/// Restores a registry snapshot into `path`. The snapshot is validated before anything is
/// written: a snapshot that `validate_snapshot` refuses is refused with its message. A
/// valid one goes to the platform's `restore`.
pub fn restore_key(path: &str, bytes: &[u8], mode: RegistryRestoreMode) -> (r: Result<(), String>)
    ensures
        match snapshot_problem(path@, bytes@) {
            Some(m) => r matches Err(e) && e@ == m,
            None => r matches Err(e) && e@ == restore_unsupported_message(),
        },
{
    match validate_snapshot(path, bytes) {
        Err(m) => Err(m),
        Ok(()) => restore(path, bytes, mode),
    }
}

} // verus!
