//! Steam accounts, save-path rules and the choices a Steam library scan makes.
use crate::order::{insert_sorted, insertion_point, lemma_insert_at_point, lex_lt, stable_sort, text_less};
use crate::registry::{lowercase, to_lowercase};
use crate::remote::str_is;
use crate::text::{
    chars_of, eq_ignore_ascii_case, eq_ignore_ascii_case_spec, concat_chars, decimal, decimal_string, replace_char, replace_chars, split, split_chars,
    starts_with, string_of, trim, trim_end_char, trim_end_matches_char,
};
use crate::vdf::{parse_vdf, parsed_vdf, tree_get, tree_text, vdf_message, Vdf, VdfTree};
use vstd::prelude::*;

verus! {

/// The value of a run of ASCII digits.
pub open spec fn digits_value(s: Seq<char>) -> nat
    decreases s.len(),
{
    if s.len() == 0 {
        0
    } else {
        digits_value(s.drop_last()) * 10 + ((s.last() as u32) - 48) as nat
    }
}

pub open spec fn all_digits(s: Seq<char>) -> bool {
    forall|i: int| 0 <= i < s.len() ==> '0' <= #[trigger] s[i] <= '9'
}

/// The number an unsigned integer parse (`str::parse::<u64>` or `<u32>`) reads from `s`: an
/// optional `+` and at least one ASCII digit; `None` for anything else or above `max`.
pub open spec fn parse_uint(s: Seq<char>, max: nat) -> Option<nat> {
    let d = if s.len() > 0 && s[0] == '+' {
        s.drop_first()
    } else {
        s
    };
    if d.len() > 0 && all_digits(d) && digits_value(d) <= max {
        Some(digits_value(d))
    } else {
        None
    }
}

proof fn lemma_digits_monotone(s: Seq<char>, k: int)
    requires
        0 <= k <= s.len(),
        all_digits(s),
    ensures
        digits_value(s.take(k)) <= digits_value(s),
    decreases s.len() - k,
{
    if k < s.len() {
        lemma_digits_monotone(s, k + 1);
        assert(s.take(k + 1).drop_last() =~= s.take(k));
        assert('0' <= s[k] <= '9');
    } else {
        assert(s.take(k) =~= s);
    }
}

/// Reads an unsigned integer no greater than `max` (as `str::parse` does for `u64`/`u32`).
pub fn parse_uint_exec(s: &[char], max: u64) -> (r: Option<u64>)
    ensures
        match r {
            Some(n) => parse_uint(s@, max as nat) == Some(n as nat),
            None => parse_uint(s@, max as nat) is None,
        },
{
    let start: usize = if s.len() > 0 && s[0] == '+' {
        1
    } else {
        0
    };
    let ghost d = if s@.len() > 0 && s@[0] == '+' {
        s@.drop_first()
    } else {
        s@
    };
    proof {
        assert(d =~= s@.skip(start as int));
    }
    if start >= s.len() {
        return None;
    }
    let mut value: u64 = 0;
    let mut i: usize = start;
    while i < s.len()
        invariant
            start <= i <= s@.len(),
            d == s@.skip(start as int),
            d == if s@.len() > 0 && s@[0] == '+' {
                s@.drop_first()
            } else {
                s@
            },
            d.len() > 0,
            forall|k: int| 0 <= k < i - start ==> '0' <= #[trigger] d[k] <= '9',
            value == digits_value(d.take(i - start)),
            value <= max,
        decreases s@.len() - i,
    {
        let c = s[i];
        proof {
            assert(d[i - start] == c);
            assert(d.take(i - start + 1).drop_last() =~= d.take(i - start));
        }
        if c < '0' || c > '9' {
            proof {
                assert(!('0' <= d[i - start] <= '9'));
                assert(!all_digits(d));
            }
            return None;
        }
        let digit = (c as u32 - 48) as u64;
        let next = match value.checked_mul(10) {
            Some(t) => t.checked_add(digit),
            None => None,
        };
        match next {
            Some(n) if n <= max => {
                value = n;
            },
            _ => {
                proof {
                    let j = i - start + 1;
                    assert(digits_value(d.take(j)) == value * 10 + digit);
                    assert(value * 10 + digit > max);
                    if all_digits(d) {
                        lemma_digits_monotone(d, j);
                    }
                }
                return None;
            },
        }
        i = i + 1;
    }
    proof {
        assert(d.take(d.len() as int) =~= d);
    }
    Some(value)
}

/// A Steam account that owns saves.
#[derive(Clone, Debug)]
pub struct SteamUser {
    pub account_id: String,
    pub display_name: String,
    pub steam_id64: Option<String>,
}

pub struct UserView {
    pub account_id: Seq<char>,
    pub display_name: Seq<char>,
    pub steam_id64: Option<Seq<char>>,
}

impl View for SteamUser {
    type V = UserView;

    open spec fn view(&self) -> UserView {
        UserView {
            account_id: self.account_id@,
            display_name: self.display_name@,
            steam_id64: crate::model::opt_view(self.steam_id64),
        }
    }
}

pub open spec fn users_view(s: Seq<SteamUser>) -> Seq<UserView> {
    s.map_values(|u: SteamUser| u@)
}

impl SteamUser {
    pub fn duplicate(&self) -> (r: Self)
        ensures
            r@ == self@,
    {
        SteamUser {
            account_id: self.account_id.clone(),
            display_name: self.display_name.clone(),
            steam_id64: crate::model::copy_opt_string(&self.steam_id64),
        }
    }
}

/// `Steam 用户 ` followed by an account id.
pub open spec fn fallback_name(account: Seq<char>) -> Seq<char> {
    seq!['S', 't', 'e', 'a', 'm', ' ', '用', '户', ' '] + account
}

/// The trimmed text of member `key`, where it is non-empty text.
pub open spec fn name_field(data: VdfTree, key: Seq<char>) -> Option<Seq<char>> {
    match tree_get(data, key) {
        Some(v) => match tree_text(v) {
            Some(t) => if trim(t).len() > 0 {
                Some(trim(t))
            } else {
                None
            },
            None => None,
        },
        None => None,
    }
}

/// The name shown for an account: its nickname, else its login name, else its id.
pub open spec fn display_name_of(data: VdfTree, account: Seq<char>) -> Seq<char> {
    match name_field(data, "PersonaName"@) {
        Some(n) => n,
        None => match name_field(data, "AccountName"@) {
            Some(n) => n,
            None => fallback_name(account),
        },
    }
}

/// The high 32 bits of a public individual account's SteamID64.
pub open spec fn individual_prefix() -> nat {
    0x0110_0001
}

/// The account an entry of `loginusers.vdf` describes, if its key is the SteamID64 of a
/// public individual account.
pub open spec fn user_of(id: Seq<char>, data: VdfTree) -> Option<UserView> {
    match parse_uint(id, u64::MAX as nat) {
        Some(n) => if n / 0x1_0000_0000 == individual_prefix() {
            let account = decimal(n % 0x1_0000_0000);
            Some(UserView {
                account_id: account,
                display_name: display_name_of(data, account),
                steam_id64: Some(decimal(n)),
            })
        } else {
            None
        },
        None => None,
    }
}

/// `users` with `u` under its account id: in place where the id is there, else before the
/// first greater id.
pub open spec fn put_user(users: Seq<UserView>, u: UserView) -> Seq<UserView>
    decreases users.len(),
{
    if users.len() == 0 {
        seq![u]
    } else if users[0].account_id == u.account_id {
        seq![u] + users.drop_first()
    } else if lex_lt(u.account_id, users[0].account_id) {
        seq![u] + users
    } else {
        seq![users[0]] + put_user(users.drop_first(), u)
    }
}

/// The accounts of the members of the `users` object, in account id order.
pub open spec fn users_from(members: Seq<(Seq<char>, VdfTree)>) -> Seq<UserView>
    decreases members.len(),
{
    if members.len() == 0 {
        Seq::empty()
    } else {
        let kept = users_from(members.drop_last());
        match user_of(members.last().0, members.last().1) {
            Some(u) => put_user(kept, u),
            None => kept,
        }
    }
}

/// The accounts listed in Steam's `loginusers.vdf`, in account id order, or why they could
/// not be read.
pub open spec fn steam_users(contents: Seq<char>) -> Result<Seq<UserView>, Seq<char>> {
    match parsed_vdf(contents) {
        Err(e) => Err(vdf_message(e)),
        Ok(v) => match tree_get(v, "users"@) {
            Some(VdfTree::Object(m)) => Ok(users_from(m)),
            _ => Err("Steam 用户配置缺少 users 节点"@),
        },
    }
}

fn name_from(data: &Vdf, key: &str) -> (r: Option<String>)
    ensures
        match r {
            Some(n) => name_field(data.tree(), key@) == Some(n@),
            None => name_field(data.tree(), key@) is None,
        },
{
    match data.get(key) {
        Some(v) => match v.text() {
            Some(t) => {
                let n = crate::repository::trimmed(t);
                if n.as_str().is_empty() {
                    proof {
                        assert(n@.len() == 0);
                    }
                    None
                } else {
                    Some(n)
                }
            },
            None => None,
        },
        None => None,
    }
}

fn fallback_name_exec(account: &str) -> (r: String)
    ensures
        r@ == fallback_name(account@),
{
    let prefix = chars_of("Steam 用户 ");
    let rest = chars_of(account);
    let all = concat_chars(prefix.as_slice(), rest.as_slice());
    proof {
        reveal_strlit("Steam 用户 ");
        assert(all@ =~= fallback_name(account@));
    }
    string_of(all.as_slice())
}

fn user_from(id: &str, data: &Vdf) -> (r: Option<SteamUser>)
    ensures
        match r {
            Some(u) => user_of(id@, data.tree()) == Some(u@),
            None => user_of(id@, data.tree()) is None,
        },
{
    let digits = chars_of(id);
    let n = match parse_uint_exec(digits.as_slice(), u64::MAX) {
        Some(n) => n,
        None => return None,
    };
    proof {
        assert(n >> 32 == n / 0x1_0000_0000) by (bit_vector);
        assert(n & 0xffff_ffff == n % 0x1_0000_0000) by (bit_vector);
    }
    if n >> 32 != 0x0110_0001 {
        return None;
    }
    let account = decimal_string(n & 0xffff_ffff);
    let persona = name_from(data, "PersonaName");
    let display_name = match persona {
        Some(p) => p,
        None => match name_from(data, "AccountName") {
            Some(a) => a,
            None => fallback_name_exec(account.as_str()),
        },
    };
    Some(SteamUser { account_id: account, display_name, steam_id64: Some(decimal_string(n)) })
}

/// Inserts or replaces an account in accounts kept in account id order.
fn put_user_exec(users: &mut Vec<SteamUser>, u: SteamUser)
    ensures
        users_view(final(users)@) == put_user(users_view(old(users)@), u@),
{
    let ghost m0 = users_view(users@);
    let ghost v = u@;
    let key = chars_of(u.account_id.as_str());
    let mut j: usize = 0;
    let mut found = false;
    proof {
        assert(m0.take(0) + m0.skip(0) =~= m0);
        assert(m0.skip(0) =~= m0);
    }
    while j < users.len()
        invariant_except_break
            j <= users@.len(),
            m0 == users_view(users@),
            v == u@,
            key@ == u@.account_id,
            !found,
            put_user(m0, v) == m0.take(j as int) + put_user(m0.skip(j as int), v),
        invariant
            j <= users@.len(),
            m0 == users_view(users@),
            v == u@,
        ensures
            j <= users@.len(),
            found ==> j < users@.len() && put_user(m0, v) == m0.take(j as int) + (seq![v] + m0.skip(j + 1)),
            !found ==> put_user(m0, v) == m0.take(j as int) + (seq![v] + m0.skip(j as int)),
        decreases users@.len() - j,
    {
        let other = chars_of(users[j].account_id.as_str());
        let ghost rest = m0.skip(j as int);
        proof {
            assert(m0[j as int].account_id == other@);
            assert(rest[0] == m0[j as int]);
            assert(rest.drop_first() =~= m0.skip(j + 1));
        }
        if str_is(users[j].account_id.as_str(), u.account_id.as_str()) {
            proof {
                assert(put_user(rest, v) == seq![v] + rest.drop_first());
            }
            found = true;
            break;
        }
        if crate::order::text_less(key.as_slice(), other.as_slice()) {
            proof {
                assert(put_user(rest, v) == seq![v] + rest);
            }
            break;
        }
        proof {
            assert(m0.take(j as int) + (seq![m0[j as int]] + put_user(m0.skip(j + 1), v)) =~= m0.take(j + 1)
                + put_user(m0.skip(j + 1), v));
        }
        j = j + 1;
    }
    proof {
        if !found && j == users@.len() {
            assert(m0.skip(j as int) =~= Seq::<UserView>::empty());
        }
    }
    let ghost before = users@;
    if found {
        users.remove(j);
        users.insert(j, u);
        proof {
            assert(users_view(users@) =~= m0.take(j as int) + (seq![v] + m0.skip(j + 1)));
        }
    } else {
        users.insert(j, u);
        proof {
            assert(users_view(users@) =~= m0.take(j as int) + (seq![v] + m0.skip(j as int)));
        }
    }
}

/// Reads the accounts listed in Steam's `loginusers.vdf`, in account id order: each key
/// that is the SteamID64 of a public individual account becomes an account named after its
/// nickname, else its login name, else its id.
pub fn parse_steam_users(contents: &str) -> (r: Result<Vec<SteamUser>, String>)
    ensures
        match r {
            Ok(users) => steam_users(contents@) == Ok::<Seq<UserView>, Seq<char>>(users_view(users@)),
            Err(m) => steam_users(contents@) == Err::<Seq<UserView>, Seq<char>>(m@),
        },
{
    let vdf = match parse_vdf(contents) {
        Ok(v) => v,
        Err(e) => return Err(e.message()),
    };
    let members = match vdf.get("users") {
        Some(Vdf::Object(m)) => m,
        _ => {
            proof {
                reveal_strlit("Steam 用户配置缺少 users 节点");
            }
            return Err("Steam 用户配置缺少 users 节点".to_owned());
        },
    };
    let ghost tree_members = crate::vdf::members_tree(members@);
    let mut users: Vec<SteamUser> = Vec::new();
    let mut i: usize = 0;
    proof {
        assert(tree_members.take(0) =~= Seq::<(Seq<char>, VdfTree)>::empty());
        assert(users_view(users@) =~= Seq::<UserView>::empty());
    }
    while i < members.len()
        invariant
            i <= members@.len(),
            tree_members == crate::vdf::members_tree(members@),
            users_view(users@) == users_from(tree_members.take(i as int)),
        decreases members@.len() - i,
    {
        proof {
            let t = tree_members.take(i + 1);
            assert(t.drop_last() =~= tree_members.take(i as int));
            assert(t.last() == (members@[i as int].0@, members@[i as int].1.tree()));
        }
        match user_from(members[i].0.as_str(), &members[i].1) {
            Some(u) => put_user_exec(&mut users, u),
            None => {},
        }
        i = i + 1;
    }
    proof {
        assert(tree_members.take(members@.len() as int) =~= tree_members);
    }
    Ok(users)
}

/// A save location a scan found, with the account it belongs to where one is known.
#[derive(Clone, Debug)]
pub struct FoundSource {
    pub path: String,
    /// `file`, `folder` or `registry`.
    pub kind: String,
    pub user: Option<SteamUser>,
}

/// A path with `/` separators, lower-cased.
pub open spec fn folded_path(path: Seq<char>) -> Seq<char> {
    lowercase(replace_char(path, '\\', '/'))
}

/// Where the Steam client keeps per-account data, as a folded path prefix.
pub open spec fn userdata_prefix(root: Seq<char>) -> Seq<char> {
    lowercase(trim_end_char(replace_char(root, '\\', '/'), '/')) + "/userdata/"@
}

/// The first account with this account id.
pub open spec fn account_position(users: Seq<UserView>, id: Seq<char>) -> Option<int>
    decreases users.len(),
{
    if users.len() == 0 {
        None
    } else if users[0].account_id == id {
        Some(0)
    } else {
        match account_position(users.drop_first(), id) {
            Some(k) => Some(k + 1),
            None => None,
        }
    }
}

/// The first account whose SteamID64 is a component of the folded path.
pub open spec fn id64_owner(users: Seq<UserView>, parts: Seq<Seq<char>>) -> Option<int>
    decreases users.len(),
{
    if users.len() == 0 {
        None
    } else if users[0].steam_id64 matches Some(id) && parts.contains(id) {
        Some(0)
    } else {
        match id64_owner(users.drop_first(), parts) {
            Some(k) => Some(k + 1),
            None => None,
        }
    }
}

/// The account a save location belongs to: the account whose folder under Steam's
/// `userdata` holds it (known or not), else an account whose SteamID64 names one of its
/// folders. Registry keys belong to no account.
pub open spec fn source_user_spec(kind: Seq<char>, path: Seq<char>, root: Seq<char>, users: Seq<UserView>) -> Option<UserView> {
    if kind == "registry"@ {
        None
    } else {
        let p = folded_path(path);
        let pre = userdata_prefix(root);
        if starts_with(p, pre) {
            match parse_uint(split(p.skip(pre.len() as int), '/')[0], u32::MAX as nat) {
                None => None,
                Some(n) => {
                    let id = decimal(n);
                    match account_position(users, id) {
                        Some(k) => Some(users[k]),
                        None => Some(UserView { account_id: id, display_name: fallback_name(id), steam_id64: None }),
                    }
                },
            }
        } else {
            match id64_owner(users, split(p, '/')) {
                Some(k) => Some(users[k]),
                None => None,
            }
        }
    }
}

proof fn lemma_account_position_bounds(users: Seq<UserView>, id: Seq<char>)
    ensures
        account_position(users, id) matches Some(k) ==> 0 <= k < users.len(),
    decreases users.len(),
{
    if users.len() > 0 {
        lemma_account_position_bounds(users.drop_first(), id);
    }
}

proof fn lemma_id64_owner_bounds(users: Seq<UserView>, parts: Seq<Seq<char>>)
    ensures
        id64_owner(users, parts) matches Some(k) ==> 0 <= k < users.len(),
    decreases users.len(),
{
    if users.len() > 0 {
        lemma_id64_owner_bounds(users.drop_first(), parts);
    }
}

fn find_account(users: &Vec<SteamUser>, id: &str) -> (r: Option<usize>)
    ensures
        match r {
            Some(k) => account_position(users_view(users@), id@) == Some(k as int),
            None => account_position(users_view(users@), id@) is None,
        },
{
    let ghost u = users_view(users@);
    let mut i: usize = 0;
    proof {
        assert(u.skip(0) =~= u);
    }
    while i < users.len()
        invariant
            i <= users@.len(),
            u == users_view(users@),
            account_position(u, id@) == match account_position(u.skip(i as int), id@) {
                Some(k) => Some(k + i),
                None => None,
            },
        decreases users@.len() - i,
    {
        proof {
            assert(u.skip(i as int)[0] == users@[i as int]@);
            assert(u.skip(i as int).drop_first() =~= u.skip(i + 1));
        }
        if str_is(users[i].account_id.as_str(), id) {
            return Some(i);
        }
        i = i + 1;
    }
    proof {
        assert(u.skip(i as int) =~= Seq::<UserView>::empty());
    }
    None
}

fn has_part(parts: &Vec<Vec<char>>, id: &[char]) -> (r: bool)
    ensures
        r == parts@.map_values(|p: Vec<char>| p@).contains(id@),
{
    let ghost ps = parts@.map_values(|p: Vec<char>| p@);
    let mut j: usize = 0;
    while j < parts.len()
        invariant
            j <= parts@.len(),
            ps == parts@.map_values(|p: Vec<char>| p@),
            forall|k: int| 0 <= k < j ==> ps[k] != id@,
        decreases parts@.len() - j,
    {
        if crate::text::chars_equal(parts[j].as_slice(), id) {
            proof {
                assert(ps[j as int] == id@);
            }
            return true;
        }
        j = j + 1;
    }
    false
}

fn find_id64_owner(users: &Vec<SteamUser>, parts: &Vec<Vec<char>>) -> (r: Option<usize>)
    ensures
        match r {
            Some(k) => id64_owner(users_view(users@), parts@.map_values(|p: Vec<char>| p@)) == Some(k as int),
            None => id64_owner(users_view(users@), parts@.map_values(|p: Vec<char>| p@)) is None,
        },
{
    let ghost u = users_view(users@);
    let ghost ps = parts@.map_values(|p: Vec<char>| p@);
    let mut i: usize = 0;
    proof {
        assert(u.skip(0) =~= u);
    }
    while i < users.len()
        invariant
            i <= users@.len(),
            u == users_view(users@),
            ps == parts@.map_values(|p: Vec<char>| p@),
            id64_owner(u, ps) == match id64_owner(u.skip(i as int), ps) {
                Some(k) => Some(k + i),
                None => None,
            },
        decreases users@.len() - i,
    {
        proof {
            assert(u.skip(i as int)[0] == users@[i as int]@);
            assert(u.skip(i as int).drop_first() =~= u.skip(i + 1));
        }
        let owns = match &users[i].steam_id64 {
            Some(id) => {
                let chars = chars_of(id.as_str());
                has_part(parts, chars.as_slice())
            },
            None => false,
        };
        if owns {
            return Some(i);
        }
        i = i + 1;
    }
    proof {
        assert(u.skip(i as int) =~= Seq::<UserView>::empty());
    }
    None
}

/// The account a save location belongs to (see `source_user_spec`); `root` is the Steam
/// client directory and `users` the accounts in account id order.
pub fn source_user(source: &FoundSource, root: &str, users: &Vec<SteamUser>) -> (r: Option<SteamUser>)
    ensures
        match r {
            Some(u) => source_user_spec(source.kind@, source.path@, root@, users_view(users@)) == Some(u@),
            None => source_user_spec(source.kind@, source.path@, root@, users_view(users@)) is None,
        },
{
    proof {
        reveal_strlit("registry");
        reveal_strlit("/userdata/");
    }
    if str_is(source.kind.as_str(), "registry") {
        return None;
    }
    let raw = chars_of(source.path.as_str());
    let slashed = string_of(replace_chars(raw.as_slice(), '\\', '/').as_slice());
    let path = chars_of(to_lowercase(slashed.as_str()).as_str());
    let root_chars = chars_of(root);
    let root_slashed = replace_chars(root_chars.as_slice(), '\\', '/');
    let root_trimmed = string_of(trim_end_matches_char(root_slashed.as_slice(), '/').as_slice());
    let root_lower = chars_of(to_lowercase(root_trimmed.as_str()).as_str());
    let tail = chars_of("/userdata/");
    let prefix = concat_chars(root_lower.as_slice(), tail.as_slice());
    if crate::text::has_prefix(path.as_slice(), prefix.as_slice()) {
        let relative = crate::text::copy_range(path.as_slice(), prefix.len(), path.len());
        let parts = split_chars(relative.as_slice(), '/');
        proof {
            assert(relative@ =~= path@.skip(prefix@.len() as int));
            crate::text::lemma_split_nonempty(relative@, '/');
            assert(parts@.map_values(|p: Vec<char>| p@)[0] == parts@[0]@);
        }
        let n = match parse_uint_exec(parts[0].as_slice(), 0xffff_ffff) {
            Some(n) => n,
            None => return None,
        };
        let id = decimal_string(n);
        return match find_account(users, id.as_str()) {
            Some(k) => {
                proof {
                    lemma_account_position_bounds(users_view(users@), id@);
                    assert(users_view(users@)[k as int] == users@[k as int]@);
                }
                Some(users[k].duplicate())
            },
            None => Some(
                SteamUser { display_name: fallback_name_exec(id.as_str()), account_id: id, steam_id64: None },
            ),
        };
    }
    let parts = split_chars(path.as_slice(), '/');
    match find_id64_owner(users, &parts) {
        Some(k) => {
            proof {
                lemma_id64_owner_bounds(users_view(users@), parts@.map_values(|p: Vec<char>| p@));
                assert(users_view(users@)[k as int] == users@[k as int]@);
            }
            Some(users[k].duplicate())
        },
        None => None,
    }
}

/// When a path rule applies: on which OS and in which store.
#[derive(Clone, Debug)]
pub struct Condition {
    pub os: Option<String>,
    pub store: Option<String>,
}

/// A save-path rule of the path database.
#[derive(Clone, Debug)]
pub struct Rule {
    pub tags: Vec<String>,
    pub when: Vec<Condition>,
}

/// Whether a condition holds for the Windows Steam release.
pub open spec fn condition_holds(c: Condition) -> bool {
    (match c.os {
        Some(os) => os@ == "windows"@,
        None => true,
    }) && (match c.store {
        Some(store) => store@ == "steam"@,
        None => true,
    })
}

/// Whether a rule describes saves of the Windows Steam release: it is untagged or tagged
/// `save`, and has no conditions or one that holds.
pub open spec fn applicable_spec(rule: Rule) -> bool {
    (rule.tags@.len() == 0 || exists|i: int| 0 <= i < rule.tags@.len() && (#[trigger] rule.tags@[i])@ == "save"@)
        && (rule.when@.len() == 0 || exists|i: int|
        0 <= i < rule.when@.len() && condition_holds(#[trigger] rule.when@[i]))
}

impl Rule {
    /// Whether the rule describes saves of the Windows Steam release.
    pub fn applicable(&self) -> (r: bool)
        ensures
            r == applicable_spec(*self),
    {
        let mut tagged = self.tags.len() == 0;
        let mut i: usize = 0;
        while i < self.tags.len() && !tagged
            invariant
                i <= self.tags@.len(),
                tagged == (self.tags@.len() == 0 || exists|k: int|
                    0 <= k < i && (#[trigger] self.tags@[k])@ == "save"@),
            decreases self.tags@.len() - i,
        {
            if str_is(self.tags[i].as_str(), "save") {
                tagged = true;
            }
            i = i + 1;
        }
        proof {
            if !tagged {
                assert(i == self.tags@.len());
            }
        }
        if !tagged {
            return false;
        }
        if self.when.len() == 0 {
            return true;
        }
        let mut j: usize = 0;
        while j < self.when.len()
            invariant
                j <= self.when@.len(),
                self.when@.len() > 0,
                self.tags@.len() == 0 || exists|k: int|
                    0 <= k < self.tags@.len() && (#[trigger] self.tags@[k])@ == "save"@,
                forall|k: int| 0 <= k < j ==> !condition_holds(#[trigger] self.when@[k]),
            decreases self.when@.len() - j,
        {
            let c = &self.when[j];
            let os_ok = match &c.os {
                Some(os) => str_is(os.as_str(), "windows"),
                None => true,
            };
            let store_ok = match &c.store {
                Some(store) => str_is(store.as_str(), "steam"),
                None => true,
            };
            if os_ok && store_ok {
                proof {
                    assert(condition_holds(self.when@[j as int]));
                }
                return true;
            }
            j = j + 1;
        }
        false
    }
}

/// `s` with every occurrence of the non-empty `pat` replaced by `rep`, scanning left to
/// right (as `str::replace` does).
pub open spec fn replace_all(s: Seq<char>, pat: Seq<char>, rep: Seq<char>) -> Seq<char>
    decreases s.len(),
{
    if pat.len() == 0 || s.len() < pat.len() {
        s
    } else if s.take(pat.len() as int) == pat {
        rep + replace_all(s.skip(pat.len() as int), pat, rep)
    } else {
        seq![s[0]] + replace_all(s.drop_first(), pat, rep)
    }
}

fn replace_all_exec(s: &[char], pat: &[char], rep: &[char]) -> (r: Vec<char>)
    requires
        pat@.len() > 0,
    ensures
        r@ == replace_all(s@, pat@, rep@),
{
    let mut out: Vec<char> = Vec::new();
    let mut i: usize = 0;
    proof {
        assert(s@.skip(0) =~= s@);
    }
    while i < s.len()
        invariant
            i <= s@.len(),
            pat@.len() > 0,
            replace_all(s@, pat@, rep@) == out@ + replace_all(s@.skip(i as int), pat@, rep@),
        decreases s@.len() - i,
    {
        let rest = crate::text::copy_range(s, i, s.len());
        proof {
            assert(rest@ =~= s@.skip(i as int));
        }
        if crate::text::has_prefix(rest.as_slice(), pat) {
            let joined = concat_chars(out.as_slice(), rep);
            proof {
                assert(s@.skip(i as int).skip(pat@.len() as int) =~= s@.skip(i + pat@.len()));
                assert(out@ + (rep@ + replace_all(s@.skip(i + pat@.len()), pat@, rep@)) =~= joined@
                    + replace_all(s@.skip(i + pat@.len()), pat@, rep@));
            }
            out = joined;
            i = i + pat.len();
        } else {
            let ghost prev = out@;
            out.push(s[i]);
            proof {
                if s@.skip(i as int).len() >= pat@.len() {
                    assert(s@.skip(i as int).take(pat@.len() as int) != pat@);
                    assert(s@.skip(i as int).drop_first() =~= s@.skip(i + 1));
                    assert(prev + (seq![s@[i as int]] + replace_all(s@.skip(i + 1), pat@, rep@)) =~= out@
                        + replace_all(s@.skip(i + 1), pat@, rep@));
                } else {
                    assert(replace_all(s@.skip(i as int), pat@, rep@) == s@.skip(i as int));
                    assert(s@.skip(i + 1).len() < pat@.len());
                    assert(replace_all(s@.skip(i + 1), pat@, rep@) == s@.skip(i + 1));
                    assert(prev + s@.skip(i as int) =~= out@ + s@.skip(i + 1));
                }
            }
            i = i + 1;
        }
    }
    proof {
        assert(s@.skip(i as int) =~= Seq::<char>::empty());
        assert(out@ + Seq::<char>::empty() =~= out@);
    }
    out
}

/// A path pattern with its `<name>` placeholders filled in, one name at a time in the order
/// given, after `\` became `/`.
pub open spec fn filled(pattern: Seq<char>, vars: Seq<(Seq<char>, Seq<char>)>) -> Seq<char>
    decreases vars.len(),
{
    if vars.len() == 0 {
        replace_char(pattern, '\\', '/')
    } else {
        replace_all(filled(pattern, vars.drop_last()), seq!['<'] + vars.last().0 + seq!['>'], vars.last().1)
    }
}

/// The filled pattern, unless a placeholder is left in it.
pub open spec fn expanded(pattern: Seq<char>, vars: Seq<(Seq<char>, Seq<char>)>) -> Option<Seq<char>> {
    let f = filled(pattern, vars);
    if f.contains('<') || f.contains('>') {
        None
    } else {
        Some(f)
    }
}

pub open spec fn vars_view(vars: Seq<(String, String)>) -> Seq<(Seq<char>, Seq<char>)> {
    vars.map_values(|p: (String, String)| (p.0@, p.1@))
}

/// Fills the placeholders of a path pattern; `None` where one is left unfilled.
pub fn expand_pattern(pattern: &str, vars: &Vec<(String, String)>) -> (r: Option<String>)
    ensures
        match r {
            Some(p) => expanded(pattern@, vars_view(vars@)) == Some(p@),
            None => expanded(pattern@, vars_view(vars@)) is None,
        },
{
    let raw = chars_of(pattern);
    let mut result = replace_chars(raw.as_slice(), '\\', '/');
    let mut i: usize = 0;
    proof {
        assert(vars_view(vars@).take(0) =~= Seq::<(Seq<char>, Seq<char>)>::empty());
    }
    while i < vars.len()
        invariant
            i <= vars@.len(),
            result@ == filled(pattern@, vars_view(vars@).take(i as int)),
        decreases vars@.len() - i,
    {
        let key = chars_of(vars[i].0.as_str());
        let value = chars_of(vars[i].1.as_str());
        let mut pat: Vec<char> = Vec::new();
        pat.push('<');
        let with_key = concat_chars(pat.as_slice(), key.as_slice());
        let mut token = with_key;
        token.push('>');
        proof {
            let t = vars_view(vars@).take(i + 1);
            assert(t.drop_last() =~= vars_view(vars@).take(i as int));
            assert(t.last() == (vars@[i as int].0@, vars@[i as int].1@));
            assert(token@ =~= seq!['<'] + key@ + seq!['>']);
        }
        result = replace_all_exec(result.as_slice(), token.as_slice(), value.as_slice());
        i = i + 1;
    }
    proof {
        assert(vars_view(vars@).take(vars@.len() as int) =~= vars_view(vars@));
    }
    if crate::text::contains_char(result.as_slice(), '<') || crate::text::contains_char(result.as_slice(), '>') {
        return None;
    }
    Some(string_of(result.as_slice()))
}

/// Whether a path starts with a separator or carries a drive letter's colon second: what
/// every absolute path has, on Unix (a root) and on Windows (a prefix and a root).
pub open spec fn rooted_or_drive(path: Seq<char>) -> bool {
    (path.len() > 0 && (path[0] == '/' || path[0] == '\\')) || (path.len() > 1 && path[1] == ':')
}

/// Whether a path is absolute on this platform (`std::path::Path::is_absolute`). Which
/// paths are absolute depends on the platform the program is built for; stated is what
/// holds on every platform: an absolute path starts with a separator or a drive prefix.
#[verifier::external_body]
fn is_absolute_path(path: &str) -> (r: bool)
    ensures
        r ==> rooted_or_drive(path@),
{
    std::path::Path::new(path).is_absolute()
}

/// Keeps a filled pattern when it is an absolute path on this system (`absolute`).
pub fn keep_if_absolute(path: String, absolute: bool) -> (r: Option<String>)
    ensures
        r == (if absolute {
            Some(path)
        } else {
            None
        }),
{
    if absolute {
        Some(path)
    } else {
        None
    }
}

/// Fills the placeholders of a path pattern; `None` where one is left unfilled or the
/// result is not an absolute path here. Whether a filled pattern is absolute is the
/// platform's answer (`Path::is_absolute`), which `keep_if_absolute` applies.
pub fn resolve_pattern(pattern: &str, vars: &Vec<(String, String)>) -> (r: Option<String>)
    ensures
        expanded(pattern@, vars_view(vars@)) is None ==> r is None,
        r matches Some(p) ==> expanded(pattern@, vars_view(vars@)) == Some(p@) && rooted_or_drive(p@),
{
    let filled = match expand_pattern(pattern, vars) {
        Some(p) => p,
        None => return None,
    };
    let absolute = is_absolute_path(filled.as_str());
    keep_if_absolute(filled, absolute)
}

/// The text of member `key` of an object, if it is text.
pub open spec fn text_of(v: Option<VdfTree>) -> Option<Seq<char>> {
    match v {
        Some(t) => tree_text(t),
        None => None,
    }
}

/// The path a `libraryfolders.vdf` member gives: its `path` text, or its own text.
pub open spec fn library_path_of(value: VdfTree) -> Option<Seq<char>> {
    match text_of(tree_get(value, "path"@)) {
        Some(p) => Some(p),
        None => tree_text(value),
    }
}

/// Whether `paths` holds `p` ignoring ASCII case.
pub open spec fn has_path(paths: Seq<Seq<char>>, p: Seq<char>) -> bool {
    exists|i: int| 0 <= i < paths.len() && eq_ignore_ascii_case_spec(#[trigger] paths[i], p)
}

/// `paths` followed by the library paths of `members` with numeric keys that are not
/// already there (ignoring ASCII case), in member order.
pub open spec fn add_libraries(paths: Seq<Seq<char>>, members: Seq<(Seq<char>, VdfTree)>) -> Seq<Seq<char>>
    decreases members.len(),
{
    if members.len() == 0 {
        paths
    } else {
        let before = add_libraries(paths, members.drop_last());
        let (id, value) = members.last();
        match library_path_of(value) {
            Some(p) => if parse_uint(id, u32::MAX as nat) is Some && !has_path(before, p) {
                before.push(p)
            } else {
                before
            },
            None => before,
        }
    }
}

/// The Steam libraries: the client directory, then the further libraries that
/// `libraryfolders.vdf` lists.
pub open spec fn libraries_spec(root: Seq<char>, doc: VdfTree) -> Seq<Seq<char>> {
    let listed = match tree_get(doc, "libraryfolders"@) {
        Some(v) => Some(v),
        None => tree_get(doc, "LibraryFolders"@),
    };
    match listed {
        Some(VdfTree::Object(m)) => add_libraries(seq![root], m),
        _ => seq![root],
    }
}

fn known_path(paths: &Vec<String>, p: &str) -> (r: bool)
    ensures
        r == has_path(crate::model::strings_view(paths@), p@),
{
    let wanted = chars_of(p);
    let mut i: usize = 0;
    while i < paths.len()
        invariant
            i <= paths@.len(),
            wanted@ == p@,
            forall|k: int|
                0 <= k < i ==> !eq_ignore_ascii_case_spec(#[trigger] crate::model::strings_view(paths@)[k], p@),
        decreases paths@.len() - i,
    {
        let other = chars_of(paths[i].as_str());
        proof {
            assert(crate::model::strings_view(paths@)[i as int] == other@);
        }
        if eq_ignore_ascii_case(other.as_slice(), wanted.as_slice()) {
            return true;
        }
        i = i + 1;
    }
    false
}

/// The Steam libraries to scan: the client directory `root`, then the further libraries
/// that the parsed `libraryfolders.vdf` lists.
pub fn library_paths(root: &str, doc: &Vdf) -> (r: Vec<String>)
    ensures
        crate::model::strings_view(r@) == libraries_spec(root@, doc.tree()),
{
    let mut paths: Vec<String> = Vec::new();
    paths.push(root.to_owned());
    proof {
        assert(crate::model::strings_view(paths@) =~= seq![root@]);
    }
    let listed = match doc.get("libraryfolders") {
        Some(v) => Some(v),
        None => doc.get("LibraryFolders"),
    };
    let members = match listed {
        Some(Vdf::Object(m)) => m,
        _ => return paths,
    };
    let ghost tm = crate::vdf::members_tree(members@);
    let mut i: usize = 0;
    proof {
        assert(tm.take(0) =~= Seq::<(Seq<char>, VdfTree)>::empty());
    }
    while i < members.len()
        invariant
            i <= members@.len(),
            tm == crate::vdf::members_tree(members@),
            crate::model::strings_view(paths@) == add_libraries(seq![root@], tm.take(i as int)),
        decreases members@.len() - i,
    {
        proof {
            let t = tm.take(i + 1);
            assert(t.drop_last() =~= tm.take(i as int));
            assert(t.last() == (members@[i as int].0@, members@[i as int].1.tree()));
        }
        let value = &members[i].1;
        let path: Option<&str> = match value.get("path") {
            Some(p) => match p.text() {
                Some(t) => Some(t),
                None => value.text(),
            },
            None => value.text(),
        };
        let digits = chars_of(members[i].0.as_str());
        let numeric = parse_uint_exec(digits.as_slice(), 0xffff_ffff).is_some();
        match path {
            Some(p) => {
                if numeric && !known_path(&paths, p) {
                    let ghost prev = paths@;
                    paths.push(p.to_owned());
                    proof {
                        assert(crate::model::strings_view(paths@) =~= crate::model::strings_view(prev).push(p@));
                    }
                }
            },
            None => {},
        }
        i = i + 1;
    }
    proof {
        assert(tm.take(members@.len() as int) =~= tm);
    }
    paths
}

/// An installed game, as its `appmanifest_*.acf` describes it.
#[derive(Clone, Debug)]
pub struct AppManifest {
    pub app_id: u32,
    pub install_dir: String,
    pub name: String,
}

/// Whether an install folder name stays inside `steamapps/common`.
pub open spec fn safe_install_dir(folder: Seq<char>) -> bool {
    !folder.contains('/') && !folder.contains('\\') && folder != ".."@
}

/// The game an app manifest describes: its numeric id and a safe install folder are
/// required; the name falls back to the folder.
pub open spec fn app_manifest_spec(doc: VdfTree) -> Option<(nat, Seq<char>, Seq<char>)> {
    match tree_get(doc, "AppState"@) {
        None => None,
        Some(app) => match text_of(tree_get(app, "appid"@)) {
            None => None,
            Some(id_text) => match parse_uint(id_text, u32::MAX as nat) {
                None => None,
                Some(id) => match text_of(tree_get(app, "installdir"@)) {
                    None => None,
                    Some(folder) => if safe_install_dir(folder) {
                        Some(
                            (
                                id,
                                folder,
                                match text_of(tree_get(app, "name"@)) {
                                    Some(n) => n,
                                    None => folder,
                                },
                            ),
                        )
                    } else {
                        None
                    },
                },
            },
        },
    }
}

fn member_text<'a>(v: &'a Vdf, key: &str) -> (r: Option<&'a str>)
    ensures
        match r {
            Some(t) => text_of(tree_get(v.tree(), key@)) == Some(t@),
            None => text_of(tree_get(v.tree(), key@)) is None,
        },
{
    match v.get(key) {
        Some(x) => x.text(),
        None => None,
    }
}

/// Reads the game an app manifest describes.
pub fn app_manifest(doc: &Vdf) -> (r: Option<AppManifest>)
    ensures
        match r {
            Some(m) => app_manifest_spec(doc.tree()) == Some((m.app_id as nat, m.install_dir@, m.name@)),
            None => app_manifest_spec(doc.tree()) is None,
        },
{
    let app = match doc.get("AppState") {
        Some(a) => a,
        None => return None,
    };
    let id_text = match member_text(app, "appid") {
        Some(t) => t,
        None => return None,
    };
    let digits = chars_of(id_text);
    let id = match parse_uint_exec(digits.as_slice(), 0xffff_ffff) {
        Some(n) => n as u32,
        None => return None,
    };
    let folder = match member_text(app, "installdir") {
        Some(f) => f,
        None => return None,
    };
    let chars = chars_of(folder);
    proof {
        reveal_strlit("..");
    }
    if crate::text::contains_char(chars.as_slice(), '/') || crate::text::contains_char(chars.as_slice(), '\\')
        || str_is(folder, "..") {
        return None;
    }
    let name = match member_text(app, "name") {
        Some(n) => n.to_owned(),
        None => folder.to_owned(),
    };
    Some(AppManifest { app_id: id, install_dir: folder.to_owned(), name })
}

/// Whether a file of `steamapps` is an app manifest: named `appmanifest_*` with the
/// extension `acf`.
pub fn is_app_manifest(file_name: &str, extension: Option<&str>) -> (r: bool)
    ensures
        r == (starts_with(file_name@, "appmanifest_"@) && match extension {
            Some(e) => e@ == "acf"@,
            None => false,
        }),
{
    let name = chars_of(file_name);
    let prefix = chars_of("appmanifest_");
    crate::text::has_prefix(name.as_slice(), prefix.as_slice()) && match extension {
        Some(e) => str_is(e, "acf"),
        None => false,
    }
}

/// The folded prefix that marks the inside of a folder source.
pub open spec fn folder_prefix(path: Seq<char>) -> Seq<char> {
    lowercase(trim_end_char(replace_char(path, '\\', '/'), '/')) + seq!['/']
}

/// The inside prefixes of the folder sources.
pub open spec fn folder_prefixes(sources: Seq<FoundSource>) -> Seq<Seq<char>>
    decreases sources.len(),
{
    if sources.len() == 0 {
        Seq::empty()
    } else if sources.last().kind@ == "folder"@ {
        folder_prefixes(sources.drop_last()).push(folder_prefix(sources.last().path@))
    } else {
        folder_prefixes(sources.drop_last())
    }
}

/// Whether a source lies inside one of the folders.
pub open spec fn nested(prefixes: Seq<Seq<char>>, source: FoundSource) -> bool {
    exists|i: int|
        0 <= i < prefixes.len() && starts_with(folded_path(source.path@), #[trigger] prefixes[i])
}

/// The sources that lie inside no folder source, in order.
pub open spec fn outermost(sources: Seq<FoundSource>) -> Seq<FoundSource> {
    sources.filter(|s: FoundSource| !nested(folder_prefixes(sources), s))
}

fn folder_prefix_exec(path: &str) -> (r: Vec<char>)
    ensures
        r@ == folder_prefix(path@),
{
    let raw = chars_of(path);
    let slashed = replace_chars(raw.as_slice(), '\\', '/');
    let trimmed = string_of(trim_end_matches_char(slashed.as_slice(), '/').as_slice());
    let mut lower = chars_of(to_lowercase(trimmed.as_str()).as_str());
    lower.push('/');
    lower
}

fn folded(path: &str) -> (r: Vec<char>)
    ensures
        r@ == folded_path(path@),
{
    let raw = chars_of(path);
    let slashed = string_of(replace_chars(raw.as_slice(), '\\', '/').as_slice());
    chars_of(to_lowercase(slashed.as_str()).as_str())
}

/// Drops the sources that lie inside a folder source: a folder is offered as a whole.
pub fn prune_nested_sources(sources: Vec<FoundSource>) -> (r: Vec<FoundSource>)
    ensures
        r@ == outermost(sources@),
{
    let mut prefixes: Vec<Vec<char>> = Vec::new();
    let mut i: usize = 0;
    proof {
        reveal_strlit("folder");
    }
    while i < sources.len()
        invariant
            i <= sources@.len(),
            prefixes@.map_values(|p: Vec<char>| p@) == folder_prefixes(sources@.take(i as int)),
        decreases sources@.len() - i,
    {
        proof {
            let t = sources@.take(i + 1);
            assert(t.drop_last() =~= sources@.take(i as int));
            assert(t.last() == sources@[i as int]);
        }
        let ghost prev = prefixes@;
        if str_is(sources[i].kind.as_str(), "folder") {
            prefixes.push(folder_prefix_exec(sources[i].path.as_str()));
            proof {
                assert(prefixes@.map_values(|p: Vec<char>| p@) =~= prev.map_values(|p: Vec<char>| p@).push(
                    folder_prefix(sources@[i as int].path@),
                ));
            }
        }
        i = i + 1;
    }
    proof {
        assert(sources@.take(sources@.len() as int) =~= sources@);
    }
    let ghost ps = prefixes@.map_values(|p: Vec<char>| p@);
    let ghost all = sources@;
    let ghost keep = |s: FoundSource| !nested(folder_prefixes(all), s);
    let mut rest = sources;
    let mut kept: Vec<FoundSource> = Vec::new();
    let ghost mut k: int = 0;
    proof {
        assert(all.skip(0) =~= all);
    }
    while rest.len() > 0
        invariant
            0 <= k <= all.len(),
            rest@ == all.skip(k),
            ps == prefixes@.map_values(|p: Vec<char>| p@),
            ps == folder_prefixes(all),
            keep == (|s: FoundSource| !nested(folder_prefixes(all), s)),
            kept@ == all.take(k).filter(keep),
        decreases rest@.len(),
    {
        let source = rest.remove(0);
        proof {
            assert(source == all[k]);
            assert(rest@ =~= all.skip(k + 1));
        }
        let path = folded(source.path.as_str());
        let mut inside = false;
        let mut j: usize = 0;
        while j < prefixes.len()
            invariant
                j <= prefixes@.len(),
                ps == prefixes@.map_values(|p: Vec<char>| p@),
                path@ == folded_path(source.path@),
                inside == exists|m: int| 0 <= m < j && starts_with(path@, #[trigger] ps[m]),
            decreases prefixes@.len() - j,
        {
            if crate::text::has_prefix(path.as_slice(), prefixes[j].as_slice()) {
                proof {
                    assert(ps[j as int] == prefixes@[j as int]@);
                }
                inside = true;
            }
            proof {
                assert(ps[j as int] == prefixes@[j as int]@);
            }
            j = j + 1;
        }
        proof {
            assert(all.take(k + 1) =~= all.take(k).push(source));
            all.take(k).lemma_filter_push(source, keep);
            assert(inside == nested(folder_prefixes(all), source));
        }
        if !inside {
            kept.push(source);
        }
        proof {
            k = k + 1;
        }
    }
    proof {
        assert(all.take(k) =~= all);
    }
    kept
}

/// `s` without elements equal to the one before them (`Vec::dedup`).
pub open spec fn dedup(s: Seq<Seq<char>>) -> Seq<Seq<char>>
    decreases s.len(),
{
    if s.len() == 0 {
        s
    } else if s.len() >= 2 && s.last() == s[s.len() - 2] {
        dedup(s.drop_last())
    } else {
        dedup(s.drop_last()).push(s.last())
    }
}

/// Text order of strings.
pub open spec fn text_before() -> spec_fn(Seq<char>, Seq<char>) -> bool {
    |a: Seq<char>, b: Seq<char>| lex_lt(a, b)
}

/// The warnings a scan reports: sorted, without repeats, at most thirty.
pub open spec fn reported_warnings(warnings: Seq<Seq<char>>) -> Seq<Seq<char>> {
    let d = dedup(stable_sort(warnings, text_before()));
    if d.len() <= 30 {
        d
    } else {
        d.take(30)
    }
}

proof fn lemma_slot<T>(sorted: Seq<T>, x: T, before: spec_fn(T, T) -> bool, p: int)
    requires
        0 <= p <= sorted.len(),
        forall|j: int| 0 <= j < p ==> !before(x, #[trigger] sorted[j]),
        p < sorted.len() ==> before(x, sorted[p]),
    ensures
        insert_sorted(sorted, x, before) == sorted.insert(p, x),
{
    lemma_insert_at_point(sorted, x, before);
    let q = insertion_point(sorted, x, before);
    if q < p {
        assert(!before(x, sorted[q]));
    }
    if p < q {
        assert(!before(x, sorted[p]));
    }
    assert(sorted.take(p) + seq![x] + sorted.skip(p) =~= sorted.insert(p, x));
}

/// Sorts, deduplicates and caps the warnings of a scan.
pub fn finish_warnings(warnings: Vec<String>) -> (r: Vec<String>)
    ensures
        crate::model::strings_view(r@) == reported_warnings(crate::model::strings_view(warnings@)),
{
    let ghost all = crate::model::strings_view(warnings@);
    let ghost before = text_before();
    let mut sorted: Vec<String> = Vec::new();
    let mut rest = warnings;
    let ghost mut k: int = 0;
    proof {
        assert(all.take(0) =~= Seq::<Seq<char>>::empty());
        assert(crate::model::strings_view(rest@) =~= all.skip(0));
    }
    while rest.len() > 0
        invariant
            0 <= k <= all.len(),
            before == text_before(),
            crate::model::strings_view(rest@) == all.skip(k),
            crate::model::strings_view(sorted@) == stable_sort(all.take(k), before),
        decreases rest@.len(),
    {
        let ghost old_rest = rest@;
        let w = rest.remove(0);
        let ghost prev_rest = crate::model::strings_view(rest@);
        proof {
            assert(crate::model::strings_view(old_rest)[0] == old_rest[0]@);
            assert(crate::model::strings_view(old_rest).len() == old_rest.len());
            assert(k < all.len());
            assert(all.skip(k)[0] == all[k]);
            assert(w@ == all[k]);
            assert(rest@ =~= old_rest.skip(1));
            assert(prev_rest =~= crate::model::strings_view(old_rest).skip(1));
        }
        let wc = chars_of(w.as_str());
        let mut p: usize = 0;
        let ghost sv = crate::model::strings_view(sorted@);
        while p < sorted.len()
            invariant_except_break
                p <= sorted@.len(),
                sv == crate::model::strings_view(sorted@),
                forall|j: int| 0 <= j < p ==> !lex_lt(wc@, #[trigger] sv[j]),
            invariant
                p <= sorted@.len(),
                sv == crate::model::strings_view(sorted@),
            ensures
                p <= sorted@.len(),
                forall|j: int| 0 <= j < p ==> !lex_lt(wc@, #[trigger] sv[j]),
                p < sorted@.len() ==> lex_lt(wc@, sv[p as int]),
            decreases sorted@.len() - p,
        {
            let other = chars_of(sorted[p].as_str());
            proof {
                assert(sv[p as int] == other@);
            }
            if text_less(wc.as_slice(), other.as_slice()) {
                break;
            }
            p = p + 1;
        }
        proof {
            assert forall|j: int| 0 <= j < p implies !before(w@, #[trigger] sv[j]) by {}
            lemma_slot(sv, w@, before, p as int);
            let t = all.take(k + 1);
            assert(t.drop_last() =~= all.take(k));
            assert(t.last() == w@);
            assert(prev_rest =~= all.skip(k + 1));
        }
        sorted.insert(p, w);
        proof {
            assert(crate::model::strings_view(sorted@) =~= sv.insert(p as int, w@));
            k = k + 1;
        }
    }
    proof {
        assert(all.take(k) =~= all);
    }
    let ghost ss = crate::model::strings_view(sorted@);
    let mut kept: Vec<String> = Vec::new();
    let mut i: usize = 0;
    while i < sorted.len()
        invariant
            i <= sorted@.len(),
            ss == crate::model::strings_view(sorted@),
            crate::model::strings_view(kept@) == dedup(ss.take(i as int)),
        decreases sorted@.len() - i,
    {
        proof {
            let t = ss.take(i + 1);
            assert(t.drop_last() =~= ss.take(i as int));
            assert(t.last() == ss[i as int]);
            if i >= 1 {
                assert(t[t.len() - 2] == ss[i - 1]);
            }
        }
        let repeat = i >= 1 && str_is(sorted[i].as_str(), sorted[i - 1].as_str());
        if !repeat {
            let ghost prev = kept@;
            kept.push(sorted[i].clone());
            proof {
                assert(crate::model::strings_view(kept@) =~= crate::model::strings_view(prev).push(ss[i as int]));
            }
        }
        i = i + 1;
    }
    proof {
        assert(ss.take(sorted@.len() as int) =~= ss);
    }
    if kept.len() > 30 {
        kept.truncate(30);
        proof {
            assert(crate::model::strings_view(kept@) =~= dedup(ss).take(30));
        }
    }
    kept
}

/// A game a scan found installed.
#[derive(Debug)]
pub struct FoundGame {
    pub app_id: String,
    pub name: String,
    pub install_path: String,
    pub sources: Vec<FoundSource>,
    pub has_rules: bool,
}

/// What a Steam scan found: the games and their save locations, the libraries searched, the
/// warnings met, when the rule database was updated and when the scan ran.
#[derive(Debug)]
pub struct ScanResult {
    pub games: Vec<FoundGame>,
    pub libraries: Vec<String>,
    pub warnings: Vec<String>,
    pub database_updated_at: u64,
    pub scanned_at: u64,
    pub steam_path: String,
}

/// The order games are listed in: games with save locations first, then by lower-cased name.
pub open spec fn game_before() -> spec_fn(FoundGame, FoundGame) -> bool {
    |a: FoundGame, b: FoundGame|
        (a.sources@.len() > 0 && b.sources@.len() == 0) || ((a.sources@.len() == 0) == (b.sources@.len() == 0)
            && lex_lt(lowercase(a.name@), lowercase(b.name@)))
}

/// Orders found games: those with save locations first, then by lower-cased name; games
/// that tie keep their order.
pub fn order_games(games: Vec<FoundGame>) -> (r: Vec<FoundGame>)
    ensures
        r@ == stable_sort(games@, game_before()),
{
    let ghost all = games@;
    let ghost before = game_before();
    let mut sorted: Vec<FoundGame> = Vec::new();
    let mut rest = games;
    let ghost mut k: int = 0;
    proof {
        assert(all.take(0) =~= Seq::<FoundGame>::empty());
        assert(rest@ =~= all.skip(0));
    }
    while rest.len() > 0
        invariant
            0 <= k <= all.len(),
            before == game_before(),
            rest@ == all.skip(k),
            sorted@ == stable_sort(all.take(k), before),
        decreases rest@.len(),
    {
        let g = rest.remove(0);
        proof {
            assert(g == all[k]);
        }
        let g_empty = g.sources.len() == 0;
        let g_name = chars_of(to_lowercase(g.name.as_str()).as_str());
        let mut p: usize = 0;
        let ghost sv = sorted@;
        while p < sorted.len()
            invariant_except_break
                p <= sorted@.len(),
                sv == sorted@,
                g_empty == (g.sources@.len() == 0),
                g_name@ == lowercase(g.name@),
                before == game_before(),
                forall|j: int| 0 <= j < p ==> !before(g, #[trigger] sv[j]),
            invariant
                p <= sorted@.len(),
                sv == sorted@,
            ensures
                p <= sorted@.len(),
                forall|j: int| 0 <= j < p ==> !before(g, #[trigger] sv[j]),
                p < sorted@.len() ==> before(g, sv[p as int]),
            decreases sorted@.len() - p,
        {
            let o_empty = sorted[p].sources.len() == 0;
            let o_name = chars_of(to_lowercase(sorted[p].name.as_str()).as_str());
            let earlier = (!g_empty && o_empty) || (g_empty == o_empty && text_less(g_name.as_slice(), o_name.as_slice()));
            if earlier {
                break;
            }
            p = p + 1;
        }
        proof {
            lemma_slot(sv, g, before, p as int);
            let t = all.take(k + 1);
            assert(t.drop_last() =~= all.take(k));
            assert(t.last() == g);
            assert(rest@ =~= all.skip(k + 1));
        }
        sorted.insert(p, g);
        proof {
            k = k + 1;
        }
    }
    proof {
        assert(all.take(k) =~= all);
    }
    sorted
}

/// The save-path rules of one game of the path database.
#[derive(Clone, Debug)]
pub struct GameRules {
    pub files: Vec<(String, Rule)>,
    pub registry: Vec<(String, Rule)>,
    pub steam_id: Option<u32>,
    pub steam_extra: Vec<u32>,
}

/// Whether a game of the database carries the Steam app id `id`.
pub open spec fn carries(g: GameRules, id: u32) -> bool {
    g.steam_id == Some(id) || g.steam_extra@.contains(id)
}

/// The game whose rules a Steam app id looks up: the last one, in database order, that
/// carries the id.
pub open spec fn rules_index(games: Seq<GameRules>, id: u32) -> Option<int>
    decreases games.len(),
{
    if games.len() == 0 {
        None
    } else if carries(games.last(), id) {
        Some(games.len() - 1)
    } else {
        rules_index(games.drop_last(), id)
    }
}

/// Finds the rules of the game with Steam app id `id`.
pub fn rules_for(games: &Vec<GameRules>, id: u32) -> (r: Option<usize>)
    ensures
        match r {
            Some(k) => rules_index(games@, id) == Some(k as int) && k < games@.len(),
            None => rules_index(games@, id) is None,
        },
{
    let mut j: usize = games.len();
    proof {
        assert(games@.take(j as int) =~= games@);
    }
    while j > 0
        invariant
            j <= games@.len(),
            rules_index(games@, id) == rules_index(games@.take(j as int), id),
        decreases j,
    {
        let g = &games[j - 1];
        proof {
            let t = games@.take(j as int);
            assert(t.last() == *g);
            assert(t.drop_last() =~= games@.take(j - 1));
        }
        let mut found = match g.steam_id {
            Some(s) => s == id,
            None => false,
        };
        let mut e: usize = 0;
        while e < g.steam_extra.len() && !found
            invariant
                e <= g.steam_extra@.len(),
                found == (g.steam_id == Some(id) || exists|m: int| 0 <= m < e && g.steam_extra@[m] == id),
            decreases g.steam_extra@.len() - e,
        {
            if g.steam_extra[e] == id {
                found = true;
            }
            e = e + 1;
        }
        proof {
            if found && g.steam_id != Some(id) {
                let m = choose|m: int| 0 <= m < e && g.steam_extra@[m] == id;
                assert(g.steam_extra@.contains(id));
            }
            if !found {
                assert forall|m: int| 0 <= m < g.steam_extra@.len() implies g.steam_extra@[m] != id by {}
            }
        }
        if found {
            return Some(j - 1);
        }
        j = j - 1;
    }
    None
}

/// Whether a game has any rule for the Windows Steam release.
pub open spec fn has_rules_spec(g: GameRules) -> bool {
    (exists|i: int| 0 <= i < g.files@.len() && applicable_spec(#[trigger] g.files@[i].1))
        || (exists|i: int| 0 <= i < g.registry@.len() && applicable_spec(#[trigger] g.registry@[i].1))
}

/// Whether a game has any rule for the Windows Steam release.
pub fn has_rules(g: &GameRules) -> (r: bool)
    ensures
        r == has_rules_spec(*g),
{
    let mut i: usize = 0;
    while i < g.files.len()
        invariant
            i <= g.files@.len(),
            forall|k: int| 0 <= k < i ==> !applicable_spec(#[trigger] g.files@[k].1),
        decreases g.files@.len() - i,
    {
        if g.files[i].1.applicable() {
            return true;
        }
        i = i + 1;
    }
    let mut j: usize = 0;
    while j < g.registry.len()
        invariant
            j <= g.registry@.len(),
            forall|k: int| 0 <= k < g.files@.len() ==> !applicable_spec(#[trigger] g.files@[k].1),
            forall|k: int| 0 <= k < j ==> !applicable_spec(#[trigger] g.registry@[k].1),
        decreases g.registry@.len() - j,
    {
        if g.registry[j].1.applicable() {
            return true;
        }
        j = j + 1;
    }
    false
}


/// Adding libraries keeps the paths already listed, in place.
proof fn lemma_add_libraries_extends(paths: Seq<Seq<char>>, members: Seq<(Seq<char>, VdfTree)>)
    ensures
        add_libraries(paths, members).len() >= paths.len(),
        forall|i: int| 0 <= i < paths.len() ==> #[trigger] add_libraries(paths, members)[i] == paths[i],
    decreases members.len(),
{
    if members.len() > 0 {
        lemma_add_libraries_extends(paths, members.drop_last());
    }
}

/// Every numbered member of the list with a library path ends up among the libraries.
proof fn lemma_add_libraries_lists_member(paths: Seq<Seq<char>>, members: Seq<(Seq<char>, VdfTree)>, k: int, p: Seq<char>)
    requires
        0 <= k < members.len(),
        parse_uint(members[k].0, u32::MAX as nat) is Some,
        library_path_of(members[k].1) == Some(p),
    ensures
        has_path(add_libraries(paths, members), p),
    decreases members.len(),
{
    let before = add_libraries(paths, members.drop_last());
    lemma_add_libraries_extends(before, Seq::empty());
    if k < members.len() - 1 {
        lemma_add_libraries_lists_member(paths, members.drop_last(), k, p);
    } else if !has_path(before, p) {
        let after = before.push(p);
        assert(after[before.len() as int] == p);
        assert(eq_ignore_ascii_case_spec(after[before.len() as int], p));
    }
    let after = add_libraries(paths, members);
    if has_path(before, p) {
        let i = choose|i: int| 0 <= i < before.len() && eq_ignore_ascii_case_spec(#[trigger] before[i], p);
        assert(after[i] == before[i]);
    }
}

/// The list of Steam libraries starts with the client directory.
pub proof fn law_libraries_start_with_the_client(root: Seq<char>, doc: VdfTree)
    ensures
        libraries_spec(root, doc).len() >= 1,
        libraries_spec(root, doc)[0] == root,
{
    lemma_add_libraries_extends(seq![root], Seq::empty());
    match tree_get(doc, "libraryfolders"@) {
        Some(VdfTree::Object(m)) => lemma_add_libraries_extends(seq![root], m),
        Some(_) => {},
        None => match tree_get(doc, "LibraryFolders"@) {
            Some(VdfTree::Object(m)) => lemma_add_libraries_extends(seq![root], m),
            _ => {},
        },
    }
}

/// Every numbered member with a library path of the document's library list (its
/// `libraryfolders` object, or, in older files without one, its `LibraryFolders` object)
/// is among the libraries to scan, ignoring ASCII case.
pub proof fn law_listed_libraries_are_scanned(
    root: Seq<char>,
    doc: VdfTree,
    members: Seq<(Seq<char>, VdfTree)>,
    k: int,
    p: Seq<char>,
)
    requires
        tree_get(doc, "libraryfolders"@) == Some(VdfTree::Object(members)) || (tree_get(doc, "libraryfolders"@) is None
            && tree_get(doc, "LibraryFolders"@) == Some(VdfTree::Object(members))),
        0 <= k < members.len(),
        parse_uint(members[k].0, u32::MAX as nat) is Some,
        library_path_of(members[k].1) == Some(p),
    ensures
        has_path(libraries_spec(root, doc), p),
{
    lemma_add_libraries_lists_member(seq![root], members, k, p);
}

/// An older `libraryfolders.vdf` whose list is under `LibraryFolders` gives the same
/// libraries as the same list under `libraryfolders`.
pub proof fn law_capitalized_library_list(root: Seq<char>, doc: VdfTree, list: VdfTree)
    requires
        tree_get(doc, "libraryfolders"@) is None,
        tree_get(doc, "LibraryFolders"@) == Some(list),
    ensures
        libraries_spec(root, doc) == libraries_spec(root, VdfTree::Object(seq![("libraryfolders"@, list)])),
{
    let single = seq![("libraryfolders"@, list)];
    assert(crate::vdf::first_key(single, "libraryfolders"@) == Some(0int));
}

/// What adding libraries puts after `paths`: each added path is new (ignoring ASCII case)
/// and is the library path of a numbered member.
proof fn lemma_add_libraries_added(paths: Seq<Seq<char>>, members: Seq<(Seq<char>, VdfTree)>)
    ensures
        forall|j: int| paths.len() <= j < add_libraries(paths, members).len() ==> exists|k: int|
            0 <= k < members.len() && parse_uint(#[trigger] members[k].0, u32::MAX as nat) is Some
                && library_path_of(members[k].1) == Some(#[trigger] add_libraries(paths, members)[j]),
        forall|i: int, j: int|
            0 <= i < j < add_libraries(paths, members).len() && paths.len() <= j ==> !eq_ignore_ascii_case_spec(
                #[trigger] add_libraries(paths, members)[i],
                #[trigger] add_libraries(paths, members)[j],
            ),
    decreases members.len(),
{
    if members.len() > 0 {
        let rest = members.drop_last();
        lemma_add_libraries_added(paths, rest);
        lemma_add_libraries_extends(paths, rest);
        let before = add_libraries(paths, rest);
        let after = add_libraries(paths, members);
        assert forall|j: int| paths.len() <= j < after.len() implies exists|k: int|
            0 <= k < members.len() && parse_uint(#[trigger] members[k].0, u32::MAX as nat) is Some
                && library_path_of(members[k].1) == Some(#[trigger] after[j]) by {
            if j < before.len() {
                let k = choose|k: int|
                    0 <= k < rest.len() && parse_uint(#[trigger] rest[k].0, u32::MAX as nat) is Some
                        && library_path_of(rest[k].1) == Some(before[j]);
                assert(members[k] == rest[k]);
            } else {
                assert(members[members.len() - 1] == members.last());
            }
        }
        assert forall|i: int, j: int|
            0 <= i < j < after.len() && paths.len() <= j implies !eq_ignore_ascii_case_spec(
                #[trigger] after[i],
                #[trigger] after[j],
            ) by {
            if j >= before.len() {
                assert(!has_path(before, after[j]));
                if eq_ignore_ascii_case_spec(after[i], after[j]) {
                    assert(eq_ignore_ascii_case_spec(before[i], after[j]));
                }
            } else {
                assert(after[i] == before[i] && after[j] == before[j]);
            }
        }
    }
}

/// Every library after the client directory is the path of a numbered member of the list,
/// and none repeats an earlier library, ignoring ASCII case.
pub proof fn law_libraries_are_listed_once(root: Seq<char>, doc: VdfTree)
    ensures
        forall|i: int, j: int|
            0 <= i < j < libraries_spec(root, doc).len() ==> !eq_ignore_ascii_case_spec(
                #[trigger] libraries_spec(root, doc)[i],
                #[trigger] libraries_spec(root, doc)[j],
            ),
        forall|j: int|
            1 <= j < libraries_spec(root, doc).len() ==> exists|members: Seq<(Seq<char>, VdfTree)>, k: int|
                (tree_get(doc, "libraryfolders"@) == Some(VdfTree::Object(members)) || (tree_get(
                    doc,
                    "libraryfolders"@,
                ) is None && tree_get(doc, "LibraryFolders"@) == Some(VdfTree::Object(members)))) && 0 <= k
                    < members.len() && parse_uint(#[trigger] members[k].0, u32::MAX as nat) is Some
                    && library_path_of(members[k].1) == Some(#[trigger] libraries_spec(root, doc)[j]),
{
    let listed = match tree_get(doc, "libraryfolders"@) {
        Some(v) => Some(v),
        None => tree_get(doc, "LibraryFolders"@),
    };
    match listed {
        Some(VdfTree::Object(m)) => {
            lemma_add_libraries_added(seq![root], m);
            let r = libraries_spec(root, doc);
            assert forall|j: int| 1 <= j < r.len() implies exists|members: Seq<(Seq<char>, VdfTree)>, k: int|
                (tree_get(doc, "libraryfolders"@) == Some(VdfTree::Object(members)) || (tree_get(
                    doc,
                    "libraryfolders"@,
                ) is None && tree_get(doc, "LibraryFolders"@) == Some(VdfTree::Object(members)))) && 0 <= k
                    < members.len() && parse_uint(#[trigger] members[k].0, u32::MAX as nat) is Some
                    && library_path_of(members[k].1) == Some(#[trigger] r[j]) by {
                let k = choose|k: int|
                    0 <= k < m.len() && parse_uint(#[trigger] m[k].0, u32::MAX as nat) is Some
                        && library_path_of(m[k].1) == Some(r[j]);
                assert(parse_uint(m[k].0, u32::MAX as nat) is Some);
            }
        },
        _ => {},
    }
}

} // verus!


