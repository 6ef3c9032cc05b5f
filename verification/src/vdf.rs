//! Steam's text KeyValues format: quoted strings, nested objects and `//` comments.
use crate::order::lex_lt;
use crate::remote::str_is;
use crate::text::{chars_of, is_white, is_whitespace, string_of, trim_start_char};
use vstd::prelude::*;

verus! {

/// A parsed KeyValues value.
#[derive(Debug)]
pub enum Vdf {
    Text(String),
    /// Members in key order, each key once (a later duplicate replaces an earlier one).
    Object(Vec<(String, Vdf)>),
}

/// A KeyValues value over plain text.
pub enum VdfTree {
    Text(Seq<char>),
    Object(Seq<(Seq<char>, VdfTree)>),
}

impl Vdf {
    /// The value as plain text.
    pub open spec fn tree(self) -> VdfTree
        decreases self, 1int,
    {
        match self {
            Vdf::Text(s) => VdfTree::Text(s@),
            Vdf::Object(m) => VdfTree::Object(members_tree(m@)),
        }
    }
}

/// Members as plain text.
pub open spec fn members_tree(m: Seq<(String, Vdf)>) -> Seq<(Seq<char>, VdfTree)>
    decreases m, 0int,
{
    Seq::new(
        m.len(),
        |i: int|
            if 0 <= i < m.len() {
                (m[i].0@, m[i].1.tree())
            } else {
                (Seq::empty(), VdfTree::Text(Seq::empty()))
            },
    )
}

/// Why a KeyValues text could not be parsed.
#[derive(Clone, Copy, Debug, PartialEq, Eq, Structural)]
pub enum VdfError {
    UnterminatedString,
    UnknownCharacter,
    TooDeep,
    UnbalancedBrace,
    MissingValue,
    MissingObject,
    UnclosedObject,
}

/// The message shown for a KeyValues error.
pub open spec fn vdf_message(e: VdfError) -> Seq<char> {
    match e {
        VdfError::UnterminatedString => "Steam 清单字符串不完整"@,
        VdfError::UnknownCharacter => "Steam 清单格式无法识别"@,
        VdfError::TooDeep => "Steam 清单嵌套过深"@,
        VdfError::UnbalancedBrace => "Steam 清单括号不匹配"@,
        VdfError::MissingValue => "Steam 清单缺少值"@,
        VdfError::MissingObject => "Steam 清单缺少对象"@,
        VdfError::UnclosedObject => "Steam 清单对象不完整"@,
    }
}

impl VdfError {
    /// The message shown for this error.
    pub fn message(&self) -> (m: String)
        ensures
            m@ == vdf_message(*self),
    {
        match self {
            VdfError::UnterminatedString => "Steam 清单字符串不完整".to_owned(),
            VdfError::UnknownCharacter => "Steam 清单格式无法识别".to_owned(),
            VdfError::TooDeep => "Steam 清单嵌套过深".to_owned(),
            VdfError::UnbalancedBrace => "Steam 清单括号不匹配".to_owned(),
            VdfError::MissingValue => "Steam 清单缺少值".to_owned(),
            VdfError::MissingObject => "Steam 清单缺少对象".to_owned(),
            VdfError::UnclosedObject => "Steam 清单对象不完整".to_owned(),
        }
    }
}

/// A token: a brace (`true`) or a quoted string (`false`) with its text.
pub type Token = (bool, Seq<char>);

/// The string that starts at `j` (after an opening quote) and the position after its closing
/// quote; `\\` and `\"` stand for `\` and `"`. `None` when no closing quote follows.
pub open spec fn scan_string(s: Seq<char>, j: int) -> Option<(Seq<char>, int)>
    decreases s.len() - j,
{
    if j < 0 || j >= s.len() {
        None
    } else if s[j] == '"' {
        Some((Seq::empty(), j + 1))
    } else if s[j] == '\\' && j + 1 < s.len() && (s[j + 1] == '\\' || s[j + 1] == '"') {
        match scan_string(s, j + 2) {
            Some((v, e)) => Some((seq![s[j + 1]] + v, e)),
            None => None,
        }
    } else {
        match scan_string(s, j + 1) {
            Some((v, e)) => Some((seq![s[j]] + v, e)),
            None => None,
        }
    }
}

/// The position after the first line break at or after `j`, or the end.
pub open spec fn after_line(s: Seq<char>, j: int) -> int
    decreases s.len() - j,
{
    if j < 0 || j >= s.len() {
        s.len() as int
    } else if s[j] == '\n' {
        j + 1
    } else {
        after_line(s, j + 1)
    }
}

/// The tokens of `s` from position `i`: quoted strings, braces; white space and `//` line
/// comments between them are skipped.
pub open spec fn tokenize(s: Seq<char>, i: int) -> Result<Seq<Token>, VdfError>
    decreases s.len() - i,
{
    if i < 0 || i >= s.len() {
        Ok(Seq::empty())
    } else if s[i] == '"' {
        match scan_string(s, i + 1) {
            None => Err(VdfError::UnterminatedString),
            Some((v, e)) => if i < e <= s.len() {
                match tokenize(s, e) {
                    Ok(t) => Ok(seq![(false, v)] + t),
                    Err(x) => Err(x),
                }
            } else {
                Err(VdfError::UnterminatedString)
            },
        }
    } else if s[i] == '{' || s[i] == '}' {
        match tokenize(s, i + 1) {
            Ok(t) => Ok(seq![(true, seq![s[i]])] + t),
            Err(x) => Err(x),
        }
    } else if s[i] == '/' && i + 1 < s.len() && s[i + 1] == '/' {
        if i < after_line(s, i + 1) <= s.len() {
            tokenize(s, after_line(s, i + 1))
        } else {
            Ok(Seq::empty())
        }
    } else if is_white(s[i]) {
        tokenize(s, i + 1)
    } else {
        Err(VdfError::UnknownCharacter)
    }
}

/// `m` with `k` set to `v`: in place where `k` is a key, else before the first greater key.
pub open spec fn put(m: Seq<(Seq<char>, VdfTree)>, k: Seq<char>, v: VdfTree) -> Seq<(Seq<char>, VdfTree)>
    decreases m.len(),
{
    if m.len() == 0 {
        seq![(k, v)]
    } else if m[0].0 == k {
        seq![(k, v)] + m.drop_first()
    } else if lex_lt(k, m[0].0) {
        seq![(k, v)] + m
    } else {
        seq![m[0]] + put(m.drop_first(), k, v)
    }
}

/// The members of an object from token `pos` on, added to `out`: the object and the position
/// after it.
pub open spec fn parse_members(
    t: Seq<Token>,
    pos: int,
    depth: nat,
    out: Seq<(Seq<char>, VdfTree)>,
) -> Result<(VdfTree, int), VdfError>
    decreases t.len() - pos, 0int,
{
    if pos < 0 || pos >= t.len() {
        if depth > 0 {
            Err(VdfError::UnclosedObject)
        } else {
            Ok((VdfTree::Object(out), pos))
        }
    } else if t[pos].0 {
        if t[pos].1 == seq!['}'] && depth > 0 {
            Ok((VdfTree::Object(out), pos + 1))
        } else {
            Err(VdfError::UnbalancedBrace)
        }
    } else if pos + 1 >= t.len() {
        Err(VdfError::MissingValue)
    } else if t[pos + 1].0 {
        if t[pos + 1].1 != seq!['{'] {
            Err(VdfError::MissingObject)
        } else {
            match parse_object(t, pos + 2, depth + 1) {
                Err(x) => Err(x),
                Ok((child, p)) => if pos < p <= t.len() {
                    parse_members(t, p, depth, put(out, t[pos].1, child))
                } else {
                    Err(VdfError::UnclosedObject)
                },
            }
        }
    } else {
        parse_members(t, pos + 2, depth, put(out, t[pos].1, VdfTree::Text(t[pos + 1].1)))
    }
}

/// The object whose members start at token `pos`, `depth` objects deep.
pub open spec fn parse_object(t: Seq<Token>, pos: int, depth: nat) -> Result<(VdfTree, int), VdfError>
    decreases t.len() - pos, 1int,
{
    if depth > 32 {
        Err(VdfError::TooDeep)
    } else {
        parse_members(t, pos, depth, Seq::empty())
    }
}

/// The KeyValues document `input` holds, after any leading byte-order marks.
pub open spec fn parsed_vdf(input: Seq<char>) -> Result<VdfTree, VdfError> {
    match tokenize(trim_start_char(input, '\u{feff}'), 0) {
        Err(x) => Err(x),
        Ok(t) => match parse_object(t, 0, 0) {
            Ok((v, p)) => Ok(v),
            Err(x) => Err(x),
        },
    }
}

pub open spec fn tokens_view(t: Seq<(bool, String)>) -> Seq<Token> {
    t.map_values(|p: (bool, String)| (p.0, p.1@))
}

/// Reads the quoted string that starts at `j`.
fn read_string(s: &Vec<char>, j: usize) -> (r: Option<(String, usize)>)
    requires
        j <= s@.len(),
    ensures
        match r {
            Some((v, e)) => scan_string(s@, j as int) == Some((v@, e as int)) && j < e <= s@.len(),
            None => scan_string(s@, j as int) is None,
        },
{
    let mut value: Vec<char> = Vec::new();
    let mut k: usize = j;
    while k < s.len()
        invariant
            j <= k <= s@.len(),
            scan_string(s@, j as int) == match scan_string(s@, k as int) {
                Some((v, e)) => Some((value@ + v, e)),
                None => None,
            },
        decreases s@.len() - k,
    {
        let c = s[k];
        if c == '"' {
            proof {
                assert(value@ + Seq::<char>::empty() =~= value@);
            }
            return Some((string_of(value.as_slice()), k + 1));
        }
        let ghost prev = value@;
        if c == '\\' && k + 1 < s.len() && (s[k + 1] == '\\' || s[k + 1] == '"') {
            value.push(s[k + 1]);
            proof {
                assert forall|v: Seq<char>| prev + (seq![s@[k + 1]] + v) =~= value@ + v by {}
            }
            k = k + 2;
        } else {
            value.push(c);
            proof {
                assert forall|v: Seq<char>| prev + (seq![c] + v) =~= value@ + v by {}
            }
            k = k + 1;
        }
    }
    None
}

/// Splits KeyValues text into tokens.
fn tokens_of(s: &Vec<char>, start: usize) -> (r: Result<Vec<(bool, String)>, VdfError>)
    requires
        start <= s@.len(),
    ensures
        match r {
            Ok(t) => tokenize(s@, start as int) == Ok::<Seq<Token>, VdfError>(tokens_view(t@)),
            Err(x) => tokenize(s@, start as int) == Err::<Seq<Token>, VdfError>(x),
        },
{
    let mut tokens: Vec<(bool, String)> = Vec::new();
    let mut i: usize = start;
    while i < s.len()
        invariant
            start <= i <= s@.len(),
            tokenize(s@, start as int) == match tokenize(s@, i as int) {
                Ok(t) => Ok(tokens_view(tokens@) + t),
                Err(x) => Err::<Seq<Token>, VdfError>(x),
            },
        decreases s@.len() - i,
    {
        let c = s[i];
        let ghost prev = tokens@;
        if c == '"' {
            match read_string(s, i + 1) {
                None => return Err(VdfError::UnterminatedString),
                Some((v, e)) => {
                    tokens.push((false, v));
                    proof {
                        assert(tokens_view(tokens@) =~= tokens_view(prev).push((false, v@)));
                        assert forall|t: Seq<Token>|
                            tokens_view(prev) + (seq![(false, v@)] + t) =~= tokens_view(tokens@) + t by {}
                    }
                    i = e;
                },
            }
        } else if c == '{' || c == '}' {
            let mut text: Vec<char> = Vec::new();
            text.push(c);
            let brace = string_of(text.as_slice());
            tokens.push((true, brace));
            proof {
                assert(text@ =~= seq![c]);
                assert(tokens_view(tokens@) =~= tokens_view(prev).push((true, seq![c])));
                assert forall|t: Seq<Token>|
                    tokens_view(prev) + (seq![(true, seq![c])] + t) =~= tokens_view(tokens@) + t by {}
            }
            i = i + 1;
        } else if c == '/' && i + 1 < s.len() && s[i + 1] == '/' {
            let mut k: usize = i + 1;
            while k < s.len() && s[k] != '\n'
                invariant
                    i < k <= s@.len(),
                    after_line(s@, (i + 1) as int) == after_line(s@, k as int),
                decreases s@.len() - k,
            {
                k = k + 1;
            }
            if k < s.len() {
                k = k + 1;
            }
            i = k;
        } else if is_whitespace(c) {
            i = i + 1;
        } else {
            return Err(VdfError::UnknownCharacter);
        }
    }
    proof {
        assert(tokens_view(tokens@) + Seq::<Token>::empty() =~= tokens_view(tokens@));
    }
    Ok(tokens)
}

/// Where `key` goes among members kept in key order: its position and whether it is there.
fn member_slot(members: &Vec<(String, Vdf)>, key: &str, value: Ghost<VdfTree>) -> (r: (usize, bool))
    ensures
        r.0 <= members@.len(),
        r.1 ==> r.0 < members@.len() && put(members_tree(members@), key@, value@)
            == members_tree(members@).take(r.0 as int) + (seq![(key@, value@)] + members_tree(members@).skip(r.0 + 1)),
        !r.1 ==> put(members_tree(members@), key@, value@) == members_tree(members@).take(r.0 as int) + (seq![
            (key@, value@),
        ] + members_tree(members@).skip(r.0 as int)),
{
    let ghost m0 = members_tree(members@);
    let ghost v = value@;
    let k = chars_of(key);
    let mut j: usize = 0;
    proof {
        assert(m0.take(0) + m0.skip(0) =~= m0);
        assert(m0.skip(0) =~= m0);
    }
    while j < members.len()
        invariant
            j <= members@.len(),
            m0 == members_tree(members@),
            v == value@,
            k@ == key@,
            put(m0, key@, v) == m0.take(j as int) + put(m0.skip(j as int), key@, v),
        decreases members@.len() - j,
    {
        let other = chars_of(members[j].0.as_str());
        let rest = Ghost(m0.skip(j as int));
        proof {
            assert(m0[j as int].0 == other@);
            assert(rest@[0] == m0[j as int]);
            assert(rest@.drop_first() =~= m0.skip(j + 1));
        }
        if str_is(members[j].0.as_str(), key) {
            proof {
                assert(rest@[0].0 == key@);
                assert(put(rest@, key@, v) == seq![(key@, v)] + rest@.drop_first());
                assert(put(m0, key@, v) == m0.take(j as int) + (seq![(key@, v)] + rest@.drop_first()));
                assert(put(m0, key@, v) == m0.take(j as int) + (seq![(key@, v)] + m0.skip(j + 1)));
            }
            return (j, true);
        }
        if crate::order::text_less(k.as_slice(), other.as_slice()) {
            proof {
                assert(put(rest@, key@, v) == seq![(key@, v)] + rest@);
                assert(put(m0, key@, v) == m0.take(j as int) + (seq![(key@, v)] + m0.skip(j as int)));
            }
            return (j, false);
        }
        proof {
            assert(m0.take(j as int) + (seq![m0[j as int]] + put(m0.skip(j + 1), key@, v)) =~= m0.take(
                j + 1,
            ) + put(m0.skip(j + 1), key@, v));
        }
        j = j + 1;
    }
    proof {
        assert(m0.skip(j as int) =~= Seq::<(Seq<char>, VdfTree)>::empty());
    }
    (j, false)
}

/// Inserts or replaces `key` in members kept in key order.
fn put_member(members: &mut Vec<(String, Vdf)>, key: String, value: Vdf)
    ensures
        members_tree(final(members)@) == put(members_tree(old(members)@), key@, value.tree()),
{
    let ghost m0 = members_tree(members@);
    let ghost v = value.tree();
    let ghost k = key@;
    let (j, found) = member_slot(members, key.as_str(), Ghost(value.tree()));
    let ghost before = members@;
    if found {
        members.remove(j);
        members.insert(j, (key, value));
        proof {
            assert(members@ =~= before.update(j as int, (members@[j as int].0, members@[j as int].1)));
            assert(members_tree(members@) =~= m0.take(j as int) + (seq![(k, v)] + m0.skip(j + 1)));
        }
    } else {
        members.insert(j, (key, value));
        proof {
            assert(members_tree(members@) =~= m0.take(j as int) + (seq![(k, v)] + m0.skip(j as int)));
        }
    }
}

/// Parses the object whose members start at token `pos`, `depth` objects deep.
fn object_at(tokens: &Vec<(bool, String)>, pos: usize, depth: usize) -> (r: Result<(Vdf, usize), VdfError>)
    requires
        pos <= tokens@.len(),
        depth <= 33,
    ensures
        match r {
            Ok((v, p)) => parse_object(tokens_view(tokens@), pos as int, depth as nat) == Ok::<
                (VdfTree, int),
                VdfError,
            >((v.tree(), p as int)) && pos <= p <= tokens@.len(),
            Err(x) => parse_object(tokens_view(tokens@), pos as int, depth as nat) == Err::<
                (VdfTree, int),
                VdfError,
            >(x),
        },
    decreases tokens@.len() - pos,
{
    if depth > 32 {
        return Err(VdfError::TooDeep);
    }
    let ghost t = tokens_view(tokens@);
    let mut out: Vec<(String, Vdf)> = Vec::new();
    let mut p: usize = pos;
    proof {
        assert(members_tree(out@) =~= Seq::<(Seq<char>, VdfTree)>::empty());
    }
    while p < tokens.len()
        invariant
            pos <= p <= tokens@.len(),
            depth <= 32,
            t == tokens_view(tokens@),
            parse_object(t, pos as int, depth as nat) == parse_members(t, p as int, depth as nat, members_tree(out@)),
        decreases tokens@.len() - p,
    {
        let control = tokens[p].0;
        proof {
            assert(t[p as int] == (tokens@[p as int].0, tokens@[p as int].1@));
        }
        if control {
            let close = str_is(tokens[p].1.as_str(), "}");
            proof {
                reveal_strlit("}");
                assert("}"@ =~= seq!['}']);
            }
            if close && depth > 0 {
                let ghost m = out@;
                let object = Vdf::Object(out);
                proof {
                    assert(object.tree() == VdfTree::Object(members_tree(m)));
                }
                return Ok((object, p + 1));
            }
            return Err(VdfError::UnbalancedBrace);
        }
        if p + 1 >= tokens.len() {
            return Err(VdfError::MissingValue);
        }
        proof {
            assert(t[p + 1] == (tokens@[p + 1].0, tokens@[p + 1].1@));
        }
        let key = tokens[p].1.clone();
        if tokens[p + 1].0 {
            let open = str_is(tokens[p + 1].1.as_str(), "{");
            proof {
                reveal_strlit("{");
                assert("{"@ =~= seq!['{']);
            }
            if !open {
                return Err(VdfError::MissingObject);
            }
            match object_at(tokens, p + 2, depth + 1) {
                Err(x) => return Err(x),
                Ok((child, next)) => {
                    put_member(&mut out, key, child);
                    p = next;
                },
            }
        } else {
            let text = Vdf::Text(tokens[p + 1].1.clone());
            put_member(&mut out, key, text);
            p = p + 2;
        }
    }
    if depth > 0 {
        return Err(VdfError::UnclosedObject);
    }
    let ghost m = out@;
    let object = Vdf::Object(out);
    proof {
        assert(object.tree() == VdfTree::Object(members_tree(m)));
    }
    Ok((object, p))
}

/// Parses KeyValues text.
pub fn parse_vdf(input: &str) -> (r: Result<Vdf, VdfError>)
    ensures
        match r {
            Ok(v) => parsed_vdf(input@) == Ok::<VdfTree, VdfError>(v.tree()),
            Err(x) => parsed_vdf(input@) == Err::<VdfTree, VdfError>(x),
        },
{
    let all = chars_of(input);
    let trimmed = crate::text::trim_start_matches_char(all.as_slice(), '\u{feff}');
    let tokens = match tokens_of(&trimmed, 0) {
        Ok(t) => t,
        Err(x) => return Err(x),
    };
    match object_at(&tokens, 0, 0) {
        Ok((v, _)) => Ok(v),
        Err(x) => Err(x),
    }
}

/// The value of member `key`, where the value is an object that has one.
pub open spec fn tree_get(v: VdfTree, key: Seq<char>) -> Option<VdfTree> {
    match v {
        VdfTree::Object(m) => match first_key(m, key) {
            Some(i) => Some(m[i].1),
            None => None,
        },
        VdfTree::Text(_) => None,
    }
}

/// The first position of `m` with key `key`.
pub open spec fn first_key(m: Seq<(Seq<char>, VdfTree)>, key: Seq<char>) -> Option<int>
    decreases m.len(),
{
    if m.len() == 0 {
        None
    } else if m[0].0 == key {
        Some(0)
    } else {
        match first_key(m.drop_first(), key) {
            Some(i) => Some(i + 1),
            None => None,
        }
    }
}

/// The text a value holds, if it is text.
pub open spec fn tree_text(v: VdfTree) -> Option<Seq<char>> {
    match v {
        VdfTree::Text(s) => Some(s),
        VdfTree::Object(_) => None,
    }
}

impl Vdf {
    /// The value of member `key`, where this is an object that has one.
    pub fn get(&self, key: &str) -> (r: Option<&Vdf>)
        ensures
            match r {
                Some(v) => tree_get(self.tree(), key@) == Some(v.tree()),
                None => tree_get(self.tree(), key@) is None,
            },
    {
        match self {
            Vdf::Object(members) => {
                let ghost m = members_tree(members@);
                proof {
                    assert(self.tree() == VdfTree::Object(m));
                    assert(m.skip(0) =~= m);
                }
                let mut i: usize = 0;
                while i < members.len()
                    invariant
                        i <= members@.len(),
                        m == members_tree(members@),
                        self.tree() == VdfTree::Object(m),
                        first_key(m, key@) == match first_key(m.skip(i as int), key@) {
                            Some(k) => Some(k + i),
                            None => None,
                        },
                    decreases members@.len() - i,
                {
                    proof {
                        assert(m.skip(i as int)[0] == m[i as int]);
                        assert(m.skip(i as int).drop_first() =~= m.skip(i + 1));
                    }
                    if str_is(members[i].0.as_str(), key) {
                        proof {
                            assert(m[i as int] == (members@[i as int].0@, members@[i as int].1.tree()));
                            assert(first_key(m.skip(i as int), key@) == Some(0int));
                        }
                        return Some(&members[i].1);
                    }
                    i = i + 1;
                }
                proof {
                    assert(m.skip(i as int) =~= Seq::<(Seq<char>, VdfTree)>::empty());
                }
                None
            },
            Vdf::Text(_) => None,
        }
    }

    /// The text this value holds, if it is text.
    pub fn text(&self) -> (r: Option<&str>)
        ensures
            match r {
                Some(s) => tree_text(self.tree()) == Some(s@),
                None => tree_text(self.tree()) is None,
            },
    {
        match self {
            Vdf::Text(s) => Some(s.as_str()),
            Vdf::Object(_) => None,
        }
    }
}

} // verus!
