//! Steam save-path resolution: the placeholders of the path database, the patterns a game's
//! rules give, and the set of save locations a scan collects, keyed by lower-cased path.
use crate::order::{lemma_slot_is_point, lex_lt, stable_sort, text_less};
use crate::registry::{lowercase, to_lowercase};
use crate::steam::{applicable_spec, expanded, vars_view, expand_pattern, FoundSource, GameRules, Rule};
use crate::text::{chars_of, concat_chars, replace_char, replace_chars, string_of};
use crate::steam::FoundGame;
use std::collections::BTreeMap;
use vstd::prelude::*;
use vstd::std_specs::cmp::OrdSpec;

verus! {

/// `s` with each of `?`, `*`, `[` and `]` enclosed in brackets, so that a glob pattern
/// matches it literally.
pub open spec fn escaped_glob(s: Seq<char>) -> Seq<char>
    decreases s.len(),
{
    if s.len() == 0 {
        Seq::empty()
    } else {
        let c = s.last();
        if c == '?' || c == '*' || c == '[' || c == ']' {
            escaped_glob(s.drop_last()) + seq!['[', c, ']']
        } else {
            escaped_glob(s.drop_last()).push(c)
        }
    }
}

/// Escapes text for use inside a glob pattern (`glob::Pattern::escape`).
#[verifier::external_body]
fn glob_escape(s: &str) -> (r: String)
    ensures
        r@ == escaped_glob(s@),
{
    glob::Pattern::escape(s)
}

/// A path as a glob pattern that matches it literally, with `/` separators.
pub open spec fn literal_path(path: Seq<char>) -> Seq<char> {
    escaped_glob(replace_char(path, '\\', '/'))
}

fn literal_path_exec(path: &str) -> (r: String)
    ensures
        r@ == literal_path(path@),
{
    let raw = chars_of(path);
    let slashed = string_of(replace_chars(raw.as_slice(), '\\', '/').as_slice());
    glob_escape(slashed.as_str())
}

/// The folders of this machine and account that save paths may refer to; `None` where the
/// system does not know one.
#[derive(Clone, Debug)]
pub struct PlaceholderDirs {
    pub home: Option<String>,
    pub documents: Option<String>,
    pub app_data: Option<String>,
    pub local_app_data: Option<String>,
    /// `AppData/LocalLow` below the home folder.
    pub local_app_data_low: Option<String>,
    pub public: Option<String>,
    pub program_data: Option<String>,
    pub windows: Option<String>,
    pub user_name: Option<String>,
}

/// One placeholder whose value is a folder, when the folder is known.
pub open spec fn folder_var(key: Seq<char>, value: Option<String>) -> Seq<(Seq<char>, Seq<char>)> {
    match value {
        Some(v) => seq![(key, literal_path(v@))],
        None => Seq::empty(),
    }
}

/// The placeholders of the path database for one installed game, ordered by name:
/// folders become literal glob patterns with `/` separators, the account matches any user.
pub open spec fn placeholder_vars(
    root: Seq<char>,
    library: Seq<char>,
    install: Seq<char>,
    install_name: Seq<char>,
    app_id: Seq<char>,
    dirs: PlaceholderDirs,
) -> Seq<(Seq<char>, Seq<char>)> {
    seq![("base"@, literal_path(install)), ("game"@, escaped_glob(install_name))]
        + folder_var("home"@, dirs.home)
        + match dirs.user_name {
            Some(n) => seq![("osUserName"@, escaped_glob(n@))],
            None => Seq::empty(),
        }
        + seq![("root"@, literal_path(library)), ("steam"@, literal_path(root)), ("storeGameId"@, app_id), ("storeUserId"@, "*"@)]
        + folder_var("winAppData"@, dirs.app_data)
        + folder_var("winDir"@, dirs.windows)
        + folder_var("winDocuments"@, dirs.documents)
        + folder_var("winLocalAppData"@, dirs.local_app_data)
        + folder_var("winLocalAppDataLow"@, dirs.local_app_data_low)
        + folder_var("winProgramData"@, dirs.program_data)
        + folder_var("winPublic"@, dirs.public)
}

fn push_var(vars: &mut Vec<(String, String)>, key: &str, value: String)
    ensures
        vars_view(final(vars)@) == vars_view(old(vars)@).push((key@, value@)),
{
    vars.push((key.to_owned(), value));
    proof {
        assert(vars_view(vars@) =~= vars_view(old(vars)@).push((key@, value@)));
    }
}

fn push_folder_var(vars: &mut Vec<(String, String)>, key: &str, value: &Option<String>)
    ensures
        vars_view(final(vars)@) == vars_view(old(vars)@) + folder_var(key@, *value),
{
    match value {
        Some(v) => {
            let p = literal_path_exec(v.as_str());
            push_var(vars, key, p);
            proof {
                assert(vars_view(old(vars)@).push((key@, literal_path(v@))) =~= vars_view(old(vars)@)
                    + folder_var(key@, *value));
            }
        },
        None => {
            proof {
                assert(vars_view(old(vars)@) + folder_var(key@, *value) =~= vars_view(old(vars)@));
            }
        },
    }
}

/// The placeholders for one installed game: `install_name` is the last component of
/// `install`, `root` the Steam client folder and `library` the library that holds the game.
pub fn placeholders(
    root: &str,
    library: &str,
    install: &str,
    install_name: &str,
    app_id: &str,
    dirs: &PlaceholderDirs,
) -> (r: Vec<(String, String)>)
    ensures
        vars_view(r@) == placeholder_vars(root@, library@, install@, install_name@, app_id@, *dirs),
{
    let mut vars: Vec<(String, String)> = Vec::new();
    push_var(&mut vars, "base", literal_path_exec(install));
    push_var(&mut vars, "game", glob_escape(install_name));
    push_folder_var(&mut vars, "home", &dirs.home);
    match &dirs.user_name {
        Some(n) => push_var(&mut vars, "osUserName", glob_escape(n.as_str())),
        None => {},
    }
    push_var(&mut vars, "root", literal_path_exec(library));
    push_var(&mut vars, "steam", literal_path_exec(root));
    push_var(&mut vars, "storeGameId", app_id.to_owned());
    push_var(&mut vars, "storeUserId", "*".to_owned());
    push_folder_var(&mut vars, "winAppData", &dirs.app_data);
    push_folder_var(&mut vars, "winDir", &dirs.windows);
    push_folder_var(&mut vars, "winDocuments", &dirs.documents);
    push_folder_var(&mut vars, "winLocalAppData", &dirs.local_app_data);
    push_folder_var(&mut vars, "winLocalAppDataLow", &dirs.local_app_data_low);
    push_folder_var(&mut vars, "winProgramData", &dirs.program_data);
    push_folder_var(&mut vars, "winPublic", &dirs.public);
    proof {
        assert(vars_view(vars@) =~= placeholder_vars(
            root@,
            library@,
            install@,
            install_name@,
            app_id@,
            *dirs,
        ));
    }
    vars
}

/// The pattern of the Steam Cloud folders of a game, for every account.
pub open spec fn userdata_pattern_spec(root: Seq<char>, app_id: Seq<char>) -> Seq<char> {
    literal_path(root) + "/userdata/*/"@ + app_id + "/remote"@
}

/// The pattern that matches a game's Steam Cloud folders below the client's `userdata`.
pub fn userdata_pattern(root: &str, app_id: &str) -> (r: String)
    ensures
        r@ == userdata_pattern_spec(root@, app_id@),
{
    let base = chars_of(literal_path_exec(root).as_str());
    let a = concat_chars(base.as_slice(), chars_of("/userdata/*/").as_slice());
    let b = concat_chars(a.as_slice(), chars_of(app_id).as_slice());
    let c = concat_chars(b.as_slice(), chars_of("/remote").as_slice());
    string_of(c.as_slice())
}

/// The filled-in patterns of a game's applicable file rules, in rule order; a pattern with
/// a placeholder left unfilled is dropped.
pub open spec fn rule_patterns(
    files: Seq<(String, Rule)>,
    vars: Seq<(Seq<char>, Seq<char>)>,
) -> Seq<Seq<char>>
    decreases files.len(),
{
    if files.len() == 0 {
        Seq::empty()
    } else {
        let earlier = rule_patterns(files.drop_last(), vars);
        let (pattern, rule) = files.last();
        if applicable_spec(rule) {
            match expanded(pattern@, vars) {
                Some(p) => earlier.push(p),
                None => earlier,
            }
        } else {
            earlier
        }
    }
}

/// The patterns to search for a game's saves; the caller keeps those that are absolute
/// paths on this system.
pub fn save_patterns(rules: &GameRules, vars: &Vec<(String, String)>) -> (r: Vec<String>)
    ensures
        r@.map_values(|s: String| s@) == rule_patterns(rules.files@, vars_view(vars@)),
{
    let mut patterns: Vec<String> = Vec::new();
    let mut i: usize = 0;
    while i < rules.files.len()
        invariant
            i <= rules.files@.len(),
            patterns@.map_values(|s: String| s@) == rule_patterns(
                rules.files@.take(i as int),
                vars_view(vars@),
            ),
        decreases rules.files@.len() - i,
    {
        let pair = &rules.files[i];
        proof {
            assert(rules.files@.take(i + 1).drop_last() =~= rules.files@.take(i as int));
        }
        if pair.1.applicable() {
            match expand_pattern(pair.0.as_str(), vars) {
                Some(p) => patterns.push(p),
                None => {},
            }
        }
        i = i + 1;
        proof {
            assert(patterns@.map_values(|s: String| s@) =~= rule_patterns(
                rules.files@.take(i as int),
                vars_view(vars@),
            ));
        }
    }
    proof {
        assert(rules.files@.take(i as int) =~= rules.files@);
    }
    patterns
}

/// The registry keys of a game's applicable registry rules, with `\` separators.
pub open spec fn rule_keys(registry: Seq<(String, Rule)>) -> Seq<Seq<char>>
    decreases registry.len(),
{
    if registry.len() == 0 {
        Seq::empty()
    } else {
        let earlier = rule_keys(registry.drop_last());
        let (path, rule) = registry.last();
        if applicable_spec(rule) {
            earlier.push(replace_char(path@, '/', '\\'))
        } else {
            earlier
        }
    }
}

/// The registry keys to look for a game's saves in.
pub fn registry_rule_paths(rules: &GameRules) -> (r: Vec<String>)
    ensures
        r@.map_values(|s: String| s@) == rule_keys(rules.registry@),
{
    let mut keys: Vec<String> = Vec::new();
    let mut i: usize = 0;
    while i < rules.registry.len()
        invariant
            i <= rules.registry@.len(),
            keys@.map_values(|s: String| s@) == rule_keys(rules.registry@.take(i as int)),
        decreases rules.registry@.len() - i,
    {
        let pair = &rules.registry[i];
        proof {
            assert(rules.registry@.take(i + 1).drop_last() =~= rules.registry@.take(i as int));
        }
        if pair.1.applicable() {
            let raw = chars_of(pair.0.as_str());
            keys.push(string_of(replace_chars(raw.as_slice(), '/', '\\').as_slice()));
        }
        i = i + 1;
        proof {
            assert(keys@.map_values(|s: String| s@) =~= rule_keys(rules.registry@.take(i as int)));
        }
    }
    proof {
        assert(rules.registry@.take(i as int) =~= rules.registry@);
    }
    keys
}

/// The key a save location is collected under: its lower-cased path.
pub open spec fn source_key(s: FoundSource) -> Seq<char> {
    lowercase(s.path@)
}

/// The first position of a location with key `k`.
pub open spec fn key_index(s: Seq<FoundSource>, k: Seq<char>) -> Option<int>
    decreases s.len(),
{
    if s.len() == 0 {
        None
    } else if source_key(s[0]) == k {
        Some(0)
    } else {
        match key_index(s.drop_first(), k) {
            Some(i) => Some(i + 1),
            None => None,
        }
    }
}

proof fn lemma_key_index(s: Seq<FoundSource>, k: Seq<char>, i: int)
    requires
        0 <= i <= s.len(),
        forall|j: int| 0 <= j < i ==> source_key(#[trigger] s[j]) != k,
    ensures
        i < s.len() && source_key(s[i]) == k ==> key_index(s, k) == Some(i),
        i == s.len() ==> key_index(s, k) is None,
    decreases i,
{
    if i > 0 {
        assert forall|j: int| 0 <= j < i - 1 implies source_key(#[trigger] s.drop_first()[j]) != k by {
            assert(s.drop_first()[j] == s[j + 1]);
        }
        lemma_key_index(s.drop_first(), k, i - 1);
        if i < s.len() {
            assert(s.drop_first()[i - 1] == s[i]);
        }
    }
}

/// `x` collected into `s`: a location with the same key is replaced when `replace`, else
/// kept; a new key is added at the end.
pub open spec fn put_source(s: Seq<FoundSource>, x: FoundSource, replace: bool) -> Seq<FoundSource> {
    match key_index(s, source_key(x)) {
        Some(i) => if replace {
            s.update(i, x)
        } else {
            s
        },
        None => s.push(x),
    }
}

/// Collects a save location under its lower-cased path.
pub fn put_found_source(sources: &mut Vec<FoundSource>, source: FoundSource, replace: bool)
    ensures
        final(sources)@ == put_source(old(sources)@, source, replace),
{
    let key = to_lowercase(source.path.as_str());
    let mut i: usize = 0;
    while i < sources.len()
        invariant
            i <= sources@.len(),
            sources@ == old(sources)@,
            key@ == source_key(source),
            forall|j: int| 0 <= j < i ==> source_key(#[trigger] sources@[j]) != key@,
        decreases sources@.len() - i,
    {
        let other = to_lowercase(sources[i].path.as_str());
        if crate::remote::str_is(other.as_str(), key.as_str()) {
            proof {
                lemma_key_index(sources@, key@, i as int);
            }
            if replace {
                sources.set(i, source);
            }
            return;
        }
        i = i + 1;
    }
    proof {
        lemma_key_index(sources@, key@, i as int);
    }
    sources.push(source);
}

/// The most locations one game collects from its patterns.
pub const MAX_MATCHES: usize = 5000;

/// What one path a pattern matched turned out to be.
#[derive(Clone, Debug)]
pub enum GlobMatch {
    /// A file or folder that is no symbolic link, as a save location.
    Found(FoundSource),
    /// Neither a file nor a folder, or a symbolic link.
    Unusable,
    /// The path could not be read; the reason.
    Failed(String),
}

pub open spec fn too_many_matches_message() -> Seq<char> {
    "单个游戏匹配路径过多，已限制为 5000 个，请核对后添加。"@
}

pub open spec fn unreadable_prefix() -> Seq<char> {
    "部分路径无法访问："@
}

/// Locations and warnings after the matches of one pattern, and whether collecting stopped
/// at the limit.
pub open spec fn collect_matches(
    sources: Seq<FoundSource>,
    warnings: Seq<Seq<char>>,
    matches: Seq<GlobMatch>,
) -> (Seq<FoundSource>, Seq<Seq<char>>, bool)
    decreases matches.len(),
{
    if matches.len() == 0 {
        (sources, warnings, false)
    } else {
        let (s, w, stopped) = collect_matches(sources, warnings, matches.drop_last());
        if stopped {
            (s, w, true)
        } else if s.len() >= MAX_MATCHES {
            (s, w.push(too_many_matches_message()), true)
        } else {
            match matches.last() {
                GlobMatch::Found(f) => (put_source(s, f, false), w, false),
                GlobMatch::Unusable => (s, w, false),
                GlobMatch::Failed(e) => (s, w.push(unreadable_prefix() + e@), false),
            }
        }
    }
}

proof fn lemma_collect_stopped(
    sources: Seq<FoundSource>,
    warnings: Seq<Seq<char>>,
    matches: Seq<GlobMatch>,
    n: int,
)
    requires
        0 <= n <= matches.len(),
        collect_matches(sources, warnings, matches.take(n)).2,
    ensures
        collect_matches(sources, warnings, matches) == collect_matches(
            sources,
            warnings,
            matches.take(n),
        ),
    decreases matches.len(),
{
    if n == matches.len() {
        assert(matches.take(n) =~= matches);
    } else {
        assert(matches.drop_last().take(n) =~= matches.take(n));
        lemma_collect_stopped(sources, warnings, matches.drop_last(), n);
    }
}

fn text(s: &str) -> (r: String)
    ensures
        r@ == s@,
{
    s.to_owned()
}

/// Collects the paths one pattern matched, in match order: the first location under a key
/// stays, collection stops with a warning once the game has `MAX_MATCHES` locations, and
/// unreadable paths are reported.
pub fn add_glob_matches(
    sources: &mut Vec<FoundSource>,
    matches: Vec<GlobMatch>,
    warnings: &mut Vec<String>,
)
    ensures
        final(sources)@ == collect_matches(
            old(sources)@,
            old(warnings)@.map_values(|w: String| w@),
            matches@,
        ).0,
        final(warnings)@.map_values(|w: String| w@) == collect_matches(
            old(sources)@,
            old(warnings)@.map_values(|w: String| w@),
            matches@,
        ).1,
{
    let ghost s0 = sources@;
    let ghost w0 = warnings@.map_values(|w: String| w@);
    let ghost all = matches@;
    let total = matches.len();
    let mut rest = matches;
    let mut n: usize = 0;
    proof {
        assert(all.take(0) =~= Seq::<GlobMatch>::empty());
        assert(rest@ =~= all.skip(0));
    }
    while rest.len() > 0
        invariant
            n <= all.len(),
            all.len() == total,
            all == matches@,
            rest@ == all.skip(n as int),
            s0 == old(sources)@,
            w0 == old(warnings)@.map_values(|w: String| w@),
            collect_matches(s0, w0, all.take(n as int)) == (
                sources@,
                warnings@.map_values(|w: String| w@),
                false,
            ),
        decreases rest@.len(),
    {
        let m = rest.remove(0);
        proof {
            assert(m == all[n as int]);
            assert(all.take(n + 1).drop_last() =~= all.take(n as int));
            assert(all.take(n + 1).last() == m);
        }
        let ghost before = warnings@.map_values(|w: String| w@);
        if sources.len() >= MAX_MATCHES {
            let w = text("单个游戏匹配路径过多，已限制为 5000 个，请核对后添加。");
            warnings.push(w);
            proof {
                assert(warnings@.map_values(|w: String| w@) =~= before.push(w@));
                assert(collect_matches(s0, w0, all.take(n + 1)) == (
                    sources@,
                    before.push(too_many_matches_message()),
                    true,
                ));
                lemma_collect_stopped(s0, w0, all, n + 1);
            }
            return;
        }
        match m {
            GlobMatch::Found(f) => put_found_source(sources, f, false),
            GlobMatch::Unusable => {},
            GlobMatch::Failed(e) => {
                let prefix = chars_of("部分路径无法访问：");
                let joined = concat_chars(prefix.as_slice(), chars_of(e.as_str()).as_slice());
                let w = string_of(joined.as_slice());
                warnings.push(w);
                proof {
                    assert(warnings@.map_values(|w: String| w@) =~= before.push(w@));
                }
            },
        }
        n = n + 1;
        proof {
            assert(rest@ =~= all.skip(n as int));
        }
    }
    proof {
        assert(all.take(n as int) =~= all);
    }
}

/// Save locations ordered by their lower-cased path.
pub open spec fn key_before() -> spec_fn(FoundSource, FoundSource) -> bool {
    |a: FoundSource, b: FoundSource| lex_lt(source_key(a), source_key(b))
}

fn key_slot(sorted: &Vec<FoundSource>, key: &Vec<char>, x: &FoundSource) -> (p: usize)
    requires
        key@ == source_key(*x),
    ensures
        p <= sorted@.len(),
        forall|j: int| 0 <= j < p ==> !key_before()(*x, #[trigger] sorted@[j]),
        p < sorted@.len() ==> key_before()(*x, sorted@[p as int]),
{
    let mut i: usize = 0;
    while i < sorted.len()
        invariant
            i <= sorted@.len(),
            key@ == source_key(*x),
            forall|j: int| 0 <= j < i ==> !key_before()(*x, #[trigger] sorted@[j]),
        decreases sorted@.len() - i,
    {
        let other = chars_of(to_lowercase(sorted[i].path.as_str()).as_str());
        if text_less(key.as_slice(), other.as_slice()) {
            return i;
        }
        i = i + 1;
    }
    i
}

/// Orders collected save locations by lower-cased path (the order of their keys).
pub fn sort_found_sources(sources: Vec<FoundSource>) -> (r: Vec<FoundSource>)
    ensures
        r@ == stable_sort(sources@, key_before()),
{
    let ghost all = sources@;
    let total = sources.len();
    let mut rest = sources;
    let mut sorted: Vec<FoundSource> = Vec::new();
    let mut n: usize = 0;
    proof {
        assert(all.take(0) =~= Seq::<FoundSource>::empty());
        assert(rest@ =~= all.skip(0));
    }
    while rest.len() > 0
        invariant
            all.len() == total,
            n <= all.len(),
            rest@ == all.skip(n as int),
            sorted@ == stable_sort(all.take(n as int), key_before()),
        decreases rest@.len(),
    {
        let x = rest.remove(0);
        proof {
            assert(x == all[n as int]);
        }
        let key = chars_of(to_lowercase(x.path.as_str()).as_str());
        let p = key_slot(&sorted, &key, &x);
        let ghost prev = sorted@;
        proof {
            lemma_slot_is_point(prev, x, key_before(), p as int);
            let s = all.take(n + 1);
            assert(s.drop_last() =~= all.take(n as int));
            assert(s.last() == x);
        }
        sorted.insert(p, x);
        n = n + 1;
        proof {
            assert(rest@ =~= all.skip(n as int));
        }
    }
    proof {
        assert(all.take(n as int) =~= all);
    }
    sorted
}

/// Whether ids increase strictly.
pub open spec fn increasing(ids: Seq<u32>) -> bool {
    forall|i: int, j: int| 0 <= i < j < ids.len() ==> ids[i] < ids[j]
}

/// Records an installed game under its Steam app id; a game already recorded under the id
/// (from an earlier library) stays.
pub fn add_installed_game(games: &mut BTreeMap<u32, FoundGame>, id: u32, game: FoundGame)
    ensures
        final(games)@ == if old(games)@.contains_key(id) {
            old(games)@
        } else {
            old(games)@.insert(id, game)
        },
{
    broadcast use vstd::std_specs::btree::group_btree_axioms, vstd::laws_cmp::group_laws_cmp;

    if !games.contains_key(&id) {
        games.insert(id, game);
    }
}

/// The app ids of the recorded games, in increasing order.
fn installed_ids(games: &BTreeMap<u32, FoundGame>) -> (r: Vec<u32>)
    ensures
        increasing(r@),
        r@.to_set() == games@.dom(),
{
    broadcast use vstd::std_specs::btree::group_btree_axioms, vstd::laws_cmp::group_laws_cmp;

    let mut ids: Vec<u32> = Vec::new();
    for kv in it: games.iter()
        invariant
            ids@.len() == it.index(),
            forall|i: int| 0 <= i < ids@.len() ==> ids@[i] == *it.seq()[i].0,
    {
        ids.push(*kv.0);
    }
    proof {
        let rem = vstd::std_specs::iter::IteratorSpec::remaining(&vstd::std_specs::btree::spec_btree_map_iter(games));
        let keys = rem.map_values(|kv: (&u32, &FoundGame)| *kv.0);
        assert(ids@ =~= keys);
        assert(vstd::std_specs::btree::increasing_seq(keys));
        assert forall|i: int, j: int| 0 <= i < j < ids@.len() implies ids@[i] < ids@[j] by {
            assert(keys[i] == ids@[i] && keys[j] == ids@[j]);
            assert(keys[i].cmp_spec(&keys[j]) is Less);
        }
        assert forall|k: u32| #[trigger] games@.dom().contains(k) implies ids@.to_set().contains(k) by {
            assert(rem.contains((&k, &games@[k])));
            let i = choose|i: int| 0 <= i < rem.len() && rem[i] == (&k, &games@[k]);
            assert(ids@[i] == k);
        }
        assert forall|k: u32| #[trigger] ids@.to_set().contains(k) implies games@.dom().contains(k) by {
            let i = choose|i: int| 0 <= i < ids@.len() && ids@[i] == k;
            assert(games@.contains_key(*rem[i].0));
        }
        assert(ids@.to_set() =~= games@.dom());
    }
    ids
}

/// App ids compare as the integers they are, as the map of recorded games needs.
proof fn lemma_app_ids_ordered()
    ensures
        vstd::laws_cmp::obeys_cmp::<u32>(),
{
    broadcast use vstd::laws_cmp::group_laws_cmp;

}

/// The recorded games in increasing app id order.
pub fn installed_games(games: BTreeMap<u32, FoundGame>) -> (r: Vec<FoundGame>)
    ensures
        exists|ids: Seq<u32>|
            #![trigger ids.to_set()]
            increasing(ids) && ids.to_set() == games@.dom() && r@ == ids.map_values(|k: u32| games@[k]),
{
    broadcast use vstd::std_specs::btree::group_btree_axioms;

    proof {
        lemma_app_ids_ordered();
    }
    let ids = installed_ids(&games);
    let ghost m = games@;
    let mut rest = games;
    let mut out: Vec<FoundGame> = Vec::new();
    let mut j: usize = 0;
    while j < ids.len()
        invariant
            j <= ids@.len(),
            increasing(ids@),
            ids@.to_set() == m.dom(),
            forall|t: int|
                j <= t < ids@.len() ==> rest@.contains_key(#[trigger] ids@[t]) && rest@[ids@[t]] == m[ids@[t]],
            out@ == ids@.take(j as int).map_values(|k: u32| m[k]),
        decreases ids@.len() - j,
    {
        let k = ids[j];
        assert(rest@.contains_key(ids@[j as int]));
        let ghost before = rest@;
        let taken = rest.remove(&k);
        let g = match taken {
            Some(g) => g,
            None => {
                proof {
                    assert(false);
                }
                return out;
            },
        };
        proof {
            assert forall|t: int| j + 1 <= t < ids@.len() implies rest@.contains_key(#[trigger] ids@[t])
                && rest@[ids@[t]] == m[ids@[t]] by {
                assert(ids@[j as int] < ids@[t]);
                assert(rest@ == before.remove(k));
            }
        }
        let ghost prev = out@;
        out.push(g);
        proof {
            assert(ids@.take(j + 1) =~= ids@.take(j as int).push(k));
            assert(out@ =~= ids@.take(j + 1).map_values(|k: u32| m[k]));
        }
        j = j + 1;
    }
    proof {
        assert(ids@.take(ids@.len() as int) =~= ids@);
    }
    out
}

} // verus!
