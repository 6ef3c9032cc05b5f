//! Source-relative backup exclusion patterns.
//!
//! Basename patterns match at any depth; patterns containing a separator are rooted at each
//! source. A trailing separator restricts a rule to directories. Matching a directory also
//! excludes its descendants. Matching ignores case and accepts both Windows and
//! forward-slash separators. Negation is unsupported.
use crate::model::strings_view;
use crate::text::{
    ascii_upper, chars_of, concat_chars, contains_char, ends_with, replace_char, replace_chars, split,
    split_chars, string_of, trim, trim_chars, trim_end_char, trim_end_matches_char, upper_ascii,
};
use vstd::prelude::*;

verus! {

/// A compiled set of globs.
#[verifier::external_type_specification]
#[verifier::external_body]
pub struct ExGlobSet(globset::GlobSet);

/// The glob patterns a compiled set holds.
pub uninterp spec fn set_globs(set: globset::GlobSet) -> Seq<Seq<char>>;

/// Whether a glob matches a path, with separators matched literally, case ignored and no
/// backslash escapes (the options every exclusion glob is built with).
pub uninterp spec fn glob_matches(glob: Seq<char>, path: Seq<char>) -> bool;

/// Why a glob does not compile with those options, if it does not.
pub uninterp spec fn glob_error(glob: Seq<char>) -> Option<Seq<char>>;

/// The `{:?}` form of a string: quoted, with escapes.
pub uninterp spec fn debug_text(s: Seq<char>) -> Seq<char>;

/// Compiles one glob with the exclusion options (`globset::GlobBuilder` with
/// `literal_separator(true)`, `case_insensitive(true)`, `backslash_escape(false)`) and
/// returns the error text where it fails.
#[verifier::external_body]
fn glob_problem(glob: &str) -> (r: Option<String>)
    ensures
        match r {
            Some(m) => glob_error(glob@) == Some(m@),
            None => glob_error(glob@) is None,
        },
{
    globset::GlobBuilder::new(glob)
        .literal_separator(true)
        .case_insensitive(true)
        .backslash_escape(false)
        .build()
        .err()
        .map(|error| error.to_string())
}

/// Why globs that each compile cannot be combined into one set (the error text of
/// `globset::GlobSetBuilder::build`), if they cannot.
pub uninterp spec fn glob_set_error(globs: Seq<Seq<char>>) -> Option<Seq<char>>;

/// Builds a set from globs that each compile (`globset::GlobSetBuilder::add` then `build`).
/// The set holds exactly those globs; where building the set itself fails, its error text
/// is returned.
#[verifier::external_body]
fn build_glob_set(globs: &Vec<String>) -> (r: Result<globset::GlobSet, String>)
    requires
        forall|i: int| 0 <= i < globs@.len() ==> glob_error(#[trigger] globs@[i]@) is None,
    ensures
        match glob_set_error(strings_view(globs@)) {
            None => r matches Ok(set) && set_globs(set) == strings_view(globs@),
            Some(m) => r matches Err(e) && e@ == m,
        },
{
    let mut builder = globset::GlobSetBuilder::new();
    for glob in globs {
        let compiled = globset::GlobBuilder::new(glob)
            .literal_separator(true)
            .case_insensitive(true)
            .backslash_escape(false)
            .build();
        if let Ok(compiled) = compiled {
            builder.add(compiled);
        }
    }
    builder.build().map_err(|error| error.to_string())
}

/// Whether any glob of a set matches a path (`globset::GlobSet::is_match`).
#[verifier::external_body]
fn set_matches(set: &globset::GlobSet, path: &str) -> (r: bool)
    ensures
        r == (exists|i: int| 0 <= i < set_globs(*set).len() && glob_matches(set_globs(*set)[i], path@)),
{
    set.is_match(path)
}

/// A string in `{:?}` form (`format!("{:?}")`).
#[verifier::external_body]
fn debug_quoted(s: &str) -> (r: String)
    ensures
        r@ == debug_text(s@),
{
    format!("{s:?}")
}

/// Registry hive names, which never name a path inside a source.
pub open spec fn is_hive_name(s: Seq<char>) -> bool {
    let u = s.map_values(|c: char| ascii_upper(c));
    u == "HKCU"@ || u == "HKLM"@ || u == "HKCR"@ || u == "HKU"@ || u == "HKCC"@ || u == "HKEY_CURRENT_USER"@
        || u == "HKEY_LOCAL_MACHINE"@ || u == "HKEY_CLASSES_ROOT"@ || u == "HKEY_USERS"@ || u
        == "HKEY_CURRENT_CONFIG"@
}

/// A pattern line with `/` separators, trimmed.
pub open spec fn normalized_line(line: Seq<char>) -> Seq<char> {
    replace_char(trim(line), '\\', '/')
}

/// Whether a non-blank pattern line is refused: rooted, empty, negated, with a drive colon or
/// NUL, with an empty, `.` or `..` component, or naming a registry hive.
pub open spec fn refused(normalized: Seq<char>) -> bool {
    let pattern = trim_end_char(normalized, '/');
    let parts = split(pattern, '/');
    ||| normalized[0] == '/'
    ||| pattern.len() == 0
    ||| pattern[0] == '!'
    ||| pattern.contains(':')
    ||| pattern.contains('\0')
    ||| exists|i: int|
        0 <= i < parts.len() && (#[trigger] parts[i] == ".."@ || parts[i] == "."@ || parts[i].len() == 0)
    ||| is_hive_name(parts[0])
}

/// The glob a valid pattern line compiles to: rooted where it has a separator, else matching
/// the name at any depth.
pub open spec fn glob_of(normalized: Seq<char>) -> Seq<char> {
    let pattern = trim_end_char(normalized, '/');
    if pattern.contains('/') {
        pattern
    } else {
        "**/"@ + pattern
    }
}

/// `Invalid source-relative exclusion pattern: ` and the line in `{:?}` form.
pub open spec fn refused_message(line: Seq<char>) -> Seq<char> {
    "Invalid source-relative exclusion pattern: "@ + debug_text(line)
}

/// `Invalid exclusion pattern `, the line in `{:?}` form, `: ` and the glob error.
pub open spec fn glob_message(line: Seq<char>, error: Seq<char>) -> Seq<char> {
    "Invalid exclusion pattern "@ + debug_text(line) + ": "@ + error
}

/// The globs of path rules and of directory rules that the lines compile to, or the
/// message for the first line that does not.
pub open spec fn compiled_rules(lines: Seq<Seq<char>>) -> Result<(Seq<Seq<char>>, Seq<Seq<char>>), Seq<char>>
    decreases lines.len(),
{
    if lines.len() == 0 {
        Ok((Seq::empty(), Seq::empty()))
    } else {
        match compiled_rules(lines.drop_last()) {
            Err(m) => Err(m),
            Ok((paths, dirs)) => {
                let line = lines.last();
                let n = normalized_line(line);
                if n.len() == 0 {
                    Ok((paths, dirs))
                } else if refused(n) {
                    Err(refused_message(line))
                } else {
                    match glob_error(glob_of(n)) {
                        Some(e) => Err(glob_message(line, e)),
                        None => if ends_with(n, seq!['/']) {
                            Ok((paths, dirs.push(glob_of(n))))
                        } else {
                            Ok((paths.push(glob_of(n)), dirs))
                        },
                    }
                }
            },
        }
    }
}

proof fn lemma_rules_error_persists(lines: Seq<Seq<char>>, j: int)
    requires
        0 <= j <= lines.len(),
        compiled_rules(lines.take(j)) is Err,
    ensures
        compiled_rules(lines) == compiled_rules(lines.take(j)),
    decreases lines.len() - j,
{
    if j < lines.len() {
        assert(lines.take(j + 1).take(j) =~= lines.take(j));
        lemma_rules_error_persists_step(lines.take(j + 1), j);
        lemma_rules_error_persists(lines, j + 1);
    } else {
        assert(lines.take(j) =~= lines);
    }
}

proof fn lemma_rules_error_persists_step(lines: Seq<Seq<char>>, j: int)
    requires
        j == lines.len() - 1,
        j >= 0,
        compiled_rules(lines.take(j)) is Err,
    ensures
        compiled_rules(lines) == compiled_rules(lines.take(j)),
{
    assert(lines.drop_last() =~= lines.take(j));
}

/// Validated source-relative backup exclusion patterns.
#[derive(Debug)]
pub struct ExclusionRules {
    paths: globset::GlobSet,
    directories: globset::GlobSet,
}

/// Whether a set matches a path.
pub open spec fn matches_any(globs: Seq<Seq<char>>, path: Seq<char>) -> bool {
    exists|i: int| 0 <= i < globs.len() && glob_matches(#[trigger] globs[i], path)
}

/// The position of the last `/` in `s`.
pub open spec fn last_slash(s: Seq<char>) -> Option<int>
    decreases s.len(),
{
    if s.len() == 0 {
        None
    } else if s.last() == '/' {
        Some(s.len() - 1)
    } else {
        last_slash(s.drop_last())
    }
}

/// Whether a candidate path or one of its ancestors (which are directories) is excluded.
pub open spec fn excluded_from(paths: Seq<Seq<char>>, dirs: Seq<Seq<char>>, candidate: Seq<char>, is_dir: bool) -> bool
    decreases candidate.len(),
{
    if candidate.len() == 0 {
        false
    } else if matches_any(paths, candidate) || (is_dir && matches_any(dirs, candidate)) {
        true
    } else {
        match last_slash(candidate) {
            None => false,
            Some(k) => if 0 <= k < candidate.len() {
                excluded_from(paths, dirs, candidate.take(k), true)
            } else {
                false
            },
        }
    }
}

fn is_hive(first: &[char]) -> (r: bool)
    ensures
        r == is_hive_name(first@),
{
    let u = upper_ascii(first);
    let text = string_of(u.as_slice());
    let s = text.as_str();
    proof {
        assert(u@ =~= first@.map_values(|c: char| ascii_upper(c)));
    }
    crate::remote::str_is(s, "HKCU") || crate::remote::str_is(s, "HKLM") || crate::remote::str_is(s, "HKCR")
        || crate::remote::str_is(s, "HKU") || crate::remote::str_is(s, "HKCC") || crate::remote::str_is(
        s,
        "HKEY_CURRENT_USER",
    ) || crate::remote::str_is(s, "HKEY_LOCAL_MACHINE") || crate::remote::str_is(s, "HKEY_CLASSES_ROOT")
        || crate::remote::str_is(s, "HKEY_USERS") || crate::remote::str_is(s, "HKEY_CURRENT_CONFIG")
}

fn bad_part(parts: &Vec<Vec<char>>) -> (r: bool)
    ensures
        r == exists|i: int|
            0 <= i < parts@.len() && ({
                let p = (#[trigger] parts@[i])@;
                p == ".."@ || p == "."@ || p.len() == 0
            }),
{
    let mut i: usize = 0;
    while i < parts.len()
        invariant
            i <= parts@.len(),
            forall|k: int|
                0 <= k < i ==> !({
                    let p = (#[trigger] parts@[k])@;
                    p == ".."@ || p == "."@ || p.len() == 0
                }),
        decreases parts@.len() - i,
    {
        let p = string_of(parts[i].as_slice());
        if crate::remote::str_is(p.as_str(), "..") || crate::remote::str_is(p.as_str(), ".") || parts[i].len() == 0 {
            return true;
        }
        i = i + 1;
    }
    false
}

/// Whether a trimmed, `/`-separated, non-blank pattern line is refused.
fn is_refused(n: &Vec<char>) -> (r: bool)
    requires
        n@.len() > 0,
    ensures
        r == refused(n@),
{
    let pattern = trim_end_matches_char(n.as_slice(), '/');
    let parts = split_chars(pattern.as_slice(), '/');
    proof {
        crate::text::lemma_split_nonempty(pattern@, '/');
        let ps = parts@.map_values(|p: Vec<char>| p@);
        assert(ps == split(pattern@, '/'));
        assert(ps[0] == parts@[0]@);
        assert((exists|i: int|
            0 <= i < parts@.len() && ({
                let p = (#[trigger] parts@[i])@;
                p == ".."@ || p == "."@ || p.len() == 0
            })) == (exists|i: int|
            0 <= i < ps.len() && (#[trigger] ps[i] == ".."@ || ps[i] == "."@ || ps[i].len() == 0))) by {
            if exists|i: int|
                0 <= i < ps.len() && (#[trigger] ps[i] == ".."@ || ps[i] == "."@ || ps[i].len() == 0) {
                let i = choose|i: int|
                    0 <= i < ps.len() && (#[trigger] ps[i] == ".."@ || ps[i] == "."@ || ps[i].len() == 0);
                assert(ps[i] == parts@[i]@);
            }
            if exists|i: int|
                0 <= i < parts@.len() && ({
                    let p = (#[trigger] parts@[i])@;
                    p == ".."@ || p == "."@ || p.len() == 0
                }) {
                let i = choose|i: int|
                    0 <= i < parts@.len() && ({
                        let p = (#[trigger] parts@[i])@;
                        p == ".."@ || p == "."@ || p.len() == 0
                    });
                assert(ps[i] == parts@[i]@);
            }
        }
    }
    n[0] == '/' || pattern.len() == 0 || pattern[0] == '!' || contains_char(pattern.as_slice(), ':')
        || contains_char(pattern.as_slice(), '\0') || bad_part(&parts) || is_hive(parts[0].as_slice())
}

fn glob_for(n: &Vec<char>) -> (r: String)
    ensures
        r@ == glob_of(n@),
{
    let pattern = trim_end_matches_char(n.as_slice(), '/');
    if contains_char(pattern.as_slice(), '/') {
        string_of(pattern.as_slice())
    } else {
        let prefix = chars_of("**/");
        let all = concat_chars(prefix.as_slice(), pattern.as_slice());
        string_of(all.as_slice())
    }
}

fn cat(a: &str, b: &str) -> (r: String)
    ensures
        r@ == a@ + b@,
{
    let x = chars_of(a);
    let y = chars_of(b);
    let all = concat_chars(x.as_slice(), y.as_slice());
    string_of(all.as_slice())
}

/// What compiling exclusion lines gives: the path and directory globs, or the first
/// refused line's message, or the message of a glob set that cannot be built (paths first).
pub open spec fn rules_outcome(lines: Seq<Seq<char>>) -> Result<(Seq<Seq<char>>, Seq<Seq<char>>), Seq<char>> {
    match compiled_rules(lines) {
        Err(m) => Err(m),
        Ok((paths, dirs)) => match glob_set_error(paths) {
            Some(m) => Err(m),
            None => match glob_set_error(dirs) {
                Some(m) => Err(m),
                None => Ok((paths, dirs)),
            },
        },
    }
}

impl ExclusionRules {
    /// The globs of the path rules.
    pub closed spec fn path_globs(&self) -> Seq<Seq<char>> {
        set_globs(self.paths)
    }

    /// The globs of the directory rules.
    pub closed spec fn directory_globs(&self) -> Seq<Seq<char>> {
        set_globs(self.directories)
    }

    /// Compiles exclusion rules, ignoring blank lines. A line is refused when it is rooted,
    /// negated, names a drive, a registry hive, NUL, or an empty, `.` or `..` component, or
    /// when its glob does not compile. Where compiled globs cannot be combined into a set,
    /// the error text of `globset` is returned.
    pub fn new(patterns: &Vec<String>) -> (r: Result<ExclusionRules, String>)
        ensures
            match rules_outcome(strings_view(patterns@)) {
                Err(m) => r matches Err(e) && e@ == m,
                Ok((paths, dirs)) => r matches Ok(rules) && rules.path_globs() == paths
                    && rules.directory_globs() == dirs,
            },
    {
        let ghost lines = strings_view(patterns@);
        let mut paths: Vec<String> = Vec::new();
        let mut dirs: Vec<String> = Vec::new();
        let mut i: usize = 0;
        proof {
            assert(lines.take(0) =~= Seq::<Seq<char>>::empty());
            assert(strings_view(paths@) =~= Seq::<Seq<char>>::empty());
            assert(strings_view(dirs@) =~= Seq::<Seq<char>>::empty());
        }
        while i < patterns.len()
            invariant
                i <= patterns@.len(),
                lines == strings_view(patterns@),
                compiled_rules(lines.take(i as int)) == Ok::<(Seq<Seq<char>>, Seq<Seq<char>>), Seq<char>>(
                    (strings_view(paths@), strings_view(dirs@)),
                ),
                forall|k: int| 0 <= k < paths@.len() ==> glob_error(#[trigger] paths@[k]@) is None,
                forall|k: int| 0 <= k < dirs@.len() ==> glob_error(#[trigger] dirs@[k]@) is None,
            decreases patterns@.len() - i,
        {
            let line = &patterns[i];
            proof {
                let t = lines.take(i + 1);
                assert(t.drop_last() =~= lines.take(i as int));
                assert(t.last() == line@);
            }
            let raw = chars_of(line.as_str());
            let trimmed = trim_chars(raw.as_slice());
            let n = replace_chars(trimmed.as_slice(), '\\', '/');
            if n.len() > 0 {
                if is_refused(&n) {
                    let quoted = debug_quoted(line.as_str());
                    let m = cat("Invalid source-relative exclusion pattern: ", quoted.as_str());
                    proof {
                        reveal_strlit("Invalid source-relative exclusion pattern: ");
                        assert(m@ =~= refused_message(line@));
                        lemma_rules_error_persists(lines, i + 1);
                    }
                    return Err(m);
                }
                let glob = glob_for(&n);
                match glob_problem(glob.as_str()) {
                    Some(e) => {
                        let quoted = debug_quoted(line.as_str());
                        let head = cat("Invalid exclusion pattern ", quoted.as_str());
                        let middle = cat(head.as_str(), ": ");
                        let m = cat(middle.as_str(), e.as_str());
                        proof {
                            reveal_strlit("Invalid exclusion pattern ");
                            reveal_strlit(": ");
                            assert(m@ =~= glob_message(line@, e@));
                            lemma_rules_error_persists(lines, i + 1);
                        }
                        return Err(m);
                    },
                    None => {},
                }
                let ghost before_paths = paths@;
                let ghost before_dirs = dirs@;
                if n[n.len() - 1] == '/' {
                    dirs.push(glob);
                    proof {
                        assert(n@.skip(n@.len() - 1) =~= seq!['/']);
                        assert(ends_with(n@, seq!['/']));
                        assert(strings_view(dirs@) =~= strings_view(before_dirs).push(glob_of(n@)));
                    }
                } else {
                    paths.push(glob);
                    proof {
                        assert(!ends_with(n@, seq!['/'])) by {
                            if ends_with(n@, seq!['/']) {
                                assert(n@.skip(n@.len() - 1)[0] == n@[n@.len() - 1]);
                            }
                        }
                        assert(strings_view(paths@) =~= strings_view(before_paths).push(glob_of(n@)));
                    }
                }
            }
            i = i + 1;
        }
        proof {
            assert(lines.take(patterns@.len() as int) =~= lines);
        }
        let path_set = match build_glob_set(&paths) {
            Ok(s) => s,
            Err(e) => return Err(e),
        };
        let dir_set = match build_glob_set(&dirs) {
            Ok(s) => s,
            Err(e) => return Err(e),
        };
        Ok(ExclusionRules { paths: path_set, directories: dir_set })
    }

    /// Tests a path relative to its source root, without touching the file system: the
    /// path is excluded where it matches a path rule, or a directory rule and is a
    /// directory, or where one of its ancestors (which are directories) is excluded.
    pub fn is_excluded(&self, relative_path: &str, is_dir: bool) -> (r: bool)
        ensures
            r == excluded_from(
                self.path_globs(),
                self.directory_globs(),
                trim_end_char(replace_char(relative_path@, '\\', '/'), '/'),
                is_dir,
            ),
    {
        let raw = chars_of(relative_path);
        let slashed = replace_chars(raw.as_slice(), '\\', '/');
        let mut candidate = trim_end_matches_char(slashed.as_slice(), '/');
        let mut directory = is_dir;
        let ghost start = candidate@;
        while candidate.len() > 0
            invariant
                start == trim_end_char(replace_char(relative_path@, '\\', '/'), '/'),
                excluded_from(self.path_globs(), self.directory_globs(), start, is_dir) == excluded_from(
                    self.path_globs(),
                    self.directory_globs(),
                    candidate@,
                    directory,
                ),
            decreases candidate@.len(),
        {
            let ghost prev = candidate@;
            let text = string_of(candidate.as_slice());
            if set_matches(&self.paths, text.as_str()) || (directory && set_matches(&self.directories, text.as_str())) {
                return true;
            }
            let mut k: usize = candidate.len();
            proof {
                assert(candidate@.take(k as int) =~= candidate@);
            }
            while k > 0 && candidate[k - 1] != '/'
                invariant
                    k <= candidate@.len(),
                    last_slash(candidate@) == last_slash(candidate@.take(k as int)),
                decreases k,
            {
                proof {
                    assert(candidate@.take(k as int).drop_last() =~= candidate@.take(k - 1));
                }
                k = k - 1;
            }
            if k == 0 {
                proof {
                    assert(candidate@.take(0) =~= Seq::<char>::empty());
                }
                return false;
            }
            proof {
                assert(last_slash(candidate@.take(k as int)) == Some(k - 1));
            }
            candidate = crate::text::copy_range(candidate.as_slice(), 0, k - 1);
            proof {
                assert(candidate@ =~= prev.take(k - 1));
            }
            directory = true;
        }
        false
    }

    /// Whether an item found under a source root (path relative to that root, and whether
    /// it is a directory) is excluded, as `is_excluded` decides it.
    pub open spec fn item_excluded(&self, item: (Seq<char>, bool)) -> bool {
        excluded_from(
            self.path_globs(),
            self.directory_globs(),
            trim_end_char(replace_char(item.0, '\\', '/'), '/'),
            item.1,
        )
    }

    fn filter_items(&self, items: &Vec<(String, bool)>, excluded: bool) -> (r: Vec<(String, bool)>)
        ensures
            r@.map_values(|it: (String, bool)| (it.0@, it.1)) == items@.map_values(
                |it: (String, bool)| (it.0@, it.1),
            ).filter(|it: (Seq<char>, bool)| self.item_excluded(it) == excluded),
    {
        let ghost all = items@.map_values(|it: (String, bool)| (it.0@, it.1));
        let ghost keep = |it: (Seq<char>, bool)| self.item_excluded(it) == excluded;
        let mut kept: Vec<(String, bool)> = Vec::new();
        let mut k: usize = 0;
        while k < items.len()
            invariant
                k <= items@.len(),
                all == items@.map_values(|it: (String, bool)| (it.0@, it.1)),
                keep == (|it: (Seq<char>, bool)| self.item_excluded(it) == excluded),
                kept@.map_values(|it: (String, bool)| (it.0@, it.1)) == all.take(k as int).filter(keep),
            decreases items@.len() - k,
        {
            let ghost prev = kept@;
            proof {
                let t = all.take(k + 1);
                assert(t.drop_last() =~= all.take(k as int));
                assert(t.last() == (items@[k as int].0@, items@[k as int].1));
                assert(t.filter(keep) == if keep(t.last()) {
                    t.drop_last().filter(keep).push(t.last())
                } else {
                    t.drop_last().filter(keep)
                }) by {
                    reveal(Seq::filter);
                }
            }
            if self.is_excluded(items[k].0.as_str(), items[k].1) == excluded {
                kept.push((items[k].0.clone(), items[k].1));
                proof {
                    assert(kept@.map_values(|it: (String, bool)| (it.0@, it.1)) =~= prev.map_values(
                        |it: (String, bool)| (it.0@, it.1),
                    ).push((items@[k as int].0@, items@[k as int].1)));
                }
            }
            k = k + 1;
        }
        proof {
            assert(all.take(items@.len() as int) =~= all);
        }
        kept
    }

    /// The items of a source that enter a new snapshot: those, in the order found, that
    /// the rules do not exclude (each as a path relative to the source root, and whether
    /// it is a directory).
    pub fn snapshot_items(&self, items: &Vec<(String, bool)>) -> (r: Vec<(String, bool)>)
        ensures
            r@.map_values(|it: (String, bool)| (it.0@, it.1)) == items@.map_values(
                |it: (String, bool)| (it.0@, it.1),
            ).filter(|it: (Seq<char>, bool)| !self.item_excluded(it)),
    {
        let r = self.filter_items(items, false);
        proof {
            assert((|it: (Seq<char>, bool)| self.item_excluded(it) == false) =~= (|it: (Seq<char>, bool)|
                !self.item_excluded(it)));
        }
        r
    }

    /// The items found in place of a directory source that a restore keeps: those, in the
    /// order found, that the rules exclude, and which the restored snapshot therefore does
    /// not hold.
    pub fn protected_items(&self, items: &Vec<(String, bool)>) -> (r: Vec<(String, bool)>)
        ensures
            r@.map_values(|it: (String, bool)| (it.0@, it.1)) == items@.map_values(
                |it: (String, bool)| (it.0@, it.1),
            ).filter(|it: (Seq<char>, bool)| self.item_excluded(it)),
    {
        let r = self.filter_items(items, true);
        proof {
            assert((|it: (Seq<char>, bool)| self.item_excluded(it) == true) =~= (|it: (Seq<char>, bool)|
                self.item_excluded(it)));
        }
        r
    }
}

} // verus!
