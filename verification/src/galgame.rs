//! Visual-novel save discovery: the choices made from what a game folder holds. Game files
//! are never executed or modified.
use crate::order::{
    insert_sorted, insertion_point, lemma_insert_at_point, lex_lt, stable_sort, text_less,
};
use crate::registry::{find_char, first_index, lowercase, to_lowercase};
use crate::remote::str_is;
use crate::text::{
    copy_range, eq_ignore_ascii_case, eq_ignore_ascii_case_spec, chars_of, contains_char, replace_char, replace_chars, starts_with, string_of, trim, trim_chars,
    trim_end_char, trim_end_matches_char,
};
use crate::update::{lines, lines_of};
use vstd::prelude::*;

verus! {

/// Names too generic to identify a game.
pub open spec fn generic_name(n: Seq<char>) -> bool {
    n == "game"@ || n == "start"@ || n == "play"@ || n == "setup"@ || n == "config"@ || n == "uninstall"@
        || n == "uninst"@ || n == "bgi"@ || n == "siglusengine"@ || n == "advhd"@ || n == "krkr"@ || n
        == "boot"@ || n == "launcher"@ || n == "engine"@ || n == "system"@ || n == "renpy"@ || n == "nw"@
}

/// Whether a name can identify a game's folders elsewhere: longer than two characters, not
/// a generic launcher or engine name, and no path.
pub open spec fn usable_name_spec(name: Seq<char>) -> bool {
    let n = lowercase(name);
    n.len() > 2 && !generic_name(n) && !n.contains('/') && !n.contains('\\') && !n.contains(':') && n != ".."@
}

/// Whether a name can identify a game's folders elsewhere.
pub fn usable_name(name: &str) -> (r: bool)
    ensures
        r == usable_name_spec(name@),
{
    let lower = to_lowercase(name);
    let n = lower.as_str();
    let chars = chars_of(n);
    let generic = str_is(n, "game") || str_is(n, "start") || str_is(n, "play") || str_is(n, "setup") || str_is(
        n,
        "config",
    ) || str_is(n, "uninstall") || str_is(n, "uninst") || str_is(n, "bgi") || str_is(n, "siglusengine")
        || str_is(n, "advhd") || str_is(n, "krkr") || str_is(n, "boot") || str_is(n, "launcher") || str_is(
        n,
        "engine",
    ) || str_is(n, "system") || str_is(n, "renpy") || str_is(n, "nw");
    chars.len() > 2 && !generic && !contains_char(chars.as_slice(), '/') && !contains_char(chars.as_slice(), '\\')
        && !contains_char(chars.as_slice(), ':') && !str_is(n, "..")
}

/// What one line of `options.rpy` says of the save directory: `None` to read on,
/// `Some(None)` to stop without one, `Some(Some(name))` for a literal, safe name.
pub open spec fn renpy_line(line: Seq<char>) -> Option<Option<Seq<char>>> {
    let t = trim(line);
    match first_index(t, '=') {
        None => None,
        Some(k) => {
            let key = trim(t.take(k));
            let value = trim(t.skip(k + 1));
            if key != "define config.save_directory"@ && key != "config.save_directory"@ {
                None
            } else if value.len() == 0 {
                Some(None)
            } else if value[0] != '\'' && value[0] != '"' {
                None
            } else {
                let rest = value.drop_first();
                match first_index(rest, value[0]) {
                    None => None,
                    Some(e) => {
                        let name = rest.take(e);
                        let tail = trim(rest.skip(e + 1));
                        if tail.len() > 0 && tail[0] != '#' {
                            None
                        } else if name.len() > 0 && name != "."@ && name != ".."@ && !name.contains('/')
                            && !name.contains('\\') && !name.contains(':') && crate::sources::trim_end_dots(name)
                            == name {
                            Some(Some(name))
                        } else {
                            None
                        }
                    },
                }
            }
        },
    }
}

/// The save directory the first deciding line names, if any.
pub open spec fn renpy_lines(ls: Seq<Seq<char>>) -> Option<Seq<char>>
    decreases ls.len(),
{
    if ls.len() == 0 {
        None
    } else {
        match renpy_line(ls[0]) {
            Some(verdict) => verdict,
            None => renpy_lines(ls.drop_first()),
        }
    }
}

fn renpy_line_exec(line: &[char]) -> (r: Option<Option<String>>)
    ensures
        match r {
            None => renpy_line(line@) is None,
            Some(None) => renpy_line(line@) == Some(None::<Seq<char>>),
            Some(Some(n)) => renpy_line(line@) == Some(Some(n@)),
        },
{
    let t = trim_chars(line);
    let k = match find_char(t.as_slice(), '=') {
        Some(k) => k,
        None => return None,
    };
    let len = t.len();
    proof {
        assert(k < len);
    }
    let head = crate::text::copy_range(t.as_slice(), 0, k);
    let after = crate::text::copy_range(t.as_slice(), k + 1, len);
    proof {
        assert(head@ =~= t@.take(k as int));
        assert(after@ =~= t@.skip(k + 1));
    }
    let key = string_of(trim_chars(head.as_slice()).as_slice());
    let value = trim_chars(after.as_slice());
    if !str_is(key.as_str(), "define config.save_directory") && !str_is(key.as_str(), "config.save_directory") {
        return None;
    }
    if value.len() == 0 {
        return Some(None);
    }
    let quote = value[0];
    if quote != '\'' && quote != '"' {
        return None;
    }
    let rest = crate::text::copy_range(value.as_slice(), 1, value.len());
    proof {
        assert(rest@ =~= value@.drop_first());
    }
    let e = match find_char(rest.as_slice(), quote) {
        Some(e) => e,
        None => return None,
    };
    let name = crate::text::copy_range(rest.as_slice(), 0, e);
    let after_quote = crate::text::copy_range(rest.as_slice(), e + 1, rest.len());
    proof {
        assert(name@ =~= rest@.take(e as int));
        assert(after_quote@ =~= rest@.skip(e + 1));
    }
    let tail = trim_chars(after_quote.as_slice());
    if tail.len() > 0 && tail[0] != '#' {
        return None;
    }
    let text = string_of(name.as_slice());
    let trimmed = trim_end_dots_exec(name.as_slice());
    if name.len() > 0 && !str_is(text.as_str(), ".") && !str_is(text.as_str(), "..") && !contains_char(name.as_slice(), '/')
        && !contains_char(name.as_slice(), '\\') && !contains_char(name.as_slice(), ':') && crate::text::chars_equal(
        trimmed.as_slice(),
        name.as_slice(),
    ) {
        Some(Some(text))
    } else {
        None
    }
}

fn trim_end_dots_exec(s: &[char]) -> (r: Vec<char>)
    ensures
        r@ == crate::sources::trim_end_dots(s@),
{
    let mut end: usize = s.len();
    proof {
        assert(s@.take(end as int) =~= s@);
    }
    while end > 0 && (s[end - 1] == '.' || s[end - 1] == ' ')
        invariant
            end <= s@.len(),
            crate::sources::trim_end_dots(s@) == crate::sources::trim_end_dots(s@.take(end as int)),
        decreases end,
    {
        proof {
            assert(s@.take(end as int).drop_last() =~= s@.take(end - 1));
        }
        end = end - 1;
    }
    crate::text::copy_range(s, 0, end)
}

/// The save directory a Ren'Py game's `options.rpy` names with a literal string, read
/// without running the script: the first `define config.save_directory = "name"` line
/// decides.
pub fn renpy_save_directory(options: &str) -> (r: Option<String>)
    ensures
        match r {
            Some(n) => renpy_lines(lines(options@)) == Some(n@),
            None => renpy_lines(lines(options@)) is None,
        },
{
    let ls = lines_of(options);
    let ghost lv = ls@.map_values(|x: Vec<char>| x@);
    let mut i: usize = 0;
    proof {
        assert(lv.skip(0) =~= lv);
    }
    while i < ls.len()
        invariant
            i <= ls@.len(),
            lv == ls@.map_values(|x: Vec<char>| x@),
            lv == lines(options@),
            renpy_lines(lv) == renpy_lines(lv.skip(i as int)),
        decreases ls@.len() - i,
    {
        proof {
            assert(lv.skip(i as int)[0] == ls@[i as int]@);
            assert(lv.skip(i as int).drop_first() =~= lv.skip(i + 1));
        }
        match renpy_line_exec(ls[i].as_slice()) {
            Some(verdict) => return verdict,
            None => {},
        }
        i = i + 1;
    }
    proof {
        assert(lv.skip(i as int) =~= Seq::<Seq<char>>::empty());
    }
    None
}

/// A path compared as Windows does: `/` separators, no trailing separator, lower case.
pub open spec fn normalized_path_spec(path: Seq<char>) -> Seq<char> {
    lowercase(trim_end_char(replace_char(path, '\\', '/'), '/'))
}

/// A path compared as Windows does.
pub fn normalized_path(path: &str) -> (r: String)
    ensures
        r@ == normalized_path_spec(path@),
{
    let chars = chars_of(path);
    let slashed = replace_chars(chars.as_slice(), '\\', '/');
    let trimmed = string_of(trim_end_matches_char(slashed.as_slice(), '/').as_slice());
    to_lowercase(trimmed.as_str())
}

/// Whether a folder found elsewhere is outside every detected installation: neither one
/// of them, nor inside one, nor holding one.
pub open spec fn external_spec(path: Seq<char>, installations: Seq<Seq<char>>) -> bool {
    let c = normalized_path_spec(path);
    forall|i: int|
        0 <= i < installations.len() ==> !(c == #[trigger] installations[i] || starts_with(c, installations[i] + seq!['/'])
            || starts_with(installations[i], c + seq!['/']))
}

/// Whether a folder found elsewhere is outside every detected installation, given their
/// normalized paths.
pub fn is_external(path: &str, installations: &Vec<String>) -> (r: bool)
    ensures
        r == external_spec(path@, crate::model::strings_view(installations@)),
{
    let c = chars_of(normalized_path(path).as_str());
    let mut with_slash = c.clone();
    with_slash.push('/');
    let mut i: usize = 0;
    while i < installations.len()
        invariant
            i <= installations@.len(),
            c@ == normalized_path_spec(path@),
            with_slash@ == c@ + seq!['/'],
            forall|k: int|
                0 <= k < i ==> !(c@ == #[trigger] crate::model::strings_view(installations@)[k] || starts_with(
                    c@,
                    crate::model::strings_view(installations@)[k] + seq!['/'],
                ) || starts_with(crate::model::strings_view(installations@)[k], c@ + seq!['/'])),
        decreases installations@.len() - i,
    {
        let install = chars_of(installations[i].as_str());
        let mut install_slash = install.clone();
        install_slash.push('/');
        proof {
            assert(crate::model::strings_view(installations@)[i as int] == install@);
            assert(install_slash@ =~= install@ + seq!['/']);
            assert(with_slash@ =~= c@ + seq!['/']);
        }
        if crate::text::chars_equal(c.as_slice(), install.as_slice()) || crate::text::has_prefix(
            c.as_slice(),
            install_slash.as_slice(),
        ) || crate::text::has_prefix(install.as_slice(), with_slash.as_slice()) {
            return false;
        }
        i = i + 1;
    }
    true
}

/// The folders found under the user folders (each as its lower-cased name and its path, in
/// the order found) that are named `name` and lie outside every installation.
pub open spec fn folders_named(name: Seq<char>, found: Seq<(Seq<char>, Seq<char>)>, installations: Seq<Seq<char>>) -> Seq<
    Seq<char>,
>
    decreases found.len(),
{
    if found.len() == 0 {
        Seq::empty()
    } else {
        let rest = folders_named(name, found.drop_last(), installations);
        let (n, p) = found.last();
        if n == name && external_spec(p, installations) {
            rest.push(p)
        } else {
            rest
        }
    }
}

/// The folders found under the user folders that a game takes as save locations: for each
/// of its candidate names in turn, the folders of that name outside every installation.
pub open spec fn external_folders_spec(
    names: Seq<Seq<char>>,
    found: Seq<(Seq<char>, Seq<char>)>,
    installations: Seq<Seq<char>>,
) -> Seq<Seq<char>>
    decreases names.len(),
{
    if names.len() == 0 {
        Seq::empty()
    } else {
        external_folders_spec(names.drop_last(), found, installations) + folders_named(
            names.last(),
            found,
            installations,
        )
    }
}

/// The folders found under the user folders (lower-cased name and path, in the order the
/// scan met them: each folder of a user folder, then the folders inside it) that a game
/// with the candidate names `names` takes as save locations, given the normalized paths of
/// every detected installation.
pub fn external_folders(names: &Vec<String>, found: &Vec<(String, String)>, installations: &Vec<String>) -> (r: Vec<
    String,
>)
    ensures
        crate::model::strings_view(r@) == external_folders_spec(
            crate::model::strings_view(names@),
            crate::cloud::pairs_view(found@),
            crate::model::strings_view(installations@),
        ),
{
    let ghost ns = crate::model::strings_view(names@);
    let ghost fs = crate::cloud::pairs_view(found@);
    let ghost inst = crate::model::strings_view(installations@);
    let mut out: Vec<String> = Vec::new();
    let mut i: usize = 0;
    proof {
        assert(ns.take(0) =~= Seq::<Seq<char>>::empty());
        assert(crate::model::strings_view(out@) =~= Seq::<Seq<char>>::empty());
    }
    while i < names.len()
        invariant
            i <= names@.len(),
            ns == crate::model::strings_view(names@),
            fs == crate::cloud::pairs_view(found@),
            inst == crate::model::strings_view(installations@),
            crate::model::strings_view(out@) == external_folders_spec(ns.take(i as int), fs, inst),
        decreases names@.len() - i,
    {
        let ghost before = crate::model::strings_view(out@);
        let mut j: usize = 0;
        proof {
            assert(fs.take(0) =~= Seq::<(Seq<char>, Seq<char>)>::empty());
            assert(before + folders_named(ns[i as int], fs.take(0), inst) =~= before);
        }
        while j < found.len()
            invariant
                i < names@.len(),
                j <= found@.len(),
                ns == crate::model::strings_view(names@),
                fs == crate::cloud::pairs_view(found@),
                inst == crate::model::strings_view(installations@),
                crate::model::strings_view(out@) == before + folders_named(ns[i as int], fs.take(j as int), inst),
            decreases found@.len() - j,
        {
            let ghost prev = out@;
            proof {
                let t = fs.take(j + 1);
                assert(t.drop_last() =~= fs.take(j as int));
                assert(t.last() == (found@[j as int].0@, found@[j as int].1@));
                assert(ns[i as int] == names@[i as int]@);
            }
            if str_is(found[j].0.as_str(), names[i].as_str()) && is_external(found[j].1.as_str(), installations) {
                out.push(found[j].1.clone());
                proof {
                    assert(crate::model::strings_view(out@) =~= crate::model::strings_view(prev).push(found@[j as int].1@));
                }
            }
            j = j + 1;
        }
        proof {
            assert(fs.take(found@.len() as int) =~= fs);
            let t = ns.take(i + 1);
            assert(t.drop_last() =~= ns.take(i as int));
            assert(t.last() == ns[i as int]);
        }
        i = i + 1;
    }
    proof {
        assert(ns.take(names@.len() as int) =~= ns);
    }
    out
}

/// What a scan saw in a candidate game folder; file names are lower-cased.
#[derive(Clone, Debug)]
pub struct FolderFacts {
    /// The lower-cased names of the folder's files.
    pub files: Vec<String>,
    /// The lower-cased names of the folder's directories.
    pub directories: Vec<String>,
    /// A `game` directory holds a `.rpa` archive.
    pub game_has_archive: bool,
    /// A `game` directory holds a `.rpy` or `.rpyc` script.
    pub game_has_script: bool,
    /// The folder holds `www/js/rpg_core.js` and `www/data/System.json`.
    pub mv_in_www: bool,
    /// The folder holds `js/rpg_core.js` and `data/System.json`.
    pub mv_at_root: bool,
    /// The folder holds `js/rmmz_core.js` and `data/System.json`.
    pub mz_at_root: bool,
    /// The folder holds `Data/BasicData/Game.dat`, or both `Data.wolf` and `Game.exe`.
    pub wolf: bool,
    /// The text of `game.ini`, or empty.
    pub ini: String,
}

/// The engine a game folder uses, where its save directories are looked for, and the
/// extension of save files kept next to the game, if any.
#[derive(Clone, Copy, Debug, PartialEq, Eq, Structural)]
pub enum SaveBase {
    /// The game folder itself.
    Root,
    /// Its `game` directory.
    GameDirectory,
    /// Its `www` directory.
    Www,
}

/// Whether a name in the list ends with `suffix`.
pub open spec fn any_ends_with(names: Seq<String>, suffix: Seq<char>) -> bool {
    exists|i: int| 0 <= i < names.len() && crate::text::ends_with((#[trigger] names[i])@, suffix)
}

/// Whether the list holds `name`.
pub open spec fn has_name(names: Seq<String>, name: Seq<char>) -> bool {
    exists|i: int| 0 <= i < names.len() && (#[trigger] names[i])@ == name
}

/// The engine a folder's contents show, with where its saves are looked for and the
/// extension of save files next to the game; `None` when the folder is not a game: it has no
/// executable, or no engine marker and no save directory.
pub open spec fn engine_spec(f: FolderFacts) -> Option<(Seq<char>, SaveBase, Option<Seq<char>>)> {
    let ini = lowercase(f.ini@);
    let data = has_name(f.directories@, "data"@) || has_name(f.files@, "data"@);
    if !any_ends_with(f.files@, ".exe"@) {
        None
    } else if any_ends_with(f.files@, ".xp3"@) {
        Some(("Kirikiri"@, SaveBase::Root, None))
    } else if has_name(f.directories@, "game"@) && (f.game_has_archive || ((has_name(f.directories@, "renpy"@)
        || has_name(f.files@, "renpy"@)) && f.game_has_script)) {
        Some(("Ren’Py"@, SaveBase::GameDirectory, None))
    } else if f.mv_in_www {
        Some(("RPG Maker MV"@, SaveBase::Www, None))
    } else if f.mv_at_root {
        Some(("RPG Maker MV"@, SaveBase::Root, None))
    } else if f.mz_at_root {
        Some(("RPG Maker MZ"@, SaveBase::Root, None))
    } else if any_ends_with(f.files@, ".rgss3a"@) || (contains_text(ini, "rgss3"@) && data) {
        Some(("RPG Maker VX Ace"@, SaveBase::Root, Some(".rvdata2"@)))
    } else if any_ends_with(f.files@, ".rgss2a"@) || (contains_text(ini, "rgss2"@) && data) {
        Some(("RPG Maker VX"@, SaveBase::Root, Some(".rvdata"@)))
    } else if any_ends_with(f.files@, ".rgssad"@) || (contains_text(ini, "rgss1"@) && data) {
        Some(("RPG Maker XP"@, SaveBase::Root, Some(".rxdata"@)))
    } else if f.wolf {
        Some(("Wolf RPG"@, SaveBase::Root, None))
    } else if has_name(f.directories@, "savedata"@) || has_name(f.directories@, "save"@) || has_name(
        f.directories@,
        "saves"@,
    ) {
        Some(("Generic"@, SaveBase::Root, None))
    } else {
        None
    }
}

/// Whether `needle` occurs in `s`.
pub open spec fn contains_text(s: Seq<char>, needle: Seq<char>) -> bool {
    exists|i: int| 0 <= i <= s.len() - needle.len() && #[trigger] s.subrange(i, i + needle.len()) == needle
}

fn any_suffix(names: &Vec<String>, suffix: &str) -> (r: bool)
    ensures
        r == any_ends_with(names@, suffix@),
{
    let tail = chars_of(suffix);
    let mut i: usize = 0;
    while i < names.len()
        invariant
            i <= names@.len(),
            tail@ == suffix@,
            forall|k: int| 0 <= k < i ==> !crate::text::ends_with((#[trigger] names@[k])@, suffix@),
        decreases names@.len() - i,
    {
        let name = chars_of(names[i].as_str());
        if crate::text::has_suffix(name.as_slice(), tail.as_slice()) {
            return true;
        }
        i = i + 1;
    }
    false
}

fn holds_name(names: &Vec<String>, name: &str) -> (r: bool)
    ensures
        r == has_name(names@, name@),
{
    let mut i: usize = 0;
    while i < names.len()
        invariant
            i <= names@.len(),
            forall|k: int| 0 <= k < i ==> (#[trigger] names@[k])@ != name@,
        decreases names@.len() - i,
    {
        if str_is(names[i].as_str(), name) {
            return true;
        }
        i = i + 1;
    }
    false
}

fn find_text(s: &[char], needle: &str) -> (r: bool)
    ensures
        r == contains_text(s@, needle@),
{
    let n = chars_of(needle);
    if n.len() > s.len() {
        return false;
    }
    let m = s.len() - n.len();
    let mut i: usize = 0;
    while i < m
        invariant
            n@ == needle@,
            m == s@.len() - n@.len(),
            s@.len() == m + n@.len(),
            s@.len() <= usize::MAX,
            i <= m,
            forall|k: int| 0 <= k < i ==> #[trigger] s@.subrange(k, k + n@.len()) != n@,
        decreases m - i,
    {
        let window = crate::text::copy_range(s, i, i + n.len());
        if crate::text::chars_equal(window.as_slice(), n.as_slice()) {
            return true;
        }
        i = i + 1;
    }
    let last = crate::text::copy_range(s, m, s.len());
    let found = crate::text::chars_equal(last.as_slice(), n.as_slice());
    proof {
        assert(last@ =~= s@.subrange(m as int, m + n@.len()));
        if !found {
            assert forall|k: int| 0 <= k <= s@.len() - needle@.len() implies #[trigger] s@.subrange(k, k + needle@.len()) != needle@ by {
                if k == m {
                    assert(s@.subrange(k, k + needle@.len()) == last@);
                }
            }
        }
    }
    found
}

/// Decides which engine a game folder uses from what a scan saw in it.
pub fn detect_engine(f: &FolderFacts) -> (r: Option<(String, SaveBase, Option<String>)>)
    ensures
        match r {
            Some((engine, base, ext)) => engine_spec(*f) == Some(
                (
                    engine@,
                    base,
                    match ext {
                        Some(e) => Some(e@),
                        None => None,
                    },
                ),
            ),
            None => engine_spec(*f) is None,
        },
{
    let ini = chars_of(to_lowercase(f.ini.as_str()).as_str());
    let data = holds_name(&f.directories, "data") || holds_name(&f.files, "data");
    if !any_suffix(&f.files, ".exe") {
        return None;
    }
    if any_suffix(&f.files, ".xp3") {
        return Some(("Kirikiri".to_owned(), SaveBase::Root, None));
    }
    if holds_name(&f.directories, "game") && (f.game_has_archive || ((holds_name(&f.directories, "renpy")
        || holds_name(&f.files, "renpy")) && f.game_has_script)) {
        return Some(("Ren’Py".to_owned(), SaveBase::GameDirectory, None));
    }
    if f.mv_in_www {
        return Some(("RPG Maker MV".to_owned(), SaveBase::Www, None));
    }
    if f.mv_at_root {
        return Some(("RPG Maker MV".to_owned(), SaveBase::Root, None));
    }
    if f.mz_at_root {
        return Some(("RPG Maker MZ".to_owned(), SaveBase::Root, None));
    }
    if any_suffix(&f.files, ".rgss3a") || (find_text(ini.as_slice(), "rgss3") && data) {
        return Some(("RPG Maker VX Ace".to_owned(), SaveBase::Root, Some(".rvdata2".to_owned())));
    }
    if any_suffix(&f.files, ".rgss2a") || (find_text(ini.as_slice(), "rgss2") && data) {
        return Some(("RPG Maker VX".to_owned(), SaveBase::Root, Some(".rvdata".to_owned())));
    }
    if any_suffix(&f.files, ".rgssad") || (find_text(ini.as_slice(), "rgss1") && data) {
        return Some(("RPG Maker XP".to_owned(), SaveBase::Root, Some(".rxdata".to_owned())));
    }
    if f.wolf {
        return Some(("Wolf RPG".to_owned(), SaveBase::Root, None));
    }
    if holds_name(&f.directories, "savedata") || holds_name(&f.directories, "save") || holds_name(
        &f.directories,
        "saves",
    ) {
        return Some(("Generic".to_owned(), SaveBase::Root, None));
    }
    None
}

/// A save location found for a game, and what pointed to it.
#[derive(Clone, Debug)]
pub struct FoundSource {
    pub path: String,
    /// `file` or `folder`.
    pub kind: String,
    /// `name`, `engine` or the kind of folder that held it.
    pub evidence: String,
}

/// A game found in the scanned tree, with its save locations.
#[derive(Clone, Debug)]
pub struct FoundGame {
    pub name: String,
    pub install_path: String,
    pub engine: String,
    pub sources: Vec<FoundSource>,
}

/// What a scan found below a root directory.
#[derive(Clone, Debug)]
pub struct ScanResult {
    pub root_path: String,
    pub scanned_at: u64,
    pub games: Vec<FoundGame>,
    pub warnings: Vec<String>,
}

/// Whether `sources` already lists `path`, ignoring ASCII case.
pub open spec fn listed_path(sources: Seq<FoundSource>, path: Seq<char>) -> bool {
    exists|i: int| 0 <= i < sources.len() && eq_ignore_ascii_case_spec((#[trigger] sources[i]).path@, path)
}

/// Adds a save location (a directory or a file, at its resolved path) unless the game lists
/// it already, ignoring ASCII case.
pub fn add_found_source(sources: &mut Vec<FoundSource>, path: String, is_dir: bool, evidence: &str)
    ensures
        listed_path(old(sources)@, path@) ==> final(sources)@ == old(sources)@,
        !listed_path(old(sources)@, path@) ==> final(sources)@.len() == old(sources)@.len() + 1
            && final(sources)@.take(old(sources)@.len() as int) == old(sources)@
            && final(sources)@.last().path@ == path@ && final(sources)@.last().kind@ == (if is_dir {
            "folder"@
        } else {
            "file"@
        }) && final(sources)@.last().evidence@ == evidence@,
{
    let wanted = chars_of(path.as_str());
    let mut i: usize = 0;
    while i < sources.len()
        invariant
            i <= sources@.len(),
            wanted@ == path@,
            forall|j: int| 0 <= j < i ==> !eq_ignore_ascii_case_spec((#[trigger] sources@[j]).path@, path@),
        decreases sources@.len() - i,
    {
        let existing = chars_of(sources[i].path.as_str());
        if eq_ignore_ascii_case(existing.as_slice(), wanted.as_slice()) {
            return;
        }
        i = i + 1;
    }
    let kind = if is_dir {
        "folder".to_owned()
    } else {
        "file".to_owned()
    };
    let ghost before = sources@;
    sources.push(FoundSource { path, kind, evidence: evidence.to_owned() });
    proof {
        assert(sources@.take(before.len() as int) =~= before);
    }
}

/// `s` with every trailing copy of `suffix` removed (`str::trim_end_matches`).
pub open spec fn strip_suffixes(s: Seq<char>, suffix: Seq<char>) -> Seq<char>
    decreases s.len(),
{
    if suffix.len() > 0 && suffix.len() <= s.len() && s.skip(s.len() - suffix.len()) == suffix {
        strip_suffixes(s.take(s.len() - suffix.len()), suffix)
    } else {
        s
    }
}

fn strip_exe(name: &[char]) -> (r: Vec<char>)
    ensures
        r@ == strip_suffixes(name@, ".exe"@),
{
    let mut end: usize = name.len();
    proof {
        assert(name@.take(end as int) =~= name@);
    }
    while end >= 4 && name[end - 4] == '.' && name[end - 3] == 'e' && name[end - 2] == 'x' && name[end
        - 1] == 'e'
        invariant
            end <= name@.len(),
            strip_suffixes(name@, ".exe"@) == strip_suffixes(name@.take(end as int), ".exe"@),
        decreases end,
    {
        proof {
            reveal_strlit(".exe");
            let t = name@.take(end as int);
            assert(t.skip(t.len() - 4) =~= ".exe"@);
            assert(t.take(t.len() - 4) =~= name@.take(end - 4));
        }
        end = end - 4;
    }
    proof {
        reveal_strlit(".exe");
        let t = name@.take(end as int);
        if end >= 4 {
            assert(t.skip(t.len() - 4) != ".exe"@) by {
                if t.skip(t.len() - 4) == ".exe"@ {
                    assert(t.skip(t.len() - 4)[0] == name@[end - 4]);
                    assert(t.skip(t.len() - 4)[1] == name@[end - 3]);
                    assert(t.skip(t.len() - 4)[2] == name@[end - 2]);
                    assert(t.skip(t.len() - 4)[3] == name@[end - 1]);
                }
            }
        }
    }
    let mut out: Vec<char> = Vec::new();
    let mut k: usize = 0;
    while k < end
        invariant
            k <= end,
            end <= name@.len(),
            out@ == name@.take(k as int),
        decreases end - k,
    {
        out.push(name[k]);
        k = k + 1;
        proof {
            assert(out@ =~= name@.take(k as int));
        }
    }
    out
}

/// Text order of names.
pub open spec fn name_before() -> spec_fn(Seq<char>, Seq<char>) -> bool {
    |a: Seq<char>, b: Seq<char>| lex_lt(a, b)
}

/// The names collected into an ordered set: each new name is placed after the names it does
/// not precede, and a name already present is not added again.
pub open spec fn name_set(names: Seq<Seq<char>>) -> Seq<Seq<char>>
    decreases names.len(),
{
    if names.len() == 0 {
        Seq::empty()
    } else {
        let before = name_set(names.drop_last());
        if before.contains(names.last()) {
            before
        } else {
            insert_sorted(before, names.last(), name_before())
        }
    }
}

/// The titles a `game.ini` gives: the trimmed values of its `title=` lines, the key compared
/// without regard to ASCII case.
pub open spec fn ini_titles(ls: Seq<Seq<char>>) -> Seq<Seq<char>>
    decreases ls.len(),
{
    if ls.len() == 0 {
        Seq::empty()
    } else {
        let before = ini_titles(ls.drop_last());
        let line = ls.last();
        match first_index(line, '=') {
            Some(k) => if eq_ignore_ascii_case_spec(trim(line.take(k)), "title"@) {
                before.push(trim(line.skip(k + 1)))
            } else {
                before
            },
            None => before,
        }
    }
}

/// The executable names of a game folder: each file child ending in `.exe`, without it.
pub open spec fn exe_names(children: Seq<(Seq<char>, bool)>) -> Seq<Seq<char>>
    decreases children.len(),
{
    if children.len() == 0 {
        Seq::empty()
    } else {
        let before = exe_names(children.drop_last());
        let (name, is_file) = children.last();
        if is_file && crate::text::ends_with(name, ".exe"@) {
            before.push(strip_suffixes(name, ".exe"@))
        } else {
            before
        }
    }
}

/// The names in `package.json` that may name the game.
pub open spec fn package_names(package: Option<crate::json::Json>) -> Seq<Seq<char>> {
    match package {
        Some(doc) => {
            let first = match crate::json::as_str(crate::json::member(doc, "name"@)) {
                Some(n) => seq![trim(n)],
                None => Seq::empty(),
            };
            let second = match crate::json::as_str(crate::json::member(doc, "productName"@)) {
                Some(n) => seq![trim(n)],
                None => Seq::empty(),
            };
            first + second
        },
        None => Seq::empty(),
    }
}

/// Keeps the usable names, lower-cased.
pub open spec fn usable_lowercase(names: Seq<Seq<char>>) -> Seq<Seq<char>>
    decreases names.len(),
{
    if names.len() == 0 {
        Seq::empty()
    } else {
        let before = usable_lowercase(names.drop_last());
        if usable_name_spec(names.last()) {
            before.push(lowercase(names.last()))
        } else {
            before
        }
    }
}

/// The names a game may go by elsewhere on disk.
pub open spec fn candidate_names_of(
    game_name: Seq<char>,
    children: Seq<(Seq<char>, bool)>,
    game_ini: Option<Seq<char>>,
    package: Option<crate::json::Json>,
) -> Seq<Seq<char>> {
    let titles = match game_ini {
        Some(text) => ini_titles(lines(text)),
        None => Seq::empty(),
    };
    name_set(
        usable_lowercase(seq![game_name] + exe_names(children) + titles + package_names(package)),
    )
}

/// The titles the lines of a `game.ini` give.
fn ini_titles_exec(text: &str, names: &mut Vec<String>)
    ensures
        strings_of(final(names)@) == strings_of(old(names)@) + ini_titles(lines(text@)),
{
    let ls = lines_of(text);
    let ghost lv = ls@.map_values(|x: Vec<char>| x@);
    let ghost start = strings_of(names@);
    let mut i: usize = 0;
    proof {
        assert(lv.take(0) =~= Seq::<Seq<char>>::empty());
        assert(start + ini_titles(lv.take(0)) =~= start);
    }
    while i < ls.len()
        invariant
            i <= ls@.len(),
            lv == ls@.map_values(|x: Vec<char>| x@),
            lv == lines(text@),
            strings_of(names@) == start + ini_titles(lv.take(i as int)),
        decreases ls@.len() - i,
    {
        let line = &ls[i];
        proof {
            assert(lv.take(i + 1).drop_last() =~= lv.take(i as int));
            assert(lv.take(i + 1).last() == line@);
        }
        match find_char(line.as_slice(), '=') {
            Some(k) => {
                let key = copy_range(line.as_slice(), 0, k);
                let key = trim_chars(key.as_slice());
                let title = chars_of("title");
                proof {
                    assert(line@.subrange(0, k as int) =~= line@.take(k as int));
                }
                if eq_ignore_ascii_case(key.as_slice(), title.as_slice()) {
                    let end = line.len();
                    assert(k < end);
                    let start: usize = if k < end {
                        k + 1
                    } else {
                        end
                    };
                    let value = copy_range(line.as_slice(), start, end);
                    let value = trim_chars(value.as_slice());
                    proof {
                        assert(line@.subrange(k + 1, line@.len() as int) =~= line@.skip(k + 1));
                    }
                    let ghost before = names@;
                    names.push(string_of(value.as_slice()));
                    proof {
                        assert(strings_of(names@) =~= strings_of(before).push(value@));
                    }
                }
            },
            None => {},
        }
        i = i + 1;
    }
    proof {
        assert(lv.take(i as int) =~= lv);
    }
}

pub open spec fn strings_of(v: Seq<String>) -> Seq<Seq<char>> {
    v.map_values(|x: String| x@)
}

/// The position where `name` goes in the ordered names: after every name it does not
/// precede.
fn name_slot(sorted: &Vec<String>, name: &[char]) -> (p: usize)
    ensures
        p <= sorted@.len(),
        forall|j: int| 0 <= j < p ==> !lex_lt(name@, #[trigger] strings_of(sorted@)[j]),
        p < sorted@.len() ==> lex_lt(name@, strings_of(sorted@)[p as int]),
{
    let mut i: usize = 0;
    while i < sorted.len()
        invariant
            i <= sorted@.len(),
            forall|j: int| 0 <= j < i ==> !lex_lt(name@, #[trigger] strings_of(sorted@)[j]),
        decreases sorted@.len() - i,
    {
        let other = chars_of(sorted[i].as_str());
        if text_less(name, other.as_slice()) {
            return i;
        }
        i = i + 1;
    }
    i
}

proof fn lemma_name_slot_point(sorted: Seq<Seq<char>>, x: Seq<char>, p: int)
    requires
        0 <= p <= sorted.len(),
        forall|j: int| 0 <= j < p ==> !lex_lt(x, #[trigger] sorted[j]),
        p < sorted.len() ==> lex_lt(x, sorted[p]),
    ensures
        insertion_point(sorted, x, name_before()) == p,
    decreases p,
{
    if p > 0 {
        assert(!name_before()(x, sorted[0]));
        assert forall|j: int| 0 <= j < p - 1 implies !lex_lt(x, #[trigger] sorted.drop_first()[j]) by {
            assert(sorted.drop_first()[j] == sorted[j + 1]);
        }
        lemma_name_slot_point(sorted.drop_first(), x, p - 1);
    } else if sorted.len() > 0 {
        assert(name_before()(x, sorted[0]));
    }
}

/// Adds `name` to an ordered set of names.
fn add_name(set: &mut Vec<String>, name: String)
    ensures
        strings_of(final(set)@) == if strings_of(old(set)@).contains(name@) {
            strings_of(old(set)@)
        } else {
            insert_sorted(strings_of(old(set)@), name@, name_before())
        },
{
    let ghost before = strings_of(set@);
    let mut i: usize = 0;
    while i < set.len()
        invariant
            i <= set@.len(),
            before == strings_of(set@),
            forall|j: int| 0 <= j < i ==> (#[trigger] set@[j])@ != name@,
        decreases set@.len() - i,
    {
        if str_is(set[i].as_str(), name.as_str()) {
            proof {
                assert(before[i as int] == name@);
            }
            return;
        }
        i = i + 1;
    }
    proof {
        if before.contains(name@) {
            let k = choose|k: int| 0 <= k < before.len() && before[k] == name@;
            assert(set@[k]@ == name@);
        }
    }
    let chars = chars_of(name.as_str());
    let p = name_slot(set, chars.as_slice());
    proof {
        lemma_name_slot_point(before, name@, p as int);
        lemma_insert_at_point(before, name@, name_before());
    }
    set.insert(p, name);
    proof {
        assert(strings_of(set@) =~= before.take(p as int) + seq![chars@] + before.skip(p as int));
    }
}

/// The names a game may go by elsewhere on disk, lower-cased and ordered: its own name, the
/// executables among its folder's children (`(name, is_file)`), the titles of its `game.ini`
/// and the names in its `package.json`, each kept only when usable.
pub fn candidate_names(
    game_name: &str,
    children: &Vec<(String, bool)>,
    game_ini: Option<&str>,
    package_json: Option<&str>,
) -> (r: Vec<String>)
    ensures
        strings_of(r@) == candidate_names_of(
            game_name@,
            children@.map_values(|c: (String, bool)| (c.0@, c.1)),
            match game_ini {
                Some(t) => Some(t@),
                None => None,
            },
            match package_json {
                Some(t) => crate::json::parsed_json(vstd::utf8::encode_utf8(t@)),
                None => None,
            },
        ),
{
    let ghost kids = children@.map_values(|c: (String, bool)| (c.0@, c.1));
    let mut names: Vec<String> = Vec::new();
    names.push(game_name.to_owned());
    let mut i: usize = 0;
    proof {
        assert(strings_of(names@) =~= seq![game_name@] + exe_names(kids.take(0)));
    }
    while i < children.len()
        invariant
            i <= children@.len(),
            kids == children@.map_values(|c: (String, bool)| (c.0@, c.1)),
            strings_of(names@) == seq![game_name@] + exe_names(kids.take(i as int)),
        decreases children@.len() - i,
    {
        proof {
            assert(kids.take(i + 1).drop_last() =~= kids.take(i as int));
            assert(kids.take(i + 1).last() == (children@[i as int].0@, children@[i as int].1));
        }
        let name = chars_of(children[i].0.as_str());
        let suffix = chars_of(".exe");
        if children[i].1 && crate::text::has_suffix(name.as_slice(), suffix.as_slice()) {
            let stem = strip_exe(name.as_slice());
            let ghost before = names@;
            names.push(string_of(stem.as_slice()));
            proof {
                assert(strings_of(names@) =~= strings_of(before).push(stem@));
            }
        }
        i = i + 1;
    }
    proof {
        assert(kids.take(i as int) =~= kids);
    }
    let ghost after_exe = strings_of(names@);
    match game_ini {
        Some(text) => ini_titles_exec(text, &mut names),
        None => {},
    }
    let ghost after_ini = strings_of(names@);
    let ghost package_doc = match package_json {
        Some(t) => crate::json::parsed_json(vstd::utf8::encode_utf8(t@)),
        None => None,
    };
    match package_json {
        Some(text) => match crate::json::parse_json(text.as_bytes()) {
            Some(doc) => {
                let ghost start = names@;
                match crate::json::get(&doc, "name") {
                    Some(crate::json::Json::Str(n)) => {
                        let t = trim_chars(chars_of(n.as_str()).as_slice());
                        names.push(string_of(t.as_slice()));
                    },
                    _ => {},
                }
                let ghost mid = names@;
                match crate::json::get(&doc, "productName") {
                    Some(crate::json::Json::Str(n)) => {
                        let t = trim_chars(chars_of(n.as_str()).as_slice());
                        names.push(string_of(t.as_slice()));
                    },
                    _ => {},
                }
                proof {
                    assert(strings_of(names@) =~= strings_of(start) + package_names(Some(doc)));
                }
            },
            None => {},
        },
        None => {},
    }
    proof {
        if package_doc is None {
            assert(strings_of(names@) =~= after_ini + package_names(package_doc));
        }
        let titles = match game_ini {
            Some(t) => ini_titles(lines(t@)),
            None => Seq::<Seq<char>>::empty(),
        };
        assert(after_ini =~= after_exe + titles);
        assert(strings_of(names@) =~= seq![game_name@] + exe_names(kids) + titles + package_names(
            package_doc,
        ));
    }
    let ghost all = strings_of(names@);
    let mut usable: Vec<String> = Vec::new();
    let mut k: usize = 0;
    proof {
        assert(all.take(0) =~= Seq::<Seq<char>>::empty());
        assert(strings_of(usable@) =~= Seq::<Seq<char>>::empty());
    }
    while k < names.len()
        invariant
            k <= names@.len(),
            all == strings_of(names@),
            strings_of(usable@) == usable_lowercase(all.take(k as int)),
        decreases names@.len() - k,
    {
        proof {
            assert(all.take(k + 1).drop_last() =~= all.take(k as int));
            assert(all.take(k + 1).last() == names@[k as int]@);
        }
        if usable_name(names[k].as_str()) {
            let lower = to_lowercase(names[k].as_str());
            let ghost before = usable@;
            usable.push(lower);
            proof {
                assert(strings_of(usable@) =~= strings_of(before).push(lower@));
            }
        }
        k = k + 1;
    }
    proof {
        assert(all.take(k as int) =~= all);
    }
    let ghost wanted = strings_of(usable@);
    let mut set: Vec<String> = Vec::new();
    let mut j: usize = 0;
    proof {
        assert(wanted.take(0) =~= Seq::<Seq<char>>::empty());
        assert(strings_of(set@) =~= Seq::<Seq<char>>::empty());
    }
    while j < usable.len()
        invariant
            j <= usable@.len(),
            wanted == strings_of(usable@),
            strings_of(set@) == name_set(wanted.take(j as int)),
        decreases usable@.len() - j,
    {
        proof {
            assert(wanted.take(j + 1).drop_last() =~= wanted.take(j as int));
            assert(wanted.take(j + 1).last() == usable@[j as int]@);
        }
        add_name(&mut set, usable[j].clone());
        j = j + 1;
    }
    proof {
        assert(wanted.take(j as int) =~= wanted);
    }
    set
}

/// Save locations ordered by path.
pub open spec fn source_before() -> spec_fn(FoundSource, FoundSource) -> bool {
    |a: FoundSource, b: FoundSource| lex_lt(a.path@, b.path@)
}

/// Games ordered by installation path.
pub open spec fn game_before() -> spec_fn(FoundGame, FoundGame) -> bool {
    |a: FoundGame, b: FoundGame| lex_lt(a.install_path@, b.install_path@)
}

proof fn lemma_slot_point<T>(sorted: Seq<T>, x: T, before: spec_fn(T, T) -> bool, p: int)
    requires
        0 <= p <= sorted.len(),
        forall|j: int| 0 <= j < p ==> !before(x, #[trigger] sorted[j]),
        p < sorted.len() ==> before(x, sorted[p]),
    ensures
        insertion_point(sorted, x, before) == p,
    decreases p,
{
    if p > 0 {
        assert forall|j: int| 0 <= j < p - 1 implies !before(x, #[trigger] sorted.drop_first()[j]) by {
            assert(sorted.drop_first()[j] == sorted[j + 1]);
        }
        lemma_slot_point(sorted.drop_first(), x, before, p - 1);
    }
}

/// The save locations of a game ordered by path (equal paths keep their order).
pub fn sort_sources(sources: Vec<FoundSource>) -> (r: Vec<FoundSource>)
    ensures
        r@ == stable_sort(sources@, source_before()),
{
    let ghost all = sources@;
    let total = sources.len();
    let mut rest = sources;
    let mut sorted: Vec<FoundSource> = Vec::new();
    let mut n: usize = 0;
    proof {
        assert(all.take(0) =~= Seq::<FoundSource>::empty());
        assert(rest@ =~= all.skip(0));
    }
    while rest.len() > 0
        invariant
            all.len() == total,
            n <= total,
            rest@ == all.skip(n as int),
            sorted@ == stable_sort(all.take(n as int), source_before()),
        decreases rest@.len(),
    {
        let x = rest.remove(0);
        proof {
            assert(x == all[n as int]);
        }
        let p = source_slot(&sorted, &x);
        let ghost prev = sorted@;
        proof {
            lemma_slot_point(prev, x, source_before(), p as int);
            lemma_insert_at_point(prev, x, source_before());
            let s = all.take(n + 1);
            assert(s.drop_last() =~= all.take(n as int));
            assert(s.last() == x);
        }
        sorted.insert(p, x);
        proof {
            assert(sorted@ =~= prev.take(p as int) + seq![x] + prev.skip(p as int));
        }
        n = n + 1;
        proof {
            assert(rest@ =~= all.skip(n as int));
        }
    }
    proof {
        assert(all.take(n as int) =~= all);
    }
    sorted
}

fn source_slot(sorted: &Vec<FoundSource>, x: &FoundSource) -> (p: usize)
    ensures
        p <= sorted@.len(),
        forall|j: int| 0 <= j < p ==> !source_before()(*x, #[trigger] sorted@[j]),
        p < sorted@.len() ==> source_before()(*x, sorted@[p as int]),
{
    let key = chars_of(x.path.as_str());
    let mut i: usize = 0;
    while i < sorted.len()
        invariant
            i <= sorted@.len(),
            key@ == x.path@,
            forall|j: int| 0 <= j < i ==> !source_before()(*x, #[trigger] sorted@[j]),
        decreases sorted@.len() - i,
    {
        let other = chars_of(sorted[i].path.as_str());
        if text_less(key.as_slice(), other.as_slice()) {
            return i;
        }
        i = i + 1;
    }
    i
}

fn game_slot(sorted: &Vec<FoundGame>, x: &FoundGame) -> (p: usize)
    ensures
        p <= sorted@.len(),
        forall|j: int| 0 <= j < p ==> !game_before()(*x, #[trigger] sorted@[j]),
        p < sorted@.len() ==> game_before()(*x, sorted@[p as int]),
{
    let key = chars_of(x.install_path.as_str());
    let mut i: usize = 0;
    while i < sorted.len()
        invariant
            i <= sorted@.len(),
            key@ == x.install_path@,
            forall|j: int| 0 <= j < i ==> !game_before()(*x, #[trigger] sorted@[j]),
        decreases sorted@.len() - i,
    {
        let other = chars_of(sorted[i].install_path.as_str());
        if text_less(key.as_slice(), other.as_slice()) {
            return i;
        }
        i = i + 1;
    }
    i
}

/// The found games ordered by installation path (equal paths keep their order).
pub fn sort_games(games: Vec<FoundGame>) -> (r: Vec<FoundGame>)
    ensures
        r@ == stable_sort(games@, game_before()),
{
    let ghost all = games@;
    let total = games.len();
    let mut rest = games;
    let mut sorted: Vec<FoundGame> = Vec::new();
    let mut n: usize = 0;
    proof {
        assert(all.take(0) =~= Seq::<FoundGame>::empty());
        assert(rest@ =~= all.skip(0));
    }
    while rest.len() > 0
        invariant
            all.len() == total,
            n <= total,
            rest@ == all.skip(n as int),
            sorted@ == stable_sort(all.take(n as int), game_before()),
        decreases rest@.len(),
    {
        let x = rest.remove(0);
        proof {
            assert(x == all[n as int]);
        }
        let p = game_slot(&sorted, &x);
        let ghost prev = sorted@;
        proof {
            lemma_slot_point(prev, x, game_before(), p as int);
            lemma_insert_at_point(prev, x, game_before());
            let s = all.take(n + 1);
            assert(s.drop_last() =~= all.take(n as int));
            assert(s.last() == x);
        }
        sorted.insert(p, x);
        proof {
            assert(sorted@ =~= prev.take(p as int) + seq![x] + prev.skip(p as int));
        }
        n = n + 1;
        proof {
            assert(rest@ =~= all.skip(n as int));
        }
    }
    proof {
        assert(all.take(n as int) =~= all);
    }
    sorted
}

/// The text of UTF-16 code units, each unpaired surrogate read as U+FFFD: a high surrogate
/// (`D800`-`DBFF`) followed by a low one (`DC00`-`DFFF`) is one character above U+FFFF,
/// any other surrogate is U+FFFD, and every other unit is the character it encodes.
pub open spec fn utf16_lossy(units: Seq<u16>) -> Seq<char>
    decreases units.len(),
{
    if units.len() == 0 {
        Seq::empty()
    } else {
        let u = units[0] as int;
        let v: int = if units.len() >= 2 {
            units[1] as int
        } else {
            0
        };
        if 0xD800 <= u < 0xDC00 && units.len() >= 2 && 0xDC00 <= v < 0xE000 {
            seq![(0x10000 + (u - 0xD800) * 0x400 + (v - 0xDC00)) as char] + utf16_lossy(
                units.skip(2),
            )
        } else if 0xD800 <= u < 0xE000 {
            seq!['\u{FFFD}'] + utf16_lossy(units.skip(1))
        } else {
            seq![u as char] + utf16_lossy(units.skip(1))
        }
    }
}

/// Decodes UTF-16 code units, replacing unpaired surrogates with U+FFFD
/// (`String::from_utf16_lossy`).
#[verifier::external_body]
fn decode_utf16_lossy(units: &[u16]) -> (r: String)
    ensures
        r@ == utf16_lossy(units@),
{
    String::from_utf16_lossy(units)
}

/// Decodes UTF-8 (`std::str::from_utf8`): the text exactly when the bytes are valid UTF-8.
#[verifier::external_body]
pub(crate) fn decode_utf8(bytes: &[u8]) -> (r: Option<String>)
    ensures
        match r {
            Some(t) => vstd::utf8::valid_utf8(bytes@) && t@ == vstd::utf8::decode_utf8(bytes@),
            None => !vstd::utf8::valid_utf8(bytes@),
        },
{
    std::str::from_utf8(bytes).ok().map(str::to_owned)
}

/// The little-endian 16-bit units of `bytes`, a trailing odd byte dropped.
pub open spec fn le_units(bytes: Seq<u8>) -> Seq<u16> {
    Seq::new(bytes.len() / 2, |i: int| (bytes[2 * i] as int + 256 * bytes[2 * i + 1] as int) as u16)
}

/// The largest configuration file read: one mebibyte.
pub const MAX_TEXT_FILE_BYTES: usize = 1_048_576;

/// The text of a small configuration file: nothing above one mebibyte; UTF-16 (little
/// endian) after a byte-order mark, decoded leniently; otherwise UTF-8, or nothing when it is
/// not valid.
pub open spec fn text_of_file(bytes: Seq<u8>) -> Option<Seq<char>> {
    if bytes.len() > MAX_TEXT_FILE_BYTES {
        None
    } else if bytes.len() >= 2 && bytes[0] == 0xff && bytes[1] == 0xfe {
        Some(utf16_lossy(le_units(bytes.skip(2))))
    } else if vstd::utf8::valid_utf8(bytes) {
        Some(vstd::utf8::decode_utf8(bytes))
    } else {
        None
    }
}

/// Decodes the contents of a small configuration file.
pub fn decode_text_file(bytes: &[u8]) -> (r: Option<String>)
    ensures
        match text_of_file(bytes@) {
            Some(t) => r matches Some(s) && s@ == t,
            None => r is None,
        },
{
    if bytes.len() > MAX_TEXT_FILE_BYTES {
        return None;
    }
    if bytes.len() >= 2 && bytes[0] == 0xff && bytes[1] == 0xfe {
        let ghost rest = bytes@.skip(2);
        let mut units: Vec<u16> = Vec::new();
        let mut i: usize = 2;
        while i + 1 < bytes.len()
            invariant
                2 <= i <= bytes@.len(),
                (i - 2) % 2 == 0,
                bytes@.len() <= MAX_TEXT_FILE_BYTES,
                rest == bytes@.skip(2),
                units@ == le_units(rest).take((i - 2) / 2),
            decreases bytes@.len() - i,
        {
            let unit: u16 = (bytes[i] as u16) + 256 * (bytes[i + 1] as u16);
            proof {
                assert(rest[i - 2] == bytes@[i as int]);
                assert(rest[i - 1] == bytes@[i + 1]);
                assert(2 * ((i - 2) / 2) == i - 2);
            }
            units.push(unit);
            i = i + 2;
            proof {
                assert(units@ =~= le_units(rest).take((i - 2) / 2));
            }
        }
        proof {
            assert((i - 2) / 2 == rest.len() / 2);
            assert(le_units(rest).take((i - 2) / 2) =~= le_units(rest));
        }
        return Some(decode_utf16_lossy(units.as_slice()));
    }
    decode_utf8(bytes)
}

/// What the file system says of a found save location when it is checked again.
#[derive(Clone, Copy, Debug)]
pub struct SourceProbe {
    /// The path passes the scanner's safety rules (no links or reparse points).
    pub safe_path: bool,
    pub is_file: bool,
    pub is_dir: bool,
    /// The location opens for reading as a file.
    pub opens: bool,
    /// The location lists as a folder.
    pub lists: bool,
}

/// Whether a save location of the given kind is still usable.
pub open spec fn source_usable(kind: Seq<char>, p: SourceProbe) -> bool {
    p.safe_path && ((kind == "file"@ && p.is_file && p.opens) || (kind == "folder"@ && p.is_dir
        && p.lists))
}

/// The paths of the save locations that are no longer usable, in order.
pub open spec fn invalid_source_paths(sources: Seq<FoundSource>, probes: Seq<SourceProbe>) -> Seq<
    Seq<char>,
>
    decreases sources.len(),
{
    if sources.len() == 0 {
        Seq::empty()
    } else {
        let k = sources.len() - 1;
        let earlier = invalid_source_paths(sources.take(k), probes.take(k));
        if source_usable(sources[k].kind@, probes[k]) {
            earlier
        } else {
            earlier.push(sources[k].path@)
        }
    }
}

/// Lists the save locations, among those found, that can no longer be used; `probes[i]` is
/// what the file system says of `sources[i]`.
pub fn validate_galgame_sources(sources: &Vec<FoundSource>, probes: &Vec<SourceProbe>) -> (r: Vec<
    String,
>)
    requires
        sources.len() == probes.len(),
    ensures
        r@.map_values(|s: String| s@) == invalid_source_paths(sources@, probes@),
{
    let mut invalid: Vec<String> = Vec::new();
    let mut i: usize = 0;
    while i < sources.len()
        invariant
            i <= sources.len(),
            sources.len() == probes.len(),
            invalid@.map_values(|s: String| s@) == invalid_source_paths(
                sources@.take(i as int),
                probes@.take(i as int),
            ),
        decreases sources.len() - i,
    {
        let source = &sources[i];
        let probe = probes[i];
        let usable = probe.safe_path && ((str_is(source.kind.as_str(), "file") && probe.is_file
            && probe.opens) || (str_is(source.kind.as_str(), "folder") && probe.is_dir
            && probe.lists));
        proof {
            assert(sources@.take(i + 1).take(i as int) =~= sources@.take(i as int));
            assert(probes@.take(i + 1).take(i as int) =~= probes@.take(i as int));
        }
        if !usable {
            invalid.push(source.path.clone());
        }
        i = i + 1;
        proof {
            assert(invalid@.map_values(|s: String| s@) =~= invalid_source_paths(
                sources@.take(i as int),
                probes@.take(i as int),
            ));
        }
    }
    proof {
        assert(sources@.take(i as int) =~= sources@);
        assert(probes@.take(i as int) =~= probes@);
    }
    invalid
}

pub open spec fn cancelled_message() -> Seq<char> {
    "galgame-scan-cancelled"@
}

/// Stops a scan once it has been cancelled.
pub fn check_cancel(cancelled: bool) -> (r: Result<(), String>)
    ensures
        cancelled <==> r is Err,
        r matches Err(m) ==> m@ == cancelled_message(),
{
    if cancelled {
        Err("galgame-scan-cancelled".to_owned())
    } else {
        Ok(())
    }
}

/// One child of a listed directory: its path, and whether it is a directory.
#[derive(Clone, Debug)]
pub struct ScanDirEntry {
    pub path: String,
    pub is_dir: bool,
}

/// Where a scan of a collection folder stands: the directories still to look at (the last
/// is looked at next), how many have been looked at, and the games found.
#[derive(Clone, Debug)]
pub struct GalgameScanState {
    pub pending: Vec<String>,
    pub checked: u64,
    pub games: Vec<FoundGame>,
}

/// A scan that will look at `root` first.
pub fn galgame_walk_start(root: String) -> (r: GalgameScanState)
    ensures
        r.pending@.len() == 1 && r.pending@[0]@ == root@,
        r.checked == 0,
        r.games@.len() == 0,
{
    let mut pending: Vec<String> = Vec::new();
    pending.push(root);
    GalgameScanState { pending, checked: 0, games: Vec::new() }
}

/// The directory a scan looks at next, taken off its list; `None` when the scan is done.
pub fn galgame_next_directory(state: &mut GalgameScanState) -> (r: Option<String>)
    ensures
        old(state).pending@.len() == 0 ==> r is None && final(state).pending@ == old(state).pending@
            && final(state).checked == old(state).checked && final(state).games@ == old(state).games@,
        old(state).pending@.len() > 0 ==> r == Some(old(state).pending@.last())
            && final(state).pending@ == old(state).pending@.drop_last()
            && final(state).checked == old(state).checked && final(state).games@ == old(state).games@,
{
    state.pending.pop()
}

/// The directories among a listing's children, in listing order.
pub open spec fn child_directories(listing: Seq<ScanDirEntry>) -> Seq<Seq<char>>
    decreases listing.len(),
{
    if listing.len() == 0 {
        Seq::empty()
    } else if listing.last().is_dir {
        child_directories(listing.drop_last()).push(listing.last().path@)
    } else {
        child_directories(listing.drop_last())
    }
}

/// Records what a scan saw in the directory it just looked at: nothing at all once the scan
/// is cancelled; otherwise the directory counts as checked, and either it is a game
/// (`game`, as detected from its contents), which is kept and not descended into, or the
/// scan goes on into its child directories. Returns the directories added to the list.
pub fn galgame_walk_step(
    state: &mut GalgameScanState,
    listing: Vec<ScanDirEntry>,
    game: Option<FoundGame>,
    cancelled: bool,
) -> (r: Result<Vec<String>, String>)
    requires
        old(state).checked < u64::MAX,
    ensures
        cancelled ==> (r matches Err(m) && m@ == cancelled_message()) && *final(state) == *old(state),
        !cancelled ==> (r matches Ok(added) && final(state).checked == old(state).checked + 1 && match game {
            Some(g) => added@.len() == 0 && final(state).games@ == old(state).games@.push(g)
                && final(state).pending@ == old(state).pending@,
            None => added@.map_values(|p: String| p@) == child_directories(listing@)
                && final(state).games@ == old(state).games@ && final(state).pending@ == old(
                state,
            ).pending@ + added@,
        }),
{
    if cancelled {
        return Err("galgame-scan-cancelled".to_owned());
    }
    let checked = state.checked + 1;
    match game {
        Some(g) => {
            state.games.push(g);
            state.checked = checked;
            Ok(Vec::new())
        },
        None => {
            let mut added: Vec<String> = Vec::new();
            let ghost start = state.pending@;
            let ghost games0 = state.games@;
            let ghost all = listing@;
            let mut rest = listing;
            let mut n: usize = 0;
            let total = rest.len();
            proof {
                assert(all.take(0) =~= Seq::<ScanDirEntry>::empty());
                assert(rest@ =~= all.skip(0));
            }
            while rest.len() > 0
                invariant
                    all.len() == total,
                    n <= all.len(),
                    rest@ == all.skip(n as int),
                    added@.map_values(|p: String| p@) == child_directories(all.take(n as int)),
                    state.pending@ == start + added@,
                    state.games@ == games0,
                decreases rest@.len(),
            {
                let item = rest.remove(0);
                proof {
                    assert(item == all[n as int]);
                    assert(all.take(n + 1).drop_last() =~= all.take(n as int));
                }
                if item.is_dir {
                    let p1 = item.path.clone();
                    let ghost pv = item.path@;
                    added.push(item.path);
                    state.pending.push(p1);
                    proof {
                        assert(added@.map_values(|p: String| p@) =~= child_directories(all.take(n as int)).push(pv));
                    }
                }
                n = n + 1;
                proof {
                    assert(rest@ =~= all.skip(n as int));
                    assert(state.pending@ =~= start + added@);
                }
            }
            proof {
                assert(all.take(n as int) =~= all);
            }
            state.checked = checked;
            Ok(added)
        },
    }
}

/// How far a scan has got: directories looked at and games found.
pub fn galgame_progress(state: &GalgameScanState) -> (r: (u64, usize))
    ensures
        r == (state.checked, state.games@.len() as usize),
{
    (state.checked, state.games.len())
}

/// Whether `name` ends with `suffix`, written out: its last `suffix.len()` characters are
/// `suffix`.
pub open spec fn name_has_suffix(name: Seq<char>, suffix: Seq<char>) -> bool {
    suffix.len() <= name.len() && name.subrange(name.len() - suffix.len(), name.len() as int) == suffix
}

proof fn lemma_listed_suffix(names: Seq<String>, i: int, suffix: Seq<char>)
    requires
        0 <= i < names.len(),
        name_has_suffix(names[i]@, suffix),
    ensures
        any_ends_with(names, suffix),
{
    assert(crate::text::ends_with(names[i]@, suffix));
}

proof fn lemma_unlisted_suffix(names: Seq<String>, suffix: Seq<char>)
    requires
        any_ends_with(names, suffix),
    ensures
        exists|i: int| 0 <= i < names.len() && name_has_suffix(#[trigger] names[i]@, suffix),
{
    let i = choose|i: int| 0 <= i < names.len() && crate::text::ends_with((#[trigger] names[i])@, suffix);
    assert(name_has_suffix(names[i]@, suffix));
}

/// A folder is only taken for a game when one of its files is an executable: whatever
/// engine is detected, some file name ends in `.exe`.
pub proof fn law_detected_games_have_an_executable(f: FolderFacts)
    ensures
        engine_spec(f) is Some ==> exists|i: int| 0 <= i < f.files@.len() && name_has_suffix(#[trigger] f.files@[i]@, ".exe"@),
{
    if engine_spec(f) is Some {
        lemma_unlisted_suffix(f.files@, ".exe"@);
    }
}

/// A folder holding an executable and a file whose name ends in `.xp3` is a Kirikiri game
/// whose saves are looked for from the folder itself, with no save extension.
pub proof fn law_kirikiri_archive_files(f: FolderFacts, exe: int, xp3: int)
    requires
        0 <= exe < f.files@.len(),
        0 <= xp3 < f.files@.len(),
        name_has_suffix(f.files@[exe]@, ".exe"@),
        name_has_suffix(f.files@[xp3]@, ".xp3"@),
    ensures
        engine_spec(f) == Some(("Kirikiri"@, SaveBase::Root, None::<Seq<char>>)),
{
    lemma_listed_suffix(f.files@, exe, ".exe"@);
    lemma_listed_suffix(f.files@, xp3, ".xp3"@);
}

/// A folder with an executable and a `game` directory holding a `.rpa` archive, and no
/// `.xp3` file, is a Ren'Py game whose saves are looked for under `game`.
pub proof fn law_renpy_game_directory(f: FolderFacts, exe: int, game: int)
    requires
        0 <= exe < f.files@.len(),
        name_has_suffix(f.files@[exe]@, ".exe"@),
        forall|i: int| 0 <= i < f.files@.len() ==> !name_has_suffix(#[trigger] f.files@[i]@, ".xp3"@),
        0 <= game < f.directories@.len(),
        f.directories@[game]@ == "game"@,
        f.game_has_archive,
    ensures
        engine_spec(f) == Some(("Ren’Py"@, SaveBase::GameDirectory, None::<Seq<char>>)),
{
    lemma_listed_suffix(f.files@, exe, ".exe"@);
    if any_ends_with(f.files@, ".xp3"@) {
        lemma_unlisted_suffix(f.files@, ".xp3"@);
    }
    assert(has_name(f.directories@, "game"@));
}

/// A folder with an executable and no other sign of an engine is taken for a game only when
/// it has a `savedata`, `save` or `saves` directory, and then it is a generic one.
pub proof fn law_unknown_engines_need_a_save_directory(f: FolderFacts)
    ensures
        engine_spec(f) matches Some((engine, _, _)) && engine == "Generic"@ ==> exists|i: int|
            0 <= i < f.directories@.len() && (#[trigger] f.directories@[i]@ == "savedata"@ || f.directories@[i]@
                == "save"@ || f.directories@[i]@ == "saves"@),
{
    reveal_strlit("Generic");
    reveal_strlit("Kirikiri");
    reveal_strlit("Ren’Py");
    reveal_strlit("RPG Maker MV");
    reveal_strlit("RPG Maker MZ");
    reveal_strlit("RPG Maker VX Ace");
    reveal_strlit("RPG Maker VX");
    reveal_strlit("RPG Maker XP");
    reveal_strlit("Wolf RPG");
    assert("Generic"@.len() == 7);
    assert("Kirikiri"@.len() == 8);
    assert("Ren’Py"@.len() == 6);
    assert("RPG Maker MV"@.len() == 12);
    assert("RPG Maker MZ"@.len() == 12);
    assert("RPG Maker VX Ace"@.len() == 16);
    assert("RPG Maker VX"@.len() == 12);
    assert("RPG Maker XP"@.len() == 12);
    assert("Wolf RPG"@.len() == 8);
    let d = f.directories@;
    if engine_spec(f) matches Some((engine, _, _)) && engine == "Generic"@ {
        assert(has_name(d, "savedata"@) || has_name(d, "save"@) || has_name(d, "saves"@));
        if has_name(d, "savedata"@) {
            let i = choose|i: int| 0 <= i < d.len() && (#[trigger] d[i])@ == "savedata"@;
            assert(d[i]@ == "savedata"@);
        } else if has_name(d, "save"@) {
            let i = choose|i: int| 0 <= i < d.len() && (#[trigger] d[i])@ == "save"@;
            assert(d[i]@ == "save"@);
        } else {
            let i = choose|i: int| 0 <= i < d.len() && (#[trigger] d[i])@ == "saves"@;
            assert(d[i]@ == "saves"@);
        }
    }
}

/// A folder with an executable, no `.xp3` file and no `game` directory, holding
/// `www/js/rpg_core.js` and `www/data/System.json`, is an RPG Maker MV game whose saves are
/// looked for under `www`.
pub proof fn law_rpg_maker_mv_under_www(f: FolderFacts, exe: int)
    requires
        0 <= exe < f.files@.len(),
        name_has_suffix(f.files@[exe]@, ".exe"@),
        forall|i: int| 0 <= i < f.files@.len() ==> !name_has_suffix(#[trigger] f.files@[i]@, ".xp3"@),
        forall|i: int| 0 <= i < f.directories@.len() ==> (#[trigger] f.directories@[i])@ != "game"@,
        f.mv_in_www,
    ensures
        engine_spec(f) == Some(("RPG Maker MV"@, SaveBase::Www, None::<Seq<char>>)),
{
    lemma_listed_suffix(f.files@, exe, ".exe"@);
    if any_ends_with(f.files@, ".xp3"@) {
        lemma_unlisted_suffix(f.files@, ".xp3"@);
    }
}

/// A folder with an executable and an `.rgss3a` archive, and no sign of an engine checked
/// before it (Kirikiri, Ren'Py, RPG Maker MV or MZ), is an RPG Maker VX Ace game whose
/// saves are `.rvdata2` files next to the game.
pub proof fn law_rpg_maker_vx_ace_archive(f: FolderFacts, exe: int, archive: int)
    requires
        0 <= exe < f.files@.len(),
        0 <= archive < f.files@.len(),
        name_has_suffix(f.files@[exe]@, ".exe"@),
        name_has_suffix(f.files@[archive]@, ".rgss3a"@),
        forall|i: int| 0 <= i < f.files@.len() ==> !name_has_suffix(#[trigger] f.files@[i]@, ".xp3"@),
        forall|i: int| 0 <= i < f.directories@.len() ==> (#[trigger] f.directories@[i])@ != "game"@,
        !f.mv_in_www,
        !f.mv_at_root,
        !f.mz_at_root,
    ensures
        engine_spec(f) == Some(("RPG Maker VX Ace"@, SaveBase::Root, Some(".rvdata2"@))),
{
    lemma_listed_suffix(f.files@, exe, ".exe"@);
    lemma_listed_suffix(f.files@, archive, ".rgss3a"@);
    if any_ends_with(f.files@, ".xp3"@) {
        lemma_unlisted_suffix(f.files@, ".xp3"@);
    }
}

} // verus!


