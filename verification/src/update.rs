//! Trust rules for downloaded application updates.
use crate::remote::str_is;
use crate::text::{
    chars_of, contains_char, copy_range, ends_with, has_prefix, has_suffix, split, starts_with,
    string_of, trim_start_char, trim_start_matches_char,
};
use crate::github::{utf8_len};
use crate::url::{parse_url, parsed_url};
use vstd::prelude::*;

verus! {

/// The release download path of this project on GitHub.
pub open spec fn release_path() -> Seq<Seq<char>> {
    seq!["ThermalEX"@, "Chronicle"@, "releases"@, "download"@]
}

/// A Windows installer asset name of this project.
pub open spec fn is_windows_installer_file_name_spec(name: Seq<char>) -> bool {
    starts_with(name, "Chronicle_"@) && ends_with(name, "_x64-setup.exe"@) && utf8_len(name)
        > utf8_len("Chronicle__x64-setup.exe"@) && !name.contains('/') && !name.contains('\\')
}

/// An HTTPS download of `expected` from a release of this project on github.com.
pub open spec fn is_trusted_release_asset_spec(url: Seq<char>, expected: Seq<char>) -> bool {
    match parsed_url(url) {
        Some(parts) => parts.0 == "https"@ && parts.3 == Some("github.com"@) && match parts.4 {
            Some(segments) => segments.len() == 6 && segments.take(4) == release_path()
                && segments[4].len() > 0 && segments[5] == expected,
            None => false,
        },
        None => false,
    }
}

pub open spec fn is_trusted_installer_spec(url: Seq<char>, name: Seq<char>) -> bool {
    is_windows_installer_file_name_spec(name) && is_trusted_release_asset_spec(url, name)
}

pub open spec fn is_trusted_checksum_spec(url: Seq<char>) -> bool {
    is_trusted_release_asset_spec(url, "SHA256SUMS.txt"@)
}

fn utf8_length(s: &[char]) -> (n: usize)
    requires
        s@.len() <= 0x1000_0000,
    ensures
        n == utf8_len(s@),
{
    let mut total: usize = 0;
    let mut i: usize = 0;
    while i < s.len()
        invariant
            i <= s@.len() <= 0x1000_0000,
            total == utf8_len(s@.take(i as int)),
            total <= 4 * i,
        decreases s@.len() - i,
    {
        let c = s[i];
        let width: usize = if (c as u32) < 0x80 {
            1
        } else if (c as u32) < 0x800 {
            2
        } else if (c as u32) < 0x10000 {
            3
        } else {
            4
        };
        proof {
            assert(s@.take(i + 1).drop_last() =~= s@.take(i as int));
        }
        total = total + width;
        i = i + 1;
    }
    proof {
        assert(s@.take(s@.len() as int) =~= s@);
    }
    total
}

/// Whether `name` looks like this project's Windows installer.
pub fn is_windows_installer_file_name(name: &str) -> (r: bool)
    ensures
        r == is_windows_installer_file_name_spec(name@),
{
    let chars = chars_of(name);
    let prefix = chars_of("Chronicle_");
    let suffix = chars_of("_x64-setup.exe");
    let shortest = chars_of("Chronicle__x64-setup.exe");
    if !has_prefix(chars.as_slice(), prefix.as_slice()) || !has_suffix(
        chars.as_slice(),
        suffix.as_slice(),
    ) {
        return false;
    }
    let long_enough = if chars.len() > 0x1000_0000 {
        proof {
            lemma_utf8_len_at_least_len(chars@);
            reveal_strlit("Chronicle__x64-setup.exe");
            lemma_utf8_len_at_most_4(shortest@);
        }
        true
    } else {
        proof {
            reveal_strlit("Chronicle__x64-setup.exe");
        }
        utf8_length(chars.as_slice()) > utf8_length(shortest.as_slice())
    };
    long_enough && !contains_char(chars.as_slice(), '/') && !contains_char(chars.as_slice(), '\\')
}

proof fn lemma_utf8_len_at_least_len(s: Seq<char>)
    ensures
        utf8_len(s) >= s.len(),
    decreases s.len(),
{
    if s.len() > 0 {
        lemma_utf8_len_at_least_len(s.drop_last());
    }
}

proof fn lemma_utf8_len_at_most_4(s: Seq<char>)
    ensures
        utf8_len(s) <= 4 * s.len(),
    decreases s.len(),
{
    if s.len() > 0 {
        lemma_utf8_len_at_most_4(s.drop_last());
    }
}

fn release_path_matches(segments: &Vec<String>) -> (r: bool)
    requires
        segments@.len() == 6,
    ensures
        r == (segments@.map_values(|p: String| p@).take(4) == release_path()),
{
    let ok = str_is(segments[0].as_str(), "ThermalEX") && str_is(segments[1].as_str(), "Chronicle")
        && str_is(segments[2].as_str(), "releases") && str_is(segments[3].as_str(), "download");
    proof {
        let v = segments@.map_values(|p: String| p@).take(4);
        if ok {
            assert(v =~= release_path());
        } else {
            if v == release_path() {
                assert(v[0] == "ThermalEX"@);
                assert(v[1] == "Chronicle"@);
                assert(v[2] == "releases"@);
                assert(v[3] == "download"@);
            }
        }
    }
    ok
}

/// Whether `url` downloads `expected_file_name` from a release of this project.
pub fn is_trusted_release_asset(url: &str, expected_file_name: &str) -> (r: bool)
    ensures
        r == is_trusted_release_asset_spec(url@, expected_file_name@),
{
    let parts = match parse_url(url) {
        Some(p) => p,
        None => return false,
    };
    if !str_is(parts.scheme.as_str(), "https") {
        return false;
    }
    match &parts.host {
        Some(h) => {
            if !str_is(h.as_str(), "github.com") {
                return false;
            }
        },
        None => return false,
    }
    let segments = match &parts.segments {
        Some(s) => s,
        None => return false,
    };
    if segments.len() != 6 {
        return false;
    }
    let ok = release_path_matches(segments) && !segments[4].as_str().is_empty() && str_is(
        segments[5].as_str(),
        expected_file_name,
    );
    proof {
        let v = segments@.map_values(|p: String| p@);
        assert(v[4] == segments@[4]@);
        assert(v[5] == segments@[5]@);
    }
    ok
}

/// Whether `url` and `file_name` name this project's Windows installer on its release page.
pub fn is_trusted_installer(url: &str, file_name: &str) -> (r: bool)
    ensures
        r == is_trusted_installer_spec(url@, file_name@),
{
    is_windows_installer_file_name(file_name) && is_trusted_release_asset(url, file_name)
}

/// Whether `url` is the checksum list of a release of this project.
pub fn is_trusted_checksum(url: &str) -> (r: bool)
    ensures
        r == is_trusted_checksum_spec(url@),
{
    is_trusted_release_asset(url, "SHA256SUMS.txt")
}

/// ASCII white space as `char::is_ascii_whitespace` defines it.
pub open spec fn is_ascii_ws(c: char) -> bool {
    c == ' ' || c == '\t' || c == '\n' || c == '\u{c}' || c == '\r'
}

/// The maximal runs of non-white characters of `s`, in order (`split_ascii_whitespace`).
pub open spec fn words(s: Seq<char>) -> Seq<Seq<char>>
    decreases s.len(),
{
    if s.len() == 0 {
        Seq::empty()
    } else {
        let w = words(s.drop_last());
        let c = s.last();
        if is_ascii_ws(c) {
            w
        } else if s.len() > 1 && !is_ascii_ws(s[s.len() - 2]) {
            w.update(w.len() - 1, w.last().push(c))
        } else {
            w.push(seq![c])
        }
    }
}

/// A line without the `\r` of a `\r\n` ending.
pub open spec fn strip_cr(line: Seq<char>) -> Seq<char> {
    if line.len() > 0 && line.last() == '\r' {
        line.drop_last()
    } else {
        line
    }
}

/// The lines of `s` as `str::lines` yields them.
pub open spec fn lines(s: Seq<char>) -> Seq<Seq<char>> {
    let parts = split(s, '\n');
    let kept = if parts.last().len() == 0 {
        parts.drop_last()
    } else {
        parts
    };
    Seq::new(
        kept.len(),
        |i: int|
            if i < parts.len() - 1 {
                strip_cr(parts[i])
            } else {
                parts[i]
            },
    )
}

/// The checksum a line lists for `file_name`: exactly two words, the second naming the file
/// (with an optional leading `*` binary marker).
pub open spec fn line_checksum(line: Seq<char>, file_name: Seq<char>) -> Option<Seq<char>> {
    let w = words(line);
    if w.len() == 2 && trim_start_char(w[1], '*') == file_name {
        Some(w[0])
    } else {
        None
    }
}

/// The checksum of the first line that lists `file_name`.
pub open spec fn checksum_in_lines(ls: Seq<Seq<char>>, file_name: Seq<char>) -> Option<Seq<char>>
    decreases ls.len(),
{
    if ls.len() == 0 {
        None
    } else {
        match line_checksum(ls[0], file_name) {
            Some(c) => Some(c),
            None => checksum_in_lines(ls.drop_first(), file_name),
        }
    }
}

fn is_ascii_whitespace(c: char) -> (r: bool)
    ensures
        r == is_ascii_ws(c),
{
    c == ' ' || c == '\t' || c == '\n' || c == '\u{c}' || c == '\r'
}

fn ascii_words(s: &[char]) -> (w: Vec<Vec<char>>)
    ensures
        w@.map_values(|x: Vec<char>| x@) == words(s@),
{
    let mut w: Vec<Vec<char>> = Vec::new();
    let mut i: usize = 0;
    while i < s.len()
        invariant
            i <= s@.len(),
            w@.map_values(|x: Vec<char>| x@) == words(s@.take(i as int)),
            i > 0 && !is_ascii_ws(s@[i - 1]) ==> w@.len() > 0,
        decreases s@.len() - i,
    {
        let ghost before = w@.map_values(|x: Vec<char>| x@);
        let c = s[i];
        proof {
            let t = s@.take(i + 1);
            assert(t.drop_last() =~= s@.take(i as int));
            assert(t.last() == c);
            if i > 0 {
                assert(t[t.len() - 2] == s@[i - 1]);
            }
        }
        if is_ascii_whitespace(c) {
        } else if i > 0 && !is_ascii_whitespace(s[i - 1]) {
            let last = w.len() - 1;
            let mut word = w.remove(last);
            word.push(c);
            w.push(word);
            proof {
                assert(w@.map_values(|x: Vec<char>| x@) =~= before.update(
                    before.len() - 1,
                    before.last().push(c),
                ));
            }
        } else {
            let mut word: Vec<char> = Vec::new();
            word.push(c);
            w.push(word);
            proof {
                assert(word@ =~= seq![c]);
                assert(w@.map_values(|x: Vec<char>| x@) =~= before.push(seq![c]));
            }
        }
        i = i + 1;
    }
    proof {
        assert(s@.take(s@.len() as int) =~= s@);
    }
    w
}

fn checksum_of_line(line: &[char], file_name: &[char]) -> (r: Option<Vec<char>>)
    ensures
        match line_checksum(line@, file_name@) {
            Some(c) => r matches Some(v) && v@ == c,
            None => r is None,
        },
{
    let w = ascii_words(line);
    if w.len() != 2 {
        return None;
    }
    proof {
        assert(w@.map_values(|x: Vec<char>| x@)[1] == w@[1]@);
        assert(w@.map_values(|x: Vec<char>| x@)[0] == w@[0]@);
    }
    let name = trim_start_matches_char(w[1].as_slice(), '*');
    if crate::text::chars_equal(name.as_slice(), file_name) {
        Some(copy_range(w[0].as_slice(), 0, w[0].len()))
    } else {
        None
    }
}

/// The lines of a text, as `str::lines` yields them.
pub fn lines_of(contents: &str) -> (r: Vec<Vec<char>>)
    ensures
        r@.map_values(|x: Vec<char>| x@) == lines(contents@),
{
    let chars = chars_of(contents);
    let parts = crate::text::split_chars(chars.as_slice(), '\n');
    let ghost pv = parts@.map_values(|x: Vec<char>| x@);
    proof {
        crate::text::lemma_split_nonempty(chars@, '\n');
    }
    let n = parts.len();
    let kept = if parts[n - 1].len() == 0 {
        n - 1
    } else {
        n
    };
    let ghost ls = lines(contents@);
    proof {
        assert(pv[n - 1] == parts@[n - 1]@);
        assert(ls.len() == kept);
    }
    let mut out: Vec<Vec<char>> = Vec::new();
    let mut i: usize = 0;
    while i < kept
        invariant
            n == parts@.len(),
            pv == parts@.map_values(|x: Vec<char>| x@),
            pv == split(contents@, '\n'),
            ls == lines(contents@),
            kept <= n,
            ls.len() == kept,
            i <= kept,
            out@.map_values(|x: Vec<char>| x@) == ls.take(i as int),
        decreases kept - i,
    {
        proof {
            assert(pv[i as int] == parts@[i as int]@);
        }
        let part = &parts[i];
        let line = if i + 1 < n && part.len() > 0 && part[part.len() - 1] == '\r' {
            copy_range(part.as_slice(), 0, part.len() - 1)
        } else {
            copy_range(part.as_slice(), 0, part.len())
        };
        proof {
            if i + 1 < n && part@.len() > 0 && part@[part@.len() - 1] == '\r' {
                assert(line@ =~= part@.drop_last());
            } else {
                assert(line@ =~= part@);
            }
            assert(line@ == ls[i as int]);
        }
        let ghost prev = out@;
        out.push(line);
        proof {
            assert(out@.map_values(|x: Vec<char>| x@) =~= prev.map_values(|x: Vec<char>| x@).push(line@));
            assert(ls.take(i + 1) =~= ls.take(i as int).push(ls[i as int]));
        }
        i = i + 1;
    }
    proof {
        assert(ls.take(kept as int) =~= ls);
    }
    out
}

/// The SHA-256 the checksum list `contents` gives for `file_name`, from the first line that
/// lists it.
pub fn checksum_for_file(contents: &str, file_name: &str) -> (r: Option<String>)
    ensures
        match checksum_in_lines(lines(contents@), file_name@) {
            Some(c) => r matches Some(s) && s@ == c,
            None => r is None,
        },
{
    let chars = chars_of(contents);
    let name = chars_of(file_name);
    let parts = crate::text::split_chars(chars.as_slice(), '\n');
    let ghost pv = parts@.map_values(|x: Vec<char>| x@);
    proof {
        crate::text::lemma_split_nonempty(chars@, '\n');
    }
    let n = parts.len();
    let kept = if parts[n - 1].len() == 0 {
        n - 1
    } else {
        n
    };
    let ghost ls = lines(contents@);
    proof {
        assert(pv[n - 1] == parts@[n - 1]@);
        assert(ls.len() == kept);
        assert(ls.skip(0) =~= ls);
    }
    let mut i: usize = 0;
    while i < kept
        invariant
            n == parts@.len(),
            pv == parts@.map_values(|x: Vec<char>| x@),
            pv == split(contents@, '\n'),
            ls == lines(contents@),
            kept <= n,
            ls.len() == kept,
            name@ == file_name@,
            i <= kept,
            checksum_in_lines(ls, file_name@) == checksum_in_lines(ls.skip(i as int), file_name@),
        decreases kept - i,
    {
        proof {
            assert(ls.skip(i as int)[0] == ls[i as int]);
            assert(ls.skip(i as int).drop_first() =~= ls.skip(i + 1));
            assert(pv[i as int] == parts@[i as int]@);
        }
        let part = &parts[i];
        let line = if i + 1 < n && part.len() > 0 && part[part.len() - 1] == '\r' {
            copy_range(part.as_slice(), 0, part.len() - 1)
        } else {
            copy_range(part.as_slice(), 0, part.len())
        };
        proof {
            if i + 1 < n && part@.len() > 0 && part@[part@.len() - 1] == '\r' {
                assert(line@ =~= part@.drop_last());
            } else {
                assert(line@ =~= part@);
            }
            assert(line@ == ls[i as int]);
        }
        match checksum_of_line(line.as_slice(), name.as_slice()) {
            Some(c) => {
                return Some(string_of(c.as_slice()));
            },
            None => {},
        }
        i = i + 1;
    }
    proof {
        assert(ls.skip(i as int) =~= Seq::<Seq<char>>::empty());
    }
    None
}

/// The SHA-256 digest of `data` as `sha2` computes it.
pub uninterp spec fn sha256(data: Seq<u8>) -> Seq<u8>;

/// Computes a SHA-256 digest (`sha2::Sha256::digest`).
#[verifier::external_body]
pub(crate) fn sha256_digest(data: &[u8]) -> (r: Vec<u8>)
    ensures
        r@ == sha256(data@),
{
    <sha2::Sha256 as sha2::Digest>::digest(data).to_vec()
}

pub open spec fn hex_digit(n: int) -> char {
    if n < 10 {
        (('0' as int) + n) as char
    } else {
        (('a' as int) + n - 10) as char
    }
}

/// Lower-case hexadecimal text of `data`, two digits per byte.
pub open spec fn hex_lower(data: Seq<u8>) -> Seq<char>
    decreases data.len(),
{
    if data.len() == 0 {
        Seq::empty()
    } else {
        hex_lower(data.drop_last()) + seq![
            hex_digit(data.last() as int / 16),
            hex_digit(data.last() as int % 16),
        ]
    }
}

fn hex_char(n: u8) -> (c: char)
    requires
        n < 16,
    ensures
        c == hex_digit(n as int),
{
    if n < 10 {
        ((48 + n) as char)
    } else {
        ((97 + n - 10) as char)
    }
}

/// Lower-case hexadecimal text of `data`.
pub fn to_hex_lower(data: &[u8]) -> (s: String)
    ensures
        s@ == hex_lower(data@),
{
    let mut out: Vec<char> = Vec::new();
    let mut i: usize = 0;
    while i < data.len()
        invariant
            i <= data@.len(),
            out@ == hex_lower(data@.take(i as int)),
        decreases data@.len() - i,
    {
        let b = data[i];
        out.push(hex_char(b / 16));
        out.push(hex_char(b % 16));
        i = i + 1;
        proof {
            let t = data@.take(i as int);
            assert(t.drop_last() =~= data@.take(i - 1));
            assert(out@ =~= hex_lower(t));
        }
    }
    proof {
        assert(data@.take(data@.len() as int) =~= data@);
    }
    string_of(out.as_slice())
}

/// The SHA-256 of `data` as lower-case hexadecimal text.
pub fn sha256_hex(data: &[u8]) -> (s: String)
    ensures
        s@ == hex_lower(sha256(data@)),
{
    let digest = sha256_digest(data);
    to_hex_lower(digest.as_slice())
}

pub open spec fn missing_checksum_message() -> Seq<char> {
    "更新校验文件中缺少安装包的 SHA-256"@
}

pub open spec fn checksum_mismatch_message() -> Seq<char> {
    "安装包 SHA-256 校验失败，已取消安装"@
}

/// The outcome of checking a downloaded installer against the release's checksum list:
/// its SHA-256 must be the one listed for its file name, ignoring ASCII case.
pub open spec fn installer_check(contents: Seq<char>, file_name: Seq<char>, installer: Seq<u8>) -> Result<
    (),
    Seq<char>,
> {
    match checksum_in_lines(lines(contents), file_name) {
        None => Err(missing_checksum_message()),
        Some(expected) => if crate::text::eq_ignore_ascii_case_spec(expected, hex_lower(sha256(installer))) {
            Ok(())
        } else {
            Err(checksum_mismatch_message())
        },
    }
}

/// Checks a downloaded installer against the checksum list of its release.
pub fn verify_installer(checksums: &str, file_name: &str, installer: &[u8]) -> (r: Result<(), String>)
    ensures
        match installer_check(checksums@, file_name@, installer@) {
            Ok(()) => r is Ok,
            Err(m) => r matches Err(e) && e@ == m,
        },
{
    let expected = match checksum_for_file(checksums, file_name) {
        Some(c) => c,
        None => return Err("更新校验文件中缺少安装包的 SHA-256".to_owned()),
    };
    let actual = sha256_hex(installer);
    if crate::text::eq_ignore_ascii_case(chars_of(expected.as_str()).as_slice(), chars_of(actual.as_str()).as_slice()) {
        Ok(())
    } else {
        Err("安装包 SHA-256 校验失败，已取消安装".to_owned())
    }
}

} // verus!
