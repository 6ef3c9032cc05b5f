//! Snapshot archives: their file names, and the change summary between two manifests.
use crate::github::{utf8_len, utf8_width};
use crate::model::{files_view, ChangeSummary, FileView, SnapshotFile};
use crate::remote::str_is;
use crate::order::{lemma_slot_is_point, lex_lt, stable_sort, text_less};
use crate::text::{chars_of, concat_chars, padded, padded_string, string_of};
use vstd::prelude::*;

verus! {

/// The UTC calendar fields (year, month, day, hour, minute, second) of a Unix time given
/// in seconds, or `None` outside the range of dates `time` supports.
pub uninterp spec fn utc_fields(seconds: i64) -> Option<(i32, u8, u8, u8, u8, u8)>;

/// Whether `year` is a leap year of the proleptic Gregorian calendar.
pub open spec fn leap_year(year: int) -> bool {
    (year % 4 == 0 && year % 100 != 0) || year % 400 == 0
}

/// The number of days of month `month` (1 to 12) of `year`.
pub open spec fn month_length(year: int, month: int) -> int {
    if month == 2 {
        if leap_year(year) {
            29
        } else {
            28
        }
    } else if month == 4 || month == 6 || month == 9 || month == 11 {
        30
    } else {
        31
    }
}

/// The days of `year` before the first of `month`.
pub open spec fn days_before_month(year: int, month: int) -> int
    decreases month,
{
    if month <= 1 {
        0
    } else {
        days_before_month(year, month - 1) + month_length(year, month - 1)
    }
}

/// The days from 1970-01-01 to January 1 of `year` (negative before 1970): 365 a year and
/// one more for each leap year between (492, 19 and 4 are 1969 divided by 4, 100 and 400).
pub open spec fn days_before_year(year: int) -> int {
    365 * (year - 1970) + ((year - 1) / 4 - 492int) - ((year - 1) / 100 - 19int) + ((year - 1) / 400 - 4int)
}

/// Whether `f` (year, month, day, hour, minute, second) is a valid UTC date and time that
/// falls `seconds` seconds after the Unix epoch.
pub open spec fn utc_time_of(f: (i32, u8, u8, u8, u8, u8), seconds: int) -> bool {
    &&& 1 <= f.1 <= 12
    &&& 1 <= f.2 <= month_length(f.0 as int, f.1 as int)
    &&& f.3 < 24 && f.4 < 60 && f.5 < 60
    &&& seconds == (days_before_year(f.0 as int) + days_before_month(f.0 as int, f.1 as int) + f.2 - 1) * 86400
        + f.3 * 3600 + f.4 * 60 + f.5
}

/// Calendar fields of a Unix time in UTC (`time::OffsetDateTime::from_unix_timestamp`, then
/// `year`, `month`, `day`, `hour`, `minute`, `second`): the fields of the proleptic
/// Gregorian date and time that many seconds after the epoch, or `None` where the
/// timestamp is out of range; every time from -9999-01-01 to 9999-12-31 is in range.
#[verifier::external_body]
fn utc_date_time(seconds: i64) -> (r: Option<(i32, u8, u8, u8, u8, u8)>)
    ensures
        r == utc_fields(seconds),
        r matches Some(f) ==> utc_time_of(f, seconds as int),
        -377705116800 <= seconds <= 253402300799 ==> r is Some,
        seconds >= 0 ==> (r matches Some(f) ==> f.0 >= 1970),
{
    match time::OffsetDateTime::from_unix_timestamp(seconds) {
        Ok(t) => Some((t.year(), u8::from(t.month()), t.day(), t.hour(), t.minute(), t.second())),
        Err(_) => None,
    }
}

/// The calendar fields an archive name uses: those of the creation second, or the epoch
/// where the time is out of range.
pub open spec fn name_fields(created_at_ms: u64) -> (i32, u8, u8, u8, u8, u8) {
    match utc_fields((created_at_ms / 1000) as i64) {
        Some(f) => f,
        None => (1970, 1, 1, 0, 0, 0),
    }
}

/// The first characters of `s` that take exactly `bytes` bytes in UTF-8, or all of `s`
/// where no prefix does (what `str::get(..bytes)` falls back from).
pub open spec fn byte_prefix(s: Seq<char>, bytes: nat) -> Seq<char> {
    if exists|k: int| 0 <= k <= s.len() && #[trigger] utf8_len(s.take(k)) == bytes {
        s.take(choose|k: int| 0 <= k <= s.len() && #[trigger] utf8_len(s.take(k)) == bytes)
    } else {
        s
    }
}

/// The file name of a snapshot archive: the UTC creation time as
/// `YYYYMMDDTHHMMSS.mmmZ`, an underscore, the first eight bytes of the snapshot id, `.7z`.
pub open spec fn archive_name(created_at_ms: u64, id: Seq<char>) -> Seq<char> {
    let f = name_fields(created_at_ms);
    padded(f.0 as nat, 4) + padded(f.1 as nat, 2) + padded(f.2 as nat, 2) + seq!['T'] + padded(
        f.3 as nat,
        2,
    ) + padded(f.4 as nat, 2) + padded(f.5 as nat, 2) + seq!['.'] + padded((created_at_ms % 1000) as nat, 3)
        + seq!['Z', '_'] + byte_prefix(id, 8) + seq!['.', '7', 'z']
}

proof fn lemma_utf8_prefix_increasing(s: Seq<char>, a: int, b: int)
    requires
        0 <= a < b <= s.len(),
    ensures
        utf8_len(s.take(a)) < utf8_len(s.take(b)),
    decreases b - a,
{
    assert(s.take(b).drop_last() =~= s.take(b - 1));
    if a < b - 1 {
        lemma_utf8_prefix_increasing(s, a, b - 1);
    }
}

fn width_of(c: char) -> (w: usize)
    ensures
        w == utf8_width(c),
{
    if (c as u32) < 0x80 {
        1
    } else if (c as u32) < 0x800 {
        2
    } else if (c as u32) < 0x10000 {
        3
    } else {
        4
    }
}

/// The first eight bytes of `id` where they end on a character boundary, else all of it.
fn id_prefix(id: &[char]) -> (r: Vec<char>)
    ensures
        r@ == byte_prefix(id@, 8),
{
    let mut total: usize = 0;
    let mut i: usize = 0;
    while i < id.len() && total < 8
        invariant
            i <= id@.len(),
            total == utf8_len(id@.take(i as int)),
            forall|k: int| 0 <= k < i ==> #[trigger] utf8_len(id@.take(k)) < 8,
            i > 0 ==> utf8_len(id@.take(i - 1)) < 8,
        decreases id@.len() - i,
    {
        proof {
            assert(id@.take(i + 1).drop_last() =~= id@.take(i as int));
        }
        total = total + width_of(id[i]);
        i = i + 1;
    }
    if total == 8 {
        proof {
            assert(utf8_len(id@.take(i as int)) == 8);
            let k = choose|k: int| 0 <= k <= id@.len() && #[trigger] utf8_len(id@.take(k)) == 8;
            if k < i {
                lemma_utf8_prefix_increasing(id@, k, i as int);
            }
            if k > i {
                lemma_utf8_prefix_increasing(id@, i as int, k);
            }
        }
        let mut r: Vec<char> = Vec::new();
        let mut j: usize = 0;
        while j < i
            invariant
                j <= i <= id@.len(),
                r@ == id@.take(j as int),
            decreases i - j,
        {
            r.push(id[j]);
            j = j + 1;
            proof {
                assert(r@ =~= id@.take(j as int));
            }
        }
        r
    } else {
        proof {
            assert forall|k: int| 0 <= k <= id@.len() implies #[trigger] utf8_len(id@.take(k)) != 8 by {
                if k > i {
                    lemma_utf8_prefix_increasing(id@, i as int, k);
                }
                if k == i {
                    assert(total != 8);
                }
            }
        }
        let mut r: Vec<char> = Vec::new();
        let mut j: usize = 0;
        while j < id.len()
            invariant
                j <= id@.len(),
                r@ == id@.take(j as int),
            decreases id@.len() - j,
        {
            r.push(id[j]);
            j = j + 1;
            proof {
                assert(r@ =~= id@.take(j as int));
            }
        }
        proof {
            assert(id@.take(id@.len() as int) =~= id@);
        }
        r
    }
}

fn append(out: &mut Vec<char>, s: &str)
    ensures
        final(out)@ == old(out)@ + s@,
{
    let chars = chars_of(s);
    let joined = concat_chars(out.as_slice(), chars.as_slice());
    *out = joined;
}

/// The file name of the archive of snapshot `snapshot_id`, created at `created_at_ms`.
pub fn snapshot_archive_name(created_at_ms: u64, snapshot_id: &str) -> (r: String)
    ensures
        r@ == archive_name(created_at_ms, snapshot_id@),
{
    let seconds = (created_at_ms / 1000) as i64;
    let f = match utc_date_time(seconds) {
        Some(f) => f,
        None => (1970, 1, 1, 0, 0, 0),
    };
    let mut out: Vec<char> = Vec::new();
    append(&mut out, padded_string(f.0 as u64, 4).as_str());
    append(&mut out, padded_string(f.1 as u64, 2).as_str());
    append(&mut out, padded_string(f.2 as u64, 2).as_str());
    out.push('T');
    append(&mut out, padded_string(f.3 as u64, 2).as_str());
    append(&mut out, padded_string(f.4 as u64, 2).as_str());
    append(&mut out, padded_string(f.5 as u64, 2).as_str());
    out.push('.');
    append(&mut out, padded_string(created_at_ms % 1000, 3).as_str());
    out.push('Z');
    out.push('_');
    let id = chars_of(snapshot_id);
    let prefix = id_prefix(id.as_slice());
    let joined = concat_chars(out.as_slice(), prefix.as_slice());
    let mut out = joined;
    out.push('.');
    out.push('7');
    out.push('z');
    proof {
        assert(f == name_fields(created_at_ms));
        assert(out@ =~= archive_name(created_at_ms, snapshot_id@));
    }
    string_of(out.as_slice())
}

/// Whether file `i` is the last one of `files` with its path (the one a path lookup sees).
pub open spec fn last_with_path(files: Seq<FileView>, i: int) -> bool {
    forall|j: int| i < j < files.len() ==> (#[trigger] files[j]).relative_path != files[i].relative_path
}

/// The content hash of the last file of `files` with this path, if any.
pub open spec fn hash_at(files: Seq<FileView>, path: Seq<char>) -> Option<Seq<char>>
    decreases files.len(),
{
    if files.len() == 0 {
        None
    } else if files.last().relative_path == path {
        Some(files.last().content_hash)
    } else {
        hash_at(files.drop_last(), path)
    }
}

/// Whether a hash was found and differs from `h`.
pub open spec fn hash_differs(found: Option<Seq<char>>, h: Seq<char>) -> bool {
    match found {
        Some(x) => x != h,
        None => false,
    }
}

/// How many of the first `n` positions satisfy `pred`.
pub open spec fn count_where(n: int, pred: spec_fn(int) -> bool) -> nat
    decreases n,
{
    if n <= 0 {
        0
    } else {
        count_where(n - 1, pred) + if pred(n - 1) {
            1nat
        } else {
            0nat
        }
    }
}

/// The change summary between two manifests, path by path (a path listed twice counts
/// once, with its last hash): paths only in `current` are added, paths in both with another
/// hash are modified, paths only in `previous` are deleted.
pub open spec fn manifest_changes(previous: Seq<FileView>, current: Seq<FileView>) -> (nat, nat, nat) {
    (
        count_where(
            current.len() as int,
            |i: int| last_with_path(current, i) && hash_at(previous, current[i].relative_path) is None,
        ),
        count_where(
            current.len() as int,
            |i: int|
                last_with_path(current, i) && hash_differs(hash_at(previous, current[i].relative_path), current[i].content_hash),
        ),
        count_where(
            previous.len() as int,
            |i: int| last_with_path(previous, i) && hash_at(current, previous[i].relative_path) is None,
        ),
    )
}

fn is_last_with_path(files: &Vec<SnapshotFile>, i: usize) -> (r: bool)
    requires
        i < files@.len(),
    ensures
        r == last_with_path(files_view(files@), i as int),
{
    let n = files.len();
    let mut j: usize = i + 1;
    while j < files.len()
        invariant
            i < j <= files@.len(),
            forall|k: int|
                i < k < j ==> (#[trigger] files_view(files@)[k]).relative_path != files_view(files@)[i as int].relative_path,
        decreases files@.len() - j,
    {
        proof {
            assert(files_view(files@)[j as int] == files@[j as int]@);
            assert(files_view(files@)[i as int] == files@[i as int]@);
        }
        if str_is(files[j].relative_path.as_str(), files[i].relative_path.as_str()) {
            return false;
        }
        j = j + 1;
    }
    true
}

fn hash_for(files: &Vec<SnapshotFile>, path: &str) -> (r: Option<String>)
    ensures
        match r {
            Some(h) => hash_at(files_view(files@), path@) == Some(h@),
            None => hash_at(files_view(files@), path@) is None,
        },
{
    let mut j: usize = files.len();
    proof {
        assert(files_view(files@).take(j as int) =~= files_view(files@));
    }
    while j > 0
        invariant
            j <= files@.len(),
            hash_at(files_view(files@), path@) == hash_at(files_view(files@).take(j as int), path@),
        decreases j,
    {
        let f = &files[j - 1];
        proof {
            let t = files_view(files@).take(j as int);
            assert(t.last() == f@);
            assert(t.drop_last() =~= files_view(files@).take(j - 1));
        }
        if str_is(f.relative_path.as_str(), path) {
            return Some(f.content_hash.clone());
        }
        j = j - 1;
    }
    None
}

/// Counts the files of `current` (last of their path) by whether `previous` has their path,
/// and with which hash: `(absent, present with another hash)`.
fn count_against(current: &Vec<SnapshotFile>, previous: &Vec<SnapshotFile>) -> (r: (u64, u64))
    ensures
        r.0 == count_where(
            current@.len() as int,
            |i: int|
                last_with_path(files_view(current@), i) && hash_at(
                    files_view(previous@),
                    files_view(current@)[i].relative_path,
                ) is None,
        ),
        r.1 == count_where(
            current@.len() as int,
            |i: int|
                last_with_path(files_view(current@), i) && hash_differs(hash_at(
                    files_view(previous@),
                    files_view(current@)[i].relative_path,
                ), files_view(current@)[i].content_hash),
        ),
{
    let ghost absent = |i: int|
        last_with_path(files_view(current@), i) && hash_at(
            files_view(previous@),
            files_view(current@)[i].relative_path,
        ) is None;
    let ghost changed = |i: int|
        last_with_path(files_view(current@), i) && hash_differs(hash_at(
            files_view(previous@),
            files_view(current@)[i].relative_path,
        ), files_view(current@)[i].content_hash);
    let mut added: u64 = 0;
    let mut modified: u64 = 0;
    let mut i: usize = 0;
    while i < current.len()
        invariant
            i <= current@.len(),
            absent == (|i: int|
                last_with_path(files_view(current@), i) && hash_at(
                    files_view(previous@),
                    files_view(current@)[i].relative_path,
                ) is None),
            changed == (|i: int|
                last_with_path(files_view(current@), i) && hash_differs(hash_at(
                    files_view(previous@),
                    files_view(current@)[i].relative_path,
                ), files_view(current@)[i].content_hash)),
            added == count_where(i as int, absent),
            modified == count_where(i as int, changed),
            added <= i,
            modified <= i,
        decreases current@.len() - i,
    {
        proof {
            assert(files_view(current@)[i as int] == current@[i as int]@);
        }
        if is_last_with_path(current, i) {
            match hash_for(previous, current[i].relative_path.as_str()) {
                None => {
                    added = added + 1;
                },
                Some(h) => {
                    if !str_is(h.as_str(), current[i].content_hash.as_str()) {
                        modified = modified + 1;
                    }
                },
            }
        }
        i = i + 1;
    }
    (added, modified)
}

/// The change summary between the manifest of a snapshot's parent (if any) and its own.
pub fn compare_manifests(previous: Option<&Vec<SnapshotFile>>, current: &Vec<SnapshotFile>) -> (r: ChangeSummary)
    ensures
        ({
            let prev = match previous {
                Some(p) => files_view(p@),
                None => Seq::empty(),
            };
            let c = manifest_changes(prev, files_view(current@));
            r.added == c.0 && r.modified == c.1 && r.deleted == c.2
        }),
{
    let empty: Vec<SnapshotFile> = Vec::new();
    let prev: &Vec<SnapshotFile> = match previous {
        Some(p) => p,
        None => &empty,
    };
    proof {
        assert(files_view(empty@) =~= Seq::<FileView>::empty());
    }
    let (added, modified) = count_against(current, prev);
    let (deleted, _) = count_against(prev, current);
    ChangeSummary { added, modified, deleted }
}

/// Manifest files ordered by relative path.
pub open spec fn path_before() -> spec_fn(SnapshotFile, SnapshotFile) -> bool {
    |a: SnapshotFile, b: SnapshotFile| lex_lt(a.relative_path@, b.relative_path@)
}

fn path_slot(sorted: &Vec<SnapshotFile>, key: &Vec<char>, x: &SnapshotFile) -> (p: usize)
    requires
        key@ == x.relative_path@,
    ensures
        p <= sorted@.len(),
        forall|j: int| 0 <= j < p ==> !path_before()(*x, #[trigger] sorted@[j]),
        p < sorted@.len() ==> path_before()(*x, sorted@[p as int]),
{
    let mut i: usize = 0;
    while i < sorted.len()
        invariant
            i <= sorted@.len(),
            key@ == x.relative_path@,
            forall|j: int| 0 <= j < i ==> !path_before()(*x, #[trigger] sorted@[j]),
        decreases sorted@.len() - i,
    {
        let other = chars_of(sorted[i].relative_path.as_str());
        if text_less(key.as_slice(), other.as_slice()) {
            return i;
        }
        i = i + 1;
    }
    i
}

/// Orders a captured manifest by relative path, as snapshots record it.
pub fn sort_manifest(files: Vec<SnapshotFile>) -> (r: Vec<SnapshotFile>)
    ensures
        r@ == stable_sort(files@, path_before()),
{
    let ghost all = files@;
    let total = files.len();
    let mut rest = files;
    let mut sorted: Vec<SnapshotFile> = Vec::new();
    let mut n: usize = 0;
    proof {
        assert(all.take(0) =~= Seq::<SnapshotFile>::empty());
        assert(rest@ =~= all.skip(0));
    }
    while rest.len() > 0
        invariant
            all.len() == total,
            n <= all.len(),
            rest@ == all.skip(n as int),
            sorted@ == stable_sort(all.take(n as int), path_before()),
        decreases rest@.len(),
    {
        let x = rest.remove(0);
        proof {
            assert(x == all[n as int]);
        }
        let key = chars_of(x.relative_path.as_str());
        let p = path_slot(&sorted, &key, &x);
        let ghost prev = sorted@;
        proof {
            lemma_slot_is_point(prev, x, path_before(), p as int);
            let s = all.take(n + 1);
            assert(s.drop_last() =~= all.take(n as int));
            assert(s.last() == x);
        }
        sorted.insert(p, x);
        n = n + 1;
        proof {
            assert(rest@ =~= all.skip(n as int));
        }
    }
    proof {
        assert(all.take(n as int) =~= all);
    }
    sorted
}

/// The set of relative paths a manifest lists.
pub open spec fn manifest_paths(files: Seq<FileView>) -> Set<Seq<char>> {
    files.map_values(|f: FileView| f.relative_path).to_set()
}

proof fn lemma_manifest_paths_contains(files: Seq<FileView>, p: Seq<char>)
    ensures
        manifest_paths(files).contains(p) <==> exists|i: int| 0 <= i < files.len() && #[trigger] files[i].relative_path == p,
{
    let m = files.map_values(|f: FileView| f.relative_path);
    if manifest_paths(files).contains(p) {
        let i = choose|i: int| 0 <= i < m.len() && m[i] == p;
        assert(files[i].relative_path == p);
    }
    if exists|i: int| 0 <= i < files.len() && #[trigger] files[i].relative_path == p {
        let i = choose|i: int| 0 <= i < files.len() && #[trigger] files[i].relative_path == p;
        assert(m[i] == p);
    }
}

proof fn lemma_manifest_paths_finite(files: Seq<FileView>)
    ensures
        manifest_paths(files).finite(),
{
    broadcast use vstd::seq_lib::seq_to_set_is_finite;

}

proof fn lemma_manifest_paths_drop_last(files: Seq<FileView>)
    requires
        files.len() > 0,
    ensures
        manifest_paths(files) == manifest_paths(files.drop_last()).insert(files.last().relative_path),
{
    let rest = files.drop_last();
    assert forall|p: Seq<char>| manifest_paths(files).contains(p) == manifest_paths(rest).insert(files.last().relative_path).contains(p) by {
        lemma_manifest_paths_contains(files, p);
        lemma_manifest_paths_contains(rest, p);
        if manifest_paths(files).contains(p) && p != files.last().relative_path {
            let i = choose|i: int| 0 <= i < files.len() && #[trigger] files[i].relative_path == p;
            assert(rest[i].relative_path == p);
        }
        if manifest_paths(rest).contains(p) {
            let i = choose|i: int| 0 <= i < rest.len() && #[trigger] rest[i].relative_path == p;
            assert(files[i].relative_path == p);
        }
    }
    assert(manifest_paths(files) =~= manifest_paths(rest).insert(files.last().relative_path));
}

/// A path lookup finds nothing exactly when the manifest does not list the path.
proof fn lemma_hash_at_none(files: Seq<FileView>, p: Seq<char>)
    ensures
        hash_at(files, p) is None <==> !manifest_paths(files).contains(p),
    decreases files.len(),
{
    lemma_manifest_paths_contains(files, p);
    if files.len() > 0 {
        lemma_hash_at_none(files.drop_last(), p);
        lemma_manifest_paths_drop_last(files);
    }
}

/// The lookup of the path of a file that is the last with its path gives that file's hash.
proof fn lemma_hash_at_last(files: Seq<FileView>, i: int)
    requires
        0 <= i < files.len(),
        last_with_path(files, i),
    ensures
        hash_at(files, files[i].relative_path) == Some(files[i].content_hash),
    decreases files.len(),
{
    if i < files.len() - 1 {
        let rest = files.drop_last();
        assert(files[files.len() - 1].relative_path != files[i].relative_path);
        assert forall|j: int| i < j < rest.len() implies (#[trigger] rest[j]).relative_path != rest[i].relative_path by {
            assert(files[j].relative_path != files[i].relative_path);
        }
        lemma_hash_at_last(rest, i);
    }
}

proof fn lemma_count_where_ext(n: int, f: spec_fn(int) -> bool, g: spec_fn(int) -> bool)
    requires
        forall|i: int| 0 <= i < n ==> #[trigger] f(i) == g(i),
    ensures
        count_where(n, f) == count_where(n, g),
    decreases n,
{
    if n > 0 {
        lemma_count_where_ext(n - 1, f, g);
    }
}

/// Counting the files that are the last with their path and whose path is in `keep` counts
/// the distinct listed paths in `keep`.
proof fn lemma_count_distinct_paths(files: Seq<FileView>, keep: Set<Seq<char>>)
    ensures
        count_where(files.len() as int, |i: int| last_with_path(files, i) && keep.contains(files[i].relative_path))
            == manifest_paths(files).intersect(keep).len(),
    decreases files.len(),
{
    lemma_manifest_paths_finite(files);
    let f = |i: int| last_with_path(files, i) && keep.contains(files[i].relative_path);
    if files.len() == 0 {
        assert(manifest_paths(files).intersect(keep) =~= Set::empty()) by {
            assert forall|p: Seq<char>| !manifest_paths(files).contains(p) by {
                lemma_manifest_paths_contains(files, p);
            }
        }
    } else {
        let n = files.len() as int;
        let rest = files.drop_last();
        let x = files.last().relative_path;
        let keep2 = keep.remove(x);
        let g = |i: int| last_with_path(rest, i) && keep2.contains(rest[i].relative_path);
        assert forall|i: int| 0 <= i < n - 1 implies #[trigger] f(i) == g(i) by {
            if last_with_path(files, i) {
                assert(files[n - 1].relative_path != files[i].relative_path);
                assert forall|j: int| i < j < rest.len() implies (#[trigger] rest[j]).relative_path != rest[i].relative_path by {
                    assert(files[j].relative_path != files[i].relative_path);
                }
            }
            if g(i) {
                assert forall|j: int| i < j < files.len() implies (#[trigger] files[j]).relative_path != files[i].relative_path by {
                    if j < n - 1 {
                        assert(rest[j].relative_path != rest[i].relative_path);
                    }
                }
            }
        }
        lemma_count_where_ext(n - 1, f, g);
        lemma_count_distinct_paths(rest, keep2);
        lemma_manifest_paths_finite(rest);
        lemma_manifest_paths_drop_last(files);
        let a = manifest_paths(rest).intersect(keep2);
        assert(!a.contains(x));
        assert(last_with_path(files, n - 1));
        if keep.contains(x) {
            assert(manifest_paths(files).intersect(keep) =~= a.insert(x));
        } else {
            assert(manifest_paths(files).intersect(keep) =~= a);
        }
    }
}

/// What a change summary counts, path by path: `added` is the number of paths the new
/// manifest lists and the old one does not, `deleted` the number of paths the old manifest
/// lists and the new one does not, and `modified` the number of paths both list whose last
/// hash differs. A path listed twice in one manifest counts once.
pub proof fn law_change_summary_counts_paths(previous: Seq<FileView>, current: Seq<FileView>)
    ensures
        manifest_changes(previous, current).0 == manifest_paths(current).difference(manifest_paths(previous)).len(),
        manifest_changes(previous, current).2 == manifest_paths(previous).difference(manifest_paths(current)).len(),
        manifest_changes(previous, current).1 == manifest_paths(current).filter(
            |p: Seq<char>| manifest_paths(previous).contains(p) && hash_at(previous, p) != hash_at(current, p),
        ).len(),
{
    let not_prev = Set::new(|p: Seq<char>| !manifest_paths(previous).contains(p));
    let not_cur = Set::new(|p: Seq<char>| !manifest_paths(current).contains(p));
    let changed = Set::new(
        |p: Seq<char>| manifest_paths(previous).contains(p) && hash_at(previous, p) != hash_at(current, p),
    );
    let added = |i: int| last_with_path(current, i) && hash_at(previous, current[i].relative_path) is None;
    let modified = |i: int|
        last_with_path(current, i) && hash_differs(hash_at(previous, current[i].relative_path), current[i].content_hash);
    let deleted = |i: int| last_with_path(previous, i) && hash_at(current, previous[i].relative_path) is None;
    assert forall|i: int| 0 <= i < current.len() implies added(i) == (last_with_path(current, i) && not_prev.contains(
        current[i].relative_path,
    )) by {
        lemma_hash_at_none(previous, current[i].relative_path);
    }
    lemma_count_where_ext(
        current.len() as int,
        added,
        |i: int| last_with_path(current, i) && not_prev.contains(current[i].relative_path),
    );
    lemma_count_distinct_paths(current, not_prev);
    assert(manifest_paths(current).intersect(not_prev) =~= manifest_paths(current).difference(manifest_paths(previous)));
    assert forall|i: int| 0 <= i < previous.len() implies deleted(i) == (last_with_path(previous, i) && not_cur.contains(
        previous[i].relative_path,
    )) by {
        lemma_hash_at_none(current, previous[i].relative_path);
    }
    lemma_count_where_ext(
        previous.len() as int,
        deleted,
        |i: int| last_with_path(previous, i) && not_cur.contains(previous[i].relative_path),
    );
    lemma_count_distinct_paths(previous, not_cur);
    assert(manifest_paths(previous).intersect(not_cur) =~= manifest_paths(previous).difference(manifest_paths(current)));
    assert forall|i: int| 0 <= i < current.len() implies modified(i) == (last_with_path(current, i) && changed.contains(
        current[i].relative_path,
    )) by {
        let p = current[i].relative_path;
        lemma_hash_at_none(previous, p);
        if last_with_path(current, i) {
            lemma_hash_at_last(current, i);
        }
    }
    lemma_count_where_ext(
        current.len() as int,
        modified,
        |i: int| last_with_path(current, i) && changed.contains(current[i].relative_path),
    );
    lemma_count_distinct_paths(current, changed);
}

/// A snapshot with no parent counts every distinct path it holds as added, and nothing as
/// modified or deleted; a manifest compared with itself shows no change.
pub proof fn law_change_summary_extremes(files: Seq<FileView>)
    ensures
        manifest_changes(Seq::empty(), files) == (manifest_paths(files).len(), 0nat, 0nat),
        manifest_changes(files, files) == (0nat, 0nat, 0nat),
{
    law_change_summary_counts_paths(Seq::empty(), files);
    law_change_summary_counts_paths(files, files);
    lemma_manifest_paths_finite(files);
    assert(manifest_paths(Seq::<FileView>::empty()) =~= Set::empty()) by {
        assert forall|p: Seq<char>| !manifest_paths(Seq::<FileView>::empty()).contains(p) by {
            lemma_manifest_paths_contains(Seq::empty(), p);
        }
    }
    assert(manifest_paths(files).difference(Set::empty()) =~= manifest_paths(files));
    assert(manifest_paths(Seq::<FileView>::empty()).difference(manifest_paths(files)) =~= Set::empty());
    assert(manifest_paths(files).difference(manifest_paths(files)) =~= Set::empty());
    assert(manifest_paths(files).filter(
        |p: Seq<char>| manifest_paths(Seq::<FileView>::empty()).contains(p) && hash_at(Seq::<FileView>::empty(), p)
            != hash_at(files, p),
    ) =~= Set::empty());
    assert(manifest_paths(files).filter(
        |p: Seq<char>| manifest_paths(files).contains(p) && hash_at(files, p) != hash_at(files, p),
    ) =~= Set::empty());
}

} // verus!


