//! Entry sources: resolving device paths into stable source slots, the device bindings that
//! keep their paths, and the folder names archives are stored under.
use crate::model::{sources_view, EntryKind, EntrySource, SourceView};
use crate::text::{
    chars_of, eq_ignore_ascii_case, eq_ignore_ascii_case_spec, is_control, is_control_char,
    string_of, trim, trim_chars,
};
use vstd::prelude::*;

verus! {

/// A source path as this device resolved it: its canonical path, its file name, and whether
/// it is a directory.
#[derive(Clone, Debug)]
pub struct ResolvedSource {
    pub path: String,
    pub name: String,
    pub is_dir: bool,
}

pub struct ResolvedView {
    pub path: Seq<char>,
    pub name: Seq<char>,
    pub is_dir: bool,
}

impl View for ResolvedSource {
    type V = ResolvedView;

    open spec fn view(&self) -> ResolvedView {
        ResolvedView { path: self.path@, name: self.name@, is_dir: self.is_dir }
    }
}

pub open spec fn resolved_view(s: Seq<ResolvedSource>) -> Seq<ResolvedView> {
    s.map_values(|x: ResolvedSource| x@)
}

/// The first existing source whose path equals `path` ignoring ASCII case.
pub open spec fn first_path_match(existing: Seq<SourceView>, path: Seq<char>) -> Option<int>
    decreases existing.len(),
{
    if existing.len() == 0 {
        None
    } else if eq_ignore_ascii_case_spec(existing[0].path, path) {
        Some(0)
    } else {
        match first_path_match(existing.drop_first(), path) {
            Some(i) => Some(i + 1),
            None => None,
        }
    }
}

proof fn lemma_first_path_match_bounds(existing: Seq<SourceView>, path: Seq<char>)
    ensures
        match first_path_match(existing, path) {
            Some(i) => 0 <= i < existing.len(),
            None => true,
        },
    decreases existing.len(),
{
    if existing.len() > 0 {
        lemma_first_path_match_bounds(existing.drop_first(), path);
    }
}

/// The source slot for a resolved path: the slot of an existing source with the same path
/// (ignoring ASCII case) keeps its id, any other gets `fresh`.
pub open spec fn resolved_source(r: ResolvedView, existing: Seq<SourceView>, fresh: Seq<char>) -> SourceView {
    SourceView {
        id: match first_path_match(existing, r.path) {
            Some(k) => existing[k].id,
            None => fresh,
        },
        name: r.name,
        path: r.path,
        kind: if r.is_dir {
            EntryKind::Directory
        } else {
            EntryKind::File
        },
    }
}

/// The sources of resolved paths, each keeping the id of an existing source with its path.
pub open spec fn resolved_sources(
    resolved: Seq<ResolvedView>,
    existing: Seq<SourceView>,
    fresh: Seq<Seq<char>>,
) -> Seq<SourceView> {
    Seq::new(resolved.len(), |i: int| resolved_source(resolved[i], existing, fresh[i]))
}

/// Whether one of the resolved paths equals `path` ignoring ASCII case.
pub open spec fn path_listed(resolved: Seq<ResolvedView>, path: Seq<char>) -> bool {
    exists|j: int| 0 <= j < resolved.len() && eq_ignore_ascii_case_spec(#[trigger] resolved[j].path, path)
}

/// Whether the new source at position `i` takes over the slot at that position: its path is
/// not an existing source's, and the slot's own source is not kept elsewhere in the list.
pub open spec fn takes_slot(resolved: Seq<ResolvedView>, existing: Seq<SourceView>, i: int) -> bool {
    &&& first_path_match(existing, resolved[i].path) is None
    &&& i < existing.len()
    &&& !path_listed(resolved, existing[i].path)
}

/// Resolved sources with stable ids: a path that an existing source has (ignoring ASCII
/// case) keeps that source's id; a path that replaces the source at its position (whose
/// path is no longer listed) keeps that slot's id; any other takes its id from `fresh`.
pub open spec fn sources_by_position(
    resolved: Seq<ResolvedView>,
    existing: Seq<SourceView>,
    fresh: Seq<Seq<char>>,
) -> Seq<SourceView> {
    Seq::new(
        resolved.len(),
        |i: int|
            if takes_slot(resolved, existing, i) {
                SourceView { id: existing[i].id, ..resolved_source(resolved[i], existing, fresh[i]) }
            } else {
                resolved_source(resolved[i], existing, fresh[i])
            },
    )
}

/// Sources as the shared catalog keeps them: without device paths.
pub open spec fn shared_sources(s: Seq<SourceView>) -> Seq<SourceView> {
    s.map_values(|x: SourceView| SourceView { path: Seq::empty(), ..x })
}

/// `saved` with `source` replacing the first saved source with its id, or added at the end.
pub open spec fn merge_source(saved: Seq<SourceView>, source: SourceView) -> Seq<SourceView> {
    match crate::repository::first_id(crate::repository::source_ids(saved), source.id) {
        Some(k) => saved.update(k, source),
        None => saved.push(source),
    }
}

/// `saved` with every source of `sources` merged in, in order.
pub open spec fn merge_sources(saved: Seq<SourceView>, sources: Seq<SourceView>) -> Seq<SourceView>
    decreases sources.len(),
{
    if sources.len() == 0 {
        saved
    } else {
        merge_source(merge_sources(saved, sources.drop_last()), sources.last())
    }
}

fn kind_of(is_dir: bool) -> (k: EntryKind)
    ensures
        k == if is_dir {
            EntryKind::Directory
        } else {
            EntryKind::File
        },
{
    if is_dir {
        EntryKind::Directory
    } else {
        EntryKind::File
    }
}

fn path_match(existing: &Vec<EntrySource>, path: &str) -> (r: Option<usize>)
    ensures
        match r {
            Some(i) => first_path_match(sources_view(existing@), path@) == Some(i as int),
            None => first_path_match(sources_view(existing@), path@) is None,
        },
{
    let wanted = chars_of(path);
    let mut i: usize = 0;
    proof {
        assert(sources_view(existing@).skip(0) =~= sources_view(existing@));
    }
    while i < existing.len()
        invariant
            i <= existing@.len(),
            wanted@ == path@,
            first_path_match(sources_view(existing@), path@) == match first_path_match(
                sources_view(existing@).skip(i as int),
                path@,
            ) {
                Some(k) => Some(k + i),
                None => None,
            },
        decreases existing@.len() - i,
    {
        let candidate = chars_of(existing[i].path.as_str());
        proof {
            let rest = sources_view(existing@).skip(i as int);
            assert(rest[0] == existing@[i as int]@);
            assert(rest.drop_first() =~= sources_view(existing@).skip(i + 1));
        }
        if eq_ignore_ascii_case(candidate.as_slice(), wanted.as_slice()) {
            return Some(i);
        }
        i = i + 1;
    }
    proof {
        assert(sources_view(existing@).skip(i as int) =~= Seq::<SourceView>::empty());
    }
    None
}

/// Builds the sources of resolved paths; a path that an existing source has (ignoring ASCII
/// case) keeps that source's id, any other takes the id at its position in `fresh`.
pub fn resolve_with_ids(
    resolved: &Vec<ResolvedSource>,
    existing: &Vec<EntrySource>,
    fresh: &Vec<String>,
) -> (r: Vec<EntrySource>)
    requires
        fresh@.len() == resolved@.len(),
    ensures
        sources_view(r@) == resolved_sources(
            resolved_view(resolved@),
            sources_view(existing@),
            crate::model::strings_view(fresh@),
        ),
{
    let mut out: Vec<EntrySource> = Vec::new();
    let mut i: usize = 0;
    while i < resolved.len()
        invariant
            i <= resolved@.len(),
            fresh@.len() == resolved@.len(),
            sources_view(out@) == resolved_sources(
                resolved_view(resolved@),
                sources_view(existing@),
                crate::model::strings_view(fresh@),
            ).take(i as int),
        decreases resolved@.len() - i,
    {
        let r = &resolved[i];
        let id = match path_match(existing, r.path.as_str()) {
            Some(k) => {
                proof {
                    lemma_first_path_match_bounds(sources_view(existing@), r.path@);
                }
                existing[k].id.clone()
            },
            None => fresh[i].clone(),
        };
        let source = EntrySource { id, name: r.name.clone(), path: r.path.clone(), kind: kind_of(r.is_dir) };
        let ghost prev = out@;
        out.push(source);
        proof {
            assert(sources_view(out@) =~= sources_view(prev).push(source@));
            assert(resolved_sources(
                resolved_view(resolved@),
                sources_view(existing@),
                crate::model::strings_view(fresh@),
            ).take(i + 1) =~= resolved_sources(
                resolved_view(resolved@),
                sources_view(existing@),
                crate::model::strings_view(fresh@),
            ).take(i as int).push(source@));
        }
        i = i + 1;
    }
    proof {
        assert(resolved_sources(
            resolved_view(resolved@),
            sources_view(existing@),
            crate::model::strings_view(fresh@),
        ).take(resolved@.len() as int) =~= resolved_sources(
            resolved_view(resolved@),
            sources_view(existing@),
            crate::model::strings_view(fresh@),
        ));
    }
    out
}

fn listed(resolved: &Vec<ResolvedSource>, path: &str) -> (r: bool)
    ensures
        r == path_listed(resolved_view(resolved@), path@),
{
    let wanted = chars_of(path);
    let mut j: usize = 0;
    while j < resolved.len()
        invariant
            j <= resolved@.len(),
            wanted@ == path@,
            forall|k: int| 0 <= k < j ==> !eq_ignore_ascii_case_spec(#[trigger] resolved_view(resolved@)[k].path, path@),
        decreases resolved@.len() - j,
    {
        let candidate = chars_of(resolved[j].path.as_str());
        if eq_ignore_ascii_case(candidate.as_slice(), wanted.as_slice()) {
            proof {
                assert(resolved_view(resolved@)[j as int].path == resolved@[j as int].path@);
            }
            return true;
        }
        proof {
            assert(resolved_view(resolved@)[j as int].path == resolved@[j as int].path@);
        }
        j = j + 1;
    }
    false
}

/// Like `resolve_with_ids`, and a path that replaces the source at its position keeps that
/// slot's id (see `sources_by_position`).
pub fn resolve_by_position(
    resolved: &Vec<ResolvedSource>,
    existing: &Vec<EntrySource>,
    fresh: &Vec<String>,
) -> (r: Vec<EntrySource>)
    requires
        fresh@.len() == resolved@.len(),
    ensures
        sources_view(r@) == sources_by_position(
            resolved_view(resolved@),
            sources_view(existing@),
            crate::model::strings_view(fresh@),
        ),
{
    let base = resolve_with_ids(resolved, existing, fresh);
    proof {
        assert(sources_view(base@).len() == base@.len());
    }
    let mut out: Vec<EntrySource> = Vec::new();
    let mut i: usize = 0;
    while i < base.len()
        invariant
            i <= base@.len(),
            base@.len() == resolved@.len(),
            fresh@.len() == resolved@.len(),
            sources_view(base@) == resolved_sources(
                resolved_view(resolved@),
                sources_view(existing@),
                crate::model::strings_view(fresh@),
            ),
            sources_view(out@) == sources_by_position(
                resolved_view(resolved@),
                sources_view(existing@),
                crate::model::strings_view(fresh@),
            ).take(i as int),
        decreases base@.len() - i,
    {
        let mut source = base[i].duplicate();
        proof {
            assert(source@ == sources_view(base@)[i as int]);
        }
        if i < existing.len() && path_match(existing, resolved[i].path.as_str()).is_none()
            && !listed(resolved, existing[i].path.as_str()) {
            source.id = existing[i].id.clone();
        }
        let ghost prev = out@;
        out.push(source);
        proof {
            assert(sources_view(out@) =~= sources_view(prev).push(source@));
            assert(sources_by_position(
                resolved_view(resolved@),
                sources_view(existing@),
                crate::model::strings_view(fresh@),
            ).take(i + 1) =~= sources_by_position(
                resolved_view(resolved@),
                sources_view(existing@),
                crate::model::strings_view(fresh@),
            ).take(i as int).push(source@));
        }
        i = i + 1;
    }
    proof {
        assert(sources_by_position(
            resolved_view(resolved@),
            sources_view(existing@),
            crate::model::strings_view(fresh@),
        ).take(resolved@.len() as int) =~= sources_by_position(
            resolved_view(resolved@),
            sources_view(existing@),
            crate::model::strings_view(fresh@),
        ));
    }
    out
}

/// Sources without their device paths.
pub fn shared_copy(sources: &Vec<EntrySource>) -> (r: Vec<EntrySource>)
    ensures
        sources_view(r@) == shared_sources(sources_view(sources@)),
{
    let mut out: Vec<EntrySource> = Vec::new();
    let mut i: usize = 0;
    while i < sources.len()
        invariant
            i <= sources@.len(),
            sources_view(out@) == shared_sources(sources_view(sources@)).take(i as int),
        decreases sources@.len() - i,
    {
        let mut source = sources[i].duplicate();
        source.path = String::new();
        let ghost prev = out@;
        out.push(source);
        proof {
            assert(sources_view(out@) =~= sources_view(prev).push(source@));
            assert(shared_sources(sources_view(sources@)).take(i + 1) =~= shared_sources(
                sources_view(sources@),
            ).take(i as int).push(source@));
        }
        i = i + 1;
    }
    proof {
        assert(shared_sources(sources_view(sources@)).take(sources@.len() as int) =~= shared_sources(
            sources_view(sources@),
        ));
    }
    out
}

/// Merges `sources` into the saved sources of one entry's binding.
pub fn merge_into(saved: &mut Vec<EntrySource>, sources: &Vec<EntrySource>)
    ensures
        sources_view(final(saved)@) == merge_sources(sources_view(old(saved)@), sources_view(sources@)),
{
    let ghost start = sources_view(saved@);
    let mut i: usize = 0;
    while i < sources.len()
        invariant
            i <= sources@.len(),
            sources_view(saved@) == merge_sources(start, sources_view(sources@).take(i as int)),
        decreases sources@.len() - i,
    {
        let source = sources[i].duplicate();
        let ids = crate::repository::source_id_list(saved);
        let ghost prev = saved@;
        proof {
            let t = sources_view(sources@).take(i + 1);
            assert(t.drop_last() =~= sources_view(sources@).take(i as int));
            assert(t.last() == source@);
        }
        match crate::repository::find_id(&ids, source.id.as_str()) {
            Some(k) => {
                proof {
                    crate::repository::lemma_first_id_bounds(
                        crate::repository::source_ids(sources_view(prev)),
                        source@.id,
                    );
                }
                saved.remove(k);
                saved.insert(k, source);
                proof {
                    assert(saved@ =~= prev.update(k as int, source));
                    assert(sources_view(saved@) =~= sources_view(prev).update(k as int, source@));
                }
            },
            None => {
                saved.push(source);
                proof {
                    assert(sources_view(saved@) =~= sources_view(prev).push(source@));
                }
            },
        }
        i = i + 1;
    }
    proof {
        assert(sources_view(sources@).take(sources@.len() as int) =~= sources_view(sources@));
    }
}

/// Characters a folder name may not hold on Windows, and control characters.
pub open spec fn unsafe_name_char(c: char) -> bool {
    c == '<' || c == '>' || c == ':' || c == '"' || c == '/' || c == '\\' || c == '|' || c == '?'
        || c == '*' || is_control_char(c)
}

/// `s` without trailing dots and spaces.
pub open spec fn trim_end_dots(s: Seq<char>) -> Seq<char>
    decreases s.len(),
{
    if s.len() > 0 && (s.last() == '.' || s.last() == ' ') {
        trim_end_dots(s.drop_last())
    } else {
        s
    }
}

/// The folder name for an archive name: unsafe characters become `_`, the result is trimmed
/// of white space and of trailing dots and spaces, and cut to 80 characters; an empty result
/// becomes `archive`.
pub open spec fn safe_folder_name_spec(name: Seq<char>) -> Seq<char> {
    let cleaned = trim_end_dots(trim(name.map_values(|c: char| if unsafe_name_char(c) { '_' } else { c })));
    if cleaned.len() == 0 {
        seq!['a', 'r', 'c', 'h', 'i', 'v', 'e']
    } else if cleaned.len() <= 80 {
        cleaned
    } else {
        cleaned.take(80)
    }
}

/// The folder name an archive called `name` is stored under.
pub fn safe_folder_name(name: &str) -> (r: String)
    ensures
        r@ == safe_folder_name_spec(name@),
{
    let chars = chars_of(name);
    let ghost mapped = name@.map_values(|c: char| if unsafe_name_char(c) { '_' } else { c });
    let mut replaced: Vec<char> = Vec::new();
    let mut i: usize = 0;
    while i < chars.len()
        invariant
            i <= chars@.len(),
            chars@ == name@,
            mapped == name@.map_values(|c: char| if unsafe_name_char(c) { '_' } else { c }),
            replaced@ == mapped.take(i as int),
        decreases chars@.len() - i,
    {
        let c = chars[i];
        let unsafe_char = c == '<' || c == '>' || c == ':' || c == '"' || c == '/' || c == '\\'
            || c == '|' || c == '?' || c == '*' || is_control(c);
        if unsafe_char {
            replaced.push('_');
        } else {
            replaced.push(c);
        }
        proof {
            assert(replaced@ =~= mapped.take(i + 1));
        }
        i = i + 1;
    }
    proof {
        assert(mapped.take(chars@.len() as int) =~= mapped);
    }
    let trimmed = trim_chars(replaced.as_slice());
    let mut end: usize = trimmed.len();
    proof {
        assert(trimmed@.take(end as int) =~= trimmed@);
    }
    while end > 0 && (trimmed[end - 1] == '.' || trimmed[end - 1] == ' ')
        invariant
            end <= trimmed@.len(),
            trim_end_dots(trimmed@) == trim_end_dots(trimmed@.take(end as int)),
        decreases end,
    {
        proof {
            assert(trimmed@.take(end as int).drop_last() =~= trimmed@.take(end - 1));
        }
        end = end - 1;
    }
    let ghost cleaned = trim_end_dots(trimmed@);
    proof {
        assert(cleaned == trimmed@.take(end as int));
    }
    if end == 0 {
        proof {
            reveal_strlit("archive");
        }
        let fallback = "archive";
        proof {
            assert(fallback@ =~= seq!['a', 'r', 'c', 'h', 'i', 'v', 'e']);
        }
        return fallback.to_owned();
    }
    let keep = if end <= 80 {
        end
    } else {
        80
    };
    let mut out: Vec<char> = Vec::new();
    let mut k: usize = 0;
    while k < keep
        invariant
            k <= keep <= end <= trimmed@.len(),
            out@ == trimmed@.take(k as int),
        decreases keep - k,
    {
        out.push(trimmed[k]);
        k = k + 1;
        proof {
            assert(out@ =~= trimmed@.take(k as int));
        }
    }
    proof {
        if end <= 80 {
            assert(out@ =~= cleaned);
        } else {
            assert(out@ =~= cleaned.take(80));
        }
    }
    string_of(out.as_slice())
}

} // verus!
