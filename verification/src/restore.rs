//! Restoring an archive to one of its snapshots: which snapshot may be restored, whether its
//! archive is intact, and which extracted item replaces each source.
use crate::model::{EntryKind, EntrySource, SourceView};
use crate::remote::str_is;
use crate::repository::{entry_ids, entry_of, find_snapshot, first_id, LocalRepository, StorageError};
use crate::text::{chars_of, concat_chars, string_of};
use crate::update::{hex_lower, sha256};
use vstd::prelude::*;

verus! {

/// Where a source's content lies in an extracted snapshot archive, as a path relative to
/// the extraction folder (parts joined by `/`), and whether it is a directory: a directory
/// source is the folder named by its id, any other source the file under that folder that
/// bears the source's name.
pub open spec fn extracted_item(source: SourceView) -> (Seq<char>, bool) {
    match source.kind {
        EntryKind::Directory => (source.id, true),
        _ => (source.id + seq!['/'] + source.name, false),
    }
}

/// The replacements that restore `sources` from an extraction holding `extracted`: for each
/// source in order, its extracted item, the source's path and whether it is a directory;
/// or the id of the first source whose item the extraction lacks.
pub open spec fn restore_steps(sources: Seq<SourceView>, extracted: Seq<(Seq<char>, bool)>) -> Result<
    Seq<(Seq<char>, Seq<char>, bool)>,
    Seq<char>,
>
    decreases sources.len(),
{
    if sources.len() == 0 {
        Ok(Seq::empty())
    } else {
        match restore_steps(sources.drop_last(), extracted) {
            Err(id) => Err(id),
            Ok(steps) => {
                let s = sources.last();
                let item = extracted_item(s);
                if extracted.contains(item) {
                    Ok(steps.push((item.0, s.path, item.1)))
                } else {
                    Err(s.id)
                }
            },
        }
    }
}

/// The extracted items as text and kind.
pub open spec fn extracted_view(extracted: Seq<(String, bool)>) -> Seq<(Seq<char>, bool)> {
    extracted.map_values(|p: (String, bool)| (p.0@, p.1))
}

/// The steps as text.
pub open spec fn steps_view(steps: Seq<(String, String, bool)>) -> Seq<(Seq<char>, Seq<char>, bool)> {
    steps.map_values(|s: (String, String, bool)| (s.0@, s.1@, s.2))
}

fn item_of(source: &EntrySource) -> (r: (String, bool))
    ensures
        (r.0@, r.1) == extracted_item(source@),
{
    match source.kind {
        EntryKind::Directory => (source.id.clone(), true),
        _ => {
            let slash: Vec<char> = vec!['/'];
            let id = chars_of(source.id.as_str());
            let name = chars_of(source.name.as_str());
            let a = concat_chars(id.as_slice(), slash.as_slice());
            let b = concat_chars(a.as_slice(), name.as_slice());
            proof {
                assert(slash@ =~= seq!['/']);
            }
            (string_of(b.as_slice()), false)
        },
    }
}

fn holds_item(extracted: &Vec<(String, bool)>, item: &(String, bool)) -> (r: bool)
    ensures
        r == extracted_view(extracted@).contains((item.0@, item.1)),
{
    let ghost want = (item.0@, item.1);
    let mut k: usize = 0;
    while k < extracted.len()
        invariant
            k <= extracted@.len(),
            want == (item.0@, item.1),
            forall|j: int| 0 <= j < k ==> extracted_view(extracted@)[j] != want,
        decreases extracted@.len() - k,
    {
        proof {
            assert(extracted_view(extracted@)[k as int] == (extracted@[k as int].0@, extracted@[k as int].1));
        }
        if extracted[k].1 == item.1 && str_is(extracted[k].0.as_str(), item.0.as_str()) {
            proof {
                assert(extracted_view(extracted@)[k as int] == want);
            }
            return true;
        }
        k = k + 1;
    }
    false
}

/// The replacements for `sources`, as `restore_steps` gives them.
pub fn plan_replacements(sources: &Vec<EntrySource>, extracted: &Vec<(String, bool)>) -> (r: Result<
    Vec<(String, String, bool)>,
    String,
>)
    ensures
        match restore_steps(crate::model::sources_view(sources@), extracted_view(extracted@)) {
            Ok(steps) => r matches Ok(v) && steps_view(v@) == steps,
            Err(id) => r matches Err(e) && e@ == id,
        },
{
    let ghost all = crate::model::sources_view(sources@);
    let ghost ex = extracted_view(extracted@);
    let mut steps: Vec<(String, String, bool)> = Vec::new();
    let mut k: usize = 0;
    proof {
        assert(all.take(0) =~= Seq::<SourceView>::empty());
        assert(steps_view(steps@) =~= Seq::<(Seq<char>, Seq<char>, bool)>::empty());
    }
    while k < sources.len()
        invariant
            k <= sources@.len(),
            all == crate::model::sources_view(sources@),
            all.len() == sources@.len(),
            ex == extracted_view(extracted@),
            restore_steps(all.take(k as int), ex) == Ok::<Seq<(Seq<char>, Seq<char>, bool)>, Seq<char>>(
                steps_view(steps@),
            ),
        decreases sources@.len() - k,
    {
        let source = &sources[k];
        proof {
            let t = all.take(k + 1);
            assert(t.drop_last() =~= all.take(k as int));
            assert(t.last() == source@);
        }
        let item = item_of(source);
        if !holds_item(extracted, &item) {
            proof {
                lemma_steps_error_stays(all, ex, k as int + 1);
            }
            return Err(source.id.clone());
        }
        let ghost prev = steps@;
        steps.push((item.0, source.path.clone(), item.1));
        proof {
            assert(steps_view(steps@) =~= steps_view(prev).push(
                (extracted_item(source@).0, source@.path, extracted_item(source@).1),
            ));
        }
        k = k + 1;
    }
    proof {
        assert(all.take(sources@.len() as int) =~= all);
    }
    Ok(steps)
}

proof fn lemma_steps_error_stays(sources: Seq<SourceView>, extracted: Seq<(Seq<char>, bool)>, n: int)
    requires
        0 <= n <= sources.len(),
        restore_steps(sources.take(n), extracted) is Err,
    ensures
        restore_steps(sources, extracted) == restore_steps(sources.take(n), extracted),
    decreases sources.len() - n,
{
    if n < sources.len() {
        let t = sources.take(n + 1);
        assert(t.drop_last() =~= sources.take(n));
        lemma_steps_error_stays(sources, extracted, n + 1);
    } else {
        assert(sources.take(n) =~= sources);
    }
}

impl LocalRepository {
    /// Whether `snapshot_id` may be restored into entry `entry_id`: the entry must exist and
    /// the snapshot must be one of its own. This is decided before the safety snapshot of
    /// the entry's current state is taken.
    pub fn restore_target(&self, entry_id: &str, snapshot_id: &str) -> (r: Result<(), StorageError>)
        ensures
            match first_id(entry_ids(self.entries()), entry_id@) {
                None => r matches Err(StorageError::EntryNotFound(id)) && id@ == entry_id@,
                Some(i) => match find_snapshot(self.entries(), snapshot_id@) {
                    Some(s) if s.entry_id == entry_of(self.entries()[i], self.bindings()).id => r is Ok,
                    _ => r matches Err(StorageError::SnapshotNotFound(id)) && id@ == snapshot_id@,
                },
            },
    {
        let entry = match self.get_entry(entry_id) {
            Ok(e) => e,
            Err(e) => return Err(e),
        };
        let snapshot = match self.get_snapshot(snapshot_id) {
            Ok(s) => s,
            Err(e) => return Err(e),
        };
        if !str_is(snapshot.entry_id.as_str(), entry.id.as_str()) {
            return Err(StorageError::SnapshotNotFound(snapshot_id.to_owned()));
        }
        Ok(())
    }

    /// How to restore entry `entry_id` to snapshot `snapshot_id`, once the safety snapshot of
    /// its current state is taken: the snapshot must be the entry's own, its archive
    /// (`None` where the file is missing) must match the recorded SHA-256 digest, and the
    /// extraction of the archive (`extracted`: every item found in it, as a path relative to
    /// the extraction folder and whether it is a directory) must hold each source's item.
    /// The result is, for each source in order, the extracted item, the path it replaces,
    /// and whether it is a directory.
    pub fn restore_plan(
        &self,
        entry_id: &str,
        snapshot_id: &str,
        archive: Option<&[u8]>,
        extracted: &Vec<(String, bool)>,
    ) -> (r: Result<Vec<(String, String, bool)>, StorageError>)
        ensures
            match first_id(entry_ids(self.entries()), entry_id@) {
                None => r matches Err(StorageError::EntryNotFound(id)) && id@ == entry_id@,
                Some(i) => {
                    let e = entry_of(self.entries()[i], self.bindings());
                    match find_snapshot(self.entries(), snapshot_id@) {
                        Some(s) if s.entry_id == e.id => if !(archive matches Some(bytes) && hex_lower(
                            sha256(bytes@),
                        ) == s.object_hash) {
                            r matches Err(StorageError::IntegrityMismatch)
                        } else {
                            match restore_steps(e.sources, extracted_view(extracted@)) {
                                Ok(steps) => r matches Ok(v) && steps_view(v@) == steps,
                                Err(id) => r matches Err(StorageError::IncompleteSnapshot(m)) && m@ == id,
                            }
                        },
                        _ => r matches Err(StorageError::SnapshotNotFound(id)) && id@ == snapshot_id@,
                    }
                },
            },
    {
        let entry = match self.get_entry(entry_id) {
            Ok(e) => e,
            Err(e) => return Err(e),
        };
        let snapshot = match self.get_snapshot(snapshot_id) {
            Ok(s) => s,
            Err(e) => return Err(e),
        };
        if !str_is(snapshot.entry_id.as_str(), entry.id.as_str()) {
            return Err(StorageError::SnapshotNotFound(snapshot_id.to_owned()));
        }
        proof {
            crate::repository::lemma_first_id_bounds(entry_ids(self.entries()), entry_id@);
            let i = first_id(entry_ids(self.entries()), entry_id@)->0;
            assert(entry_ids(self.entries())[i] == self.entries()[i].id);
        }
        match self.verify_snapshot(snapshot_id, archive) {
            Ok(true) => {},
            Ok(false) => return Err(StorageError::IntegrityMismatch),
            Err(e) => return Err(e),
        }
        match plan_replacements(&entry.sources, extracted) {
            Ok(steps) => Ok(steps),
            Err(id) => Err(StorageError::IncompleteSnapshot(id)),
        }
    }
}

} // verus!
