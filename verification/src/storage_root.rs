//! Where the repository lives: beside a portable installation, or in the application data.
use crate::repository::{join_path, joined_path};
use vstd::prelude::*;

verus! {

/// The directory `std::path::Path::parent` gives for `path`, as text; `None` for a root or an
/// empty path; by the path rules of the platform the library is built for.
pub uninterp spec fn parent_path(path: Seq<char>) -> Option<Seq<char>>;

/// The parent directory of a path (`std::path::Path::parent`), read back as text.
#[verifier::external_body]
fn path_parent(path: &str) -> (r: Option<String>)
    ensures
        match r {
            Some(p) => parent_path(path@) == Some(p@),
            None => parent_path(path@) is None,
        },
{
    std::path::Path::new(path).parent().map(|p| p.to_string_lossy().into_owned())
}

pub open spec fn no_parent_message() -> Seq<char> {
    "executable has no parent directory"@
}

/// The file whose presence beside the executable marks a portable installation.
pub fn portable_marker_path(executable: &str) -> (r: Option<String>)
    ensures
        match parent_path(executable@) {
            Some(d) => r matches Some(p) && p@ == joined_path(d, "portable.marker"@),
            None => r is None,
        },
{
    match path_parent(executable) {
        Some(directory) => Some(join_path(directory.as_str(), "portable.marker")),
        None => None,
    }
}

/// The repository root: `Chronicle-data` beside a portable executable, otherwise `Chronicle`
/// in the application's local data directory.
pub fn resolve_repository_root(executable: &str, portable_marker_present: bool, app_local_data: &str) -> (r:
    Result<String, String>)
    ensures
        match parent_path(executable@) {
            Some(d) => r matches Ok(p) && p@ == if portable_marker_present {
                joined_path(d, "Chronicle-data"@)
            } else {
                joined_path(app_local_data@, "Chronicle"@)
            },
            None => r matches Err(m) && m@ == no_parent_message(),
        },
{
    let directory = match path_parent(executable) {
        Some(d) => d,
        None => {
            return Err("executable has no parent directory".to_owned());
        },
    };
    if portable_marker_present {
        Ok(join_path(directory.as_str(), "Chronicle-data"))
    } else {
        Ok(join_path(app_local_data, "Chronicle"))
    }
}

} // verus!
