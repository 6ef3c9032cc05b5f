//! Tutorial progress: where a repository starts and what the language setting shows.
use crate::json::{field, get, lemma_member_tree, text_of, Json};
use crate::remote::str_is;
use vstd::prelude::*;

verus! {

#[derive(Clone, Copy, Debug, PartialEq, Eq, Structural)]
pub enum TutorialStatus {
    Pending,
    Completed,
    Skipped,
    Legacy,
}

#[derive(Clone, Copy, Debug, PartialEq, Eq, Structural)]
pub enum TutorialTip {
    Categories,
    Exclusions,
    Registry,
}

/// How far the user is through the tutorial, and which tips they have seen.
#[derive(Clone, Debug, PartialEq, Eq)]
pub struct TutorialProgress {
    pub status: TutorialStatus,
    pub seen_tips: Vec<TutorialTip>,
}

/// The progress to record when a repository is opened: nothing when progress is already saved
/// (even unreadable progress is kept), otherwise a pending tutorial for a new repository and a
/// legacy one for a repository that already has a library or catalog.
pub fn initialize(progress_saved: bool, library_present: bool, catalog_present: bool) -> (r: Option<
    TutorialProgress,
>)
    ensures
        progress_saved ==> r is None,
        !progress_saved ==> (r matches Some(p) && p.seen_tips@.len() == 0 && p.status == if library_present
            || catalog_present {
            TutorialStatus::Legacy
        } else {
            TutorialStatus::Pending
        }),
{
    if progress_saved {
        return None;
    }
    let status = if library_present || catalog_present {
        TutorialStatus::Legacy
    } else {
        TutorialStatus::Pending
    };
    Some(TutorialProgress { status, seen_tips: Vec::new() })
}

/// Whether the settings choose English for the interface.
pub open spec fn english(settings: crate::json::JsonTree) -> bool {
    match field(settings, "app"@) {
        Some(app) => text_of(field(app, "language"@)) == Some("en"@),
        None => false,
    }
}

/// The labels of the tray menu's show and quit items: English when the settings say so,
/// Chinese otherwise.
pub fn tray_labels(settings: &Json) -> (r: (&'static str, &'static str))
    ensures
        english(settings.tree()) ==> r.0@ == "Show Chronicle"@ && r.1@ == "Quit Chronicle"@,
        !english(settings.tree()) ==> r.0@ == "显示 Chronicle"@ && r.1@ == "退出 Chronicle"@,
{
    proof {
        lemma_member_tree(*settings, "app"@);
    }
    let is_english = match get(settings, "app") {
        Some(app) => {
            proof {
                lemma_member_tree(*app, "language"@);
            }
            match get(app, "language") {
                Some(Json::Str(language)) => str_is(language.as_str(), "en"),
                _ => false,
            }
        },
        None => false,
    };
    if is_english {
        ("Show Chronicle", "Quit Chronicle")
    } else {
        ("显示 Chronicle", "退出 Chronicle")
    }
}

} // verus!
