//! What a repository starts with: the documents a new repository is created with, which of
//! them opening an existing repository keeps, and which settings documents may be saved.
use crate::json::{field, members_tree, Json, JsonTree};
use crate::model::categories_view;
use crate::repository::{
    bindings_view, entries_view, fresh_id, uuid_v4_text, BindingsDocument, Catalog, DeviceDocument,
    LocalRepository, StorageError,
};
use vstd::prelude::*;

verus! {

/// The format version of the settings document.
pub open spec fn settings_version() -> u64 {
    3
}

/// The settings of a new repository: format version 3, and empty `app` and `cloud`
/// sections (members in key order, as `serde_json` keeps them).
pub open spec fn initial_settings_tree() -> JsonTree {
    JsonTree::Object(
        seq![
            ("app"@, JsonTree::Object(Seq::empty())),
            ("cloud"@, JsonTree::Object(Seq::empty())),
            ("formatVersion"@, JsonTree::UInt(settings_version() as u64)),
        ],
    )
}

/// The library document of a new repository: format version 2, its identifier and the
/// time it was created.
pub open spec fn initial_library_tree(library_id: Seq<char>, now_ms: u64) -> JsonTree {
    JsonTree::Object(
        seq![
            ("formatVersion"@, JsonTree::UInt(2)),
            ("libraryId"@, JsonTree::Str(library_id)),
            ("updatedAtMs"@, JsonTree::UInt(now_ms)),
        ],
    )
}

/// Whether a settings document may be saved: its `formatVersion` is the integer 3, and its
/// `app` and `cloud` members are objects.
pub open spec fn valid_settings(settings: JsonTree) -> bool {
    &&& field(settings, "formatVersion"@) == Some(JsonTree::UInt(settings_version() as u64))
    &&& field(settings, "app"@) matches Some(JsonTree::Object(_))
    &&& field(settings, "cloud"@) matches Some(JsonTree::Object(_))
}

fn text(s: &str) -> (r: String)
    ensures
        r@ == s@,
{
    s.to_owned()
}

/// The settings a new repository is created with.
pub fn initial_settings() -> (r: Json)
    ensures
        r.tree() == initial_settings_tree(),
{
    let mut members: Vec<(String, Json)> = Vec::new();
    members.push((text("app"), Json::Object(Vec::new())));
    members.push((text("cloud"), Json::Object(Vec::new())));
    members.push((text("formatVersion"), Json::UInt(3)));
    proof {
        assert(members_tree(Seq::<(String, Json)>::empty()) =~= Seq::empty());
        assert(members_tree(members@) =~= seq![
            ("app"@, JsonTree::Object(Seq::empty())),
            ("cloud"@, JsonTree::Object(Seq::empty())),
            ("formatVersion"@, JsonTree::UInt(3)),
        ]);
    }
    Json::Object(members)
}

/// The settings document a repository is opened with: the one on disk where there is one
/// (it is kept as it is), else the settings of a new repository, to be written.
pub fn settings_document(existing: Option<Json>) -> (r: Json)
    ensures
        match existing {
            Some(s) => r == s,
            None => r.tree() == initial_settings_tree(),
        },
{
    match existing {
        Some(s) => s,
        None => initial_settings(),
    }
}

/// The library document a repository is opened with: the one on disk where there is one,
/// else a new one with a fresh identifier, created at `now_ms`.
pub fn library_document(existing: Option<Json>, now_ms: u64) -> (r: Json)
    ensures
        match existing {
            Some(l) => r == l,
            None => exists|id: Seq<char>| uuid_v4_text(id) && r.tree() == initial_library_tree(id, now_ms),
        },
{
    match existing {
        Some(l) => l,
        None => {
            let id = fresh_id();
            let ghost v = id@;
            let mut members: Vec<(String, Json)> = Vec::new();
            members.push((text("formatVersion"), Json::UInt(2)));
            members.push((text("libraryId"), Json::Str(id)));
            members.push((text("updatedAtMs"), Json::UInt(now_ms)));
            proof {
                assert(members_tree(members@) =~= seq![
                    ("formatVersion"@, JsonTree::UInt(2)),
                    ("libraryId"@, JsonTree::Str(v)),
                    ("updatedAtMs"@, JsonTree::UInt(now_ms)),
                ]);
            }
            Json::Object(members)
        },
    }
}

/// Checks a settings document before it is saved.
pub fn check_settings(settings: &Json) -> (r: Result<(), StorageError>)
    ensures
        valid_settings(settings.tree()) ==> r is Ok,
        !valid_settings(settings.tree()) ==> r matches Err(StorageError::InvalidSettings),
{
    proof {
        crate::json::lemma_member_tree(*settings, "formatVersion"@);
        crate::json::lemma_member_tree(*settings, "app"@);
        crate::json::lemma_member_tree(*settings, "cloud"@);
    }
    let version_ok = match crate::json::get(settings, "formatVersion") {
        Some(Json::UInt(v)) => *v == 3,
        _ => false,
    };
    let app_ok = match crate::json::get(settings, "app") {
        Some(Json::Object(_)) => true,
        _ => false,
    };
    let cloud_ok = match crate::json::get(settings, "cloud") {
        Some(Json::Object(_)) => true,
        _ => false,
    };
    if version_ok && app_ok && cloud_ok {
        Ok(())
    } else {
        Err(StorageError::InvalidSettings)
    }
}

impl LocalRepository {
    /// Opens the repository at `root` with its metadata documents as found on disk (`None`
    /// where one is missing). A document found is kept as it is; a missing one is created
    /// as a new repository starts it: an empty catalog of format 4 updated at `now_ms`, no
    /// device bindings, and a device with a fresh identifier named `device_name`.
    pub fn open_or_create(
        root: String,
        catalog: Option<Catalog>,
        bindings: Option<BindingsDocument>,
        device: Option<DeviceDocument>,
        device_name: String,
        now_ms: u64,
    ) -> (r: LocalRepository)
        ensures
            r.root_path() == root@,
            match catalog {
                Some(c) => r.categories() == categories_view(c.categories@) && r.entries() == entries_view(
                    c.entries@,
                ),
                None => r.categories().len() == 0 && r.entries().len() == 0,
            },
            match bindings {
                Some(b) => r.bindings() == bindings_view(b.entries@),
                None => r.bindings().len() == 0,
            },
            match device {
                Some(d) => r.device_id() == d.id@ && r.device_name() == d.name@,
                None => uuid_v4_text(r.device_id()) && r.device_name() == device_name@,
            },
    {
        let c = match catalog {
            Some(c) => c,
            None => Catalog { format_version: 4, updated_at_ms: now_ms, categories: Vec::new(), entries: Vec::new() },
        };
        let b = match bindings {
            Some(b) => b,
            None => BindingsDocument { format_version: 1, entries: Vec::new() },
        };
        let d = match device {
            Some(d) => d,
            None => DeviceDocument { format_version: 1, id: fresh_id(), name: device_name },
        };
        proof {
            assert(categories_view(Seq::<crate::model::Category>::empty()) =~= Seq::empty());
            assert(entries_view(Seq::<crate::repository::CatalogEntry>::empty()) =~= Seq::empty());
            assert(bindings_view(Seq::<(String, Vec<crate::model::EntrySource>)>::empty()) =~= Seq::empty());
        }
        LocalRepository::open(root, c, b, d)
    }

}

} // verus!
