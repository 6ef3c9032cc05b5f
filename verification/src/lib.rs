//! Verified core of the Chronicle timeline backup library.
pub mod sync;
pub mod text;
pub mod remote;
pub mod webdav;
pub mod github;
pub mod json;
pub mod registry;
pub mod url;
pub mod update;
pub mod model;
pub mod repository;
pub mod order;
pub mod tree;
pub mod sources;
pub mod removal;
pub mod snapshot;
pub mod vdf;
pub mod steam;
pub mod exclusions;
pub mod auto_backup;
pub mod galgame;
pub mod cloud;
pub mod keyed;
pub mod commands;
pub mod onboarding;
pub mod storage_root;
pub mod steam_paths;
pub mod recycle;
pub mod restore;
pub mod setup;
pub mod fingerprint;
pub mod laws;
pub mod github_commit;
