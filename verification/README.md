# Chronicle

Chronicle keeps timelines of backups of game saves and other local folders. Each archive
names one or more sources (files or directories); each snapshot packs them into one 7z
object recorded in a catalog, so an archive can be restored to any point in its timeline.
Archives are filed in categories, tagged, protected by exclusion rules, backed up
automatically on change, kept in a recycle bin after deletion, and synchronized with
WebDAV, object-store and GitHub sources.

## Layout

- `src/` is the library, written in Verus. Every function carries a contract that Verus
  proves: the catalog and its changes (`repository`, `removal`, `tree`, `sources`,
  `recycle`, `restore`, `setup`), snapshot naming and change summaries (`snapshot`,
  `order`), exclusion rules and automatic backup decisions (`exclusions`, `auto_backup`),
  synchronization plans, remote catalogs and commit requests (`cloud`, `sync`, `remote`,
  `webdav`, `github`, `github_commit`, `fingerprint`, `url`), Steam and visual-novel save discovery (`steam`, `steam_paths`, `vdf`,
  `galgame`), registry snapshot checks (`registry`), updates (`update`), and the JSON
  model the documents are read into (`json`, `keyed`).
  Calls into outside crates (globset, serde_json, reqwest, uuid, sha2, time, base64, url,
  glob) go through small trusted wrappers whose contracts state what those crates
  document.
- `tests/` exercises the library on concrete values.
- `app/` is the command-line program around the library: it reads and writes the
  repository's files, walks folders, talks to the network and the credential store, and
  hands plain values to the library for every decision.
