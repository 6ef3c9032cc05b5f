use chronicle::github_commit::{
    blob_request, blob_tree_entry, commit_request, inline_tree_entry, is_json_path, ref_update_request, tree_request,
};
use chronicle::json::{write_json, Json};

fn text_of(value: &Json) -> String {
    String::from_utf8(write_json(value)).expect("documents are UTF-8")
}

#[test]
fn json_paths_are_recognised_by_their_file_name() {
    assert!(is_json_path("Chronicle/catalog.json"));
    assert!(is_json_path("Chronicle/archives/a/entry.JSON"));
    assert!(is_json_path("library.json"));
    assert!(!is_json_path("Chronicle/archives/a/1.7z"));
    assert!(!is_json_path("Chronicle/.json"));
    assert!(!is_json_path("Chronicle/a.json/archive"));
    assert!(!is_json_path("Chronicle/catalog.jsonl"));
}

#[test]
fn small_json_files_are_written_inline() {
    let entry = inline_tree_entry("Chronicle/catalog.json", b"{\"entries\":[]}").expect("inline");
    assert_eq!(
        text_of(&entry),
        r#"{"content":"{\"entries\":[]}","mode":"100644","path":"Chronicle/catalog.json","type":"blob"}"#
    );
}

#[test]
fn archives_and_invalid_text_are_not_written_inline() {
    assert!(inline_tree_entry("Chronicle/archives/a/1.7z", b"{}").is_none());
    assert!(inline_tree_entry("Chronicle/catalog.json", &[0xff, 0xfe]).is_none());
    let large = vec![b' '; 1024 * 1024 + 1];
    assert!(inline_tree_entry("Chronicle/catalog.json", &large).is_none());
    let limit = vec![b' '; 1024 * 1024];
    assert!(inline_tree_entry("Chronicle/catalog.json", &limit).is_some());
}

#[test]
fn binary_blobs_keep_their_exact_bytes_in_base64() {
    let request = blob_request(&[0, 1, 2, 255]);
    assert_eq!(text_of(&request), r#"{"content":"AAEC/w==","encoding":"base64"}"#);
}

#[test]
fn commit_requests_have_the_git_data_shapes() {
    assert_eq!(
        text_of(&blob_tree_entry("Chronicle/archives/a/1.7z", "abc")),
        r#"{"mode":"100644","path":"Chronicle/archives/a/1.7z","sha":"abc","type":"blob"}"#
    );
    let tree = tree_request("base", vec![Json::Str("x".to_owned())]);
    assert_eq!(text_of(&tree), r#"{"base_tree":"base","tree":["x"]}"#);
    assert_eq!(
        text_of(&commit_request("Sync", "tree", "head")),
        r#"{"message":"Sync","parents":["head"],"tree":"tree"}"#
    );
    assert_eq!(text_of(&ref_update_request("commit")), r#"{"force":false,"sha":"commit"}"#);
}
