use chronicle::github::{GitHubChange, GitHubError};
use base64::Engine;
use chronicle::github::{deletion_tree_entry, valid_new_repository_name, GitHubClient, GitHubSource};
use chronicle::json::{get, parse_json, Json};
use chronicle::remote::{
    gcs_credential_as_base64, is_local_credential_key, opendal_config, require_capabilities,
    validate_relative_path,
    OpenDalSource,
};
use chronicle::sync::RequestPolicy;
use chronicle::webdav::{WebDavClient, WebDavError, WebDavSource};

fn github_source(remote_path: &str) -> GitHubSource {
    GitHubSource {
        repository: "owner/repository".into(),
        branch: "main".into(),
        remote_path: remote_path.into(),
        token: "token".into(),
    }
}

fn text(value: Option<&Json>) -> Option<&str> {
    match value {
        Some(Json::Str(s)) => Some(s.as_str()),
        _ => None,
    }
}

#[test]
fn accepts_a_safe_new_repository_name() {
    assert!(valid_new_repository_name("chronicle").is_ok());
    assert!(valid_new_repository_name("Chronicle Backups").is_ok());
    assert!(valid_new_repository_name("../outside").is_err());
    assert!(valid_new_repository_name("").is_err());
}

#[test]
fn repository_path_stays_under_the_chronicle_root() {
    let client = GitHubClient::new(github_source("/Chronicle"), RequestPolicy::default()).unwrap();
    assert_eq!(
        client.scoped_path("catalog.json").unwrap(),
        "Chronicle/catalog.json"
    );
    assert!(client.scoped_path("../settings.json").is_err());
}

#[test]
fn deletion_tree_entries_keep_the_required_blob_mode_and_type() {
    let entry = deletion_tree_entry("Chronicle/archives/archive/snapshot.7z");

    assert_eq!(
        text(get(&entry, "path")),
        Some("Chronicle/archives/archive/snapshot.7z")
    );
    assert_eq!(text(get(&entry, "mode")), Some("100644"));
    assert_eq!(text(get(&entry, "type")), Some("blob"));
    assert!(matches!(get(&entry, "sha"), Some(Json::Null)));
}

#[test]
fn repository_endpoint_has_no_trailing_slash() {
    let client = GitHubClient::new(github_source("/Chronicle"), RequestPolicy::default()).unwrap();

    assert_eq!(
        client.api(""),
        "https://api.github.com/repos/owner/repository"
    );
}

#[test]
fn rejects_a_repository_root_that_escapes_the_repository() {
    let source = github_source("../outside");
    assert!(GitHubClient::new(source, RequestPolicy::default()).is_err());
}

#[test]
fn remote_urls_stay_below_the_configured_chronicle_root() {
    let client = WebDavClient::new(
        WebDavSource {
            endpoint: "https://dav.example.test/user/".into(),
            username: "user".into(),
            password: "secret".into(),
            remote_path: "/Chronicle/".into(),
        },
        RequestPolicy::default(),
    )
    .unwrap();
    assert_eq!(
        client.url("data/catalog.json"),
        "https://dav.example.test/user/Chronicle/data/catalog.json"
    );
    assert_eq!(client.url(""), "https://dav.example.test/user/Chronicle");
}

#[test]
fn relative_paths_that_leave_the_root_are_refused() {
    for path in ["/escape", "../escape", "a/../b", "a\\b", "C:/x"] {
        assert!(validate_relative_path(path).is_err());
    }
    assert!(validate_relative_path("archives/name/snapshot.7z").is_ok());
}

#[test]
fn api_paths_join_below_the_repository_endpoint() {
    let client = GitHubClient::new(github_source("/"), RequestPolicy::default()).unwrap();
    assert_eq!(
        client.api("/git/trees"),
        "https://api.github.com/repos/owner/repository/git/trees"
    );
    assert_eq!(client.scoped_path("/catalog.json/").unwrap(), "catalog.json");
}

fn opendal(scheme: &str) -> OpenDalSource {
    OpenDalSource {
        scheme: scheme.into(),
        root: "Chronicle".into(),
        config: Vec::new(),
        secret_keys: Vec::new(),
    }
}

fn setting<'a>(pairs: &'a [(String, String)], key: &str) -> Option<&'a str> {
    pairs
        .iter()
        .rev()
        .find(|(k, _)| k == key)
        .map(|(_, v)| v.as_str())
}

#[test]
fn rejects_paths_and_uncompiled_services() {
    for path in ["/escape", "../escape", "a/../b", "a\\b", "C:/x"] {
        assert!(validate_relative_path(path).is_err());
    }
    assert!(validate_relative_path("archives/name/snapshot.7z").is_ok());
    assert!(opendal_config(&opendal("fs"), &Vec::new()).is_err());
}

#[test]
fn gcs_credentials_are_encoded_and_local_credential_aliases_are_rejected() {
    let encoded =
        gcs_credential_as_base64(r#"{"client_email":"a@example.test","private_key":"key"}"#)
            .unwrap();
    let decoded = base64::engine::general_purpose::STANDARD
        .decode(encoded)
        .unwrap();
    let value = parse_json(&decoded).unwrap();
    assert!(matches!(get(&value, "client_email"), Some(Json::Str(s)) if s == "a@example.test"));
    assert!(gcs_credential_as_base64("not-json").is_err());
    for key in [
        "credential_path",
        "google_application_credentials",
        "service_account_path",
        "aws_profile",
    ] {
        assert!(is_local_credential_key(key), "{key}");
    }
}

#[test]
fn service_settings_carry_secrets_the_gcs_lock_and_the_root() {
    let mut source = opendal("gcs");
    source.root = "/Chronicle/Saves/".into();
    source.config = vec![("bucket".into(), "b".into())];
    source.secret_keys = vec!["credential".into()];
    let secrets = vec![("credential".to_string(), r#"{"a":1}"#.to_string())];
    let config = opendal_config(&source, &secrets).unwrap();
    assert_eq!(setting(&config, "bucket"), Some("b"));
    assert_eq!(setting(&config, "root"), Some("/Chronicle/Saves"));
    assert_eq!(setting(&config, "disable_config_load"), Some("true"));
    assert_eq!(setting(&config, "disable_vm_metadata"), Some("true"));
    assert_eq!(setting(&config, "credential"), Some("eyJhIjoxfQ=="));
}

#[test]
fn service_settings_refuse_leaks_bad_endpoints_and_missing_secrets() {
    let message = |source: &OpenDalSource, secrets: &Vec<(String, String)>| match opendal_config(
        source, secrets,
    ) {
        Err(WebDavError::Remote(m)) => m,
        _ => panic!("expected a refusal"),
    };
    let mut leaking = opendal("s3");
    leaking.config = vec![("secret_access_key".into(), "x".into())];
    assert_eq!(message(&leaking, &Vec::new()), "机密配置不能写入公开设置");
    let mut endpoint = opendal("s3");
    endpoint.config = vec![("endpoint".into(), "https://user:pw@host/".into())];
    assert_eq!(
        message(&endpoint, &Vec::new()),
        "公开 endpoint 不得包含账号密码、查询令牌或片段"
    );
    endpoint.config = vec![("endpoint".into(), "not a url".into())];
    assert_eq!(
        message(&endpoint, &Vec::new()),
        "endpoint 必须是有效 HTTP(S) 地址"
    );
    let mut missing = opendal("s3");
    missing.secret_keys = vec!["secret_access_key".into()];
    assert_eq!(message(&missing, &Vec::new()), "缺少 OpenDAL 机密字段");
    let mut local = opendal("s3");
    local.secret_keys = vec!["credential_path".into()];
    let secrets = vec![("credential_path".to_string(), "C:/k".to_string())];
    assert_eq!(
        message(&local, &secrets),
        "不允许覆盖 root、分支或读取本地凭据文件"
    );
    let mut escaping = opendal("s3");
    escaping.root = "/../x".into();
    assert_eq!(
        message(&escaping, &Vec::new()),
        "远端路径必须位于同步源目录内"
    );
}

#[test]
fn commit_changes_are_scoped_below_the_root_before_any_request() {
    let client = GitHubClient::new(github_source("/Chronicle"), RequestPolicy::default()).unwrap();
    let scoped = client
        .scope_changes(vec![
            GitHubChange {
                path: "archives/a/old.7z".into(),
                contents: None,
            },
            GitHubChange {
                path: "catalog.json".into(),
                contents: Some(b"{}".to_vec()),
            },
        ])
        .unwrap();
    assert_eq!(scoped[0].path, "Chronicle/archives/a/old.7z");
    assert!(scoped[0].contents.is_none());
    assert_eq!(scoped[1].path, "Chronicle/catalog.json");
    assert_eq!(scoped[1].contents.as_deref(), Some(&b"{}"[..]));
    let refused = client.scope_changes(vec![GitHubChange {
        path: "../settings.json".into(),
        contents: None,
    }]);
    assert!(matches!(refused, Err(GitHubError::InvalidPath)));
}

#[test]
fn services_must_read_write_list_and_delete() {
    assert!(require_capabilities(true, true, true, true).is_ok());
    for missing in 0..4 {
        let flags: Vec<bool> = (0..4).map(|i| i != missing).collect();
        match require_capabilities(flags[0], flags[1], flags[2], flags[3]) {
            Err(WebDavError::Remote(message)) => {
                assert_eq!(message, "该服务缺少读取、写入、列举或删除能力")
            }
            _ => panic!("a service without every capability was accepted"),
        }
    }
}

#[test]
fn gcs_credentials_use_padded_standard_base64() {
    assert_eq!(gcs_credential_as_base64(r#"{"a":1}"#).unwrap(), "eyJhIjoxfQ==");
    assert_eq!(gcs_credential_as_base64(r#"{"ab":1}"#).unwrap(), "eyJhYiI6MX0=");
    assert_eq!(gcs_credential_as_base64(r#"{"abc":1}"#).unwrap(), "eyJhYmMiOjF9");
    assert_eq!(gcs_credential_as_base64("[]").unwrap(), "W10=");
}
