use chronicle::cloud::CloudSourceInput;
use chronicle::fingerprint::{source_fingerprint, verify_bundle};

fn source() -> CloudSourceInput {
    CloudSourceInput {
        id: "test".into(),
        name: "S3".into(),
        provider: "opendal".into(),
        endpoint: "".into(),
        username: "".into(),
        remote_path: "/Chronicle".into(),
        credential_ref: "test-ref".into(),
        repository: "".into(),
        branch: "main".into(),
        scheme: "s3".into(),
        config: vec![("bucket".into(), "test".into())],
        secret_keys: vec!["secret_access_key".into(), "access_key_id".into()],
        sync_enabled: false,
    }
}

fn secrets() -> Vec<(String, String)> {
    vec![("access_key_id".into(), "id".into()), ("secret_access_key".into(), "secret".into())]
}

#[test]
fn opendal_verification_binds_secrets_and_target_but_not_map_order() {
    let mut source = source();
    let mut secrets = secrets();
    let fingerprint = source_fingerprint(&source, &secrets);
    source.secret_keys.reverse();
    assert!(verify_bundle(&source, &secrets, &fingerprint).is_ok());
    source.sync_enabled = true;
    assert!(verify_bundle(&source, &secrets, &fingerprint).is_ok());
    source.remote_path = "/other".into();
    assert!(verify_bundle(&source, &secrets, &fingerprint).is_err());
    source.remote_path = "/Chronicle".into();
    secrets[1].1 = "changed".into();
    assert!(verify_bundle(&source, &secrets, &fingerprint).is_err());
}

#[test]
fn the_fingerprint_is_the_digest_of_the_canonical_pair() {
    assert_eq!(
        source_fingerprint(&source(), &secrets()),
        "f9f27d3138f68ccf3456b9e15e8bdc164428318bdb7d18428b6e1a70aa04d881"
    );
    assert_eq!(
        verify_bundle(&source(), &secrets(), "0").unwrap_err(),
        "配置已更改，请重新测试并保存同步源"
    );
}
