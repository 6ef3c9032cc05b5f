use chronicle::registry::{export, export_key, restore, restore_key, RegistryRestoreMode};
use chronicle::registry::{normalize_path, validate_snapshot};

#[test]
fn normalizes_only_explicit_supported_subkeys() {
    assert_eq!(
        normalize_path(r"HKCU\Software\Chronicle").unwrap(),
        r"HKEY_CURRENT_USER\Software\Chronicle"
    );
    assert_eq!(
        normalize_path(r"hklm\SOFTWARE\Game").unwrap(),
        r"HKEY_LOCAL_MACHINE\SOFTWARE\Game"
    );
    for path in [
        "HKCU",
        "HKLM\\",
        r"HKCU\..\System",
        r"HKCU\\Software",
        r"\\machine\HKCU\Software",
        "HKCU\\Software\0oops",
        r"HKCR\thing",
    ] {
        assert!(normalize_path(path).is_err(), "accepted {path:?}");
    }
}

#[test]
fn missing_root_is_not_an_explicit_absence_snapshot() {
    let bytes = br#"{"format_version":1,"view":"64","path":"HKEY_CURRENT_USER\\Software\\ChronicleTests"}"#;
    assert!(validate_snapshot(r"HKCU\Software\ChronicleTests", bytes).is_err());
}

fn document(path: &str, root: &str) -> Vec<u8> {
    format!(r#"{{"format_version":1,"view":"64","path":"{path}","root":{root}}}"#).into_bytes()
}

#[test]
fn rejects_foreign_targets_and_escaping_child_names() {
    let target = r"HKCU\Software\ChronicleTests";
    let own = r"HKEY_CURRENT_USER\\Software\\ChronicleTests";
    assert!(validate_snapshot(target, &document(own, r#"{"values":{},"children":{}}"#)).is_ok());
    let elsewhere = r"HKEY_CURRENT_USER\\Software\\Elsewhere";
    assert!(validate_snapshot(target, &document(elsewhere, r#"{"values":{},"children":{}}"#)).is_err());
    let escaping = r#"{"values":{},"children":{"..\\Elsewhere":{"values":{},"children":{}}}}"#;
    assert!(validate_snapshot(target, &document(own, escaping)).is_err());
}

#[test]
fn rejects_link_values_unknown_types_and_case_duplicate_children() {
    let path = r"HKCU\Software\ChronicleTests";
    let own = r"HKEY_CURRENT_USER\\Software\\ChronicleTests";
    for root in [
        r#"{"values":{"link":{"vtype":6,"bytes":[]}},"children":{}}"#,
        r#"{"values":{"bad":{"vtype":12,"bytes":[]}},"children":{}}"#,
        r#"{"values":{},"children":{"Child":{"values":{},"children":{}},"CHILD":{"values":{},"children":{}}}}"#,
    ] {
        assert!(validate_snapshot(path, &document(own, root)).is_err());
    }
}

#[test]
fn validation_messages_name_the_broken_rule() {
    let path = r"HKCU\Software\ChronicleTests";
    let own = r"HKEY_CURRENT_USER\\Software\\ChronicleTests";
    assert_eq!(
        validate_snapshot(path, &document(own, r#"{"values":{"link":{"vtype":6,"bytes":[1]}},"children":{}}"#)),
        Err("注册表快照包含无效值、重复名称或 REG_LINK 链接".to_owned())
    );
    assert_eq!(
        validate_snapshot(
            path,
            &document(own, r#"{"values":{},"children":{"a":{"values":{},"children":{}},"A":{"values":{},"children":{}}}}"#)
        ),
        Err("注册表快照包含越界子键或重复名称".to_owned())
    );
    assert_eq!(
        validate_snapshot(path, b"not json"),
        Err("注册表快照格式无效".to_owned())
    );
    assert_eq!(
        validate_snapshot(path, &document(own, r#"{"values":{},"children":{},"extra":1}"#)),
        Err("注册表快照格式无效".to_owned())
    );
    assert_eq!(
        validate_snapshot("HKCR\\x", &document(own, "null")),
        Err("仅支持 HKCU 和 HKLM 注册表子键".to_owned())
    );
    assert_eq!(
        validate_snapshot("HKCU", &document(own, "null")),
        Err("请选择 HKCU 或 HKLM 下的具体注册表子键".to_owned())
    );
    // An explicit null root records an absent key and is accepted.
    assert!(validate_snapshot(path, &document(own, "null")).is_ok());
    // The stored path must already be canonical.
    assert!(validate_snapshot(path, &document(r"HKCU\\Software\\ChronicleTests", "null")).is_err());
    // Case differences in the target are tolerated.
    assert!(validate_snapshot(r"hkcu\software\chronicletests", &document(own, "null")).is_ok());
    // Nested nodes are checked too.
    let nested = r#"{"values":{},"children":{"A":{"values":{"x":{"vtype":11,"bytes":[255,0]},"X":{"vtype":1,"bytes":[]}},"children":{}}}}"#;
    assert!(validate_snapshot(path, &document(own, nested)).is_err());
    assert_eq!(normalize_path(r"HKCU\a\..").unwrap_err(), "注册表路径包含无效子键或路径跳转");
}

#[test]
fn normalizing_a_normalized_path_changes_nothing() {
    for path in [r"hkcu\Software\Chronicle", r"HKEY_LOCAL_MACHINE\SOFTWARE\Game\Saves", r"HKLM\x"] {
        let once = normalize_path(path).unwrap();
        assert_eq!(normalize_path(&once).unwrap(), once);
    }
}

#[test]
fn registry_snapshots_are_validated_before_the_unavailable_registry_is_reached() {
    assert_eq!(export_key(r"HKCU\Software\ChronicleTests").unwrap_err(), "当前系统不支持 Windows 注册表备份");
    let target = r"HKCU\Software\ChronicleTests";
    let own = r"HKEY_CURRENT_USER\\Software\\ChronicleTests";
    let valid = document(own, r#"{"values":{},"children":{}}"#);
    assert_eq!(restore_key(target, &valid, RegistryRestoreMode::Merge).unwrap_err(), "当前系统不支持 Windows 注册表恢复");
    let elsewhere = document(r"HKEY_CURRENT_USER\\Software\\Elsewhere", r#"{"values":{},"children":{}}"#);
    assert_eq!(
        restore_key(target, &elsewhere, RegistryRestoreMode::Overwrite).unwrap_err(),
        validate_snapshot(target, &elsewhere).unwrap_err()
    );
    assert_eq!(export(target).unwrap_err(), "当前系统不支持 Windows 注册表备份");
    assert_eq!(restore(target, &valid, RegistryRestoreMode::Overwrite).unwrap_err(), "当前系统不支持 Windows 注册表恢复");
}
