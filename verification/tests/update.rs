use chronicle::update::{
    checksum_for_file, is_trusted_checksum, is_trusted_installer, is_windows_installer_file_name,
    sha256_hex, to_hex_lower, verify_installer,
};

#[test]
fn accepts_only_this_projects_windows_installer_assets() {
    assert!(is_trusted_installer(
        "https://github.com/ThermalEX/Chronicle/releases/download/v1.2.0/Chronicle_1.2.0_x64-setup.exe",
        "Chronicle_1.2.0_x64-setup.exe",
    ));
    assert!(!is_trusted_installer(
        "https://example.com/Chronicle_1.2.0_x64-setup.exe",
        "Chronicle_1.2.0_x64-setup.exe",
    ));
    assert!(!is_trusted_installer(
        "https://github.com/ThermalEX/Chronicle/releases/download/v1.2.0/Chronicle_1.2.0_portable.exe",
        "Chronicle_1.2.0_portable.exe",
    ));
}

#[test]
fn finds_the_exact_installer_checksum() {
    let sums = "abcdef  Chronicle_1.2.0_x64-setup.exe\n123456  other.exe\n";

    assert_eq!(
        checksum_for_file(sums, "Chronicle_1.2.0_x64-setup.exe").as_deref(),
        Some("abcdef")
    );
    assert_eq!(checksum_for_file(sums, "missing.exe").as_deref(), None);
}

#[test]
fn checksum_lines_accept_binary_markers_and_crlf_but_not_extra_words() {
    let sums = "aa *one.exe\r\nbb two.exe extra\r\ncc\ttwo.exe\r\n";
    assert_eq!(checksum_for_file(sums, "one.exe").as_deref(), Some("aa"));
    assert_eq!(checksum_for_file(sums, "two.exe").as_deref(), Some("cc"));
    assert_eq!(checksum_for_file("", "one.exe"), None);
    assert_eq!(checksum_for_file("first dup.exe\nsecond dup.exe", "dup.exe").as_deref(), Some("first"));
}

#[test]
fn installer_names_and_checksum_urls_are_exact() {
    assert!(is_windows_installer_file_name("Chronicle_1_x64-setup.exe"));
    assert!(!is_windows_installer_file_name("Chronicle__x64-setup.exe"));
    assert!(!is_windows_installer_file_name("Chronicle_a/b_x64-setup.exe"));
    assert!(is_trusted_checksum(
        "https://github.com/ThermalEX/Chronicle/releases/download/v1/SHA256SUMS.txt"
    ));
    assert!(!is_trusted_checksum(
        "http://github.com/ThermalEX/Chronicle/releases/download/v1/SHA256SUMS.txt"
    ));
    assert!(!is_trusted_checksum(
        "https://github.com/ThermalEX/Chronicle/releases/download//SHA256SUMS.txt"
    ));
    assert!(!is_trusted_checksum(
        "https://github.com/Other/Chronicle/releases/download/v1/SHA256SUMS.txt"
    ));
}

#[test]
fn digests_are_lower_case_hexadecimal() {
    assert_eq!(to_hex_lower(&[0x00, 0xab, 0x7f]), "00ab7f");
    assert_eq!(
        sha256_hex(b"abc"),
        "ba7816bf8f01cfea414140de5dae2223b00361a396177a9cb410ff61f20015ad"
    );
}

#[test]
fn installers_must_match_their_listed_checksum_in_any_letter_case() {
    let name = "Chronicle_1.2.0_x64-setup.exe";
    let upper = "E3B0C44298FC1C149AFBF4C8996FB92427AE41E4649B934CA495991B7852B855";
    let sums = format!("{upper}  {name}\n");
    assert_eq!(verify_installer(&sums, name, b""), Ok(()));
    assert_eq!(
        verify_installer(&sums, name, b"tampered"),
        Err("安装包 SHA-256 校验失败，已取消安装".to_string())
    );
    assert_eq!(
        verify_installer(&sums, "Chronicle_9.9.9_x64-setup.exe", b""),
        Err("更新校验文件中缺少安装包的 SHA-256".to_string())
    );
}
