use ai_monitor::update::{
    archive_name, binary_path, checksum_name, extract_root, find_asset, release_version,
    check_digest, verify_checksum, Asset, Release, UpdateError,
};
use sha2::{Digest, Sha256};

#[test]
fn verifies_release_checksum() {
    let data = b"ai-monitor";
    let digest = format!("{:x}", Sha256::digest(data));
    let checksum = format!("{digest} *ai-monitor.tar.xz\n");
    verify_checksum(data, checksum.as_bytes(), "ai-monitor.tar.xz").unwrap();
}

#[test]
fn rejects_wrong_checksum() {
    let error = verify_checksum(b"actual", b"00 *ai-monitor.tar.xz\n", "ai-monitor.tar.xz")
        .unwrap_err();
    assert!(error.message().contains("checksum verification failed"));
}

#[test]
fn checksum_lines_are_matched_by_file_name() {
    let data = b"payload";
    let digest = format!("{:x}", Sha256::digest(data));
    let text = format!("ff other.zip\r\n{digest}  **archive.tar.xz\r\n");
    assert!(verify_checksum(data, text.as_bytes(), "archive.tar.xz").is_ok());
    let bare = format!("\n{digest}\n");
    assert!(verify_checksum(data, bare.as_bytes(), "anything").is_ok());
    let missing = verify_checksum(data, b"ff other.zip\n", "archive.tar.xz").unwrap_err();
    assert_eq!(missing, UpdateError::MissingChecksum("archive.tar.xz".to_owned()));
    assert_eq!(missing.message(), "checksum file did not contain archive.tar.xz");
}

#[test]
fn release_assets_and_names() {
    assert_eq!(archive_name("x86_64-unknown-linux-gnu"), "ai-monitor-x86_64-unknown-linux-gnu.tar.xz");
    assert_eq!(archive_name("x86_64-pc-windows-msvc"), "ai-monitor-x86_64-pc-windows-msvc.zip");
    assert_eq!(checksum_name("a.tar.xz"), "a.tar.xz.sha256");
    assert_eq!(extract_root("/tmp/u", "aarch64-apple-darwin"), "/tmp/u/ai-monitor-aarch64-apple-darwin");
    assert_eq!(binary_path("/tmp/u/r", true), "/tmp/u/r/ai-monitor.exe");
    assert_eq!(binary_path("/tmp/u/r", false), "/tmp/u/r/ai-monitor");
    let release = Release {
        tag_name: "v0.3.4".to_owned(),
        assets: vec![
            Asset { name: "a".to_owned(), browser_download_url: "https://example.test/a".to_owned() },
            Asset { name: "b".to_owned(), browser_download_url: "https://example.test/b".to_owned() },
        ],
    };
    assert_eq!(find_asset(&release, "b").unwrap().browser_download_url, "https://example.test/b");
    let missing = find_asset(&release, "c").unwrap_err();
    assert_eq!(missing.message(), "GitHub release is missing asset: c");
    let version = release_version(&release).unwrap();
    assert_eq!((version.major, version.minor, version.patch), (0, 3, 4));
    assert_eq!((version.pre.as_str(), version.build.as_str()), ("", ""));
    let tagged = Release { tag_name: "vv1.12.0-rc.1+build.5".to_owned(), assets: vec![] };
    let version = release_version(&tagged).unwrap();
    assert_eq!((version.major, version.minor, version.patch), (1, 12, 0));
    assert_eq!((version.pre.as_str(), version.build.as_str()), ("rc.1", "build.5"));
    let bad = Release { tag_name: "vnext".to_owned(), assets: vec![] };
    assert_eq!(release_version(&bad).unwrap_err().message(), "GitHub release tag is invalid: vnext");
}

#[test]
fn check_digest_compares_the_hex_of_a_given_digest() {
    let digest = [0xab_u8; 32];
    let hex = "ab".repeat(32);
    assert!(check_digest(&digest, &format!("{hex} *x.tar.xz\n"), "x.tar.xz").is_ok());
    assert!(check_digest(&digest, &format!("{}\n", hex.to_uppercase()), "x.tar.xz").is_err());
    let mismatch = check_digest(&digest, "00 *x.tar.xz\n", "x.tar.xz").unwrap_err();
    assert!(matches!(mismatch, UpdateError::ChecksumMismatch(ref n) if n == "x.tar.xz"));
    let missing = check_digest(&digest, &format!("{hex} *other\n"), "x.tar.xz").unwrap_err();
    assert!(matches!(missing, UpdateError::MissingChecksum(ref n) if n == "x.tar.xz"));
}
