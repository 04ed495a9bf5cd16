use seekfs::layout::{file_key, manifest_head_key, manifest_version_key};
use seekfs::manifest::{
    find_file, page_crc_by_id, parse_head_version, FileEntry, Manifest, ObjectLoc, PageInfo,
};
use seekfs::proto::health_url;
use seekfs::text::{before, contains, padded_decimal_text, same};

fn entry(path: &str, table: Vec<PageInfo>) -> FileEntry {
    FileEntry {
        path: path.to_string(),
        size: 10,
        hash: format!("h-{}", path),
        page_table: table,
        storage: ObjectLoc { key: format!("k-{}", path), etag: None, sse: None },
    }
}

fn manifest(files: Vec<FileEntry>) -> Manifest {
    Manifest { version: 3, files, parents: vec![2], tombstones: vec![], created_at: 1 }
}

#[test]
fn keys_follow_the_layout() {
    assert_eq!(manifest_head_key("dev"), "namespaces/dev/HEAD");
    assert_eq!(manifest_version_key("dev", 0), "namespaces/dev/manifests/v-0.json.gz");
    assert_eq!(
        manifest_version_key("dev", u64::MAX),
        "namespaces/dev/manifests/v-18446744073709551615.json.gz"
    );
    assert_eq!(file_key("dev", "a/b.bin", None), "namespaces/dev/files/a/b.bin");
    assert_eq!(file_key("dev", "a/b.bin", Some("")), "namespaces/dev/files/a/b.bin");
    assert_eq!(file_key("dev", "a/b.bin", Some("abc")), "namespaces/dev/files/a/b.bin/v-abc");
}

#[test]
fn keys_of_different_versions_differ() {
    assert_ne!(manifest_version_key("dev", 1), manifest_version_key("dev", 11));
    assert_ne!(manifest_version_key("dev", 1), manifest_version_key("prod", 1));
    assert_ne!(manifest_version_key("a/manifests/v-1", 2), manifest_version_key("a", 2));
}

#[test]
fn keys_of_different_kinds_and_namespaces_differ() {
    let head = manifest_head_key("dev");
    assert_ne!(head, manifest_version_key("dev", 1));
    assert_ne!(head, file_key("dev", "HEAD", None));
    assert_ne!(head, manifest_head_key("prod"));
    assert_ne!(file_key("dev", "a", None), file_key("dev", "b", None));
    // A slash in the name of a namespace can make two keys one.
    assert_eq!(manifest_head_key("a/files/x"), file_key("a", "x/HEAD", None));
}

#[test]
fn head_versions_are_parsed() {
    assert_eq!(parse_head_version("v-12\n"), Some(12));
    assert_eq!(parse_head_version("v12"), Some(12));
    assert_eq!(parse_head_version("12"), Some(12));
    assert_eq!(parse_head_version("  v-7 \r\nv-8\n"), Some(7));
    assert_eq!(parse_head_version("+5"), Some(5));
    assert_eq!(parse_head_version("v-18446744073709551615"), Some(u64::MAX));
    assert_eq!(parse_head_version("v-18446744073709551616"), None);
    assert_eq!(parse_head_version(""), None);
    assert_eq!(parse_head_version("\nv-3"), None);
    assert_eq!(parse_head_version("v--3"), None);
    assert_eq!(parse_head_version("version 3"), None);
    assert_eq!(parse_head_version("v- 3"), None);
}

#[test]
fn the_first_file_with_a_path_is_found() {
    let mut second = entry("b", vec![]);
    second.size = 99;
    let m = manifest(vec![entry("a", vec![]), entry("b", vec![]), second]);
    assert_eq!(find_file(&m, "b").map(|f| f.size), Some(10));
    assert!(find_file(&m, "c").is_none());
    assert!(find_file(&manifest(vec![]), "a").is_none());
}

#[test]
fn the_first_checksum_of_a_page_is_taken() {
    let page = |page_id: u32, crc32c: u32| PageInfo { page_id, off: 0, len: 4, crc32c };
    let f = entry("a", vec![page(0, 5), page(2, 6), page(2, 7)]);
    assert_eq!(page_crc_by_id(&f, 0), Some(5));
    assert_eq!(page_crc_by_id(&f, 2), Some(6));
    assert_eq!(page_crc_by_id(&f, 1), None);
}

#[test]
fn text_is_searched_and_ordered_by_bytes() {
    assert!(contains("got 503 from there", "503"));
    assert!(contains("abc", ""));
    assert!(!contains("50", "503"));
    assert!(same("\u{e4}b", "\u{e4}b"));
    assert!(!same("ab", "abc"));
    assert!(before("Z", "a"));
    assert!(before("a", "ab"));
    assert!(before("z", "\u{e4}"));
    assert!(!before("a", "a"));
    assert_eq!(padded_decimal_text(42, 5), "00042");
    assert_eq!(padded_decimal_text(123456, 5), "123456");
}

#[test]
fn the_health_url_has_one_slash() {
    assert_eq!(health_url("http://127.0.0.1:7070"), "http://127.0.0.1:7070/healthz");
    assert_eq!(health_url("http://127.0.0.1:7070//"), "http://127.0.0.1:7070/healthz");
    assert_eq!(health_url("//"), "/healthz");
}
