use cargo_checksum_update::path::{join_path, manifest_path, path_segments, split_vendor_relative_path};
use cargo_checksum_update::error::SyncError;

#[test]
fn split_two_segments() {
    let (pkg, file) = split_vendor_relative_path("pkg/a.txt").unwrap();
    assert_eq!(pkg, "pkg");
    assert_eq!(file, "a.txt");
}

#[test]
fn split_nested_path() {
    let (pkg, file) = split_vendor_relative_path("serde/src/de/mod.rs").unwrap();
    assert_eq!(pkg, "serde");
    assert_eq!(file, "src/de/mod.rs");
}

#[test]
fn split_then_rejoin_gives_path() {
    for path in ["a/b", "pkg/src/lib.rs", "x-1.0/.cargo-checksum.json"] {
        let (pkg, file) = split_vendor_relative_path(path).unwrap();
        assert_eq!(format!("{}/{}", pkg, file), path);
    }
}

#[test]
fn split_ignores_extra_separators() {
    let (pkg, file) = split_vendor_relative_path("/a//b/c/").unwrap();
    assert_eq!(pkg, "a");
    assert_eq!(file, "b/c");
}

#[test]
fn split_refuses_single_segment() {
    for path in ["pkg", "", "/", "pkg/", "//pkg//"] {
        match split_vendor_relative_path(path) {
            Err(SyncError::InvalidRequest { path: p }) => assert_eq!(p, path),
            other => panic!("unexpected {:?}", other),
        }
    }
}

#[test]
fn segments_of_path() {
    assert_eq!(path_segments("a//b/"), vec!["a".to_string(), "b".to_string()]);
    assert!(path_segments("///").is_empty());
}

#[test]
fn manifest_path_joins_vendor_and_package() {
    assert_eq!(manifest_path("vendor", "pkg"), "vendor/pkg/.cargo-checksum.json");
    assert_eq!(manifest_path("vendor/", "pkg"), "vendor/pkg/.cargo-checksum.json");
    assert_eq!(join_path("", "a/b"), "a/b");
}

#[test]
fn dot_counts_only_as_first_segment() {
    assert_eq!(path_segments("./a/./b/."), vec![".".to_string(), "a".to_string(), "b".to_string()]);
    assert!(split_vendor_relative_path("pkg/.").is_err());
    let (pkg, file) = split_vendor_relative_path("pkg/./src/./lib.rs").unwrap();
    assert_eq!(pkg, "pkg");
    assert_eq!(file, "src/lib.rs");
}
