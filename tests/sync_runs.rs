use cargo_checksum_update::manifest::Checksum;
use cargo_checksum_update::order::key_before;
use cargo_checksum_update::error::SyncError;
use cargo_checksum_update::sync::{
    file_update, merge_file_updates, plan_files_in_vendor_dir, position_of, touched_packages, FileState,
};

const HELLO_SHA: &str = "2cf24dba5fb0a30e26e83b2ac5b9e29e1b161e5c1fa7425e73043362938b9824";

fn manifest(files: &[(&str, &str)], package: Option<&str>) -> Checksum {
    Checksum::new(
        "vendor/pkg/.cargo-checksum.json".to_string(),
        package.map(|p| p.to_string()),
        files.iter().map(|(k, v)| (k.to_string(), v.to_string())).collect(),
        Vec::new(),
    )
}

fn run_mode_a(
    requests: &[&str],
    contents: &[Option<&[u8]>],
    start: &Checksum,
    ignore_missing: bool,
) -> Result<String, SyncError> {
    let files: Vec<String> = requests.iter().map(|s| s.to_string()).collect();
    let targets = plan_files_in_vendor_dir("vendor", &files)?;
    let mut updates = Vec::new();
    for (t, c) in targets.iter().zip(contents) {
        let state = match c {
            Some(b) => FileState::Content(b.to_vec()),
            None => FileState::Missing,
        };
        updates.push(file_update(&t.full_path, ignore_missing, &state)?);
    }
    let packages = touched_packages(&targets);
    assert_eq!(packages, vec!["pkg".to_string()]);
    let text = start.write()?;
    let reloaded = reload(&text);
    let mut manifests = vec![reloaded];
    merge_file_updates(&packages, &mut manifests, &targets, &updates);
    manifests[0].write()
}

fn reload(text: &str) -> Checksum {
    let v: serde_json::Value = serde_json::from_str(text).unwrap();
    let files = v["files"]
        .as_object()
        .unwrap()
        .iter()
        .map(|(k, d)| (k.clone(), d.as_str().unwrap().to_string()))
        .collect();
    let package = v["package"].as_str().map(|s| s.to_string());
    let other = v
        .as_object()
        .unwrap()
        .iter()
        .filter(|(k, _)| k.as_str() != "files" && k.as_str() != "package")
        .map(|(k, x)| (k.clone(), serde_json::to_string(x).unwrap()))
        .collect();
    Checksum::new("vendor/pkg/.cargo-checksum.json".to_string(), package, files, other)
}

#[test]
fn write_gives_compact_document() {
    let m = manifest(&[("a.txt", "OLDHASH")], Some("p"));
    assert_eq!(m.write().unwrap(), r#"{"files":{"a.txt":"OLDHASH"},"package":"p"}"#);
}

#[test]
fn write_null_package_and_no_files() {
    let m = manifest(&[], None);
    assert_eq!(m.write().unwrap(), r#"{"files":{},"package":null}"#);
}

#[test]
fn write_escapes_strings() {
    let m = manifest(&[("a\"b", "x\\y")], Some("line\nbreak"));
    assert_eq!(m.write().unwrap(), "{\"files\":{\"a\\\"b\":\"x\\\\y\"},\"package\":\"line\\nbreak\"}");
}

#[test]
fn keys_in_path_order() {
    let m = manifest(&[("b", "1"), ("a.b", "2"), ("a/b", "3"), ("a", "4")], None);
    assert_eq!(m.keys(), vec!["a", "a/b", "a.b", "b"]);
    assert_eq!(m.write().unwrap(), r#"{"files":{"a":"4","a/b":"3","a.b":"2","b":"1"},"package":null}"#);
}

#[test]
fn key_order_puts_separator_first() {
    assert!(key_before("a/b", "a.b"));
    assert!(!key_before("a.b", "a/b"));
    assert!(key_before("a", "a/b"));
    assert!(!key_before("a", "a"));
}

#[test]
fn later_entry_of_repeated_key_wins() {
    let m = manifest(&[("a", "1"), ("a", "2")], None);
    assert_eq!(m.write().unwrap(), r#"{"files":{"a":"2"},"package":null}"#);
}

#[test]
fn upsert_sets_and_removes() {
    let mut m = manifest(&[("a", "1"), ("c", "3")], Some("p"));
    m.upsert("b".to_string(), Some("2".to_string()));
    m.upsert("a".to_string(), Some("9".to_string()));
    m.upsert("c".to_string(), None);
    m.upsert("zzz".to_string(), None);
    assert_eq!(m.write().unwrap(), r#"{"files":{"a":"9","b":"2"},"package":"p"}"#);
    assert_eq!(m.package(), &Some("p".to_string()));
    assert_eq!(m.path(), "vendor/pkg/.cargo-checksum.json");
}

#[test]
fn content_digest_is_sha256_hex() {
    let r = file_update("vendor/pkg/a.txt", false, &FileState::Content(b"hello".to_vec()));
    assert_eq!(r, Ok(Some(HELLO_SHA.to_string())));
}

#[test]
fn scenario_changed_file_gets_new_hash() {
    let start = manifest(&[("a.txt", "OLDHASH")], Some("p"));
    let out = run_mode_a(&["pkg/a.txt"], &[Some(b"hello")], &start, false).unwrap();
    assert_eq!(out, format!(r#"{{"files":{{"a.txt":"{}"}},"package":"p"}}"#, HELLO_SHA));
}

#[test]
fn rerun_on_unchanged_file_is_identical() {
    let start = manifest(&[("a.txt", "OLDHASH")], Some("p"));
    let first = run_mode_a(&["pkg/a.txt"], &[Some(b"hello")], &start, false).unwrap();
    let second = run_mode_a(&["pkg/a.txt"], &[Some(b"hello")], &reload(&first), false).unwrap();
    assert_eq!(first, second);
}

#[test]
fn request_order_does_not_change_output() {
    let start = manifest(&[("b.txt", "X"), ("z", "Y")], None);
    let one = run_mode_a(
        &["pkg/b.txt", "pkg/a.txt", "pkg/c/d"],
        &[Some(b"1"), Some(b"2"), Some(b"3")],
        &start,
        false,
    )
    .unwrap();
    let two = run_mode_a(
        &["pkg/c/d", "pkg/b.txt", "pkg/a.txt"],
        &[Some(b"3"), Some(b"1"), Some(b"2")],
        &start,
        false,
    )
    .unwrap();
    assert_eq!(one, two);
}

#[test]
fn missing_file_removed_with_flag() {
    let start = manifest(&[("a.txt", "OLD"), ("b.txt", "KEEP")], None);
    let out = run_mode_a(&["pkg/a.txt"], &[None], &start, true).unwrap();
    assert_eq!(out, r#"{"files":{"b.txt":"KEEP"},"package":null}"#);
}

#[test]
fn missing_untracked_file_is_no_op_with_flag() {
    let start = manifest(&[("b.txt", "KEEP")], None);
    let out = run_mode_a(&["pkg/new.txt"], &[None], &start, true).unwrap();
    assert_eq!(out, start.write().unwrap());
}

#[test]
fn missing_file_without_flag_is_io_error() {
    let r = file_update("vendor/pkg/a.txt", false, &FileState::Missing);
    assert_eq!(r, Err(SyncError::Io { path: "vendor/pkg/a.txt".to_string() }));
    assert_eq!(file_update("vendor/pkg/a.txt", true, &FileState::Missing), Ok(None));
}

#[test]
fn plan_refuses_first_bad_path() {
    let files = vec!["pkg/a".to_string(), "bare".to_string(), "x".to_string()];
    match plan_files_in_vendor_dir("vendor", &files) {
        Err(SyncError::InvalidRequest { path }) => assert_eq!(path, "bare"),
        _ => panic!("expected a refusal"),
    }
}

#[test]
fn plan_builds_targets() {
    let files = vec!["p1/a/b.rs".to_string(), "p2/c".to_string(), "p1/d".to_string()];
    let ts = plan_files_in_vendor_dir("vendor", &files).unwrap();
    assert_eq!(ts[0].package, "p1");
    assert_eq!(ts[0].file_in_package, "a/b.rs");
    assert_eq!(ts[0].full_path, "vendor/p1/a/b.rs");
    assert_eq!(touched_packages(&ts), vec!["p1".to_string(), "p2".to_string()]);
    assert_eq!(position_of(&vec!["p1".to_string(), "p2".to_string()], &"p2".to_string()), Some(1));
}

#[test]
fn merge_touches_each_package() {
    let files = vec!["p1/a".to_string(), "p2/b".to_string(), "p1/c".to_string()];
    let ts = plan_files_in_vendor_dir("vendor", &files).unwrap();
    let packages = touched_packages(&ts);
    let mut manifests = vec![manifest(&[("a", "0")], None), manifest(&[], Some("q"))];
    let updates = vec![None, Some("B".to_string()), Some("C".to_string())];
    merge_file_updates(&packages, &mut manifests, &ts, &updates);
    assert_eq!(manifests[0].write().unwrap(), r#"{"files":{"c":"C"},"package":null}"#);
    assert_eq!(manifests[1].write().unwrap(), r#"{"files":{"b":"B"},"package":"q"}"#);
}

#[test]
fn rehash_all_keeps_key_set() {
    let mut m = manifest(&[("a", "1"), ("b", "2"), ("c", "3")], Some("p"));
    let keys = m.keys();
    assert_eq!(keys, vec!["a", "b", "c"]);
    m.rehash(vec![Some("A".to_string()), None, Some("C".to_string())]);
    assert_eq!(m.write().unwrap(), r#"{"files":{"a":"A","c":"C"},"package":"p"}"#);
}

#[test]
fn all_packages_rehash_only_known_keys() {
    for (files, content) in [(vec![("x.rs", "OLD1")], b"one".to_vec()), (vec![("y.rs", "OLD2")], b"two".to_vec())] {
        let mut m = manifest(&files, None);
        let mut digests = Vec::new();
        for k in m.keys() {
            digests.push(file_update(&k, false, &FileState::Content(content.clone())).unwrap());
        }
        m.rehash(digests);
        let keys = m.keys();
        assert_eq!(keys, vec![files[0].0.to_string()]);
        assert!(!m.write().unwrap().contains("OLD"));
    }
}

#[test]
fn round_trip_keeps_files_and_package() {
    let m = manifest(&[("z/y", "1"), ("a", "2"), ("a b", "3")], Some("opaque \u{e9}"));
    let text = m.write().unwrap();
    let again = reload(&text);
    assert_eq!(again.write().unwrap(), text);
    assert_eq!(again.keys(), m.keys());
    assert_eq!(again.package(), m.package());
}

#[test]
fn write_sorts_two_entries() {
    let m = manifest(&[("b.txt", "h2"), ("a.txt", "h1")], Some("p"));
    assert_eq!(m.write(), Ok(r#"{"files":{"a.txt":"h1","b.txt":"h2"},"package":"p"}"#.to_string()));
}

#[test]
fn unknown_top_level_members_kept() {
    let text = r#"{"files":{"a":"1"},"package":null,"extra":[1,{"k":true}],"note":"x"}"#;
    let m = reload(text);
    let out = m.write().unwrap();
    assert_eq!(out, text);
    let mut n = reload(&out);
    n.upsert("b".to_string(), Some("2".to_string()));
    assert_eq!(
        n.write().unwrap(),
        r#"{"files":{"a":"1","b":"2"},"package":null,"extra":[1,{"k":true}],"note":"x"}"#
    );
}

#[test]
fn dot_segment_skipped_in_request() {
    let files = vec!["pkg/./a.txt".to_string()];
    let ts = plan_files_in_vendor_dir("vendor", &files).unwrap();
    assert_eq!(ts[0].package, "pkg");
    assert_eq!(ts[0].file_in_package, "a.txt");
}

#[test]
fn write_escapes_control_characters() {
    let m = manifest(&[("a\u{1}\u{8}\t", "\u{1f}\u{7f}é")], None);
    assert_eq!(
        m.write().unwrap(),
        "{\"files\":{\"a\\u0001\\b\\t\":\"\\u001f\u{7f}é\"},\"package\":null}"
    );
}
