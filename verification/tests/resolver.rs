use staticserve::handler::{resolve, rooted_path, Kind, Probe};
use staticserve::path::normalize_capture;

fn segs(parts: &[&str]) -> Vec<Vec<u8>> {
    parts.iter().map(|p| p.as_bytes().to_vec()).collect()
}

#[test]
fn traversal_above_root_is_missing() {
    let capture = b"../../etc/passwd".to_vec();
    assert!(normalize_capture(&capture).is_none());
    let target = resolve(&capture, Probe::IsFile);
    assert_eq!(target.kind, Kind::Missing);
    let target = resolve(&capture, Probe::IsDir);
    assert_eq!(target.kind, Kind::Missing);
}

#[test]
fn late_traversal_above_root_is_missing() {
    let capture = b"a/b/../../../x".to_vec();
    assert!(normalize_capture(&capture).is_none());
    assert_eq!(resolve(&capture, Probe::IsFile).kind, Kind::Missing);
}

#[test]
fn classify_probes() {
    assert_eq!(resolve(&b"a.txt".to_vec(), Probe::IsFile).kind, Kind::File);
    assert_eq!(resolve(&b"sub".to_vec(), Probe::IsDir).kind, Kind::Directory);
    assert_eq!(resolve(&b"missing".to_vec(), Probe::Absent).kind, Kind::Missing);
}

#[test]
fn probe_failure_is_missing() {
    assert_eq!(resolve(&b"secret".to_vec(), Probe::Denied).kind, Kind::Missing);
}

#[test]
fn resolve_idempotent() {
    let capture = b"sub/data.txt".to_vec();
    let first = resolve(&capture, Probe::IsFile);
    let second = resolve(&capture, Probe::IsFile);
    assert_eq!(first.kind, second.kind);
    assert_eq!(first.rel, second.rel);
}

#[test]
fn normalization_resolves_dots_and_repeats() {
    assert_eq!(normalize_capture(&b"a/./b//c".to_vec()), Some(segs(&["a", "b", "c"])));
    assert_eq!(normalize_capture(&b"a/../b".to_vec()), Some(segs(&["b"])));
    assert_eq!(normalize_capture(&b"a/..".to_vec()), Some(segs(&[])));
    assert_eq!(normalize_capture(&b"".to_vec()), Some(segs(&[])));
    assert_eq!(normalize_capture(&b"..".to_vec()), None);
    assert_eq!(normalize_capture(&b"./.".to_vec()), Some(segs(&[])));
}

#[test]
fn absolute_captures_become_root_relative() {
    assert_eq!(normalize_capture(&b"/etc/passwd".to_vec()), Some(segs(&["etc", "passwd"])));
}

#[test]
fn rooted_path_stays_under_root() {
    let root = b"/srv/www".to_vec();
    let rooted = rooted_path(&root, &segs(&["sub"]));
    assert_eq!(rooted, b"/srv/www/sub".to_vec());
    assert!(rooted.starts_with(&root));
    let rooted = rooted_path(&root, &segs(&["sub", "file.txt"]));
    assert_eq!(rooted, b"/srv/www/sub/file.txt".to_vec());
    let rooted = rooted_path(&root, &segs(&[]));
    assert_eq!(rooted, b"/srv/www/".to_vec());
}
