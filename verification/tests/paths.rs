//! Path-safety behaviour: resolution of caller input against the local root,
//! and the validation of set shortcuts.

use monja::paths::{AbsolutePath, LocalFilePath, RawPath};
use monja::repo::SetShortcut;
use monja::SetShortcutError;

fn segs(parts: &[&str]) -> Vec<String> {
    parts.iter().map(|s| s.to_string()).collect()
}

fn abs(parts: &[&str]) -> AbsolutePath {
    AbsolutePath::new(segs(parts)).expect("segments must be valid")
}

fn rel(parts: &[&str]) -> RawPath {
    RawPath { absolute: false, segments: segs(parts) }
}

fn abs_raw(parts: &[&str]) -> RawPath {
    RawPath { absolute: true, segments: segs(parts) }
}

fn views(p: &LocalFilePath) -> Vec<String> {
    p.segments().clone()
}

#[test]
fn normal() {
    let root = abs(&["home", "foo"]);
    let cwd = abs(&["home", "foo"]);
    let path = LocalFilePath::from(&root, &rel(&["bar", "baz"]), &cwd).unwrap();
    assert_eq!(views(&path), segs(&["bar", "baz"]));
}

#[test]
fn absolute() {
    let root = abs(&["home", "foo"]);
    let cwd = abs(&["home", "foo"]);
    let path = LocalFilePath::from(&root, &abs_raw(&["home", "foo", "bar", "baz"]), &cwd).unwrap();
    assert_eq!(views(&path), segs(&["bar", "baz"]));
}

#[test]
fn subdir() {
    let root = abs(&["home", "foo"]);
    let cwd = abs(&["home", "foo", "bar"]);
    let path = LocalFilePath::from(&root, &rel(&["baz"]), &cwd).unwrap();
    assert_eq!(views(&path), segs(&["bar", "baz"]));
}

#[test]
fn dot_and_dotdot_resolve_logically() {
    let root = abs(&["home", "foo"]);
    let cwd = abs(&["home", "foo", "bar"]);
    let path = LocalFilePath::from(&root, &rel(&["..", "bar", ".", "baz"]), &cwd).unwrap();
    assert_eq!(views(&path), segs(&["bar", "baz"]));
}

#[test]
fn invalid_absolute() {
    let root = abs(&["home", "foo"]);
    let cwd = abs(&["home", "foo"]);
    let result = LocalFilePath::from(&root, &abs_raw(&["outside", "of", "home", "foo"]), &cwd);
    assert!(result.is_err());
}

#[test]
fn invalid_relative() {
    let root = abs(&["home", "foo"]);
    let cwd = abs(&["home", "foo", "bar"]);
    let result = LocalFilePath::from(&root, &rel(&["..", ".."]), &cwd);
    assert!(result.is_err());
}

#[test]
fn shortcut_rejects_parent_traversal() {
    let result = SetShortcut::from_path(rel(&[".."]));
    assert!(matches!(result, Err(SetShortcutError::TraversalToParent { .. })));
}

#[test]
fn shortcut_rejects_double_parent_traversal() {
    let result = SetShortcut::from_path(rel(&["..", ".."]));
    assert!(matches!(result, Err(SetShortcutError::TraversalToParent { .. })));
}

#[test]
fn shortcut_rejects_absolute() {
    let result = SetShortcut::from_path(abs_raw(&[]));
    assert!(matches!(result, Err(SetShortcutError::NotRelative { .. })));
    let result = SetShortcut::from_path(abs_raw(&["etc"]));
    assert!(matches!(result, Err(SetShortcutError::NotRelative { .. })));
}

#[test]
fn shortcut_accepts_empty() {
    let sc = SetShortcut::from_path(rel(&[])).unwrap();
    assert_eq!(sc.segments.len(), 0);
}

#[test]
fn shortcut_accepts_nested() {
    let sc = SetShortcut::from_path(rel(&["foo", "bar"])).unwrap();
    assert_eq!(sc.segments, segs(&["foo", "bar"]));
}

#[test]
fn special_files_are_recognized() {
    let special = LocalFilePath::from_segments(segs(&["sub", ".monjaignore"])).unwrap();
    assert!(monja::is_monja_special_file(&special));
    let index = LocalFilePath::from_segments(segs(&["monja-index.toml"])).unwrap();
    assert!(monja::is_monja_special_file(&index));
    let prev = LocalFilePath::from_segments(segs(&["monja-index-prev.toml"])).unwrap();
    assert!(monja::is_monja_special_file(&prev));
    let plain = LocalFilePath::from_segments(segs(&["notes.toml"])).unwrap();
    assert!(!monja::is_monja_special_file(&plain));
}

#[test]
fn from_segments_rejects_navigation() {
    assert!(LocalFilePath::from_segments(segs(&["a", ".."])).is_none());
    assert!(LocalFilePath::from_segments(segs(&["."])).is_none());
    assert!(LocalFilePath::from_segments(segs(&[""])).is_none());
    assert!(LocalFilePath::from_segments(segs(&["a/b"])).is_none());
}

#[test]
fn sort_paths_orders_lexicographically() {
    let a = LocalFilePath::from_segments(segs(&["b"])).unwrap();
    let b = LocalFilePath::from_segments(segs(&["a", "z"])).unwrap();
    let c = LocalFilePath::from_segments(segs(&["a"])).unwrap();
    let sorted = monja::paths::sort_paths(vec![a, b, c]);
    let names: Vec<Vec<String>> = sorted.iter().map(|p| p.segments().clone()).collect();
    assert_eq!(names, vec![segs(&["a"]), segs(&["a", "z"]), segs(&["b"])]);
}
