//! The generational file index: map semantics of get, set and take, the
//! last-entry-wins construction from parsed pairs, and the file names of the
//! two generations.

use monja::paths::LocalFilePath;
use monja::repo::SetName;
use monja::{FileIndex, IndexKind};

fn idx_path(s: &str) -> LocalFilePath {
    LocalFilePath::from_segments(s.split('/').map(|x| x.to_string()).collect()).unwrap()
}

fn idx_name(s: &str) -> SetName {
    SetName(s.to_string())
}

#[test]
fn index_set_get_take() {
    let mut index = FileIndex::new();
    assert!(!index.tracks(&idx_path("a")));
    index.set(idx_path("a"), idx_name("one"));
    index.set(idx_path("b"), idx_name("two"));
    assert!(index.tracks(&idx_path("a")));
    assert_eq!(index.get(&idx_path("a")).map(|n| n.0.clone()), Some("one".to_string()));
    assert_eq!(index.get(&idx_path("b")).map(|n| n.0.clone()), Some("two".to_string()));

    // overwriting replaces the record
    index.set(idx_path("a"), idx_name("three"));
    assert_eq!(index.get(&idx_path("a")).map(|n| n.0.clone()), Some("three".to_string()));
    assert_eq!(index.entries().len(), 2);

    // taking removes it
    let taken = index.take(&idx_path("a"));
    assert_eq!(taken.map(|n| n.0), Some("three".to_string()));
    assert!(!index.tracks(&idx_path("a")));
    assert!(index.take(&idx_path("a")).is_none());
}

#[test]
fn from_entries_later_entry_wins() {
    let entries = vec![
        (idx_path("a"), idx_name("one")),
        (idx_path("a"), idx_name("two")),
        (idx_path("b"), idx_name("one")),
    ];
    let index = FileIndex::from_entries(entries);
    assert_eq!(index.entries().len(), 2);
    assert_eq!(index.get(&idx_path("a")).map(|n| n.0.clone()), Some("two".to_string()));
    assert_eq!(index.get(&idx_path("b")).map(|n| n.0.clone()), Some("one".to_string()));
}

#[test]
fn index_kind_file_names() {
    assert_eq!(IndexKind::Current.file_name(), "monja-index.toml");
    assert_eq!(IndexKind::Previous.file_name(), "monja-index-prev.toml");
}

#[test]
fn dup_preserves_entries() {
    let mut index = FileIndex::new();
    index.set(idx_path("x/y"), idx_name("s"));
    let copy = index.dup();
    assert_eq!(copy.entries().len(), 1);
    assert_eq!(copy.get(&idx_path("x/y")).map(|n| n.0.clone()), Some("s".to_string()));
}
