//! Manual repair: put bypasses the consistency check, records new ownership,
//! and the repaired state passes a subsequent push. Also the shortcut
//! computation for new sets.

use monja::paths::{AbsolutePath, LocalFilePath, RawPath};
use monja::repo::{RepoState, SetInput, SetName, SetSource};
use monja::{
    compute_shortcut, initialize_full_state, new_set, push, put, retrieve_state, FileIndex,
    MonjaProfileConfig, PutError,
};

fn put_path(s: &str) -> LocalFilePath {
    LocalFilePath::from_segments(s.split('/').map(|x| x.to_string()).collect()).unwrap()
}

fn put_name(s: &str) -> SetName {
    SetName(s.to_string())
}

fn put_repo(sets: Vec<(&str, Option<&str>, Vec<&str>)>) -> RepoState {
    let root = AbsolutePath::new(vec!["monja".to_string(), "repo".to_string()]).unwrap();
    let inputs: Vec<SetInput> = sets
        .into_iter()
        .map(|(n, shortcut, files)| SetInput {
            name: put_name(n),
            source: SetSource::Loaded {
                shortcut: shortcut.map(|s| RawPath {
                    absolute: false,
                    segments: s.split('/').map(|x| x.to_string()).collect(),
                }),
                files: files.into_iter().map(put_path).collect(),
            },
        })
        .collect();
    initialize_full_state(&root, inputs, Vec::new()).expect("repo must load")
}

#[test]
fn put_repair_unblocks_push() {
    // After a pull, the repo lost "moved" from set "one": push fails. Putting
    // the file into existing set "two" (updating the index) repairs it.
    let targets = vec![put_name("one"), put_name("two")];
    let before = put_repo(vec![
        ("one", None, vec!["moved", "kept"]),
        ("two", None, vec!["other"]),
    ]);
    let pulled = monja::pull(&targets, &before, &FileIndex::new(), &Vec::new()).unwrap();
    let mut index = pulled.new_current_index;

    // the repo loses "moved" from set "one"
    let after = put_repo(vec![
        ("one", None, vec!["kept"]),
        ("two", None, vec!["other"]),
    ]);
    let walked = vec![put_path("moved"), put_path("kept"), put_path("other")];
    let state = retrieve_state(walked, None, &index, &FileIndex::new(), &after);
    assert!(push(state, &after).is_err());

    // reassign "moved" to set "two", updating the index
    let outcome = put(&targets, &after, &mut index, vec![put_path("moved")], put_name("two"), true)
        .expect("put must succeed");
    assert!(outcome.set_is_targeted);
    assert_eq!(outcome.copies.len(), 1);
    assert_eq!(outcome.copies[0].path_in_set.segments(), put_path("moved").segments());

    // the copy is now in the repo as well
    let repaired = put_repo(vec![
        ("one", None, vec!["kept"]),
        ("two", None, vec!["other", "moved"]),
    ]);
    let walked = vec![put_path("moved"), put_path("kept"), put_path("other")];
    let state = retrieve_state(walked, None, &index, &FileIndex::new(), &repaired);
    let success = push(state, &repaired).expect("repaired state must push");
    assert_eq!(success.files_pushed.len(), 2);
}

#[test]
fn put_rejects_unknown_set() {
    let repo = put_repo(vec![("one", None, vec!["a"])]);
    let mut index = FileIndex::new();
    let result = put(
        &vec![put_name("one")],
        &repo,
        &mut index,
        vec![put_path("a")],
        put_name("nowhere"),
        false,
    );
    assert!(matches!(result, Err(PutError::SetNotFound { .. })));
}

#[test]
fn put_rejects_file_outside_shortcut() {
    let repo = put_repo(vec![("dots", Some("cfg"), vec!["rc"])]);
    let mut index = FileIndex::new();
    let result = put(
        &vec![put_name("dots")],
        &repo,
        &mut index,
        vec![put_path("elsewhere/file")],
        put_name("dots"),
        false,
    );
    assert!(matches!(result, Err(PutError::SetPath { .. })));
    // nothing was recorded
    assert!(index.entries().is_empty());
}

#[test]
fn put_warns_about_later_sets_and_untargeted_destination() {
    // "late" comes after "dest" in the target order and also claims the path,
    // so the put would be shadowed on the next pull.
    let repo = put_repo(vec![
        ("dest", None, vec![]),
        ("late", None, vec!["shared"]),
    ]);
    let targets = vec![put_name("dest"), put_name("late")];
    let mut index = FileIndex::new();
    let outcome = put(&targets, &repo, &mut index, vec![put_path("shared")], put_name("dest"), false)
        .expect("put must succeed");
    assert!(outcome.set_is_targeted);
    assert_eq!(outcome.files_in_later_sets.len(), 1);
    assert_eq!(outcome.files_in_later_sets[0].0.segments(), put_path("shared").segments());
    assert_eq!(outcome.files_in_later_sets[0].1.len(), 1);
    assert_eq!(outcome.files_in_later_sets[0].1[0].0, "late".to_string());
    // the destination is targeted, so nothing is untracked
    assert_eq!(outcome.untracked_files.len(), 0);
    // the index was not touched
    assert!(index.entries().is_empty());
}

#[test]
fn put_to_untargeted_set_reports_untracked() {
    let repo = put_repo(vec![("aside", None, vec![])]);
    let targets = vec![put_name("other")];
    let mut index = FileIndex::new();
    let outcome = put(&targets, &repo, &mut index, vec![put_path("f")], put_name("aside"), false)
        .expect("put must succeed");
    assert!(!outcome.set_is_targeted);
    assert_eq!(outcome.untracked_files.len(), 1);
    assert_eq!(outcome.untracked_files[0].segments(), put_path("f").segments());
}

#[test]
fn compute_shortcut_simple() {
    let files = vec![
        put_path("foo/bar/yay"),
        put_path("foo/bar/omg/bbq"),
        put_path("foo/bar/aa/a/a"),
    ];
    let shortcut = compute_shortcut(&files);
    assert_eq!(shortcut, vec!["foo".to_string(), "bar".to_string()]);
}

#[test]
fn compute_shortcut_no_common_prefix() {
    let files = vec![put_path("a/bar"), put_path("b/bar")];
    let shortcut = compute_shortcut(&files);
    assert!(shortcut.is_empty());
}

#[test]
fn compute_shortcut_no_files() {
    let files: Vec<LocalFilePath> = Vec::new();
    assert!(compute_shortcut(&files).is_empty());
}

#[test]
fn new_set_appends_target_and_mounts_common_prefix() {
    let mut config = MonjaProfileConfig {
        repo_dir: RawPath { absolute: false, segments: vec!["repo".to_string()] },
        target_sets: vec![put_name("old")],
        new_file_set: None,
    };
    let files = vec![put_path("cfg/app/one"), put_path("cfg/app/two")];
    let (success, set_config) = new_set(&mut config, files, put_name("fresh"));
    assert_eq!(success.new_set.0, "fresh".to_string());
    assert_eq!(success.files.len(), 2);
    assert_eq!(config.target_sets.len(), 2);
    assert_eq!(config.target_sets[1].0, "fresh".to_string());
    let raw = set_config.shortcut.expect("a shortcut is always configured");
    assert!(!raw.absolute);
    assert_eq!(raw.segments, vec!["cfg".to_string(), "app".to_string()]);
}
