//! Cleanup: the index diff respects presence and the ignore rules, cleaning
//! twice removes nothing the second time, and full mode unions the
//! classifier's partitions.

use monja::paths::{AbsolutePath, LocalFilePath, RawPath};
use monja::repo::{RepoState, SetInput, SetName, SetSource};
use monja::{clean, initialize_full_state, retrieve_state, CleanMode, FileIndex, LocalState};

fn clean_path(s: &str) -> LocalFilePath {
    LocalFilePath::from_segments(s.split('/').map(|x| x.to_string()).collect()).unwrap()
}

fn clean_name(s: &str) -> SetName {
    SetName(s.to_string())
}

fn clean_repo(sets: Vec<(&str, Option<&str>, Vec<&str>)>) -> RepoState {
    let root = AbsolutePath::new(vec!["monja".to_string(), "repo".to_string()]).unwrap();
    let inputs: Vec<SetInput> = sets
        .into_iter()
        .map(|(n, shortcut, files)| SetInput {
            name: clean_name(n),
            source: SetSource::Loaded {
                shortcut: shortcut.map(|s| RawPath {
                    absolute: false,
                    segments: s.split('/').map(|x| x.to_string()).collect(),
                }),
                files: files.into_iter().map(clean_path).collect(),
            },
        })
        .collect();
    initialize_full_state(&root, inputs, Vec::new()).expect("repo must load")
}

fn empty_state() -> LocalState {
    LocalState {
        files_to_push: Vec::new(),
        files_with_missing_sets: Vec::new(),
        missing_files: Vec::new(),
        untracked_files: Vec::new(),
        old_files_since_last_pull: Vec::new(),
    }
}

#[test]
fn index_clean_removes_retired_files_once() {
    let mut prev = FileIndex::new();
    prev.set(clean_path("kept"), clean_name("s"));
    prev.set(clean_path("retired"), clean_name("s"));
    let mut curr = FileIndex::new();
    curr.set(clean_path("kept"), clean_name("s"));

    let present = vec![clean_path("kept"), clean_path("retired")];
    let first = clean(CleanMode::Index, &prev, &curr, &present, &empty_state());
    assert_eq!(first.files_cleaned.len(), 1);
    assert_eq!(first.files_cleaned[0].segments(), clean_path("retired").segments());

    // the deletion happened: "retired" is no longer present locally
    let present_after = vec![clean_path("kept")];
    let second = clean(CleanMode::Index, &prev, &curr, &present_after, &empty_state());
    assert_eq!(second.files_cleaned.len(), 0);
}

#[test]
fn ignored_files_are_never_cleanable() {
    // "covered" sits in the previous generation and would qualify by the raw
    // diff, but the ignore rules keep it out of the walked file list.
    let mut prev = FileIndex::new();
    prev.set(clean_path("covered"), clean_name("s"));
    let curr = FileIndex::new();
    let present_unignored: Vec<LocalFilePath> = Vec::new();
    let result = clean(CleanMode::Index, &prev, &curr, &present_unignored, &empty_state());
    assert_eq!(result.files_cleaned.len(), 0);
}

#[test]
fn index_clean_output_is_sorted() {
    let mut prev = FileIndex::new();
    prev.set(clean_path("zeta"), clean_name("s"));
    prev.set(clean_path("alpha"), clean_name("s"));
    prev.set(clean_path("midway"), clean_name("s"));
    let curr = FileIndex::new();
    let present = vec![clean_path("zeta"), clean_path("alpha"), clean_path("midway")];
    let result = clean(CleanMode::Index, &prev, &curr, &present, &empty_state());
    let names: Vec<Vec<String>> =
        result.files_cleaned.iter().map(|p| p.segments().clone()).collect();
    assert_eq!(names, vec![
        clean_path("alpha").segments().clone(),
        clean_path("midway").segments().clone(),
        clean_path("zeta").segments().clone(),
    ]);
}

#[test]
fn full_clean_unions_the_three_partitions() {
    let repo = clean_repo(vec![("live", None, vec!["tracked"])]);
    let mut index = FileIndex::new();
    index.set(clean_path("tracked"), clean_name("live"));
    index.set(clean_path("stale"), clean_name("live"));
    index.set(clean_path("orphan"), clean_name("ghost"));
    let walked = vec![
        clean_path("tracked"),
        clean_path("stale"),
        clean_path("orphan"),
        clean_path("junk"),
    ];
    let state = retrieve_state(walked, None, &index, &FileIndex::new(), &repo);
    let result = clean(
        CleanMode::Full,
        &FileIndex::new(),
        &FileIndex::new(),
        &Vec::new(),
        &state,
    );
    let names: Vec<Vec<String>> =
        result.files_cleaned.iter().map(|p| p.segments().clone()).collect();
    assert_eq!(names, vec![
        clean_path("junk").segments().clone(),
        clean_path("orphan").segments().clone(),
        clean_path("stale").segments().clone(),
    ]);
}
