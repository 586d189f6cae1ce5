//! The consistency gate: any missing set or missing file blocks the push
//! entirely, with both violation partitions reported in full.

use monja::paths::{AbsolutePath, LocalFilePath, RawPath};
use monja::repo::{RepoState, SetInput, SetName, SetSource};
use monja::{initialize_full_state, push, retrieve_state, FileIndex, PushError};

fn gate_path(s: &str) -> LocalFilePath {
    LocalFilePath::from_segments(s.split('/').map(|x| x.to_string()).collect()).unwrap()
}

fn gate_name(s: &str) -> SetName {
    SetName(s.to_string())
}

fn gate_repo(sets: Vec<(&str, Option<&str>, Vec<&str>)>) -> RepoState {
    let root = AbsolutePath::new(vec!["monja".to_string(), "repo".to_string()]).unwrap();
    let inputs: Vec<SetInput> = sets
        .into_iter()
        .map(|(n, shortcut, files)| SetInput {
            name: gate_name(n),
            source: SetSource::Loaded {
                shortcut: shortcut.map(|s| RawPath {
                    absolute: false,
                    segments: s.split('/').map(|x| x.to_string()).collect(),
                }),
                files: files.into_iter().map(gate_path).collect(),
            },
        })
        .collect();
    initialize_full_state(&root, inputs, Vec::new()).expect("repo must load")
}

#[test]
fn gate_reports_both_partitions_fully() {
    // ghost-owned file: its set is absent from the repo.
    // stale-owned file: its set exists but no longer tracks it.
    // good file: consistent, would be pushed.
    let repo = gate_repo(vec![("live", None, vec!["good"])]);
    let mut index = FileIndex::new();
    index.set(gate_path("ghost-owned"), gate_name("ghost"));
    index.set(gate_path("stale-owned"), gate_name("live"));
    index.set(gate_path("good"), gate_name("live"));
    let walked = vec![gate_path("ghost-owned"), gate_path("stale-owned"), gate_path("good")];
    let state = retrieve_state(walked, None, &index, &FileIndex::new(), &repo);

    match push(state, &repo) {
        Err(PushError::Consistency { files_with_missing_sets, missing_files }) => {
            assert_eq!(files_with_missing_sets.len(), 1);
            assert_eq!(files_with_missing_sets[0].0 .0, "ghost".to_string());
            assert_eq!(files_with_missing_sets[0].1.len(), 1);
            assert_eq!(
                files_with_missing_sets[0].1[0].segments(),
                gate_path("ghost-owned").segments(),
            );
            assert_eq!(missing_files.len(), 1);
            assert_eq!(missing_files[0].0 .0, "live".to_string());
            assert_eq!(missing_files[0].1[0].segments(), gate_path("stale-owned").segments());
        },
        Ok(_) => panic!("inconsistent state must not push"),
    }
}

#[test]
fn gate_blocks_on_missing_set_alone() {
    let repo = gate_repo(vec![("live", None, vec!["good"])]);
    let mut index = FileIndex::new();
    index.set(gate_path("ghost-owned"), gate_name("ghost"));
    let walked = vec![gate_path("ghost-owned")];
    let state = retrieve_state(walked, None, &index, &FileIndex::new(), &repo);
    assert!(push(state, &repo).is_err());
}

#[test]
fn consistent_state_pushes_with_shortcut_relative_paths() {
    let repo = gate_repo(vec![("dots", Some("cfg"), vec!["rc", "ed/init"])]);
    let mut index = FileIndex::new();
    index.set(gate_path("cfg/rc"), gate_name("dots"));
    index.set(gate_path("cfg/ed/init"), gate_name("dots"));
    let walked = vec![gate_path("cfg/rc"), gate_path("cfg/ed/init")];
    let state = retrieve_state(walked, None, &index, &FileIndex::new(), &repo);

    let success = push(state, &repo).expect("consistent state must push");
    assert_eq!(success.files_pushed.len(), 1);
    assert_eq!(success.files_pushed[0].0 .0, "dots".to_string());
    assert_eq!(success.files_pushed[0].1.len(), 2);
    assert_eq!(success.transfers.len(), 1);
    let t = &success.transfers[0];
    assert_eq!(t.set_name.0, "dots".to_string());
    assert_eq!(t.files.len(), 2);
    // the repo-relative location strips the shortcut
    assert_eq!(t.files[0].path_in_set.segments(), gate_path("rc").segments());
    assert_eq!(t.files[1].path_in_set.segments(), gate_path("ed/init").segments());
}

#[test]
fn classifier_skips_reserved_and_repo_files() {
    let repo = gate_repo(vec![("live", None, vec!["good"])]);
    let mut index = FileIndex::new();
    index.set(gate_path("good"), gate_name("live"));
    let walked = vec![
        gate_path("good"),
        gate_path(".monjaignore"),
        gate_path("repo/live/inside"),
    ];
    let state = retrieve_state(
        walked,
        Some(gate_path("repo")),
        &index,
        &FileIndex::new(),
        &repo,
    );
    assert_eq!(state.untracked_files.len(), 0);
    assert_eq!(state.files_to_push.len(), 1);
    assert_eq!(state.files_to_push[0].1.len(), 1);
}

#[test]
fn classifier_partitions_are_disjoint_and_complete() {
    let repo = gate_repo(vec![("live", None, vec!["tracked"])]);
    let mut index = FileIndex::new();
    index.set(gate_path("tracked"), gate_name("live"));
    index.set(gate_path("stale"), gate_name("live"));
    index.set(gate_path("orphan"), gate_name("ghost"));
    let walked = vec![
        gate_path("tracked"),
        gate_path("stale"),
        gate_path("orphan"),
        gate_path("new-file"),
    ];
    let state = retrieve_state(walked, None, &index, &FileIndex::new(), &repo);
    assert_eq!(state.files_to_push.len(), 1);
    assert_eq!(state.files_to_push[0].1[0].segments(), gate_path("tracked").segments());
    assert_eq!(state.missing_files[0].1[0].segments(), gate_path("stale").segments());
    assert_eq!(
        state.files_with_missing_sets[0].1[0].segments(),
        gate_path("orphan").segments(),
    );
    assert_eq!(state.untracked_files[0].segments(), gate_path("new-file").segments());
}
