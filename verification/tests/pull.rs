//! The layering merge: declared order decides overlaps, missing targets abort
//! the pull, and the index generations rotate.

use monja::paths::{AbsolutePath, LocalFilePath, RawPath};
use monja::repo::{RepoState, SetInput, SetName, SetSource};
use monja::{initialize_full_state, pull, FileIndex, PullError};

fn path(s: &str) -> LocalFilePath {
    LocalFilePath::from_segments(s.split('/').map(|x| x.to_string()).collect()).unwrap()
}

fn name(s: &str) -> SetName {
    SetName(s.to_string())
}

fn build_repo(sets: Vec<(&str, Option<&str>, Vec<&str>)>) -> RepoState {
    let root = AbsolutePath::new(vec!["monja".to_string(), "repo".to_string()]).unwrap();
    let inputs: Vec<SetInput> = sets
        .into_iter()
        .map(|(n, shortcut, files)| SetInput {
            name: name(n),
            source: SetSource::Loaded {
                shortcut: shortcut.map(|s| RawPath {
                    absolute: false,
                    segments: s.split('/').map(|x| x.to_string()).collect(),
                }),
                files: files.into_iter().map(path).collect(),
            },
        })
        .collect();
    initialize_full_state(&root, inputs, Vec::new()).expect("repo must load")
}

fn owner_of(index: &FileIndex, p: &str) -> Option<String> {
    index.get(&path(p)).map(|n| n.0.clone())
}

#[test]
fn layering_last_set_wins() {
    let repo = build_repo(vec![
        ("seta", None, vec!["p"]),
        ("setb", None, vec!["p"]),
    ]);
    let targets = vec![name("seta"), name("setb")];
    let result = pull(&targets, &repo, &FileIndex::new(), &Vec::new()).unwrap();
    assert_eq!(owner_of(&result.new_current_index, "p"), Some("setb".to_string()));
    // the winning copy is transferred from setb, not from seta
    assert_eq!(result.transfers.len(), 2);
    assert_eq!(result.transfers[0].files.len(), 0);
    assert_eq!(result.transfers[1].files.len(), 1);
    assert_eq!(result.transfers[1].files[0].local_path.segments(), path("p").segments());
}

#[test]
fn layering_order_reversed_flips_winner() {
    let repo = build_repo(vec![
        ("seta", None, vec!["p"]),
        ("setb", None, vec!["p"]),
    ]);
    let targets = vec![name("setb"), name("seta")];
    let result = pull(&targets, &repo, &FileIndex::new(), &Vec::new()).unwrap();
    assert_eq!(owner_of(&result.new_current_index, "p"), Some("seta".to_string()));
    assert_eq!(result.transfers[0].files.len(), 0);
    assert_eq!(result.transfers[1].files.len(), 1);
}

#[test]
fn round_trip_reassigns_owner() {
    // set1 and set2 both provide "a"; pulling [set1, set2] hands it to set2,
    // re-pulling with [set1] alone hands it back to set1.
    let repo = build_repo(vec![
        ("set1", None, vec!["a"]),
        ("set2", None, vec!["a"]),
    ]);
    let targets = vec![name("set1"), name("set2")];
    let present = vec![path("a")];
    let first = pull(&targets, &repo, &FileIndex::new(), &present).unwrap();
    assert_eq!(owner_of(&first.new_current_index, "a"), Some("set2".to_string()));

    let targets2 = vec![name("set1")];
    let second = pull(&targets2, &repo, &first.new_current_index, &present).unwrap();
    assert_eq!(owner_of(&second.new_current_index, "a"), Some("set1".to_string()));
    // set1's copy of "a" is what the second pull transfers
    assert_eq!(second.transfers.len(), 1);
    assert_eq!(second.transfers[0].set_name.0, "set1".to_string());
    assert_eq!(second.transfers[0].files.len(), 1);
    // the old current became the new previous
    assert_eq!(owner_of(&second.new_previous_index, "a"), Some("set2".to_string()));
    // "a" is still provided, so nothing is cleanable
    assert_eq!(second.cleanable_files.len(), 0);
}

#[test]
fn pull_missing_sets_all_reported() {
    let repo = build_repo(vec![("present", None, vec!["x"])]);
    let targets = vec![name("ghost1"), name("present"), name("ghost2")];
    let result = pull(&targets, &repo, &FileIndex::new(), &Vec::new());
    match result {
        Err(PullError::MissingSets { missing }) => {
            let names: Vec<String> = missing.into_iter().map(|n| n.0).collect();
            assert_eq!(names, vec!["ghost1".to_string(), "ghost2".to_string()]);
        },
        Ok(_) => panic!("pull must fail when targets are missing"),
    }
}

#[test]
fn pull_reports_cleanable_files() {
    // "old" was owned by the previous pull, is still present locally, and the
    // new pull no longer provides it.
    let repo = build_repo(vec![("keep", None, vec!["fresh"])]);
    let mut current = FileIndex::new();
    current.set(path("old"), name("gone"));
    let present = vec![path("old"), path("fresh")];
    let result = pull(&vec![name("keep")], &repo, &current, &present).unwrap();
    assert_eq!(result.cleanable_files.len(), 1);
    assert_eq!(result.cleanable_files[0].segments(), path("old").segments());
}

#[test]
fn pull_mounts_files_under_shortcut() {
    let repo = build_repo(vec![("dots", Some("cfg/app"), vec!["rc"])]);
    let result = pull(&vec![name("dots")], &repo, &FileIndex::new(), &Vec::new()).unwrap();
    assert_eq!(owner_of(&result.new_current_index, "cfg/app/rc"), Some("dots".to_string()));
    assert_eq!(result.transfers[0].files[0].path_in_set.segments(), path("rc").segments());
    assert_eq!(
        result.transfers[0].files[0].local_path.segments(),
        path("cfg/app/rc").segments(),
    );
    assert_eq!(result.transfers[0].shortcut.segments, path("cfg/app").segments().clone());
}

#[test]
fn merge_layer_overwrites_overlaps_only() {
    let repo = build_repo(vec![
        ("first", None, vec!["shared", "only-first"]),
        ("second", None, vec!["shared", "only-second"]),
    ]);
    let mut acc = FileIndex::new();
    monja::merge_layer(&mut acc, &repo.sets[0]);
    monja::merge_layer(&mut acc, &repo.sets[1]);
    assert_eq!(owner_of(&acc, "shared"), Some("second".to_string()));
    assert_eq!(owner_of(&acc, "only-first"), Some("first".to_string()));
    assert_eq!(owner_of(&acc, "only-second"), Some("second".to_string()));
}
