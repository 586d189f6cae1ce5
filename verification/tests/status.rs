//! The status report: partitions are filtered to the requested location and
//! grouped partitions follow the profile's declared set order.

use monja::paths::{AbsolutePath, LocalFilePath, RawPath};
use monja::repo::{RepoState, SetInput, SetName, SetSource};
use monja::{
    initialize_full_state, local_status, retrieve_state, FileIndex, MonjaProfile,
    MonjaProfileConfig,
};

fn st_path(s: &str) -> LocalFilePath {
    LocalFilePath::from_segments(s.split('/').map(|x| x.to_string()).collect()).unwrap()
}

fn st_root() -> LocalFilePath {
    LocalFilePath::from_segments(Vec::new()).unwrap()
}

fn st_name(s: &str) -> SetName {
    SetName(s.to_string())
}

fn st_repo(sets: Vec<(&str, Option<&str>, Vec<&str>)>) -> RepoState {
    let root = AbsolutePath::new(vec!["monja".to_string(), "repo".to_string()]).unwrap();
    let inputs: Vec<SetInput> = sets
        .into_iter()
        .map(|(n, shortcut, files)| SetInput {
            name: st_name(n),
            source: SetSource::Loaded {
                shortcut: shortcut.map(|s| RawPath {
                    absolute: false,
                    segments: s.split('/').map(|x| x.to_string()).collect(),
                }),
                files: files.into_iter().map(st_path).collect(),
            },
        })
        .collect();
    initialize_full_state(&root, inputs, Vec::new()).expect("repo must load")
}

#[test]
fn status_orders_groups_by_targets() {
    let repo = st_repo(vec![
        ("alpha", None, vec!["af"]),
        ("beta", None, vec!["bf"]),
    ]);
    let mut index = FileIndex::new();
    index.set(st_path("af"), st_name("alpha"));
    index.set(st_path("bf"), st_name("beta"));
    let walked = vec![st_path("bf"), st_path("af")];
    let state = retrieve_state(walked, None, &index, &FileIndex::new(), &repo);
    // beta is declared before alpha, so its group comes first
    let targets = vec![st_name("beta"), st_name("alpha")];
    let status = local_status(&targets, state, &st_root());
    assert_eq!(status.files_to_push.len(), 2);
    assert_eq!(status.files_to_push[0].0 .0, "beta".to_string());
    assert_eq!(status.files_to_push[1].0 .0, "alpha".to_string());
}

#[test]
fn status_drops_untargeted_groups() {
    let repo = st_repo(vec![
        ("wanted", None, vec!["wf"]),
        ("aside", None, vec!["sf"]),
    ]);
    let mut index = FileIndex::new();
    index.set(st_path("wf"), st_name("wanted"));
    index.set(st_path("sf"), st_name("aside"));
    let walked = vec![st_path("wf"), st_path("sf")];
    let state = retrieve_state(walked, None, &index, &FileIndex::new(), &repo);
    let targets = vec![st_name("wanted")];
    let status = local_status(&targets, state, &st_root());
    assert_eq!(status.files_to_push.len(), 1);
    assert_eq!(status.files_to_push[0].0 .0, "wanted".to_string());
}

#[test]
fn status_filters_by_location() {
    let repo = st_repo(vec![("s", None, vec!["inside/one", "outside/two"])]);
    let mut index = FileIndex::new();
    index.set(st_path("inside/one"), st_name("s"));
    index.set(st_path("outside/two"), st_name("s"));
    let walked = vec![st_path("inside/one"), st_path("outside/two"), st_path("inside/junk")];
    let state = retrieve_state(walked, None, &index, &FileIndex::new(), &repo);
    let targets = vec![st_name("s")];
    let status = local_status(&targets, state, &st_path("inside"));
    assert_eq!(status.files_to_push.len(), 1);
    assert_eq!(status.files_to_push[0].1.len(), 1);
    assert_eq!(status.files_to_push[0].1[0].segments(), st_path("inside/one").segments());
    assert_eq!(status.untracked_files.len(), 1);
    assert_eq!(status.untracked_files[0].segments(), st_path("inside/junk").segments());
}

#[test]
fn profile_resolves_relative_repo_dir() {
    let config = MonjaProfileConfig {
        repo_dir: RawPath {
            absolute: false,
            segments: vec!["dotfiles".to_string(), "repo".to_string()],
        },
        target_sets: vec![st_name("s")],
        new_file_set: None,
    };
    let local_root = AbsolutePath::new(vec!["home".to_string(), "me".to_string()]).unwrap();
    let data_root = AbsolutePath::new(vec!["home".to_string(), "me".to_string(),
        "data".to_string()]).unwrap();
    let profile = MonjaProfile::from_config(config, local_root, data_root);
    assert_eq!(
        profile.repo_root.segments(),
        &vec![
            "home".to_string(),
            "me".to_string(),
            "dotfiles".to_string(),
            "repo".to_string(),
        ],
    );
}

#[test]
fn profile_keeps_absolute_repo_dir() {
    let config = MonjaProfileConfig {
        repo_dir: RawPath { absolute: true, segments: vec!["srv".to_string(), "r".to_string()] },
        target_sets: Vec::new(),
        new_file_set: None,
    };
    let local_root = AbsolutePath::new(vec!["home".to_string(), "me".to_string()]).unwrap();
    let data_root = AbsolutePath::new(vec!["d".to_string()]).unwrap();
    let profile = MonjaProfile::from_config(config, local_root, data_root);
    assert_eq!(profile.repo_root.segments(), &vec!["srv".to_string(), "r".to_string()]);
}

#[test]
fn loader_accumulates_all_errors() {
    let root = AbsolutePath::new(vec!["monja".to_string(), "repo".to_string()]).unwrap();
    let inputs = vec![
        SetInput {
            name: st_name("bad1"),
            source: SetSource::Loaded {
                shortcut: Some(RawPath { absolute: false, segments: vec!["..".to_string()] }),
                files: Vec::new(),
            },
        },
        SetInput {
            name: st_name("good"),
            source: SetSource::Loaded { shortcut: None, files: vec![st_path("f")] },
        },
        SetInput {
            name: st_name("bad2"),
            source: SetSource::Loaded {
                shortcut: Some(RawPath { absolute: true, segments: Vec::new() }),
                files: Vec::new(),
            },
        },
    ];
    let errors = initialize_full_state(&root, inputs, Vec::new())
        .expect_err("two sets are misconfigured");
    assert_eq!(errors.len(), 2);
}
