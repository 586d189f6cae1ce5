//! The consistency check in front of push: when any locally found file's
//! recorded set is missing from the repo, or no longer tracks the file, no
//! transfer happens at all and both violation partitions are handed back
//! verbatim. Only a fully consistent state is turned into per-set transfers.

use vstd::prelude::*;

use crate::local::LocalState;
use crate::paths::{is_prefix_of, segments_after_prefix, LocalFilePath};
use crate::pull::RepoFilePath;
use crate::repo::{RepoState, SetName, SetShortcut};
use crate::paths::AbsolutePath;

verus! {

/// Push is blocked: these files' recorded sets are absent from the repo or no
/// longer track them. Both partitions are returned in full.
#[derive(Debug)]
pub enum PushError {
    Consistency {
        files_with_missing_sets: Vec<(SetName, Vec<LocalFilePath>)>,
        missing_files: Vec<(SetName, Vec<LocalFilePath>)>,
    },
}

/// What one set contributes to the push: its files, copied from their local
/// locations under the shortcut into the set's root.
#[derive(Debug)]
pub struct PushTransfer {
    pub set_name: SetName,
    pub shortcut: SetShortcut,
    pub dest_root: AbsolutePath,
    pub files: Vec<RepoFilePath>,
}

/// The plan of a consistent push: the to-push partition verbatim, and one
/// transfer per group. In a dry run the caller performs none of them.
#[derive(Debug)]
pub struct PushSuccess {
    pub files_pushed: Vec<(SetName, Vec<LocalFilePath>)>,
    pub transfers: Vec<PushTransfer>,
}

/// The consistency check plus the transfer plan. The local state must match
/// `repo`: every to-push group's set exists and tracks each of its files.
pub fn push(local_state: LocalState, repo: &RepoState) -> (r: Result<PushSuccess, PushError>)
    requires
        repo.wf(),
        forall|gi: int|
            0 <= gi < local_state.files_to_push@.len() ==> {
                let g = #[trigger] local_state.files_to_push@[gi];
                repo.has_set(g.0@) && (forall|m: int|
                    0 <= m < g.1@.len() ==> repo.set_named(g.0@).tracks((#[trigger] g.1@[m])@))
            },
    ensures
        r is Err <==> (local_state.files_with_missing_sets@.len() > 0
            || local_state.missing_files@.len() > 0),
        r matches Err(PushError::Consistency { files_with_missing_sets, missing_files }) ==> {
            &&& files_with_missing_sets == local_state.files_with_missing_sets
            &&& missing_files == local_state.missing_files
        },
        r matches Ok(s) ==> {
            &&& s.files_pushed == local_state.files_to_push
            &&& s.transfers@.len() == local_state.files_to_push@.len()
            &&& (forall|gi: int|
                0 <= gi < s.transfers@.len() ==> {
                    let t = #[trigger] s.transfers@[gi];
                    let g = local_state.files_to_push@[gi];
                    let set = repo.set_named(g.0@);
                    &&& t.set_name@ == g.0@
                    &&& t.shortcut@ == set.shortcut@
                    &&& t.dest_root@ == set.root@
                    &&& t.files@.len() == g.1@.len()
                    &&& (forall|m: int|
                        0 <= m < t.files@.len() ==> {
                            let rf = #[trigger] t.files@[m];
                            &&& rf.local_path@ == g.1@[m]@
                            &&& rf.local_path@ == set.shortcut@ + rf.path_in_set@
                        })
                })
        },
{
    if local_state.files_with_missing_sets.len() > 0 || local_state.missing_files.len() > 0 {
        return Err(
            PushError::Consistency {
                files_with_missing_sets: local_state.files_with_missing_sets,
                missing_files: local_state.missing_files,
            },
        );
    }
    let groups = &local_state.files_to_push;
    let mut transfers: Vec<PushTransfer> = Vec::new();
    let mut gi: usize = 0;
    while gi < groups.len()
        invariant
            gi <= groups@.len(),
            repo.wf(),
            forall|j: int|
                0 <= j < groups@.len() ==> {
                    let g = #[trigger] groups@[j];
                    repo.has_set(g.0@) && (forall|m: int|
                        0 <= m < g.1@.len() ==> repo.set_named(g.0@).tracks((#[trigger] g.1@[m])@))
                },
            transfers@.len() == gi,
            forall|j: int|
                0 <= j < gi ==> {
                    let t = #[trigger] transfers@[j];
                    let g = groups@[j];
                    let set = repo.set_named(g.0@);
                    &&& t.set_name@ == g.0@
                    &&& t.shortcut@ == set.shortcut@
                    &&& t.dest_root@ == set.root@
                    &&& t.files@.len() == g.1@.len()
                    &&& (forall|m: int|
                        0 <= m < t.files@.len() ==> {
                            let rf = #[trigger] t.files@[m];
                            &&& rf.local_path@ == g.1@[m]@
                            &&& rf.local_path@ == set.shortcut@ + rf.path_in_set@
                        })
                },
        decreases groups@.len() - gi,
    {
        let name = &groups[gi].0;
        let group_files = &groups[gi].1;
        let set = match repo.find_set(name) {
            Option::Some(set) => set,
            Option::None => {
                proof {
                    assert(repo.has_set(groups@[gi as int].0@));
                    assert(false);
                }
                return Err(
                    PushError::Consistency {
                        files_with_missing_sets: local_state.files_with_missing_sets,
                        missing_files: local_state.missing_files,
                    },
                );
            },
        };
        proof {
            assert(set.wf()) by {
                let w = repo.set_idx(groups@[gi as int].0@);
                assert(repo.sets@[w].wf());
            }
        }
        let mut files: Vec<RepoFilePath> = Vec::new();
        let mut m: usize = 0;
        while m < group_files.len()
            invariant
                m <= group_files@.len(),
                gi < groups@.len(),
                group_files@ == groups@[gi as int].1@,
                repo.wf(),
                set.wf(),
                *set == repo.set_named(groups@[gi as int].0@),
                forall|j: int|
                    0 <= j < group_files@.len() ==> repo.set_named(groups@[gi as int].0@).tracks(
                        (#[trigger] group_files@[j])@,
                    ),
                files@.len() == m,
                forall|j: int|
                    0 <= j < m ==> {
                        let rf = #[trigger] files@[j];
                        &&& rf.local_path@ == group_files@[j]@
                        &&& rf.local_path@ == set.shortcut@ + rf.path_in_set@
                    },
            decreases group_files@.len() - m,
        {
            let p = &group_files[m];
            proof {
                assert(set.tracks(p@));
                let ri = choose|ri: int|
                    0 <= ri < set.files@.len() && (#[trigger] set.files@[ri]).local_path@ == p@;
                assert(set.files@[ri].local_path@ == set.shortcut@ + set.files@[ri].path_in_set@);
                assert(is_prefix_of(set.shortcut@, p@)) by {
                    let ps = set.files@[ri].path_in_set@;
                    assert forall|z: int| 0 <= z < set.shortcut@.len() implies set.shortcut@[z]
                        == p@[z] by {
                        assert(p@[z] == (set.shortcut@ + ps)[z]);
                    }
                }
            }
            let rel = segments_after_prefix(&set.shortcut.segments, p.segments());
            proof {
                assert(set.shortcut@.len() == set.shortcut.segments.deep_view().len());
                assert((set.shortcut@ + rel.deep_view()) =~= p@);
            }
            let rf = RepoFilePath {
                path_in_set: LocalFilePath { segments: rel },
                local_path: p.dup(),
            };
            files.push(rf);
            m += 1;
        }
        transfers.push(
            PushTransfer {
                set_name: name.dup(),
                shortcut: set.shortcut.dup(),
                dest_root: set.root.dup(),
                files,
            },
        );
        gi += 1;
    }
    Ok(PushSuccess { files_pushed: local_state.files_to_push, transfers })
}

} // verus!
