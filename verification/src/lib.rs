//! A verified engine for reconciling a local file tree against a repository of
//! ordered, layered file collections ("sets").
//!
//! The library is the pure core of the tool: path safety, repo-state
//! construction, the generational file index, the local-state classifier, the
//! layering merge used by pull, and the consistency gate used by push. All
//! filesystem reads and writes, configuration parsing, and transfer-tool
//! invocations live outside the library; callers hand in plain values (walked
//! file lists, parsed index entries) and receive plans and reports back.

use vstd::prelude::*;

pub mod clean;
pub mod laws;
pub mod local;
pub mod new_set;
pub mod paths;
pub mod pull;
pub mod push;
pub mod put;
pub mod repo;
pub mod status;

use crate::paths::{
    clone_segments, lemma_resolve_valid, resolve, resolve_spec, string_eq_lit, AbsolutePath,
    LocalFilePath, RawPath,
};
use crate::repo::SetName;

pub use crate::clean::{clean, CleanMode, CleanSuccess};
pub use crate::local::{
    old_files_since_last_pull, retrieve_state, FileIndex, IndexKind, LocalState, LocalWalkError,
};
pub use crate::new_set::{compute_shortcut, new_set, NewSetSuccess};
pub use crate::paths::LocalFilePathError;
pub use crate::pull::{merge_layer, pull, PullError, PullSuccess, PullTransfer, RepoFilePath};
pub use crate::push::{push, PushError, PushSuccess, PushTransfer};
pub use crate::put::{put, PutCopy, PutError, PutSuccess};
pub use crate::repo::{
    initialize_full_state, load_set_state, FileRecord, RepoSet, RepoState, SetConfig, SetInput,
    SetShortcut, SetShortcutError, SetSource, StateInitializationError,
};
pub use crate::status::{local_status, Status, StatusError};

verus! {

/// The profile: the repo location and the ordered target sets that define
/// both pull precedence and push scope.
#[derive(Debug)]
pub struct MonjaProfileConfig {
    pub repo_dir: RawPath,
    pub target_sets: Vec<SetName>,
    pub new_file_set: Option<SetName>,
}

/// A loaded profile with its three resolved roots.
#[derive(Debug)]
pub struct MonjaProfile {
    pub local_root: AbsolutePath,
    pub repo_root: AbsolutePath,
    pub data_root: AbsolutePath,
    pub config: MonjaProfileConfig,
}

impl MonjaProfile {
    /// Resolves the profile's repo directory: a relative value is resolved
    /// logically against the local root, an absolute one is taken as given.
    pub fn from_config(
        config: MonjaProfileConfig,
        local_root: AbsolutePath,
        data_root: AbsolutePath,
    ) -> (r: MonjaProfile)
        requires
            local_root.wf(),
            config.repo_dir.wf(),
        ensures
            r.local_root@ == local_root@,
            r.data_root@ == data_root@,
            r.config == config,
            r.repo_root@ == resolve_spec(
                if config.repo_dir.absolute {
                    Seq::<Seq<char>>::empty()
                } else {
                    local_root@
                },
                config.repo_dir@,
            ),
            r.repo_root.wf(),
    {
        let base: Vec<String> = if config.repo_dir.absolute {
            Vec::new()
        } else {
            clone_segments(&local_root.segments)
        };
        proof {
            if config.repo_dir.absolute {
                assert(base.deep_view() =~= Seq::<Seq<char>>::empty());
            }
            lemma_resolve_valid(base.deep_view(), config.repo_dir@);
        }
        let segments = resolve(&base, &config.repo_dir.segments);
        MonjaProfile { local_root, repo_root: AbsolutePath { segments }, data_root, config }
    }
}

/// Run-wide switches: verbosity for reporting, and dry-run, which computes
/// every result while mutating nothing.
#[derive(Debug)]
pub struct ExecutionOptions {
    pub verbosity: u8,
    pub dry_run: bool,
}

/// The file names reserved for the tool's own bookkeeping, excluded from
/// every walk of either tree.
pub open spec fn special_file_name(s: Seq<char>) -> bool {
    ||| s == ".monja-set.toml"@
    ||| s == ".monja-dir.toml"@
    ||| s == "monja-profile.toml"@
    ||| s == "monja-index.toml"@
    ||| s == "monja-index-prev.toml"@
    ||| s == ".monjaignore"@
}

/// A path whose file name is reserved.
pub open spec fn is_special_path(p: Seq<Seq<char>>) -> bool {
    p.len() > 0 && special_file_name(p.last())
}

/// Decides whether a path names one of the tool's own bookkeeping files.
pub fn is_monja_special_file(path: &LocalFilePath) -> (r: bool)
    ensures
        r == is_special_path(path@),
{
    let segs = path.segments();
    if segs.len() == 0 {
        proof {
            assert(path@.len() == segs@.len());
        }
        return false;
    }
    let last: &String = &segs[segs.len() - 1];
    proof {
        assert(segs.deep_view()[segs@.len() - 1] == segs@[segs@.len() - 1]@);
        assert(path@.last() == last@);
    }
    string_eq_lit(last, ".monja-set.toml") || string_eq_lit(last, ".monja-dir.toml")
        || string_eq_lit(last, "monja-profile.toml") || string_eq_lit(last, "monja-index.toml")
        || string_eq_lit(last, "monja-index-prev.toml") || string_eq_lit(last, ".monjaignore")
}

} // verus!
