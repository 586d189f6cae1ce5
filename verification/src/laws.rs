//! The library-wide laws, stated and proved once against the contracts of the
//! operations they speak about.

use vstd::prelude::*;

use crate::local::{
    classifies_missing_file, classifies_missing_set, group_files, grouped_by, kept_walk,
    owner_missing_file, owner_missing_set, LocalState,
};
use crate::paths::{paths_contain, LocalFilePath};
use crate::pull::winner_idx;
use crate::repo::{RepoState, SetName};

verus! {

/// A target whose set tracks the path is never shadowed by an earlier one:
/// the winning position is at least its own.
pub proof fn lemma_winner_is_last(
    repo: RepoState,
    targets: Seq<SetName>,
    p: Seq<Seq<char>>,
    i: int,
)
    requires
        0 <= i < targets.len(),
        repo.has_set(targets[i]@),
        repo.set_named(targets[i]@).tracks(p),
    ensures
        winner_idx(repo, targets, p) >= i,
    decreases targets.len(),
{
    if i == targets.len() - 1 {
        assert(targets.last() == targets[i]);
    } else {
        assert(targets.drop_last()[i] == targets[i]);
        lemma_winner_is_last(repo, targets.drop_last(), p, i);
    }
}

/// Layering determinism: when two targeted sets both provide the same local
/// path, the later-listed set owns it, so reversing the declared order flips
/// the owner. Pull's contract sends the path's index entry to the winner, so
/// with order `[a, b]` the entry reads `b`, and with `[b, a]` it reads `a`.
pub proof fn lemma_layering_determinism(
    repo: RepoState,
    a: SetName,
    b: SetName,
    p: Seq<Seq<char>>,
)
    requires
        repo.has_set(a@),
        repo.has_set(b@),
        repo.set_named(a@).tracks(p),
        repo.set_named(b@).tracks(p),
    ensures
        seq![a, b][winner_idx(repo, seq![a, b], p)]@ == b@,
        seq![b, a][winner_idx(repo, seq![b, a], p)]@ == a@,
{
    let t1 = seq![a, b];
    assert(t1[1] == b);
    crate::pull::lemma_winner_idx_bounds(repo, t1, p);
    lemma_winner_is_last(repo, t1, p, 1);
    let t2 = seq![b, a];
    assert(t2[1] == a);
    crate::pull::lemma_winner_idx_bounds(repo, t2, p);
    lemma_winner_is_last(repo, t2, p, 1);
}

/// Consistency gate totality: as soon as one kept walked file's recorded set
/// is missing from the repo, or present but no longer tracking the file, the
/// classifier's violation partitions are non-empty, so the push is refused
/// with both partitions returned in full.
pub proof fn lemma_gate_totality(
    state: LocalState,
    walked: Seq<LocalFilePath>,
    repo_prefix: Option<LocalFilePath>,
    idx: Map<Seq<Seq<char>>, Seq<char>>,
    repo: RepoState,
    q: Seq<Seq<char>>,
)
    requires
        grouped_by(state.files_with_missing_sets@, walked, repo_prefix, owner_missing_set(idx, repo)),
        grouped_by(state.missing_files@, walked, repo_prefix, owner_missing_file(idx, repo)),
        kept_walk(walked, repo_prefix, q),
        classifies_missing_set(idx, repo, q) || classifies_missing_file(idx, repo, q),
    ensures
        state.files_with_missing_sets@.len() > 0 || state.missing_files@.len() > 0,
{
    if classifies_missing_set(idx, repo, q) {
        assert(owner_missing_set(idx, repo)(q) == Some(idx[q]));
        assert(group_files(state.files_with_missing_sets@, idx[q], q));
        let gi = choose|gi: int|
            0 <= gi < state.files_with_missing_sets@.len() && (
            #[trigger] state.files_with_missing_sets@[gi]).0@ == idx[q] && paths_contain(
                state.files_with_missing_sets@[gi].1@,
                q,
            );
        assert(state.files_with_missing_sets@.len() > 0);
    } else {
        assert(owner_missing_file(idx, repo)(q) == Some(idx[q]));
        assert(group_files(state.missing_files@, idx[q], q));
        let gi = choose|gi: int|
            0 <= gi < state.missing_files@.len() && (#[trigger] state.missing_files@[gi]).0@
                == idx[q] && paths_contain(state.missing_files@[gi].1@, q);
        assert(state.missing_files@.len() > 0);
    }
}

/// Index-diff idempotence: once a cleanup has removed exactly the cleanable
/// files from the local tree, running the same index-diff again, with no pull
/// in between, finds nothing left to clean.
pub proof fn lemma_index_clean_idempotent(
    prev: Map<Seq<Seq<char>>, Seq<char>>,
    curr: Map<Seq<Seq<char>>, Seq<char>>,
    present: Seq<LocalFilePath>,
    first_cleaned: Seq<LocalFilePath>,
    present_after: Seq<LocalFilePath>,
)
    requires
        forall|q: Seq<Seq<char>>|
            #[trigger] paths_contain(first_cleaned, q) <==> (prev.contains_key(q) && paths_contain(
                present,
                q,
            ) && !curr.contains_key(q)),
        forall|q: Seq<Seq<char>>|
            #[trigger] paths_contain(present_after, q) <==> (paths_contain(present, q)
                && !paths_contain(first_cleaned, q)),
    ensures
        forall|q: Seq<Seq<char>>|
            !(prev.contains_key(q) && #[trigger] paths_contain(present_after, q)
                && !curr.contains_key(q)),
{
    assert forall|q: Seq<Seq<char>>|
        !(prev.contains_key(q) && #[trigger] paths_contain(present_after, q)
            && !curr.contains_key(q)) by {
        if prev.contains_key(q) && paths_contain(present_after, q) && !curr.contains_key(q) {
            assert(paths_contain(present, q));
            assert(paths_contain(first_cleaned, q));
        }
    }
}

/// Ignore-respecting cleanup: a file the ignore rules cover never appears in
/// a walked, unignored file list, so it is never reported cleanable, whatever
/// the two index generations record about it.
pub proof fn lemma_ignored_never_cleanable(
    cleanable: Seq<LocalFilePath>,
    prev: Map<Seq<Seq<char>>, Seq<char>>,
    curr: Map<Seq<Seq<char>>, Seq<char>>,
    present_unignored: Seq<LocalFilePath>,
    q: Seq<Seq<char>>,
)
    requires
        forall|x: Seq<Seq<char>>|
            #[trigger] paths_contain(cleanable, x) <==> (prev.contains_key(x) && paths_contain(
                present_unignored,
                x,
            ) && !curr.contains_key(x)),
        !paths_contain(present_unignored, q),
    ensures
        !paths_contain(cleanable, q),
{
}

} // verus!
