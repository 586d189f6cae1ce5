//! Cleanup of local files the repo no longer provides. Index mode compares
//! the two persisted index generations alone; full mode deletes everything
//! the classifier found untracked or inconsistent. Both only compute the
//! list; the caller deletes (or, in a dry run, merely reports).

use vstd::prelude::*;

use crate::local::{group_files, old_files_since_last_pull, FileIndex, LocalState};
use crate::paths::{paths_contain, paths_sorted, LocalFilePath};

verus! {

/// Which comparison drives the cleanup.
#[derive(Debug)]
pub enum CleanMode {
    /// Compare the two persisted index generations: fast, no repo walk.
    Index,
    /// Compare the full classifier output: authoritative, needs both walks.
    Full,
}

/// The files the cleanup would remove, sorted by path.
#[derive(Debug)]
pub struct CleanSuccess {
    pub files_cleaned: Vec<LocalFilePath>,
}

/// A path falls to full cleanup when the classifier put it in any of the
/// untracked, missing-set or missing-file partitions.
pub open spec fn full_cleanable(state: LocalState, q: Seq<Seq<char>>) -> bool {
    ||| paths_contain(state.untracked_files@, q)
    ||| exists|n: Seq<char>| #[trigger] group_files(state.files_with_missing_sets@, n, q)
    ||| exists|n: Seq<char>| #[trigger] group_files(state.missing_files@, n, q)
}

/// Computes the files to clean. In index mode these are exactly the paths the
/// previous generation owned that are still present (and unignored) but gone
/// from the current generation; in full mode, the union of the untracked,
/// missing-set and missing-file partitions. Either way the list is sorted.
pub fn clean(
    mode: CleanMode,
    prev_index: &FileIndex,
    curr_index: &FileIndex,
    present_unignored: &Vec<LocalFilePath>,
    local_state: &LocalState,
) -> (r: CleanSuccess)
    requires
        prev_index.wf(),
    ensures
        paths_sorted(r.files_cleaned@),
        mode is Index ==> (forall|q: Seq<Seq<char>>|
            #[trigger] paths_contain(r.files_cleaned@, q) <==> (prev_index@.contains_key(q)
                && paths_contain(present_unignored@, q) && !curr_index@.contains_key(q))),
        mode is Full ==> (forall|q: Seq<Seq<char>>|
            #[trigger] paths_contain(r.files_cleaned@, q) <==> full_cleanable(*local_state, q)),
{
    match mode {
        CleanMode::Index => {
            let files_cleaned = old_files_since_last_pull(
                prev_index,
                curr_index,
                present_unignored,
            );
            CleanSuccess { files_cleaned }
        },
        CleanMode::Full => {
            let mut collected: Vec<LocalFilePath> = Vec::new();
            collect_paths(&mut collected, &local_state.untracked_files);
            collect_groups(&mut collected, &local_state.files_with_missing_sets);
            collect_groups(&mut collected, &local_state.missing_files);
            proof {
                assert forall|q: Seq<Seq<char>>| #[trigger]
                    paths_contain(collected@, q) <==> full_cleanable(*local_state, q) by {}
            }
            let files_cleaned = crate::paths::sort_paths(collected);
            CleanSuccess { files_cleaned }
        },
    }
}

/// Adds every path of `src_list` not yet collected.
fn collect_paths(collected: &mut Vec<LocalFilePath>, src_list: &Vec<LocalFilePath>)
    requires
        forall|m: int, n: int|
            0 <= m < n < old(collected)@.len() ==> (#[trigger] old(collected)@[m])@ != (
            #[trigger] old(collected)@[n])@,
    ensures
        forall|m: int, n: int|
            0 <= m < n < final(collected)@.len() ==> (#[trigger] final(collected)@[m])@ != (
            #[trigger] final(collected)@[n])@,
        forall|q: Seq<Seq<char>>|
            #[trigger] paths_contain(final(collected)@, q) <==> (paths_contain(old(collected)@, q)
                || paths_contain(src_list@, q)),
{
    let ghost orig = collected@;
    let mut i: usize = 0;
    while i < src_list.len()
        invariant
            i <= src_list@.len(),
            forall|m: int, n: int|
                0 <= m < n < collected@.len() ==> (#[trigger] collected@[m])@ != (
                #[trigger] collected@[n])@,
            forall|q: Seq<Seq<char>>|
                #[trigger] paths_contain(collected@, q) <==> (paths_contain(orig, q)
                    || paths_contain(src_list@.take(i as int), q)),
        decreases src_list@.len() - i,
    {
        let ghost before = collected@;
        let p = &src_list[i];
        if !crate::local::paths_contain_exec(collected, p) {
            collected.push(p.dup());
        }
        proof {
            let taken = src_list@.take((i + 1) as int);
            assert(taken.drop_last() =~= src_list@.take(i as int));
            assert(taken.last() == src_list@[i as int]);
            assert forall|q: Seq<Seq<char>>| #[trigger]
                paths_contain(collected@, q) <==> (paths_contain(orig, q) || paths_contain(
                taken,
                q,
            )) by {
                if paths_contain(collected@, q) {
                    let m = choose|m: int|
                        0 <= m < collected@.len() && (#[trigger] collected@[m])@ == q;
                    if m < before.len() {
                        assert(collected@[m] == before[m]);
                        assert(paths_contain(before, q));
                        if !paths_contain(orig, q) {
                            let z = choose|z: int|
                                0 <= z < i && (#[trigger] src_list@.take(i as int)[z])@ == q;
                            assert(taken[z]@ == q);
                        }
                    } else {
                        assert(collected@[m]@ == src_list@[i as int]@);
                        assert(taken[i as int]@ == q);
                    }
                }
                if paths_contain(taken, q) {
                    let z = choose|z: int| 0 <= z < taken.len() && (#[trigger] taken[z])@ == q;
                    if z < i {
                        assert(src_list@.take(i as int)[z]@ == q);
                        assert(paths_contain(before, q));
                        let m = choose|m: int|
                            0 <= m < before.len() && (#[trigger] before[m])@ == q;
                        assert(collected@[m] == before[m]);
                    } else {
                        assert(q == src_list@[i as int]@);
                        if paths_contain(before, q) {
                            let m = choose|m: int|
                                0 <= m < before.len() && (#[trigger] before[m])@ == q;
                            assert(collected@[m] == before[m]);
                        } else {
                            assert(collected@[collected@.len() - 1]@ == q);
                        }
                    }
                }
                if paths_contain(orig, q) {
                    assert(paths_contain(before, q));
                    let m = choose|m: int| 0 <= m < before.len() && (#[trigger] before[m])@ == q;
                    assert(collected@[m] == before[m]);
                }
            }
        }
        i += 1;
    }
    proof {
        assert(src_list@.take(src_list@.len() as int) =~= src_list@);
    }
}

/// Adds every path of every group not yet collected.
fn collect_groups(
    collected: &mut Vec<LocalFilePath>,
    groups: &Vec<(crate::repo::SetName, Vec<LocalFilePath>)>,
)
    requires
        forall|m: int, n: int|
            0 <= m < n < old(collected)@.len() ==> (#[trigger] old(collected)@[m])@ != (
            #[trigger] old(collected)@[n])@,
    ensures
        forall|m: int, n: int|
            0 <= m < n < final(collected)@.len() ==> (#[trigger] final(collected)@[m])@ != (
            #[trigger] final(collected)@[n])@,
        forall|q: Seq<Seq<char>>|
            #[trigger] paths_contain(final(collected)@, q) <==> (paths_contain(old(collected)@, q)
                || exists|n: Seq<char>| #[trigger] group_files(groups@, n, q)),
{
    let ghost orig = collected@;
    let mut gi: usize = 0;
    while gi < groups.len()
        invariant
            gi <= groups@.len(),
            forall|m: int, n: int|
                0 <= m < n < collected@.len() ==> (#[trigger] collected@[m])@ != (
                #[trigger] collected@[n])@,
            forall|q: Seq<Seq<char>>|
                #[trigger] paths_contain(collected@, q) <==> (paths_contain(orig, q) || (exists|
                    j: int,
                |
                    0 <= j < gi && paths_contain((#[trigger] groups@[j]).1@, q))),
        decreases groups@.len() - gi,
    {
        let ghost before = collected@;
        collect_paths(collected, &groups[gi].1);
        proof {
            assert forall|q: Seq<Seq<char>>| #[trigger]
                paths_contain(collected@, q) <==> (paths_contain(orig, q) || (exists|j: int|
                0 <= j < gi + 1 && paths_contain((#[trigger] groups@[j]).1@, q))) by {
                if paths_contain(collected@, q) {
                    if paths_contain(before, q) {
                        if !paths_contain(orig, q) {
                            let j = choose|j: int|
                                0 <= j < gi && paths_contain((#[trigger] groups@[j]).1@, q);
                            assert(0 <= j < gi + 1 && paths_contain(groups@[j].1@, q));
                        }
                    } else {
                        assert(paths_contain(groups@[gi as int].1@, q));
                    }
                }
                if exists|j: int| 0 <= j < gi + 1 && paths_contain((#[trigger] groups@[j]).1@, q) {
                    let j = choose|j: int|
                        0 <= j < gi + 1 && paths_contain((#[trigger] groups@[j]).1@, q);
                    if j < gi {
                        assert(paths_contain(before, q));
                    } else {
                        assert(paths_contain(groups@[gi as int].1@, q));
                    }
                }
            }
        }
        gi += 1;
    }
    proof {
        assert forall|q: Seq<Seq<char>>| #[trigger]
            paths_contain(collected@, q) <==> (paths_contain(orig, q) || exists|n: Seq<char>|
            #[trigger] group_files(groups@, n, q)) by {
            if exists|j: int| 0 <= j < groups@.len() && paths_contain((#[trigger] groups@[j]).1@, q) {
                let j = choose|j: int|
                    0 <= j < groups@.len() && paths_contain((#[trigger] groups@[j]).1@, q);
                assert(group_files(groups@, groups@[j].0@, q));
            }
            if exists|n: Seq<char>| #[trigger] group_files(groups@, n, q) {
                let n = choose|n: Seq<char>| #[trigger] group_files(groups@, n, q);
                let j = choose|j: int|
                    0 <= j < groups@.len() && (#[trigger] groups@[j]).0@ == n && paths_contain(
                        groups@[j].1@,
                        q,
                    );
                assert(paths_contain(groups@[j].1@, q));
            }
        }
    }
}

} // verus!
