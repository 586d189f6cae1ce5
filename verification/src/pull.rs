//! The layering merge behind pull: target sets are applied in declared order
//! into one local-path-keyed accumulator, later sets overwriting earlier ones,
//! so the last listed set wins every overlap. The winning mapping becomes the
//! new current index generation; the old current becomes the new previous.

use vstd::prelude::*;

use crate::local::{old_files_since_last_pull, FileIndex};
use crate::paths::{paths_contain, paths_sorted, AbsolutePath, LocalFilePath};
use crate::repo::{RepoSet, RepoState, SetName, SetShortcut};

verus! {

/// One file as pull reports it: where it sits in its set and where it lands
/// locally.
#[derive(Debug)]
pub struct RepoFilePath {
    pub path_in_set: LocalFilePath,
    pub local_path: LocalFilePath,
}

/// The position in the target list of the set that wins local path `p`: the
/// last target whose set tracks `p`, or negative when no target does.
pub open spec fn winner_idx(repo: RepoState, targets: Seq<SetName>, p: Seq<Seq<char>>) -> int
    decreases targets.len(),
{
    if targets.len() == 0 {
        -1
    } else if repo.has_set(targets.last()@) && repo.set_named(targets.last()@).tracks(p) {
        targets.len() - 1
    } else {
        winner_idx(repo, targets.drop_last(), p)
    }
}

/// The winner is a position in the target list, and that target tracks `p`.
pub proof fn lemma_winner_idx_bounds(repo: RepoState, targets: Seq<SetName>, p: Seq<Seq<char>>)
    ensures
        -1 <= winner_idx(repo, targets, p) < targets.len(),
        winner_idx(repo, targets, p) >= 0 ==> {
            let w = winner_idx(repo, targets, p);
            repo.has_set(targets[w]@) && repo.set_named(targets[w]@).tracks(p)
        },
    decreases targets.len(),
{
    if targets.len() > 0 {
        lemma_winner_idx_bounds(repo, targets.drop_last(), p);
        if !(repo.has_set(targets.last()@) && repo.set_named(targets.last()@).tracks(p)) {
            let w = winner_idx(repo, targets.drop_last(), p);
            if w >= 0 {
                assert(targets.drop_last()[w] == targets[w]);
            }
        }
    }
}

/// One step of the layering fold.
pub proof fn lemma_winner_idx_step(
    repo: RepoState,
    targets: Seq<SetName>,
    i: int,
    p: Seq<Seq<char>>,
)
    requires
        0 <= i < targets.len(),
    ensures
        winner_idx(repo, targets.take(i + 1), p) == if repo.has_set(targets[i]@)
            && repo.set_named(targets[i]@).tracks(p) {
            i
        } else {
            winner_idx(repo, targets.take(i), p)
        },
{
    assert(targets.take(i + 1).drop_last() =~= targets.take(i));
    assert(targets.take(i + 1).last() == targets[i]);
}

/// The targets absent from the repo, in declared order.
pub open spec fn missing_targets(repo: RepoState, targets: Seq<SetName>) -> Seq<SetName> {
    targets.filter(|t: SetName| !repo.has_set(t@))
}

/// The views of a list of set names.
pub open spec fn names_of(s: Seq<SetName>) -> Seq<Seq<char>> {
    s.map_values(|t: SetName| t@)
}

/// Filtering targets splits over appending one element.
proof fn lemma_missing_targets_step(repo: RepoState, s: Seq<SetName>, x: SetName)
    ensures
        missing_targets(repo, s.push(x)) == if !repo.has_set(x@) {
            missing_targets(repo, s).push(x)
        } else {
            missing_targets(repo, s)
        },
{
    reveal(Seq::filter);
    assert(s.push(x).drop_last() =~= s);
    assert(s.push(x).last() == x);
}

/// A missing target shows up in the missing filter.
proof fn lemma_missing_targets_nonempty(repo: RepoState, s: Seq<SetName>, i: int)
    requires
        0 <= i < s.len(),
        !repo.has_set(s[i]@),
    ensures
        missing_targets(repo, s).len() > 0,
    decreases s.len(),
{
    reveal(Seq::filter);
    if s.len() > 0 {
        let t = s.drop_last();
        assert(s =~= t.push(s.last()));
        lemma_missing_targets_step(repo, t, s.last());
        if i < s.len() - 1 {
            lemma_missing_targets_nonempty(repo, t, i);
        }
    }
}

/// Pull cannot proceed: the named sets are required by the profile but absent
/// from the repo. The list holds every missing name, not just the first.
#[derive(Debug)]
pub enum PullError {
    MissingSets { missing: Vec<SetName> },
}

/// What one target set contributes to the transfer: its winning records, to
/// be copied from its root to its shortcut under the local root.
#[derive(Debug)]
pub struct PullTransfer {
    pub set_name: SetName,
    pub source_root: AbsolutePath,
    pub shortcut: SetShortcut,
    pub files: Vec<RepoFilePath>,
}

/// The full outcome of the layering merge. The caller performs the transfers
/// in order and persists the two index generations; in a dry run it persists
/// and transfers nothing.
#[derive(Debug)]
pub struct PullSuccess {
    pub files_pulled: Vec<(SetName, Vec<RepoFilePath>)>,
    pub cleanable_files: Vec<LocalFilePath>,
    pub new_current_index: FileIndex,
    pub new_previous_index: FileIndex,
    pub transfers: Vec<PullTransfer>,
}

/// The file list of one transfer holds exactly the records of `set` whose
/// local path `set` wins, mounted under its shortcut.
pub open spec fn transfer_files_ok(
    files: Seq<RepoFilePath>,
    set: RepoSet,
    repo: RepoState,
    targets: Seq<SetName>,
    i: int,
) -> bool {
    &&& (forall|m: int|
        0 <= m < files.len() ==> {
            let rf = #[trigger] files[m];
            &&& set.tracks(rf.local_path@)
            &&& winner_idx(repo, targets, rf.local_path@) == i
            &&& rf.local_path@ == set.shortcut@ + rf.path_in_set@
        })
    &&& (forall|p: Seq<Seq<char>>|
        set.tracks(p) && winner_idx(repo, targets, p) == i ==> exists|m: int|
            0 <= m < files.len() && (#[trigger] files[m]).local_path@ == p)
    &&& (forall|m: int, n: int|
        0 <= m < n < files.len() ==> (#[trigger] files[m]).local_path@ != (
        #[trigger] files[n]).local_path@)
}

/// Overlays one set's records onto the accumulator: afterwards the
/// accumulator maps every path the set tracks to the set's name and keeps
/// everything else unchanged.
pub fn merge_layer(acc: &mut FileIndex, set: &RepoSet)
    requires
        old(acc).wf(),
        set.wf(),
    ensures
        final(acc).wf(),
        forall|p: Seq<Seq<char>>|
            #[trigger] final(acc)@.contains_key(p) <==> (old(acc)@.contains_key(p) || set.tracks(
                p,
            )),
        forall|p: Seq<Seq<char>>|
            set.tracks(p) ==> final(acc)@.contains_key(p) && final(acc)@[p] == set.name@,
        forall|p: Seq<Seq<char>>|
            !set.tracks(p) && old(acc)@.contains_key(p) ==> final(acc)@.contains_key(p)
                && final(acc)@[p] == old(acc)@[p],
{
    let ghost orig = acc@;
    let mut j: usize = 0;
    while j < set.files.len()
        invariant
            j <= set.files@.len(),
            set.wf(),
            acc.wf(),
            forall|p: Seq<Seq<char>>|
                #[trigger] acc@.contains_key(p) <==> (orig.contains_key(p) || (exists|m: int|
                    0 <= m < j && (#[trigger] set.files@[m]).local_path@ == p)),
            forall|m: int|
                0 <= m < j ==> acc@.contains_key((#[trigger] set.files@[m]).local_path@)
                    && acc@[set.files@[m].local_path@] == set.name@,
            forall|p: Seq<Seq<char>>|
                (forall|m: int| 0 <= m < j ==> (#[trigger] set.files@[m]).local_path@ != p)
                    && orig.contains_key(p) ==> acc@.contains_key(p) && acc@[p] == orig[p],
        decreases set.files@.len() - j,
    {
        let ghost before = acc@;
        let rec = &set.files[j];
        proof {
            assert(set.files@[j as int].path_in_set@.len() > 0);
            assert(set.files@[j as int].local_path@ == set.shortcut@
                + set.files@[j as int].path_in_set@);
            assert(set.files@[j as int].local_path@.len() > 0);
        }
        acc.set(rec.local_path.dup(), set.name.dup());
        proof {
            assert(acc@ == before.insert(set.files@[j as int].local_path@, set.name@));
        }
        j += 1;
    }
    proof {
        assert forall|p: Seq<Seq<char>>| #[trigger]
            acc@.contains_key(p) <==> (orig.contains_key(p) || set.tracks(p)) by {
            if set.tracks(p) {
                let m = choose|m: int|
                    0 <= m < set.files@.len() && (#[trigger] set.files@[m]).local_path@ == p;
                assert(acc@.contains_key(p));
            }
        }
        assert forall|p: Seq<Seq<char>>| set.tracks(p) implies acc@.contains_key(p) && acc@[p]
            == set.name@ by {
            let m = choose|m: int|
                0 <= m < set.files@.len() && (#[trigger] set.files@[m]).local_path@ == p;
            assert(acc@[set.files@[m].local_path@] == set.name@);
        }
        assert forall|p: Seq<Seq<char>>|
            !set.tracks(p) && orig.contains_key(p) implies acc@.contains_key(p) && acc@[p]
            == orig[p] by {
            assert forall|m: int|
                0 <= m < set.files@.len() implies (#[trigger] set.files@[m]).local_path@ != p by {
                if set.files@[m].local_path@ == p {
                    assert(set.tracks(p));
                }
            }
        }
    }
}

/// The layering merge. In declared order, each target set's records overwrite
/// earlier claims on the same local path, so the last listed set wins; the
/// winning mapping becomes the new current index, the old current becomes the
/// new previous, and the diff between them (restricted to present, unignored
/// files) is reported as cleanable. When any target is absent from the repo
/// nothing is computed and every missing name is reported.
pub fn pull(
    targets: &Vec<SetName>,
    repo: &RepoState,
    current_index: &FileIndex,
    present_unignored: &Vec<LocalFilePath>,
) -> (r: Result<PullSuccess, PullError>)
    requires
        repo.wf(),
        current_index.wf(),
        forall|i: int, j: int|
            0 <= i < j < targets@.len() ==> (#[trigger] targets@[i])@ != (#[trigger] targets@[j])@,
    ensures
        r is Ok <==> (forall|i: int|
            0 <= i < targets@.len() ==> repo.has_set((#[trigger] targets@[i])@)),
        r matches Err(PullError::MissingSets { missing }) ==> names_of(missing@) == names_of(
            missing_targets(*repo, targets@),
        ) && missing@.len() > 0,
        r matches Ok(s) ==> {
            &&& s.new_current_index.wf()
            &&& (forall|p: Seq<Seq<char>>|
                #[trigger] s.new_current_index@.contains_key(p) <==> winner_idx(
                    *repo,
                    targets@,
                    p,
                ) >= 0)
            &&& (forall|p: Seq<Seq<char>>|
                s.new_current_index@.contains_key(p) ==> s.new_current_index@[p] == (
                #[trigger] targets@[winner_idx(*repo, targets@, p)])@)
            &&& s.new_previous_index.wf()
            &&& s.new_previous_index@ == current_index@
            &&& paths_sorted(s.cleanable_files@)
            &&& (forall|q: Seq<Seq<char>>|
                #[trigger] paths_contain(s.cleanable_files@, q) <==> (current_index@.contains_key(
                    q,
                ) && paths_contain(present_unignored@, q)
                    && !s.new_current_index@.contains_key(q)))
            &&& s.transfers@.len() == targets@.len()
            &&& s.files_pulled@.len() == targets@.len()
            &&& (forall|i: int|
                0 <= i < targets@.len() ==> {
                    let t = #[trigger] s.transfers@[i];
                    let set = repo.set_named(targets@[i]@);
                    &&& t.set_name@ == targets@[i]@
                    &&& t.source_root@ == set.root@
                    &&& t.shortcut@ == set.shortcut@
                    &&& transfer_files_ok(t.files@, set, *repo, targets@, i)
                })
            &&& (forall|i: int|
                0 <= i < targets@.len() ==> {
                    let g = #[trigger] s.files_pulled@[i];
                    let set = repo.set_named(targets@[i]@);
                    &&& g.0@ == targets@[i]@
                    &&& transfer_files_ok(g.1@, set, *repo, targets@, i)
                })
        },
{
    let mut missing: Vec<SetName> = Vec::new();
    let mut i: usize = 0;
    proof {
        reveal(Seq::filter);
        assert(targets@.take(0) =~= Seq::<SetName>::empty());
    }
    while i < targets.len()
        invariant
            i <= targets@.len(),
            repo.wf(),
            names_of(missing@) == names_of(missing_targets(*repo, targets@.take(i as int))),
            missing@.len() == missing_targets(*repo, targets@.take(i as int)).len(),
        decreases targets@.len() - i,
    {
        let ghost mprev = missing@;
        proof {
            assert(targets@.take(i + 1) =~= targets@.take(i as int).push(targets@[i as int]));
            lemma_missing_targets_step(*repo, targets@.take(i as int), targets@[i as int]);
        }
        if !repo.contains_set(&targets[i]) {
            missing.push(targets[i].dup());
            proof {
                let mt = missing_targets(*repo, targets@.take(i + 1));
                assert(mt == missing_targets(*repo, targets@.take(i as int)).push(
                    targets@[i as int],
                ));
                assert forall|m: int|
                    0 <= m < names_of(missing@).len() implies names_of(missing@)[m] == names_of(
                    mt,
                )[m] by {
                    assert(names_of(missing@)[m] == missing@[m]@);
                    assert(names_of(mt)[m] == mt[m]@);
                    if m < mprev.len() {
                        assert(missing@[m] == mprev[m]);
                        assert(mt[m] == missing_targets(*repo, targets@.take(i as int))[m]);
                        assert(names_of(mprev)[m] == mprev[m]@);
                        assert(names_of(missing_targets(*repo, targets@.take(i as int)))[m]
                            == missing_targets(*repo, targets@.take(i as int))[m]@);
                    } else {
                        assert(missing@[m]@ == targets@[i as int]@);
                        assert(mt[m] == targets@[i as int]);
                    }
                }
                assert(names_of(missing@) =~= names_of(mt));
            }
        }
        i += 1;
    }
    proof {
        assert(targets@.take(targets@.len() as int) =~= targets@);
    }
    if missing.len() > 0 {
        proof {
            if forall|j: int| 0 <= j < targets@.len() ==> repo.has_set((#[trigger] targets@[j])@) {
                lemma_all_targets_present(*repo, targets@);
            }
        }
        return Err(PullError::MissingSets { missing });
    }
    proof {
        assert forall|j: int|
            0 <= j < targets@.len() implies repo.has_set((#[trigger] targets@[j])@) by {
            if !repo.has_set(targets@[j]@) {
                lemma_missing_targets_nonempty(*repo, targets@, j);
            }
        }
    }

    let mut new_current = FileIndex::new();
    let mut i: usize = 0;
    while i < targets.len()
        invariant
            i <= targets@.len(),
            repo.wf(),
            new_current.wf(),
            forall|j: int| 0 <= j < targets@.len() ==> repo.has_set((#[trigger] targets@[j])@),
            forall|p: Seq<Seq<char>>|
                #[trigger] new_current@.contains_key(p) <==> winner_idx(
                    *repo,
                    targets@.take(i as int),
                    p,
                ) >= 0,
            forall|p: Seq<Seq<char>>|
                new_current@.contains_key(p) ==> new_current@[p] == (#[trigger] targets@[winner_idx(
                    *repo,
                    targets@.take(i as int),
                    p,
                )])@,
        decreases targets@.len() - i,
    {
        let set = match repo.find_set(&targets[i]) {
            Option::Some(set) => set,
            Option::None => {
                proof {
                    assert(false);
                }
                return Err(PullError::MissingSets { missing });
            },
        };
        let ghost before = new_current@;
        proof {
            assert(set.wf()) by {
                assert(*set == repo.set_named(targets@[i as int]@));
                let w = repo.set_idx(targets@[i as int]@);
                assert(repo.sets@[w].wf());
            }
        }
        merge_layer(&mut new_current, set);
        proof {
            assert forall|p: Seq<Seq<char>>| #[trigger]
                new_current@.contains_key(p) <==> winner_idx(
                *repo,
                targets@.take((i + 1) as int),
                p,
            ) >= 0 by {
                lemma_winner_idx_step(*repo, targets@, i as int, p);
                lemma_winner_idx_bounds(*repo, targets@.take(i as int), p);
            }
            assert forall|p: Seq<Seq<char>>| new_current@.contains_key(p) implies new_current@[p]
                == (#[trigger] targets@[winner_idx(*repo, targets@.take((i + 1) as int), p)])@ by {
                lemma_winner_idx_step(*repo, targets@, i as int, p);
                lemma_winner_idx_bounds(*repo, targets@.take(i as int), p);
                if repo.set_named(targets@[i as int]@).tracks(p) {
                    assert(new_current@[p] == repo.set_named(targets@[i as int]@).name@);
                    assert(repo.set_named(targets@[i as int]@).name@ == targets@[i as int]@) by {
                        let w = repo.set_idx(targets@[i as int]@);
                        assert(repo.sets@[w].name@ == targets@[i as int]@);
                    }
                }
            }
        }
        i += 1;
    }
    proof {
        assert(targets@.take(targets@.len() as int) =~= targets@);
    }

    let new_previous = current_index.dup();
    let cleanable_files = old_files_since_last_pull(current_index, &new_current, present_unignored);

    let mut transfers: Vec<PullTransfer> = Vec::new();
    let mut files_pulled: Vec<(SetName, Vec<RepoFilePath>)> = Vec::new();
    let mut i: usize = 0;
    while i < targets.len()
        invariant
            i <= targets@.len(),
            repo.wf(),
            new_current.wf(),
            forall|j: int| 0 <= j < targets@.len() ==> repo.has_set((#[trigger] targets@[j])@),
            forall|j: int, jj: int|
                0 <= j < jj < targets@.len() ==> (#[trigger] targets@[j])@ != (
                #[trigger] targets@[jj])@,
            forall|p: Seq<Seq<char>>|
                #[trigger] new_current@.contains_key(p) <==> winner_idx(*repo, targets@, p) >= 0,
            forall|p: Seq<Seq<char>>|
                new_current@.contains_key(p) ==> new_current@[p] == (#[trigger] targets@[winner_idx(
                    *repo,
                    targets@,
                    p,
                )])@,
            transfers@.len() == i,
            files_pulled@.len() == i,
            forall|j: int|
                0 <= j < i ==> {
                    let t = #[trigger] transfers@[j];
                    let set = repo.set_named(targets@[j]@);
                    &&& t.set_name@ == targets@[j]@
                    &&& t.source_root@ == set.root@
                    &&& t.shortcut@ == set.shortcut@
                    &&& transfer_files_ok(t.files@, set, *repo, targets@, j)
                },
            forall|j: int|
                0 <= j < i ==> {
                    let g = #[trigger] files_pulled@[j];
                    let set = repo.set_named(targets@[j]@);
                    &&& g.0@ == targets@[j]@
                    &&& transfer_files_ok(g.1@, set, *repo, targets@, j)
                },
        decreases targets@.len() - i,
    {
        let set = match repo.find_set(&targets[i]) {
            Option::Some(set) => set,
            Option::None => {
                proof {
                    assert(false);
                }
                return Err(PullError::MissingSets { missing });
            },
        };
        proof {
            assert(set.wf() && set.name@ == targets@[i as int]@) by {
                assert(*set == repo.set_named(targets@[i as int]@));
                let w = repo.set_idx(targets@[i as int]@);
                assert(repo.sets@[w].wf());
                assert(repo.sets@[w].name@ == targets@[i as int]@);
            }
        }
        let mut files: Vec<RepoFilePath> = Vec::new();
        let mut files2: Vec<RepoFilePath> = Vec::new();
        let mut j: usize = 0;
        while j < set.files.len()
            invariant
                j <= set.files@.len(),
                repo.wf(),
                new_current.wf(),
                set.wf(),
                i < targets@.len(),
                repo.has_set(targets@[i as int]@),
                *set == repo.set_named(targets@[i as int]@),
                set.name@ == targets@[i as int]@,
                forall|jj: int, kk: int|
                    0 <= jj < kk < targets@.len() ==> (#[trigger] targets@[jj])@ != (
                    #[trigger] targets@[kk])@,
                forall|p: Seq<Seq<char>>|
                    #[trigger] new_current@.contains_key(p) <==> winner_idx(*repo, targets@, p)
                        >= 0,
                forall|p: Seq<Seq<char>>|
                    new_current@.contains_key(p) ==> new_current@[p] == (
                    #[trigger] targets@[winner_idx(*repo, targets@, p)])@,
                files@.len() == files2@.len(),
                forall|m: int|
                    0 <= m < files@.len() ==> {
                        let rf = #[trigger] files@[m];
                        &&& set.tracks(rf.local_path@)
                        &&& winner_idx(*repo, targets@, rf.local_path@) == i
                        &&& rf.local_path@ == set.shortcut@ + rf.path_in_set@
                    },
                forall|m: int|
                    0 <= m < files2@.len() ==> (#[trigger] files2@[m]).local_path@
                        == files@[m].local_path@ && files2@[m].path_in_set@
                        == files@[m].path_in_set@,
                forall|p: Seq<Seq<char>>|
                    (exists|m: int|
                        0 <= m < j && (#[trigger] set.files@[m]).local_path@ == p) && winner_idx(
                        *repo,
                        targets@,
                        p,
                    ) == i ==> exists|m: int|
                        0 <= m < files@.len() && (#[trigger] files@[m]).local_path@ == p,
                forall|m: int, n: int|
                    0 <= m < n < files@.len() ==> (#[trigger] files@[m]).local_path@ != (
                    #[trigger] files@[n]).local_path@,
                forall|m: int|
                    0 <= m < files@.len() ==> (exists|mm: int|
                        0 <= mm < j && (#[trigger] set.files@[mm]).local_path@ == (
                        #[trigger] files@[m]).local_path@),
            decreases set.files@.len() - j,
        {
            let ghost fprev = files@;
            let rec = &set.files[j];
            let wins = match new_current.get(&rec.local_path) {
                Option::Some(n) => *n == set.name,
                Option::None => false,
            };
            proof {
                assert(set.tracks(rec.local_path@));
                lemma_winner_idx_bounds(*repo, targets@, rec.local_path@);
                if wins {
                    let w = winner_idx(*repo, targets@, rec.local_path@);
                    assert(new_current@.contains_key(rec.local_path@));
                    assert(w >= 0);
                    assert(targets@[w]@ == set.name@);
                    assert(targets@[w]@ == targets@[i as int]@);
                    if w != i {
                        assert(false);
                    }
                } else {
                    let w = winner_idx(*repo, targets@, rec.local_path@);
                    assert(w >= 0) by {
                        if winner_idx(*repo, targets@, rec.local_path@) < 0 {
                            lemma_winner_none_means_untracked(
                                *repo,
                                targets@,
                                rec.local_path@,
                                i as int,
                            );
                        }
                    }
                    assert(new_current@.contains_key(rec.local_path@));
                    if w == i {
                        assert(new_current@[rec.local_path@] == targets@[i as int]@);
                        assert(false);
                    }
                }
            }
            if wins {
                proof {
                    if exists|m: int|
                        0 <= m < fprev.len() && (#[trigger] fprev[m]).local_path@
                            == rec.local_path@ {
                        let m = choose|m: int|
                            0 <= m < fprev.len() && (#[trigger] fprev[m]).local_path@
                                == rec.local_path@;
                        let mm = choose|mm: int|
                            0 <= mm < j && (#[trigger] set.files@[mm]).local_path@
                                == fprev[m].local_path@;
                        assert(set.files@[mm].local_path@ == set.files@[j as int].local_path@);
                        assert(false);
                    }
                }
                files.push(
                    RepoFilePath {
                        path_in_set: rec.path_in_set.dup(),
                        local_path: rec.local_path.dup(),
                    },
                );
                files2.push(
                    RepoFilePath {
                        path_in_set: rec.path_in_set.dup(),
                        local_path: rec.local_path.dup(),
                    },
                );
            }
            proof {
                assert forall|p: Seq<Seq<char>>|
                    (exists|m: int|
                        0 <= m < j + 1 && (#[trigger] set.files@[m]).local_path@ == p)
                        && winner_idx(*repo, targets@, p) == i implies exists|m: int|
                    0 <= m < files@.len() && (#[trigger] files@[m]).local_path@ == p by {
                    let mm = choose|mm: int|
                        0 <= mm < j + 1 && (#[trigger] set.files@[mm]).local_path@ == p;
                    if mm < j {
                        assert(exists|m: int|
                            0 <= m < fprev.len() && (#[trigger] fprev[m]).local_path@ == p);
                        let m = choose|m: int|
                            0 <= m < fprev.len() && (#[trigger] fprev[m]).local_path@ == p;
                        assert(files@[m].local_path@ == p);
                    } else {
                        assert(p == set.files@[j as int].local_path@);
                        assert(wins);
                        assert(files@[files@.len() - 1].local_path@ == p);
                    }
                }
            }
            j += 1;
        }
        proof {
            assert forall|p: Seq<Seq<char>>|
                set.tracks(p) && winner_idx(*repo, targets@, p) == i implies exists|m: int|
                0 <= m < files@.len() && (#[trigger] files@[m]).local_path@ == p by {
                let mm = choose|mm: int|
                    0 <= mm < set.files@.len() && (#[trigger] set.files@[mm]).local_path@ == p;
            }
            assert(transfer_files_ok(files@, *set, *repo, targets@, i as int));
            assert forall|m: int, n: int|
                0 <= m < n < files2@.len() implies (#[trigger] files2@[m]).local_path@ != (
            #[trigger] files2@[n]).local_path@ by {
                assert(files@[m].local_path@ != files@[n].local_path@);
            }
            assert forall|m: int| 0 <= m < files2@.len() implies {
                let rf = #[trigger] files2@[m];
                &&& set.tracks(rf.local_path@)
                &&& winner_idx(*repo, targets@, rf.local_path@) == i
                &&& rf.local_path@ == set.shortcut@ + rf.path_in_set@
            } by {
                assert(files2@[m].local_path@ == files@[m].local_path@);
                assert(files2@[m].path_in_set@ == files@[m].path_in_set@);
                assert(set.tracks(files@[m].local_path@));
            }
            assert forall|p: Seq<Seq<char>>|
                set.tracks(p) && winner_idx(*repo, targets@, p) == i implies exists|m: int|
                0 <= m < files2@.len() && (#[trigger] files2@[m]).local_path@ == p by {
                let m = choose|m: int|
                    0 <= m < files@.len() && (#[trigger] files@[m]).local_path@ == p;
                assert(files2@[m].local_path@ == p);
            }
            assert(transfer_files_ok(files2@, *set, *repo, targets@, i as int));
        }
        transfers.push(
            PullTransfer {
                set_name: targets[i].dup(),
                source_root: set.root.dup(),
                shortcut: set.shortcut.dup(),
                files,
            },
        );
        files_pulled.push((targets[i].dup(), files2));
        i += 1;
    }

    Ok(
        PullSuccess {
            files_pulled,
            cleanable_files,
            new_current_index: new_current,
            new_previous_index: new_previous,
            transfers,
        },
    )
}

/// When every target set fails to track `p`, no winner exists.
proof fn lemma_winner_none_means_untracked(
    repo: RepoState,
    targets: Seq<SetName>,
    p: Seq<Seq<char>>,
    i: int,
)
    requires
        0 <= i < targets.len(),
        winner_idx(repo, targets, p) < 0,
        repo.has_set(targets[i]@),
    ensures
        !repo.set_named(targets[i]@).tracks(p),
    decreases targets.len(),
{
    if targets.len() > 0 {
        if i == targets.len() - 1 {
            assert(targets.last() == targets[i]);
        } else {
            assert(targets.drop_last()[i] == targets[i]);
            lemma_winner_none_means_untracked(repo, targets.drop_last(), p, i);
        }
    }
}

/// All targets present means the missing filter is empty.
proof fn lemma_all_targets_present(repo: RepoState, targets: Seq<SetName>)
    requires
        forall|j: int| 0 <= j < targets.len() ==> repo.has_set((#[trigger] targets[j])@),
    ensures
        missing_targets(repo, targets).len() == 0,
    decreases targets.len(),
{
    reveal(Seq::filter);
    if targets.len() > 0 {
        let t = targets.drop_last();
        assert(targets =~= t.push(targets.last()));
        lemma_missing_targets_step(repo, t, targets.last());
        assert forall|j: int| 0 <= j < t.len() implies repo.has_set((#[trigger] t[j])@) by {
            assert(t[j] == targets[j]);
        }
        lemma_all_targets_present(repo, t);
    }
}

} // verus!
