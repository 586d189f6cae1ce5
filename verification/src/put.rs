//! Manual repair: copy chosen local files straight into a destination set,
//! past the index and the consistency gate, optionally recording the new
//! ownership in the current index. The report says whether pull would ever
//! select the destination set, which later sets would immediately shadow each
//! file, and which files remain untracked by every targeted set.

use vstd::prelude::*;

use crate::local::FileIndex;
use crate::paths::{is_prefix_of, paths_contain, segments_after_prefix, AbsolutePath,
    LocalFilePath};
use crate::repo::{RepoState, SetName};
use crate::status::name_in;

verus! {

/// Why a put was rejected.
#[derive(Debug)]
pub enum PutError {
    /// The destination set is not in the repo.
    SetNotFound { set: SetName },
    /// The file does not lie under the destination set's shortcut, so no
    /// repo-relative location exists for it.
    SetPath { path: LocalFilePath },
}

/// One copy the caller performs: from the local path (under the local root)
/// to the path-in-set (under the destination set's root).
#[derive(Debug)]
pub struct PutCopy {
    pub local_path: LocalFilePath,
    pub path_in_set: LocalFilePath,
}

/// The outcome of a put: the copies to perform, and the three warnings that
/// tell the caller how the next pull will treat the files.
#[derive(Debug)]
pub struct PutSuccess {
    pub owning_set: SetName,
    pub files: Vec<LocalFilePath>,
    pub set_is_targeted: bool,
    pub files_in_later_sets: Vec<(LocalFilePath, Vec<SetName>)>,
    pub untracked_files: Vec<LocalFilePath>,
    pub copies: Vec<PutCopy>,
    pub dest_root: AbsolutePath,
}

/// The first position of `n` in the target list, or a negative value when it
/// is not listed. An unlisted set never takes part in pull.
pub open spec fn target_pos(targets: Seq<SetName>, n: Seq<char>) -> int
    decreases targets.len(),
{
    if targets.len() == 0 {
        -1
    } else if targets[0]@ == n {
        0
    } else {
        let r = target_pos(targets.drop_first(), n);
        if r < 0 {
            -1
        } else {
            r + 1
        }
    }
}

/// The first match determines the position.
pub proof fn lemma_target_pos_first(targets: Seq<SetName>, n: Seq<char>, i: int)
    requires
        0 <= i < targets.len(),
        targets[i]@ == n,
        forall|j: int| 0 <= j < i ==> (#[trigger] targets[j])@ != n,
    ensures
        target_pos(targets, n) == i,
    decreases targets.len(),
{
    if i > 0 {
        assert(targets[0]@ != n);
        assert(targets.drop_first()[i - 1]@ == n);
        assert forall|j: int| 0 <= j < i - 1 implies (#[trigger] targets.drop_first()[j])@
            != n by {
            assert(targets.drop_first()[j] == targets[j + 1]);
        }
        lemma_target_pos_first(targets.drop_first(), n, i - 1);
    }
}

/// The position is either the sentinel or a real index.
pub proof fn lemma_target_pos_range(targets: Seq<SetName>, n: Seq<char>)
    ensures
        target_pos(targets, n) == -1 || (0 <= target_pos(targets, n) < targets.len()),
    decreases targets.len(),
{
    if targets.len() > 0 && targets[0]@ != n {
        lemma_target_pos_range(targets.drop_first(), n);
    }
}

/// An unlisted name has the sentinel position.
pub proof fn lemma_target_pos_absent(targets: Seq<SetName>, n: Seq<char>)
    requires
        !name_in(targets, n),
    ensures
        target_pos(targets, n) == -1,
    decreases targets.len(),
{
    if targets.len() > 0 {
        assert(targets[0]@ != n);
        assert(!name_in(targets.drop_first(), n)) by {
            if name_in(targets.drop_first(), n) {
                let j = choose|j: int|
                    0 <= j < targets.drop_first().len() && (#[trigger] targets.drop_first()[j])@
                        == n;
                assert(targets[j + 1]@ == n);
            }
        }
        lemma_target_pos_absent(targets.drop_first(), n);
    }
}

/// Computes the first position of `name` in the target list.
fn target_pos_exec(targets: &Vec<SetName>, name: &SetName) -> (r: Option<usize>)
    ensures
        r matches Some(i) ==> i < targets@.len() && target_pos(targets@, name@) == i as int
            && targets@[i as int]@ == name@,
        r is None ==> target_pos(targets@, name@) == -1 && !name_in(targets@, name@),
{
    let mut i: usize = 0;
    while i < targets.len()
        invariant
            i <= targets@.len(),
            forall|j: int| 0 <= j < i ==> (#[trigger] targets@[j])@ != name@,
        decreases targets@.len() - i,
    {
        if targets[i] == *name {
            proof {
                lemma_target_pos_first(targets@, name@, i as int);
            }
            return Some(i);
        }
        i += 1;
    }
    proof {
        if name_in(targets@, name@) {
            let j = choose|j: int|
                0 <= j < targets@.len() && (#[trigger] targets@[j])@ == name@;
            assert(false);
        }
        lemma_target_pos_absent(targets@, name@);
    }
    None
}

/// Set `n` would shadow local path `p` on the next pull: it is a repo set
/// that tracks `p` and sits later in the target order than the destination
/// (an untargeted destination is shadowed by every targeted claimant).
pub open spec fn in_later_set(
    repo: RepoState,
    targets: Seq<SetName>,
    owning: Seq<char>,
    p: Seq<Seq<char>>,
    n: Seq<char>,
) -> bool {
    &&& repo.has_set(n)
    &&& repo.set_named(n).tracks(p)
    &&& target_pos(targets, n) > target_pos(targets, owning)
}

/// After the put, some targeted set's file map holds `p` (the destination
/// counts once it is targeted, since the copy has just been made).
pub open spec fn tracked_after_put(
    repo: RepoState,
    targets: Seq<SetName>,
    owning: Seq<char>,
    p: Seq<Seq<char>>,
) -> bool {
    ||| name_in(targets, owning)
    ||| exists|n: Seq<char>|
        name_in(targets, n) && #[trigger] repo.has_set(n) && repo.set_named(n).tracks(p)
}

/// An entry of the shadow report names `n` among the later claimants of `p`.
pub open spec fn later_entry(
    list: Seq<(LocalFilePath, Vec<SetName>)>,
    p: Seq<Seq<char>>,
    n: Seq<char>,
) -> bool {
    exists|e: int, k: int|
        0 <= e < list.len() && (#[trigger] list[e]).0@ == p && 0 <= k < list[e].1@.len() && (
        #[trigger] list[e].1@[k])@ == n
}

/// The manual repair. All files are validated against the destination's
/// shortcut before anything is recorded; the index is touched only when every
/// file passes and `update_index` was asked for.
#[verifier::rlimit(60)]
pub fn put(
    targets: &Vec<SetName>,
    repo: &RepoState,
    index: &mut FileIndex,
    files: Vec<LocalFilePath>,
    owning_set: SetName,
    update_index: bool,
) -> (r: Result<PutSuccess, PutError>)
    requires
        repo.wf(),
        old(index).wf(),
        forall|m: int|
            0 <= m < files@.len() ==> (#[trigger] files@[m]).wf() && files@[m]@.len() > 0,
    ensures
        final(index).wf(),
        r is Ok <==> (repo.has_set(owning_set@) && (forall|m: int|
            0 <= m < files@.len() ==> is_prefix_of(
                repo.set_named(owning_set@).shortcut@,
                (#[trigger] files@[m])@,
            ))),
        r is Err ==> final(index)@ == old(index)@,
        r matches Err(PutError::SetNotFound { set }) ==> !repo.has_set(owning_set@) && set@
            == owning_set@,
        r matches Err(PutError::SetPath { path }) ==> repo.has_set(owning_set@) && (exists|m: int|
            0 <= m < files@.len() && (#[trigger] files@[m])@ == path@ && !is_prefix_of(
                repo.set_named(owning_set@).shortcut@,
                files@[m]@,
            )),
        r matches Ok(s) ==> {
            let set = repo.set_named(owning_set@);
            &&& s.owning_set@ == owning_set@
            &&& s.files == files
            &&& s.dest_root@ == set.root@
            &&& s.set_is_targeted == name_in(targets@, owning_set@)
            &&& s.copies@.len() == files@.len()
            &&& (forall|m: int|
                0 <= m < files@.len() ==> {
                    let c = #[trigger] s.copies@[m];
                    &&& c.local_path@ == files@[m]@
                    &&& c.local_path@ == set.shortcut@ + c.path_in_set@
                })
            &&& (forall|p: Seq<Seq<char>>, n: Seq<char>|
                #[trigger] later_entry(s.files_in_later_sets@, p, n) <==> (paths_contain(
                    files@,
                    p,
                ) && in_later_set(*repo, targets@, owning_set@, p, n)))
            &&& (forall|q: Seq<Seq<char>>|
                #[trigger] paths_contain(s.untracked_files@, q) <==> (paths_contain(files@, q)
                    && !tracked_after_put(*repo, targets@, owning_set@, q)))
            &&& (update_index ==> {
                &&& (forall|p: Seq<Seq<char>>|
                    #[trigger] final(index)@.contains_key(p) <==> (old(index)@.contains_key(p)
                        || paths_contain(files@, p)))
                &&& (forall|p: Seq<Seq<char>>|
                    paths_contain(files@, p) ==> final(index)@[p] == owning_set@)
                &&& (forall|p: Seq<Seq<char>>|
                    !paths_contain(files@, p) && old(index)@.contains_key(p)
                        ==> final(index)@[p] == old(index)@[p])
            })
            &&& (!update_index ==> final(index)@ == old(index)@)
        },
{
    let set = match repo.find_set(&owning_set) {
        Option::Some(set) => set,
        Option::None => {
            return Err(PutError::SetNotFound { set: owning_set });
        },
    };
    proof {
        assert(set.wf()) by {
            let w = repo.set_idx(owning_set@);
            assert(repo.sets@[w].wf());
        }
    }

    let mut copies: Vec<PutCopy> = Vec::new();
    let mut m: usize = 0;
    while m < files.len()
        invariant
            m <= files@.len(),
            repo.wf(),
            index.wf(),
            index@ == old(index)@,
            index.entries@ == old(index).entries@,
            set.wf(),
            repo.has_set(owning_set@),
            *set == repo.set_named(owning_set@),
            forall|j: int|
                0 <= j < files@.len() ==> (#[trigger] files@[j]).wf() && files@[j]@.len() > 0,
            copies@.len() == m,
            forall|j: int|
                0 <= j < m ==> {
                    let c = #[trigger] copies@[j];
                    &&& c.local_path@ == files@[j]@
                    &&& c.local_path@ == set.shortcut@ + c.path_in_set@
                },
            forall|j: int| 0 <= j < m ==> is_prefix_of(set.shortcut@, (#[trigger] files@[j])@),
        decreases files@.len() - m,
    {
        let p = &files[m];
        if !crate::paths::segments_prefix_of(&set.shortcut.segments, p.segments()) {
            return Err(PutError::SetPath { path: p.dup() });
        }
        let rel = segments_after_prefix(&set.shortcut.segments, p.segments());
        proof {
            assert((set.shortcut@ + rel.deep_view()) =~= p@);
        }
        copies.push(PutCopy { local_path: p.dup(), path_in_set: LocalFilePath { segments: rel } });
        m += 1;
    }

    let owning_pos = target_pos_exec(targets, &owning_set);
    let set_is_targeted = owning_pos.is_some();
    proof {
        match owning_pos {
            Option::Some(i) => {
                assert(targets@[i as int]@ == owning_set@);
                assert(name_in(targets@, owning_set@));
            },
            Option::None => {},
        }
    }

    let mut files_in_later_sets: Vec<(LocalFilePath, Vec<SetName>)> = Vec::new();
    let mut untracked_files: Vec<LocalFilePath> = Vec::new();
    let mut m: usize = 0;
    while m < files.len()
        invariant
            m <= files@.len(),
            repo.wf(),
            repo.has_set(owning_set@),
            set_is_targeted == name_in(targets@, owning_set@),
            owning_pos matches Some(o) ==> target_pos(targets@, owning_set@) == o as int,
            owning_pos is None ==> target_pos(targets@, owning_set@) == -1,
            forall|e: int|
                0 <= e < files_in_later_sets@.len() ==> (#[trigger] files_in_later_sets@[e]).1@.len()
                    > 0,
            forall|p: Seq<Seq<char>>, n: Seq<char>|
                #[trigger] later_entry(files_in_later_sets@, p, n) <==> (paths_contain(
                    files@.take(m as int),
                    p,
                ) && in_later_set(*repo, targets@, owning_set@, p, n)),
            forall|q: Seq<Seq<char>>|
                #[trigger] paths_contain(untracked_files@, q) <==> (paths_contain(
                    files@.take(m as int),
                    q,
                ) && !tracked_after_put(*repo, targets@, owning_set@, q)),
        decreases files@.len() - m,
    {
        let ghost lprev = files_in_later_sets@;
        let ghost uprev = untracked_files@;
        let ghost taken_prev = files@.take(m as int);
        let ghost taken = files@.take((m + 1) as int);
        proof {
            assert(taken.drop_last() =~= taken_prev);
            assert(taken.last() == files@[m as int]);
            assert forall|q: Seq<Seq<char>>| #[trigger]
                paths_contain(taken, q) <==> (paths_contain(taken_prev, q) || q
                == files@[m as int]@) by {
                if paths_contain(taken, q) {
                    let z = choose|z: int| 0 <= z < taken.len() && (#[trigger] taken[z])@ == q;
                    if z < m {
                        assert(taken_prev[z]@ == q);
                    }
                }
                if paths_contain(taken_prev, q) {
                    let z = choose|z: int|
                        0 <= z < taken_prev.len() && (#[trigger] taken_prev[z])@ == q;
                    assert(taken[z]@ == q);
                }
                if q == files@[m as int]@ {
                    assert(taken[m as int]@ == q);
                }
            }
        }
        let p = &files[m];
        let ghost pview = p@;

        // the later claimants of this file
        let mut later: Vec<SetName> = Vec::new();
        let mut gi: usize = 0;
        while gi < repo.sets.len()
            invariant
                gi <= repo.sets@.len(),
                repo.wf(),
                pview == p@,
                owning_pos matches Some(o) ==> target_pos(targets@, owning_set@) == o as int,
                owning_pos is None ==> target_pos(targets@, owning_set@) == -1,
                forall|k: int|
                    0 <= k < later@.len() ==> in_later_set(
                        *repo,
                        targets@,
                        owning_set@,
                        pview,
                        (#[trigger] later@[k])@,
                    ),
                forall|j: int|
                    0 <= j < gi && in_later_set(
                        *repo,
                        targets@,
                        owning_set@,
                        pview,
                        (#[trigger] repo.sets@[j]).name@,
                    ) ==> exists|k: int|
                        0 <= k < later@.len() && (#[trigger] later@[k])@ == repo.sets@[j].name@,
            decreases repo.sets@.len() - gi,
        {
            let ghost laterprev = later@;
            let cand = &repo.sets[gi];
            proof {
                assert(repo.has_set(cand.name@));
                assert(repo.set_named(cand.name@) == repo.sets@[gi as int]) by {
                    let w = repo.set_idx(cand.name@);
                    if w != gi {
                        assert(repo.sets@[w].name@ != repo.sets@[gi as int].name@);
                    }
                }
            }
            if cand.tracks_file(p) {
                let cand_pos = target_pos_exec(targets, &cand.name);
                let greater = match (cand_pos, &owning_pos) {
                    (Option::Some(c), Option::Some(o)) => c > *o,
                    (Option::Some(_), Option::None) => true,
                    (Option::None, _) => false,
                };
                proof {
                    lemma_target_pos_range(targets@, owning_set@);
                    assert(greater == (target_pos(targets@, cand.name@) > target_pos(
                        targets@,
                        owning_set@,
                    )));
                }
                if greater {
                    later.push(cand.name.dup());
                    proof {
                        assert(later@[later@.len() - 1]@ == repo.sets@[gi as int].name@);
                        assert forall|k: int|
                            0 <= k < later@.len() implies in_later_set(
                            *repo,
                            targets@,
                            owning_set@,
                            pview,
                            (#[trigger] later@[k])@,
                        ) by {
                            if k < laterprev.len() {
                                assert(later@[k] == laterprev[k]);
                            }
                        }
                    }
                }
            }
            proof {
                assert forall|j: int|
                    0 <= j < gi + 1 && in_later_set(
                        *repo,
                        targets@,
                        owning_set@,
                        pview,
                        (#[trigger] repo.sets@[j]).name@,
                    ) implies exists|k: int|
                    0 <= k < later@.len() && (#[trigger] later@[k])@ == repo.sets@[j].name@ by {
                    if j < gi {
                        let k = choose|k: int|
                            0 <= k < laterprev.len() && (#[trigger] laterprev[k])@
                                == repo.sets@[j].name@;
                        assert(later@[k]@ == repo.sets@[j].name@);
                    } else {
                        assert(later@[later@.len() - 1]@ == repo.sets@[j].name@);
                    }
                }
            }
            gi += 1;
        }

        let has_later = later.len() > 0;
        let ghost latv = later@;
        if has_later && !later_entry_exec(&files_in_later_sets, p) {
            files_in_later_sets.push((p.dup(), later));
            proof {
                assert(files_in_later_sets@.last().1@ == latv);
                assert(files_in_later_sets@.last().0@ == pview);
                assert forall|z: int|
                    0 <= z < lprev.len() implies #[trigger] files_in_later_sets@[z]
                    == lprev[z] by {
                    assert(files_in_later_sets@[z] == lprev.push(files_in_later_sets@.last())[z]);
                }
                lemma_later_entry_push(
                    lprev,
                    files_in_later_sets@,
                    *repo,
                    targets@,
                    owning_set@,
                    pview,
                    taken_prev,
                    taken,
                );
            }
        } else {
            proof {
                if has_later {
                    let e = choose|e: int|
                        0 <= e < lprev.len() && (#[trigger] lprev[e]).0@ == pview;
                    assert(lprev[e].1@.len() > 0);
                    assert(later_entry(lprev, pview, lprev[e].1@[0]@)) by {
                        assert(lprev[e].0@ == pview && 0 <= 0 < lprev[e].1@.len());
                    }
                    assert(paths_contain(taken_prev, pview));
                }
                assert forall|pp: Seq<Seq<char>>, n: Seq<char>| #[trigger]
                    later_entry(files_in_later_sets@, pp, n) <==> (paths_contain(taken, pp)
                    && in_later_set(*repo, targets@, owning_set@, pp, n)) by {
                    if paths_contain(taken, pp) && in_later_set(
                        *repo,
                        targets@,
                        owning_set@,
                        pp,
                        n,
                    ) {
                        if !paths_contain(taken_prev, pp) {
                            assert(pp == pview);
                            assert(!has_later);
                            let w = repo.set_idx(n);
                            assert(repo.sets@[w].name@ == n);
                            assert(in_later_set(
                                *repo,
                                targets@,
                                owning_set@,
                                pview,
                                repo.sets@[w].name@,
                            ));
                            let k = choose|k: int|
                                0 <= k < later@.len() && (#[trigger] later@[k])@
                                    == repo.sets@[w].name@;
                            assert(false);
                        }
                    }
                }
            }
        }

        let claimed = if set_is_targeted {
            true
        } else {
            scan_targets_track(targets, repo, p)
        };
        proof {
            assert(claimed == tracked_after_put(*repo, targets@, owning_set@, pview));
        }
        if !claimed {
            let ghost ubefore = untracked_files@;
            untracked_files.push(p.dup());
            proof {
                assert forall|q: Seq<Seq<char>>| #[trigger]
                    paths_contain(untracked_files@, q) <==> (paths_contain(taken, q)
                    && !tracked_after_put(*repo, targets@, owning_set@, q)) by {
                    if paths_contain(untracked_files@, q) {
                        let z = choose|z: int|
                            0 <= z < untracked_files@.len() && (#[trigger] untracked_files@[z])@
                                == q;
                        if z < ubefore.len() {
                            assert(untracked_files@[z] == ubefore[z]);
                            assert(paths_contain(ubefore, q));
                        } else {
                            assert(q == pview);
                        }
                    }
                    if paths_contain(taken, q) && !tracked_after_put(
                        *repo,
                        targets@,
                        owning_set@,
                        q,
                    ) {
                        if q == pview {
                            assert(untracked_files@[untracked_files@.len() - 1]@ == q);
                        } else {
                            assert(paths_contain(taken_prev, q));
                            assert(paths_contain(ubefore, q));
                            let z = choose|z: int|
                                0 <= z < ubefore.len() && (#[trigger] ubefore[z])@ == q;
                            assert(untracked_files@[z] == ubefore[z]);
                        }
                    }
                }
            }
        } else {
            proof {
                assert forall|q: Seq<Seq<char>>| #[trigger]
                    paths_contain(untracked_files@, q) <==> (paths_contain(taken, q)
                    && !tracked_after_put(*repo, targets@, owning_set@, q)) by {}
            }
        }
        m += 1;
    }

    if update_index {
        let mut m: usize = 0;
        let ghost idx0 = index@;
        while m < files.len()
            invariant
                m <= files@.len(),
                index.wf(),
                forall|j: int|
                    0 <= j < files@.len() ==> (#[trigger] files@[j]).wf() && files@[j]@.len() > 0,
                forall|p: Seq<Seq<char>>|
                    #[trigger] index@.contains_key(p) <==> (idx0.contains_key(p) || paths_contain(
                        files@.take(m as int),
                        p,
                    )),
                forall|p: Seq<Seq<char>>|
                    paths_contain(files@.take(m as int), p) ==> index@[p] == owning_set@,
                forall|p: Seq<Seq<char>>|
                    !paths_contain(files@.take(m as int), p) && idx0.contains_key(p)
                        ==> index@.contains_key(p) && index@[p] == idx0[p],
            decreases files@.len() - m,
        {
            let ghost before = index@;
            let ghost taken_prev = files@.take(m as int);
            let ghost taken = files@.take((m + 1) as int);
            proof {
                assert(taken.drop_last() =~= taken_prev);
                assert(taken.last() == files@[m as int]);
                assert forall|q: Seq<Seq<char>>| #[trigger]
                    paths_contain(taken, q) <==> (paths_contain(taken_prev, q) || q
                    == files@[m as int]@) by {
                    if paths_contain(taken, q) {
                        let z = choose|z: int| 0 <= z < taken.len() && (#[trigger] taken[z])@ == q;
                        if z < m {
                            assert(taken_prev[z]@ == q);
                        }
                    }
                    if paths_contain(taken_prev, q) {
                        let z = choose|z: int|
                            0 <= z < taken_prev.len() && (#[trigger] taken_prev[z])@ == q;
                        assert(taken[z]@ == q);
                    }
                    if q == files@[m as int]@ {
                        assert(taken[m as int]@ == q);
                    }
                }
            }
            index.set(files[m].dup(), owning_set.dup());
            m += 1;
        }
        proof {
            assert(files@.take(files@.len() as int) =~= files@);
        }
    }

    let dest_root = set.root.dup();
    Ok(
        PutSuccess {
            owning_set,
            files,
            set_is_targeted,
            files_in_later_sets,
            untracked_files,
            copies,
            dest_root,
        },
    )
}

/// Some targeted set of the repo tracks `p`.
fn scan_targets_track(targets: &Vec<SetName>, repo: &RepoState, p: &LocalFilePath) -> (r: bool)
    requires
        repo.wf(),
    ensures
        r == exists|n: Seq<char>|
            name_in(targets@, n) && #[trigger] repo.has_set(n) && repo.set_named(n).tracks(p@),
{
    let mut i: usize = 0;
    while i < targets.len()
        invariant
            i <= targets@.len(),
            repo.wf(),
            forall|j: int|
                0 <= j < i ==> !(repo.has_set((#[trigger] targets@[j])@) && repo.set_named(
                    targets@[j]@,
                ).tracks(p@)),
        decreases targets@.len() - i,
    {
        match repo.find_set(&targets[i]) {
            Option::Some(set) => {
                if set.tracks_file(p) {
                    proof {
                        assert(targets@[i as int]@ == targets@[i as int]@);
                        assert(name_in(targets@, targets@[i as int]@));
                    }
                    return true;
                }
            },
            Option::None => {},
        }
        i += 1;
    }
    proof {
        if exists|n: Seq<char>|
            name_in(targets@, n) && #[trigger] repo.has_set(n) && repo.set_named(n).tracks(p@) {
            let n = choose|n: Seq<char>|
                name_in(targets@, n) && #[trigger] repo.has_set(n) && repo.set_named(n).tracks(
                    p@,
                );
            let j = choose|j: int| 0 <= j < targets@.len() && (#[trigger] targets@[j])@ == n;
            assert(false);
        }
    }
    false
}

/// Some entry of the shadow report is keyed by `p`.
fn later_entry_exec(list: &Vec<(LocalFilePath, Vec<SetName>)>, p: &LocalFilePath) -> (r: bool)
    ensures
        r == exists|e: int| 0 <= e < list@.len() && (#[trigger] list@[e]).0@ == p@,
{
    let mut e: usize = 0;
    while e < list.len()
        invariant
            e <= list@.len(),
            forall|z: int| 0 <= z < e ==> (#[trigger] list@[z]).0@ != p@,
        decreases list@.len() - e,
    {
        if list[e].0 == *p {
            return true;
        }
        e += 1;
    }
    false
}

/// Pushing a fresh entry extends the shadow report by exactly the later
/// claimants of the new path.
proof fn lemma_later_entry_push(
    lprev: Seq<(LocalFilePath, Vec<SetName>)>,
    lnow: Seq<(LocalFilePath, Vec<SetName>)>,
    repo: RepoState,
    targets: Seq<SetName>,
    owning: Seq<char>,
    pview: Seq<Seq<char>>,
    taken_prev: Seq<LocalFilePath>,
    taken: Seq<LocalFilePath>,
)
    requires
        repo.wf(),
        lnow.len() == lprev.len() + 1,
        forall|z: int| 0 <= z < lprev.len() ==> #[trigger] lnow[z] == lprev[z],
        lnow.last().0@ == pview,
        forall|k: int|
            0 <= k < lnow.last().1@.len() ==> in_later_set(
                repo,
                targets,
                owning,
                pview,
                (#[trigger] lnow.last().1@[k])@,
            ),
        forall|j: int|
            0 <= j < repo.sets@.len() && in_later_set(
                repo,
                targets,
                owning,
                pview,
                (#[trigger] repo.sets@[j]).name@,
            ) ==> exists|k: int|
                0 <= k < lnow.last().1@.len() && (#[trigger] lnow.last().1@[k])@
                    == repo.sets@[j].name@,
        forall|p: Seq<Seq<char>>, n: Seq<char>|
            #[trigger] later_entry(lprev, p, n) <==> (paths_contain(taken_prev, p) && in_later_set(
                repo,
                targets,
                owning,
                p,
                n,
            )),
        forall|q: Seq<Seq<char>>|
            #[trigger] paths_contain(taken, q) <==> (paths_contain(taken_prev, q) || q == pview),
    ensures
        forall|p: Seq<Seq<char>>, n: Seq<char>|
            #[trigger] later_entry(lnow, p, n) <==> (paths_contain(taken, p) && in_later_set(
                repo,
                targets,
                owning,
                p,
                n,
            )),
{
    assert forall|p: Seq<Seq<char>>, n: Seq<char>| #[trigger]
        later_entry(lnow, p, n) <==> (paths_contain(taken, p) && in_later_set(
        repo,
        targets,
        owning,
        p,
        n,
    )) by {
        if later_entry(lnow, p, n) {
            let (e, k) = choose|e: int, k: int|
                0 <= e < lnow.len() && (#[trigger] lnow[e]).0@ == p && 0 <= k < lnow[e].1@.len()
                    && (#[trigger] lnow[e].1@[k])@ == n;
            if e < lprev.len() {
                assert(lnow[e] == lprev[e]);
                assert(later_entry(lprev, p, n));
            } else {
                assert(p == pview);
                assert(in_later_set(repo, targets, owning, pview, n));
            }
        }
        if paths_contain(taken, p) && in_later_set(repo, targets, owning, p, n) {
            if paths_contain(taken_prev, p) {
                assert(later_entry(lprev, p, n));
                let (e, k) = choose|e: int, k: int|
                    0 <= e < lprev.len() && (#[trigger] lprev[e]).0@ == p && 0 <= k
                        < lprev[e].1@.len() && (#[trigger] lprev[e].1@[k])@ == n;
                assert(lnow[e] == lprev[e]);
                assert(later_entry(lnow, p, n));
            } else {
                assert(p == pview);
                let w = repo.set_idx(n);
                assert(repo.sets@[w].name@ == n);
                assert(in_later_set(repo, targets, owning, pview, repo.sets@[w].name@));
                let k = choose|k: int|
                    0 <= k < lnow.last().1@.len() && (#[trigger] lnow.last().1@[k])@
                        == repo.sets@[w].name@;
                assert(lnow[lnow.len() - 1].0@ == p);
                assert(lnow[lnow.len() - 1].1@[k]@ == n);
                assert(later_entry(lnow, p, n));
            }
        }
    }
}

} // verus!
