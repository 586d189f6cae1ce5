//! The status report: the classifier's partitions, restricted to a location
//! under the local root and ordered by the profile's target sets.

use vstd::prelude::*;

use crate::local::{group_files, group_named, LocalState};
use crate::paths::{is_prefix_of, paths_contain, LocalFilePath};
use crate::repo::{SetName, StateInitializationError};

verus! {

/// What stood in the way of computing a status report; composed by callers
/// around the classification inputs.
#[derive(Debug)]
pub enum StatusError {
    RepoStateInitialization { errors: Vec<StateInitializationError> },
    LocalWalk { error: crate::local::LocalWalkError },
}

/// Detailed local status: each classifier partition, filtered to the
/// requested location; grouped partitions keep only sets named by the
/// profile, in its declared order.
#[derive(Debug)]
pub struct Status {
    pub files_to_push: Vec<(SetName, Vec<LocalFilePath>)>,
    pub files_with_missing_sets: Vec<(SetName, Vec<LocalFilePath>)>,
    pub missing_files: Vec<(SetName, Vec<LocalFilePath>)>,
    pub untracked_files: Vec<LocalFilePath>,
    pub old_files_after_last_pull: Vec<LocalFilePath>,
}

/// Some target bears the name `n`.
pub open spec fn name_in(targets: Seq<SetName>, n: Seq<char>) -> bool {
    exists|i: int| 0 <= i < targets.len() && (#[trigger] targets[i])@ == n
}

/// The result groups hold exactly the source files at or under `location`,
/// for the set names the targets mention, in the targets' declared order.
pub open spec fn status_groups_ok(
    result: Seq<(SetName, Vec<LocalFilePath>)>,
    source: Seq<(SetName, Vec<LocalFilePath>)>,
    targets: Seq<SetName>,
    location: Seq<Seq<char>>,
) -> bool {
    &&& (forall|i: int, j: int|
        0 <= i < j < result.len() ==> crate::put::target_pos(targets, (#[trigger] result[i]).0@)
            < crate::put::target_pos(targets, (#[trigger] result[j]).0@))
    &&& (forall|n: Seq<char>|
        #[trigger] group_named(result, n) <==> (group_named(source, n) && name_in(targets, n)))
    &&& (forall|n: Seq<char>, q: Seq<Seq<char>>|
        #[trigger] group_files(result, n, q) <==> (group_files(source, n, q) && name_in(targets, n)
            && is_prefix_of(location, q)))
}

/// Picks, per target set in declared order, the source group of that name,
/// keeping only the files at or under `location`.
fn filter_groups(
    targets: &Vec<SetName>,
    source: &Vec<(SetName, Vec<LocalFilePath>)>,
    location: &LocalFilePath,
) -> (r: Vec<(SetName, Vec<LocalFilePath>)>)
    requires
        forall|i: int, j: int|
            0 <= i < j < source@.len() ==> (#[trigger] source@[i]).0@ != (#[trigger] source@[j]).0@,
        forall|i: int, j: int|
            0 <= i < j < targets@.len() ==> (#[trigger] targets@[i])@ != (#[trigger] targets@[j])@,
    ensures
        status_groups_ok(r@, source@, targets@, location@),
{
    let mut result: Vec<(SetName, Vec<LocalFilePath>)> = Vec::new();
    let mut i: usize = 0;
    while i < targets.len()
        invariant
            i <= targets@.len(),
            forall|m: int, n: int|
                0 <= m < n < source@.len() ==> (#[trigger] source@[m]).0@ != (
                #[trigger] source@[n]).0@,
            forall|m: int, n: int|
                0 <= m < n < targets@.len() ==> (#[trigger] targets@[m])@ != (
                #[trigger] targets@[n])@,
            forall|m: int|
                0 <= m < result@.len() ==> 0 <= crate::put::target_pos(
                    targets@,
                    (#[trigger] result@[m]).0@,
                ) < i,
            forall|m: int, n: int|
                0 <= m < n < result@.len() ==> crate::put::target_pos(
                    targets@,
                    (#[trigger] result@[m]).0@,
                ) < crate::put::target_pos(targets@, (#[trigger] result@[n]).0@),
            forall|n: Seq<char>|
                #[trigger] group_named(result@, n) <==> (group_named(source@, n) && name_in(
                    targets@.take(i as int),
                    n,
                )),
            forall|n: Seq<char>, q: Seq<Seq<char>>|
                #[trigger] group_files(result@, n, q) <==> (group_files(source@, n, q) && name_in(
                    targets@.take(i as int),
                    n,
                ) && is_prefix_of(location@, q)),
        decreases targets@.len() - i,
    {
        let ghost rprev = result@;
        let ghost tprev = targets@.take(i as int);
        let ghost tnow = targets@.take((i + 1) as int);
        proof {
            assert(tnow.drop_last() =~= tprev);
            assert(tnow.last() == targets@[i as int]);
            assert forall|n: Seq<char>| #[trigger]
                name_in(tnow, n) <==> (name_in(tprev, n) || n == targets@[i as int]@) by {
                if name_in(tnow, n) {
                    let z = choose|z: int| 0 <= z < tnow.len() && (#[trigger] tnow[z])@ == n;
                    if z < i {
                        assert(tprev[z]@ == n);
                    }
                }
                if name_in(tprev, n) {
                    let z = choose|z: int| 0 <= z < tprev.len() && (#[trigger] tprev[z])@ == n;
                    assert(tnow[z]@ == n);
                }
                if n == targets@[i as int]@ {
                    assert(tnow[i as int]@ == n);
                }
            }
        }
        let name = &targets[i];
        let found = find_group(source, name);
        match found {
            Option::Some(gi) => {
                let mut files: Vec<LocalFilePath> = Vec::new();
                let src_files = &source[gi].1;
                let mut m: usize = 0;
                while m < src_files.len()
                    invariant
                        m <= src_files@.len(),
                        gi < source@.len(),
                        src_files@ == source@[gi as int].1@,
                        forall|q: Seq<Seq<char>>|
                            #[trigger] paths_contain(files@, q) <==> (paths_contain(
                                src_files@.take(m as int),
                                q,
                            ) && is_prefix_of(location@, q)),
                    decreases src_files@.len() - m,
                {
                    let ghost fprev = files@;
                    let p = &src_files[m];
                    if p.is_child_of(location) {
                        files.push(p.dup());
                    }
                    proof {
                        let taken = src_files@.take((m + 1) as int);
                        assert(taken.drop_last() =~= src_files@.take(m as int));
                        assert(taken.last() == src_files@[m as int]);
                        assert forall|q: Seq<Seq<char>>| #[trigger]
                            paths_contain(files@, q) <==> (paths_contain(taken, q)
                            && is_prefix_of(location@, q)) by {
                            if paths_contain(files@, q) {
                                let z = choose|z: int|
                                    0 <= z < files@.len() && (#[trigger] files@[z])@ == q;
                                if z < fprev.len() {
                                    assert(files@[z] == fprev[z]);
                                    assert(paths_contain(fprev, q));
                                    let y = choose|y: int|
                                        0 <= y < m && (#[trigger] src_files@.take(m as int)[y])@
                                            == q;
                                    assert(taken[y]@ == q);
                                } else {
                                    assert(files@[z]@ == src_files@[m as int]@);
                                    assert(taken[m as int]@ == q);
                                }
                            }
                            if paths_contain(taken, q) && is_prefix_of(location@, q) {
                                let y = choose|y: int|
                                    0 <= y < taken.len() && (#[trigger] taken[y])@ == q;
                                if y < m {
                                    assert(src_files@.take(m as int)[y]@ == q);
                                    assert(paths_contain(fprev, q));
                                    let z = choose|z: int|
                                        0 <= z < fprev.len() && (#[trigger] fprev[z])@ == q;
                                    assert(files@[z] == fprev[z]);
                                } else {
                                    assert(q == src_files@[m as int]@);
                                    assert(files@[files@.len() - 1]@ == q);
                                }
                            }
                        }
                    }
                    m += 1;
                }
                proof {
                    assert(src_files@.take(src_files@.len() as int) =~= src_files@);
                }
                result.push((name.dup(), files));
                proof {
                    assert forall|z: int|
                        0 <= z < rprev.len() implies #[trigger] result@[z] == rprev[z] by {
                        assert(result@[z] == rprev.push(result@[result@.len() - 1])[z]);
                    }
                    lemma_filter_groups_step_some(
                        rprev,
                        result@,
                        source@,
                        tprev,
                        tnow,
                        targets@[i as int]@,
                        gi as int,
                        location@,
                    );
                    assert(crate::put::target_pos(targets@, targets@[i as int]@) == i as int) by {
                        crate::put::lemma_target_pos_first(targets@, targets@[i as int]@, i as int);
                    }
                    assert forall|z: int|
                        0 <= z < result@.len() implies 0 <= crate::put::target_pos(
                        targets@,
                        (#[trigger] result@[z]).0@,
                    ) < i + 1 by {
                        if z < rprev.len() {
                            assert(result@[z] == rprev[z]);
                        } else {
                            assert(result@[z].0@ == targets@[i as int]@);
                        }
                    }
                    assert forall|z: int, zz: int|
                        0 <= z < zz < result@.len() implies crate::put::target_pos(
                        targets@,
                        (#[trigger] result@[z]).0@,
                    ) < crate::put::target_pos(targets@, (#[trigger] result@[zz]).0@) by {
                        if zz == result@.len() - 1 {
                            assert(result@[z] == rprev[z]);
                            assert(result@[zz].0@ == targets@[i as int]@);
                        } else {
                            assert(result@[z] == rprev[z]);
                            assert(result@[zz] == rprev[zz]);
                        }
                    }
                }
            },
            Option::None => {
                proof {
                    assert forall|n: Seq<char>| #[trigger]
                        group_named(result@, n) <==> (group_named(source@, n) && name_in(
                        tnow,
                        n,
                    )) by {
                        if n == targets@[i as int]@ {
                            assert(!group_named(source@, n));
                        }
                    }
                    assert forall|n: Seq<char>, q: Seq<Seq<char>>| #[trigger]
                        group_files(result@, n, q) <==> (group_files(source@, n, q) && name_in(
                        tnow,
                        n,
                    ) && is_prefix_of(location@, q)) by {
                        if n == targets@[i as int]@ && group_files(source@, n, q) {
                            let gj = choose|gj: int|
                                0 <= gj < source@.len() && (#[trigger] source@[gj]).0@ == n
                                    && paths_contain(source@[gj].1@, q);
                            assert(group_named(source@, n));
                        }
                    }
                }
            },
        }
        i += 1;
    }
    proof {
        assert(targets@.take(targets@.len() as int) =~= targets@);
    }
    result
}

/// The step of `filter_groups` when the target's group exists in the source.
proof fn lemma_filter_groups_step_some(
    rprev: Seq<(SetName, Vec<LocalFilePath>)>,
    rnow: Seq<(SetName, Vec<LocalFilePath>)>,
    source: Seq<(SetName, Vec<LocalFilePath>)>,
    tprev: Seq<SetName>,
    tnow: Seq<SetName>,
    name: Seq<char>,
    gi: int,
    location: Seq<Seq<char>>,
)
    requires
        rnow.len() == rprev.len() + 1,
        forall|z: int| 0 <= z < rprev.len() ==> #[trigger] rnow[z] == rprev[z],
        rnow.last().0@ == name,
        0 <= gi < source.len(),
        source[gi].0@ == name,
        forall|m: int, n: int|
            0 <= m < n < source.len() ==> (#[trigger] source[m]).0@ != (#[trigger] source[n]).0@,
        forall|q: Seq<Seq<char>>|
            #[trigger] paths_contain(rnow.last().1@, q) <==> (paths_contain(source[gi].1@, q)
                && is_prefix_of(location, q)),
        forall|n: Seq<char>| #[trigger] name_in(tnow, n) <==> (name_in(tprev, n) || n == name),
        forall|n: Seq<char>|
            #[trigger] group_named(rprev, n) <==> (group_named(source, n) && name_in(tprev, n)),
        forall|n: Seq<char>, q: Seq<Seq<char>>|
            #[trigger] group_files(rprev, n, q) <==> (group_files(source, n, q) && name_in(
                tprev,
                n,
            ) && is_prefix_of(location, q)),
    ensures
        forall|n: Seq<char>|
            #[trigger] group_named(rnow, n) <==> (group_named(source, n) && name_in(tnow, n)),
        forall|n: Seq<char>, q: Seq<Seq<char>>|
            #[trigger] group_files(rnow, n, q) <==> (group_files(source, n, q) && name_in(tnow, n)
                && is_prefix_of(location, q)),
{
    assert forall|n: Seq<char>| #[trigger]
        group_named(rnow, n) <==> (group_named(source, n) && name_in(tnow, n)) by {
        if group_named(rnow, n) {
            let z = choose|z: int| 0 <= z < rnow.len() && (#[trigger] rnow[z]).0@ == n;
            if z < rprev.len() {
                assert(rnow[z] == rprev[z]);
                assert(group_named(rprev, n));
            } else {
                assert(n == name);
                assert(group_named(source, n)) by {
                    assert(source[gi].0@ == n);
                }
            }
        }
        if group_named(source, n) && name_in(tnow, n) {
            if n == name {
                assert(rnow[rnow.len() - 1].0@ == n);
                assert(group_named(rnow, n));
            } else {
                assert(name_in(tprev, n));
                assert(group_named(rprev, n));
                let z = choose|z: int| 0 <= z < rprev.len() && (#[trigger] rprev[z]).0@ == n;
                assert(rnow[z].0@ == n);
                assert(group_named(rnow, n));
            }
        }
    }
    assert forall|n: Seq<char>, q: Seq<Seq<char>>| #[trigger]
        group_files(rnow, n, q) <==> (group_files(source, n, q) && name_in(tnow, n)
        && is_prefix_of(location, q)) by {
        if group_files(rnow, n, q) {
            let z = choose|z: int|
                0 <= z < rnow.len() && (#[trigger] rnow[z]).0@ == n && paths_contain(
                    rnow[z].1@,
                    q,
                );
            if z < rprev.len() {
                assert(rnow[z] == rprev[z]);
                assert(group_files(rprev, n, q));
            } else {
                assert(n == name);
                assert(paths_contain(source[gi].1@, q) && is_prefix_of(location, q));
                assert(group_files(source, n, q));
            }
        }
        if group_files(source, n, q) && name_in(tnow, n) && is_prefix_of(location, q) {
            if n == name {
                let gj = choose|gj: int|
                    0 <= gj < source.len() && (#[trigger] source[gj]).0@ == n && paths_contain(
                        source[gj].1@,
                        q,
                    );
                assert(gj == gi);
                assert(paths_contain(rnow.last().1@, q));
                assert(rnow[rnow.len() - 1].0@ == n);
                assert(group_files(rnow, n, q));
            } else {
                assert(name_in(tprev, n));
                assert(group_files(rprev, n, q));
                let z = choose|z: int|
                    0 <= z < rprev.len() && (#[trigger] rprev[z]).0@ == n && paths_contain(
                        rprev[z].1@,
                        q,
                    );
                assert(rnow[z] == rprev[z]);
                assert(group_files(rnow, n, q));
            }
        }
    }
}

/// The position of the group named by `name`, if any.
fn find_group(source: &Vec<(SetName, Vec<LocalFilePath>)>, name: &SetName) -> (r: Option<usize>)
    ensures
        r matches Some(gi) ==> gi < source@.len() && source@[gi as int].0@ == name@,
        r is None ==> !group_named(source@, name@),
{
    let mut gi: usize = 0;
    while gi < source.len()
        invariant
            gi <= source@.len(),
            forall|z: int| 0 <= z < gi ==> (#[trigger] source@[z]).0@ != name@,
        decreases source@.len() - gi,
    {
        if source[gi].0 == *name {
            return Some(gi);
        }
        gi += 1;
    }
    proof {
        if group_named(source@, name@) {
            let z = choose|z: int| 0 <= z < source@.len() && (#[trigger] source@[z]).0@ == name@;
        }
    }
    None
}

/// Keeps the paths at or under `location`, in order.
fn filter_paths(list: &Vec<LocalFilePath>, location: &LocalFilePath) -> (r: Vec<LocalFilePath>)
    ensures
        forall|q: Seq<Seq<char>>|
            #[trigger] paths_contain(r@, q) <==> (paths_contain(list@, q) && is_prefix_of(
                location@,
                q,
            )),
{
    let mut r: Vec<LocalFilePath> = Vec::new();
    let mut i: usize = 0;
    while i < list.len()
        invariant
            i <= list@.len(),
            forall|q: Seq<Seq<char>>|
                #[trigger] paths_contain(r@, q) <==> (paths_contain(list@.take(i as int), q)
                    && is_prefix_of(location@, q)),
        decreases list@.len() - i,
    {
        let ghost fprev = r@;
        let p = &list[i];
        if p.is_child_of(location) {
            r.push(p.dup());
        }
        proof {
            let taken = list@.take((i + 1) as int);
            assert(taken.drop_last() =~= list@.take(i as int));
            assert(taken.last() == list@[i as int]);
            assert forall|q: Seq<Seq<char>>| #[trigger]
                paths_contain(r@, q) <==> (paths_contain(taken, q) && is_prefix_of(
                location@,
                q,
            )) by {
                if paths_contain(r@, q) {
                    let z = choose|z: int| 0 <= z < r@.len() && (#[trigger] r@[z])@ == q;
                    if z < fprev.len() {
                        assert(r@[z] == fprev[z]);
                        assert(paths_contain(fprev, q));
                        let y = choose|y: int|
                            0 <= y < i && (#[trigger] list@.take(i as int)[y])@ == q;
                        assert(taken[y]@ == q);
                    } else {
                        assert(r@[z]@ == list@[i as int]@);
                        assert(taken[i as int]@ == q);
                    }
                }
                if paths_contain(taken, q) && is_prefix_of(location@, q) {
                    let y = choose|y: int| 0 <= y < taken.len() && (#[trigger] taken[y])@ == q;
                    if y < i {
                        assert(list@.take(i as int)[y]@ == q);
                        assert(paths_contain(fprev, q));
                        let z = choose|z: int|
                            0 <= z < fprev.len() && (#[trigger] fprev[z])@ == q;
                        assert(r@[z] == fprev[z]);
                    } else {
                        assert(q == list@[i as int]@);
                        assert(r@[r@.len() - 1]@ == q);
                    }
                }
            }
        }
        i += 1;
    }
    proof {
        assert(list@.take(list@.len() as int) =~= list@);
    }
    r
}

/// Builds the status report from the classifier's output: each grouped
/// partition is restricted to the profile's target sets, in declared order,
/// and every partition is restricted to files at or under `location`.
pub fn local_status(
    targets: &Vec<SetName>,
    local_state: LocalState,
    location: &LocalFilePath,
) -> (r: Status)
    requires
        forall|i: int, j: int|
            0 <= i < j < targets@.len() ==> (#[trigger] targets@[i])@ != (#[trigger] targets@[j])@,
        forall|i: int, j: int|
            0 <= i < j < local_state.files_to_push@.len() ==> (
            #[trigger] local_state.files_to_push@[i]).0@ != (
            #[trigger] local_state.files_to_push@[j]).0@,
        forall|i: int, j: int|
            0 <= i < j < local_state.files_with_missing_sets@.len() ==> (
            #[trigger] local_state.files_with_missing_sets@[i]).0@ != (
            #[trigger] local_state.files_with_missing_sets@[j]).0@,
        forall|i: int, j: int|
            0 <= i < j < local_state.missing_files@.len() ==> (
            #[trigger] local_state.missing_files@[i]).0@ != (
            #[trigger] local_state.missing_files@[j]).0@,
    ensures
        status_groups_ok(r.files_to_push@, local_state.files_to_push@, targets@, location@),
        status_groups_ok(
            r.files_with_missing_sets@,
            local_state.files_with_missing_sets@,
            targets@,
            location@,
        ),
        status_groups_ok(r.missing_files@, local_state.missing_files@, targets@, location@),
        forall|q: Seq<Seq<char>>|
            #[trigger] paths_contain(r.untracked_files@, q) <==> (paths_contain(
                local_state.untracked_files@,
                q,
            ) && is_prefix_of(location@, q)),
        forall|q: Seq<Seq<char>>|
            #[trigger] paths_contain(r.old_files_after_last_pull@, q) <==> (paths_contain(
                local_state.old_files_since_last_pull@,
                q,
            ) && is_prefix_of(location@, q)),
{
    let files_to_push = filter_groups(targets, &local_state.files_to_push, location);
    let files_with_missing_sets = filter_groups(
        targets,
        &local_state.files_with_missing_sets,
        location,
    );
    let missing_files = filter_groups(targets, &local_state.missing_files, location);
    let untracked_files = filter_paths(&local_state.untracked_files, location);
    let old_files_after_last_pull = filter_paths(
        &local_state.old_files_since_last_pull,
        location,
    );
    Status {
        files_to_push,
        files_with_missing_sets,
        missing_files,
        untracked_files,
        old_files_after_last_pull,
    }
}

} // verus!
