//! Creating a new set: the profile gains the set as its last (and so
//! highest-precedence) target, and the set's shortcut is computed as the
//! longest common prefix of the files it is created for, so that the set's
//! own tree starts below the shared directory.

use vstd::prelude::*;

use crate::paths::{LocalFilePath, RawPath};
use crate::repo::{SetConfig, SetName};
use crate::MonjaProfileConfig;

verus! {

/// The chosen files both echo back to the caller.
#[derive(Debug)]
pub struct NewSetSuccess {
    pub new_set: SetName,
    pub files: Vec<LocalFilePath>,
}

/// The prefix can grow past position `k`: some file is longer, and every
/// longer file agrees there.
pub open spec fn shortcut_extends(files: Seq<LocalFilePath>, k: int) -> bool {
    &&& (exists|m: int| 0 <= m < files.len() && (#[trigger] files[m])@.len() > k)
    &&& (forall|m1: int, m2: int|
        0 <= m1 < files.len() && 0 <= m2 < files.len() && (#[trigger] files[m1])@.len() > k && (
        #[trigger] files[m2])@.len() > k ==> files[m1]@[k] == files[m2]@[k])
}

/// Every position of `sc` carries the agreed segment of the files long
/// enough to reach it.
pub open spec fn is_shortcut_prefix(files: Seq<LocalFilePath>, sc: Seq<Seq<char>>) -> bool {
    forall|k: int|
        0 <= k < sc.len() ==> #[trigger] shortcut_extends(files, k) && (forall|m: int|
            0 <= m < files.len() && (#[trigger] files[m])@.len() > k ==> files[m]@[k] == sc[k])
}

/// `sc` is the whole computed shortcut: a shortcut prefix that cannot be
/// extended.
pub open spec fn is_computed_shortcut(files: Seq<LocalFilePath>, sc: Seq<Seq<char>>) -> bool {
    &&& is_shortcut_prefix(files, sc)
    &&& !shortcut_extends(files, sc.len() as int)
}

/// Extending a shortcut prefix by the agreed next segment keeps it one.
proof fn lemma_shortcut_prefix_push(files: Seq<LocalFilePath>, sc: Seq<Seq<char>>, s: Seq<char>)
    requires
        is_shortcut_prefix(files, sc),
        shortcut_extends(files, sc.len() as int),
        forall|m: int|
            0 <= m < files.len() && (#[trigger] files[m])@.len() > sc.len() ==> files[m]@[sc.len() as int]
                == s,
    ensures
        is_shortcut_prefix(files, sc.push(s)),
{
    let snew = sc.push(s);
    assert forall|k: int|
        0 <= k < snew.len() implies #[trigger] shortcut_extends(files, k) && (forall|m: int|
        0 <= m < files.len() && (#[trigger] files[m])@.len() > k ==> files[m]@[k] == snew[k]) by {
        if k < sc.len() {
            assert(shortcut_extends(files, k) && (forall|m: int|
                0 <= m < files.len() && (#[trigger] files[m])@.len() > k ==> files[m]@[k]
                    == sc[k]));
            assert(snew[k] == sc[k]);
            assert forall|m: int|
                0 <= m < files.len() && (#[trigger] files[m])@.len() > k implies files[m]@[k]
                == snew[k] by {
                assert(files[m]@[k] == sc[k]);
            }
        } else {
            assert(snew[k] == s);
            assert forall|m: int|
                0 <= m < files.len() && (#[trigger] files[m])@.len() > k implies files[m]@[k]
                == snew[k] by {
                assert(files[m]@[sc.len() as int] == s);
            }
        }
    }
}

/// The segment shared at position `k` by every file long enough to have one.
fn common_seg_at(files: &Vec<LocalFilePath>, k: usize) -> (r: Option<String>)
    ensures
        r is Some <==> shortcut_extends(files@, k as int),
        r matches Some(s) ==> forall|m: int|
            0 <= m < files@.len() && (#[trigger] files@[m])@.len() > k ==> files@[m]@[k as int]
                == s@,
{
    let first = find_longer(files, k);
    let w = match first {
        Option::Some(w) => w,
        Option::None => {
            proof {
                if shortcut_extends(files@, k as int) {
                    let z = choose|z: int|
                        0 <= z < files@.len() && (#[trigger] files@[z])@.len() > k;
                    assert(false);
                }
            }
            return None;
        },
    };
    let seg: &String = &files[w].segments()[k];
    proof {
        assert(files@[w as int]@[k as int] == files@[w as int].segments@[k as int]@);
    }
    let mut m: usize = 0;
    while m < files.len()
        invariant
            m <= files@.len(),
            w < files@.len(),
            files@[w as int]@.len() > k,
            seg@ == files@[w as int]@[k as int],
            forall|j: int|
                0 <= j < m && (#[trigger] files@[j])@.len() > k ==> files@[j]@[k as int] == seg@,
        decreases files@.len() - m,
    {
        if files[m].segments().len() > k {
            proof {
                assert(files@[m as int]@.len() == files@[m as int].segments@.len());
            }
            let other: &String = &files[m].segments()[k];
            proof {
                assert(files@[m as int]@[k as int] == files@[m as int].segments@[k as int]@);
            }
            if !(*other == *seg) {
                proof {
                    assert(files@[m as int]@[k as int] != files@[w as int]@[k as int]);
                }
                return None;
            }
        }
        m += 1;
    }
    proof {
        assert(shortcut_extends(files@, k as int));
    }
    Some(seg.clone())
}

/// The position of some file longer than `k`, if any.
fn find_longer(files: &Vec<LocalFilePath>, k: usize) -> (r: Option<usize>)
    ensures
        r matches Some(w) ==> w < files@.len() && files@[w as int]@.len() > k,
        r is None ==> forall|j: int| 0 <= j < files@.len() ==> (#[trigger] files@[j])@.len() <= k,
{
    let mut m: usize = 0;
    while m < files.len()
        invariant
            m <= files@.len(),
            forall|j: int| 0 <= j < m ==> (#[trigger] files@[j])@.len() <= k,
        decreases files@.len() - m,
    {
        if files[m].segments().len() > k {
            proof {
                assert(files@[m as int]@.len() == files@[m as int].segments@.len());
            }
            return Some(m);
        }
        proof {
            assert(files@[m as int]@.len() == files@[m as int].segments@.len());
        }
        m += 1;
    }
    None
}

/// The longest file length, an upper bound for the shortcut's length.
fn max_len(files: &Vec<LocalFilePath>) -> (r: usize)
    ensures
        forall|m: int| 0 <= m < files@.len() ==> (#[trigger] files@[m])@.len() <= r,
{
    let mut r: usize = 0;
    let mut m: usize = 0;
    while m < files.len()
        invariant
            m <= files@.len(),
            forall|j: int| 0 <= j < m ==> (#[trigger] files@[j])@.len() <= r,
        decreases files@.len() - m,
    {
        let n = files[m].segments().len();
        proof {
            assert(files@[m as int]@.len() == files@[m as int].segments@.len());
        }
        if n > r {
            r = n;
        }
        m += 1;
    }
    r
}

/// Computes the shortcut for a new set: the longest sequence of segments that
/// every file long enough to reach it shares. With no files it is empty; a
/// single file yields the file's own path.
pub fn compute_shortcut(files: &Vec<LocalFilePath>) -> (r: Vec<String>)
    ensures
        is_computed_shortcut(files@, r.deep_view()),
{
    let bound = max_len(files);
    let mut prefix: Vec<String> = Vec::new();
    let mut k: usize = 0;
    while k < bound
        invariant
            k <= bound,
            forall|m: int| 0 <= m < files@.len() ==> (#[trigger] files@[m])@.len() <= bound,
            prefix.deep_view().len() == k,
            is_shortcut_prefix(files@, prefix.deep_view()),
        decreases bound - k,
    {
        let ghost pprev = prefix.deep_view();
        match common_seg_at(files, k) {
            Option::Some(s) => {
                proof {
                    lemma_shortcut_prefix_push(files@, pprev, s@);
                }
                crate::paths::push_segment(&mut prefix, &s);
            },
            Option::None => {
                return prefix;
            },
        }
        k += 1;
    }
    proof {
        if shortcut_extends(files@, bound as int) {
            let z = choose|z: int|
                0 <= z < files@.len() && (#[trigger] files@[z])@.len() > bound;
            assert(false);
        }
    }
    prefix
}

/// Plans a new set: the profile's target list gains the set as its last (so
/// winning) entry, and the set's configuration mounts it at the files' common
/// prefix. The caller creates the directory, saves both documents and then
/// puts the files into the set.
pub fn new_set(
    config: &mut MonjaProfileConfig,
    files: Vec<LocalFilePath>,
    set_name: SetName,
) -> (r: (NewSetSuccess, SetConfig))
    ensures
        final(config).repo_dir == old(config).repo_dir,
        final(config).new_file_set == old(config).new_file_set,
        final(config).target_sets@.len() == old(config).target_sets@.len() + 1,
        forall|j: int|
            0 <= j < old(config).target_sets@.len() ==> #[trigger] final(config).target_sets@[j]
                == old(config).target_sets@[j],
        final(config).target_sets@.last()@ == set_name@,
        r.0.new_set@ == set_name@,
        r.0.files == files,
        r.1.shortcut matches Some(raw) && !raw.absolute && is_computed_shortcut(files@, raw@),
{
    let shortcut_segments = compute_shortcut(&files);
    let set_config = SetConfig {
        shortcut: Some(RawPath { absolute: false, segments: shortcut_segments }),
    };
    config.target_sets.push(set_name.dup());
    let success = NewSetSuccess { new_set: set_name, files };
    (success, set_config)
}

} // verus!
