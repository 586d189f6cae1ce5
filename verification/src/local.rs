//! The local side of the model: the generational file index and the
//! classification of locally found files against the index and the repo
//! state.
//!
//! The index maps each local path to the set that owned it at the last pull.
//! It persists as two generations, current and previous; this module works on
//! the parsed entries and leaves reading and writing the files to the caller.

use vstd::prelude::*;

use crate::paths::LocalFilePath;
use crate::repo::SetName;

verus! {

/// The meaning of one index entry sequence, as a map from local path to
/// owning-set name; later entries override earlier ones.
pub open spec fn entries_map(s: Seq<(LocalFilePath, SetName)>) -> Map<Seq<Seq<char>>, Seq<char>>
    decreases s.len(),
{
    if s.len() == 0 {
        Map::empty()
    } else {
        entries_map(s.drop_last()).insert(s.last().0@, s.last().1@)
    }
}

/// A key occurs among the entries.
pub open spec fn entries_have_key(s: Seq<(LocalFilePath, SetName)>, p: Seq<Seq<char>>) -> bool {
    exists|i: int| 0 <= i < s.len() && s[i].0@ == p
}

/// The map contains exactly the keys that occur among the entries.
pub proof fn lemma_entries_map_dom(s: Seq<(LocalFilePath, SetName)>)
    ensures
        forall|p: Seq<Seq<char>>| #[trigger]
            entries_map(s).contains_key(p) <==> entries_have_key(s, p),
    decreases s.len(),
{
    if s.len() > 0 {
        lemma_entries_map_dom(s.drop_last());
        assert forall|p: Seq<Seq<char>>| #[trigger]
            entries_map(s).contains_key(p) <==> entries_have_key(s, p) by {
            if entries_map(s).contains_key(p) {
                if p == s.last().0@ {
                    assert(s[s.len() - 1].0@ == p);
                } else {
                    assert(entries_map(s.drop_last()).contains_key(p));
                    let i = choose|i: int| 0 <= i < s.len() - 1 && s.drop_last()[i].0@ == p;
                    assert(s[i].0@ == p);
                }
            }
            if entries_have_key(s, p) {
                let i = choose|i: int| 0 <= i < s.len() && s[i].0@ == p;
                if i == s.len() - 1 {
                    assert(entries_map(s).contains_key(p));
                } else {
                    assert(s.drop_last()[i].0@ == p);
                    assert(entries_map(s.drop_last()).contains_key(p));
                }
            }
        }
    }
}

/// With distinct keys, the map sends each entry's key to that entry's value.
pub proof fn lemma_entries_map_value(s: Seq<(LocalFilePath, SetName)>, i: int)
    requires
        forall|m: int, n: int| 0 <= m < n < s.len() ==> (#[trigger] s[m]).0@ != (#[trigger] s[n]).0@,
        0 <= i < s.len(),
    ensures
        entries_map(s).contains_key(s[i].0@),
        entries_map(s)[s[i].0@] == s[i].1@,
    decreases s.len(),
{
    if i == s.len() - 1 {
    } else {
        assert(s.drop_last()[i] == s[i]);
        lemma_entries_map_value(s.drop_last(), i);
        assert(s[s.len() - 1].0@ != s[i].0@);
    }
}

/// Removing entry `i` removes exactly its key from the map.
pub proof fn lemma_entries_map_remove(s: Seq<(LocalFilePath, SetName)>, i: int)
    requires
        forall|m: int, n: int| 0 <= m < n < s.len() ==> (#[trigger] s[m]).0@ != (#[trigger] s[n]).0@,
        0 <= i < s.len(),
    ensures
        entries_map(s.remove(i)) == entries_map(s).remove(s[i].0@),
    decreases s.len(),
{
    let k = s[i].0@;
    if i == s.len() - 1 {
        assert(s.remove(i) =~= s.drop_last());
        lemma_entries_map_dom(s.drop_last());
        assert(!entries_map(s.drop_last()).contains_key(k)) by {
            if entries_have_key(s.drop_last(), k) {
                let m = choose|m: int| 0 <= m < s.len() - 1 && s.drop_last()[m].0@ == k;
                assert(s[m].0@ == s[i].0@);
            }
        }
        assert(entries_map(s).remove(k) =~= entries_map(s.drop_last()));
    } else {
        let t = s.drop_last();
        assert(s.remove(i).drop_last() =~= t.remove(i));
        assert(s.remove(i).last() == s.last());
        lemma_entries_map_remove(t, i);
        assert(t[i] == s[i]);
        assert(s.last().0@ != k);
        assert(entries_map(s.remove(i)) == entries_map(t.remove(i)).insert(
            s.last().0@,
            s.last().1@,
        ));
        assert(entries_map(t).remove(k).insert(s.last().0@, s.last().1@) =~= entries_map(
            t,
        ).insert(s.last().0@, s.last().1@).remove(k));
    }
}

/// The persisted ownership record: local path to owning set, one generation.
#[derive(Debug)]
pub struct FileIndex {
    pub entries: Vec<(LocalFilePath, SetName)>,
}

impl View for FileIndex {
    type V = Map<Seq<Seq<char>>, Seq<char>>;

    open spec fn view(&self) -> Map<Seq<Seq<char>>, Seq<char>> {
        entries_map(self.entries@)
    }
}

impl FileIndex {
    /// No two entries share a key, and every key is a sound path.
    pub open spec fn wf(self) -> bool {
        &&& forall|m: int, n: int|
            0 <= m < n < self.entries@.len() ==> (#[trigger] self.entries@[m]).0@ != (
            #[trigger] self.entries@[n]).0@
        &&& forall|m: int|
            0 <= m < self.entries@.len() ==> (#[trigger] self.entries@[m]).0.wf()
                && self.entries@[m].0@.len() > 0
    }

    /// The empty index, used when no index file exists yet.
    pub fn new() -> (r: FileIndex)
        ensures
            r@ == Map::<Seq<Seq<char>>, Seq<char>>::empty(),
            r.wf(),
    {
        FileIndex { entries: Vec::new() }
    }

    /// The position of the entry with key `p`, if any.
    fn find_entry(&self, local_file: &LocalFilePath) -> (r: Option<usize>)
        ensures
            r matches Some(i) ==> i < self.entries@.len() && self.entries@[i as int].0@
                == local_file@,
            r is None ==> !entries_have_key(self.entries@, local_file@),
    {
        let mut i: usize = 0;
        while i < self.entries.len()
            invariant
                i <= self.entries@.len(),
                forall|j: int| 0 <= j < i ==> (#[trigger] self.entries@[j]).0@ != local_file@,
            decreases self.entries@.len() - i,
        {
            if self.entries[i].0 == *local_file {
                return Some(i);
            }
            i += 1;
        }
        None
    }

    /// The index has an owner recorded for this path.
    pub fn tracks(&self, local_file: &LocalFilePath) -> (r: bool)
        ensures
            r == self@.contains_key(local_file@),
    {
        proof {
            lemma_entries_map_dom(self.entries@);
        }
        self.find_entry(local_file).is_some()
    }

    /// The owner recorded for this path, if any.
    pub fn get(&self, local_file: &LocalFilePath) -> (r: Option<&SetName>)
        requires
            self.wf(),
        ensures
            r is Some <==> self@.contains_key(local_file@),
            r matches Some(n) ==> self@[local_file@] == n@,
    {
        proof {
            lemma_entries_map_dom(self.entries@);
        }
        match self.find_entry(local_file) {
            Option::Some(i) => {
                proof {
                    lemma_entries_map_value(self.entries@, i as int);
                }
                Some(&self.entries[i].1)
            },
            Option::None => None,
        }
    }

    /// Removes and returns the owner recorded for this path, if any.
    pub fn take(&mut self, local_file: &LocalFilePath) -> (r: Option<SetName>)
        requires
            old(self).wf(),
        ensures
            final(self).wf(),
            r is Some <==> old(self)@.contains_key(local_file@),
            r matches Some(n) ==> n@ == old(self)@[local_file@],
            final(self)@ == old(self)@.remove(local_file@),
    {
        proof {
            lemma_entries_map_dom(self.entries@);
        }
        match self.find_entry(local_file) {
            Option::Some(i) => {
                proof {
                    lemma_entries_map_value(self.entries@, i as int);
                    lemma_entries_map_remove(self.entries@, i as int);
                }
                let (_, name) = self.entries.remove(i);
                Some(name)
            },
            Option::None => {
                proof {
                    assert(!self@.contains_key(local_file@));
                    assert(self@.remove(local_file@) =~= self@);
                }
                None
            },
        }
    }

    /// Records `owning_set` as the owner of `local_file`, replacing any
    /// earlier record.
    pub fn set(&mut self, local_file: LocalFilePath, owning_set: SetName)
        requires
            old(self).wf(),
            local_file.wf(),
            local_file@.len() > 0,
        ensures
            final(self).wf(),
            final(self)@ == old(self)@.insert(local_file@, owning_set@),
    {
        let ghost before = self@;
        let _ = self.take(&local_file);
        let ghost mid = self.entries@;
        self.entries.push((local_file, owning_set));
        proof {
            assert(self.entries@.drop_last() =~= mid);
            assert(self@ == entries_map(mid).insert(local_file@, owning_set@));
            assert(before.remove(local_file@).insert(local_file@, owning_set@) =~= before.insert(
                local_file@,
                owning_set@,
            ));
            lemma_entries_map_dom(mid);
            assert(entries_map(mid) == before.remove(local_file@));
            assert(!entries_map(mid).contains_key(local_file@));
            assert(!entries_have_key(mid, local_file@));
            assert forall|m: int, n: int|
                0 <= m < n < self.entries@.len() implies (#[trigger] self.entries@[m]).0@ != (
            #[trigger] self.entries@[n]).0@ by {
                if n == self.entries@.len() - 1 {
                    assert(self.entries@[m] == mid[m]);
                }
            }
        }
    }

    /// Builds an index from parsed entries; a later entry for the same path
    /// replaces the earlier one.
    pub fn from_entries(entries: Vec<(LocalFilePath, SetName)>) -> (r: FileIndex)
        requires
            forall|i: int|
                0 <= i < entries@.len() ==> (#[trigger] entries@[i]).0.wf()
                    && entries@[i].0@.len() > 0,
        ensures
            r.wf(),
            r@ == entries_map(entries@),
    {
        let mut entries = entries;
        let mut r = FileIndex::new();
        let ghost orig = entries@;
        let ghost mut k: int = 0;
        proof {
            assert(orig.take(0) =~= Seq::<(LocalFilePath, SetName)>::empty());
        }
        while entries.len() > 0
            invariant
                0 <= k,
                k + entries@.len() == orig.len(),
                entries@ =~= orig.skip(k),
                forall|i: int|
                    0 <= i < orig.len() ==> (#[trigger] orig[i]).0.wf() && orig[i].0@.len() > 0,
                r.wf(),
                r@ == entries_map(orig.take(k)),
            decreases entries@.len(),
        {
            proof {
                assert(entries@[0] == orig[k]);
                assert(orig.take(k + 1).drop_last() =~= orig.take(k));
            }
            let (p, n) = entries.remove(0);
            r.set(p, n);
            proof {
                k = k + 1;
                assert(entries@ =~= orig.skip(k));
            }
        }
        proof {
            assert(orig.take(k) =~= orig);
        }
        r
    }

    /// Borrows the entries, for callers that persist or display the index.
    pub fn entries(&self) -> (r: &Vec<(LocalFilePath, SetName)>)
        ensures
            r@ == self.entries@,
    {
        &self.entries
    }

    /// Copies this index.
    pub fn dup(&self) -> (r: FileIndex)
        requires
            self.wf(),
        ensures
            r.wf(),
            r@ == self@,
            r.entries@.len() == self.entries@.len(),
            forall|i: int|
                0 <= i < self.entries@.len() ==> (#[trigger] r.entries@[i]).0@
                    == self.entries@[i].0@ && r.entries@[i].1@ == self.entries@[i].1@,
    {
        let mut entries: Vec<(LocalFilePath, SetName)> = Vec::new();
        let mut i: usize = 0;
        while i < self.entries.len()
            invariant
                i <= self.entries@.len(),
                entries@.len() == i,
                forall|j: int|
                    0 <= j < i ==> (#[trigger] entries@[j]).0@ == self.entries@[j].0@
                        && entries@[j].1@ == self.entries@[j].1@,
                entries_map(entries@) == entries_map(self.entries@.take(i as int)),
            decreases self.entries@.len() - i,
        {
            let ghost prev = entries@;
            let p = self.entries[i].0.dup();
            let n = self.entries[i].1.dup();
            entries.push((p, n));
            proof {
                assert(entries@.drop_last() =~= prev);
                assert(self.entries@.take((i + 1) as int).drop_last() =~= self.entries@.take(
                    i as int,
                ));
                assert(self.entries@.take((i + 1) as int).last() == self.entries@[i as int]);
            }
            i += 1;
        }
        proof {
            assert(self.entries@.take(self.entries@.len() as int) =~= self.entries@);
        }
        FileIndex { entries }
    }
}

/// Some path in `v` equals `p`.
pub fn paths_contain_exec(v: &Vec<LocalFilePath>, p: &LocalFilePath) -> (r: bool)
    ensures
        r == crate::paths::paths_contain(v@, p@),
{
    let mut i: usize = 0;
    while i < v.len()
        invariant
            i <= v@.len(),
            forall|j: int| 0 <= j < i ==> (#[trigger] v@[j])@ != p@,
        decreases v@.len() - i,
    {
        if v[i] == *p {
            return true;
        }
        i += 1;
    }
    false
}

/// The index-diff at the heart of cleanup: every path the previous generation
/// owned that is still present locally (and not ignored) but absent from the
/// current generation, sorted.
pub fn old_files_since_last_pull(
    prev_index: &FileIndex,
    curr_index: &FileIndex,
    present: &Vec<LocalFilePath>,
) -> (r: Vec<LocalFilePath>)
    requires
        prev_index.wf(),
    ensures
        crate::paths::paths_sorted(r@),
        forall|q: Seq<Seq<char>>|
            #[trigger] crate::paths::paths_contain(r@, q) <==> (prev_index@.contains_key(q)
                && crate::paths::paths_contain(present@, q) && !curr_index@.contains_key(q)),
{
    let entries = prev_index.entries();
    let mut collected: Vec<LocalFilePath> = Vec::new();
    let mut i: usize = 0;
    while i < entries.len()
        invariant
            i <= entries@.len(),
            entries@ == prev_index.entries@,
            prev_index.wf(),
            forall|m: int, n: int|
                0 <= m < n < collected@.len() ==> (#[trigger] collected@[m])@ != (
                #[trigger] collected@[n])@,
            forall|q: Seq<Seq<char>>|
                #[trigger] crate::paths::paths_contain(collected@, q) <==> (exists|j: int|
                    0 <= j < i && (#[trigger] entries@[j]).0@ == q && crate::paths::paths_contain(
                        present@,
                        q,
                    ) && !curr_index@.contains_key(q)),
        decreases entries@.len() - i,
    {
        let ghost before = collected@;
        let p = &entries[i].0;
        if paths_contain_exec(present, p) && !curr_index.tracks(p) {
            proof {
                if crate::paths::paths_contain(collected@, p@) {
                    let j = choose|j: int|
                        0 <= j < i && (#[trigger] entries@[j]).0@ == p@
                            && crate::paths::paths_contain(present@, p@)
                            && !curr_index@.contains_key(p@);
                    assert(entries@[j].0@ == entries@[i as int].0@);
                    assert(false);
                }
            }
            collected.push(p.dup());
            proof {
                assert forall|q: Seq<Seq<char>>| #[trigger]
                    crate::paths::paths_contain(collected@, q) <==> (exists|j: int|
                        0 <= j < i + 1 && (#[trigger] entries@[j]).0@ == q
                            && crate::paths::paths_contain(present@, q)
                            && !curr_index@.contains_key(q)) by {
                    if crate::paths::paths_contain(collected@, q) {
                        let m = choose|m: int|
                            0 <= m < collected@.len() && (#[trigger] collected@[m])@ == q;
                        if m < before.len() {
                            assert(collected@[m] == before[m]);
                            assert(crate::paths::paths_contain(before, q));
                        } else {
                            assert(entries@[i as int].0@ == q);
                        }
                    }
                    if exists|j: int|
                        0 <= j < i + 1 && (#[trigger] entries@[j]).0@ == q
                            && crate::paths::paths_contain(present@, q)
                            && !curr_index@.contains_key(q) {
                        let j = choose|j: int|
                            0 <= j < i + 1 && (#[trigger] entries@[j]).0@ == q
                                && crate::paths::paths_contain(present@, q)
                                && !curr_index@.contains_key(q);
                        if j < i {
                            assert(crate::paths::paths_contain(before, q));
                            let m = choose|m: int|
                                0 <= m < before.len() && (#[trigger] before[m])@ == q;
                            assert(collected@[m] == before[m]);
                        } else {
                            assert(collected@[collected@.len() - 1]@ == q);
                        }
                    }
                }
            }
        } else {
            proof {
                assert forall|q: Seq<Seq<char>>| #[trigger]
                    crate::paths::paths_contain(collected@, q) <==> (exists|j: int|
                        0 <= j < i + 1 && (#[trigger] entries@[j]).0@ == q
                            && crate::paths::paths_contain(present@, q)
                            && !curr_index@.contains_key(q)) by {
                    if exists|j: int|
                        0 <= j < i + 1 && (#[trigger] entries@[j]).0@ == q
                            && crate::paths::paths_contain(present@, q)
                            && !curr_index@.contains_key(q) {
                        let j = choose|j: int|
                            0 <= j < i + 1 && (#[trigger] entries@[j]).0@ == q
                                && crate::paths::paths_contain(present@, q)
                                && !curr_index@.contains_key(q);
                        assert(j != i);
                    }
                }
            }
        }
        i += 1;
    }
    proof {
        lemma_entries_map_dom(prev_index.entries@);
        assert forall|q: Seq<Seq<char>>| #[trigger]
            crate::paths::paths_contain(collected@, q) <==> (prev_index@.contains_key(q)
                && crate::paths::paths_contain(present@, q) && !curr_index@.contains_key(q)) by {
            if prev_index@.contains_key(q) {
                assert(entries_have_key(prev_index.entries@, q));
            }
            if entries_have_key(prev_index.entries@, q) {
                assert(prev_index@.contains_key(q));
            }
        }
    }
    let sorted = crate::paths::sort_paths(collected);
    sorted
}

/// The ephemeral classification of every locally discovered file against the
/// index and the repo state: four disjoint partitions, plus the index-diff
/// carried along for reporting.
#[derive(Debug)]
pub struct LocalState {
    pub files_to_push: Vec<(SetName, Vec<LocalFilePath>)>,
    pub files_with_missing_sets: Vec<(SetName, Vec<LocalFilePath>)>,
    pub missing_files: Vec<(SetName, Vec<LocalFilePath>)>,
    pub untracked_files: Vec<LocalFilePath>,
    pub old_files_since_last_pull: Vec<LocalFilePath>,
}

/// The classifier keeps a walked path when it is neither a reserved file nor
/// under the repo root.
pub open spec fn keep_path(p: LocalFilePath, repo_prefix: Option<LocalFilePath>) -> bool {
    &&& !crate::is_special_path(p@)
    &&& (repo_prefix matches Some(q) ==> !crate::paths::is_prefix_of(q@, p@))
}

/// A kept walked file with view `q` exists.
pub open spec fn kept_walk(
    w: Seq<LocalFilePath>,
    repo_prefix: Option<LocalFilePath>,
    q: Seq<Seq<char>>,
) -> bool {
    exists|i: int| 0 <= i < w.len() && keep_path(#[trigger] w[i], repo_prefix) && w[i]@ == q
}

/// The index has no owner for the path.
pub open spec fn classifies_untracked(idx: Map<Seq<Seq<char>>, Seq<char>>, q: Seq<Seq<char>>) -> bool {
    !idx.contains_key(q)
}

/// The recorded owning set is absent from the repo.
pub open spec fn classifies_missing_set(
    idx: Map<Seq<Seq<char>>, Seq<char>>,
    repo: crate::repo::RepoState,
    q: Seq<Seq<char>>,
) -> bool {
    idx.contains_key(q) && !repo.has_set(idx[q])
}

/// The recorded owning set exists but no longer tracks the path.
pub open spec fn classifies_missing_file(
    idx: Map<Seq<Seq<char>>, Seq<char>>,
    repo: crate::repo::RepoState,
    q: Seq<Seq<char>>,
) -> bool {
    idx.contains_key(q) && repo.has_set(idx[q]) && !repo.set_named(idx[q]).tracks(q)
}

/// The recorded owning set exists and still tracks the path.
pub open spec fn classifies_to_push(
    idx: Map<Seq<Seq<char>>, Seq<char>>,
    repo: crate::repo::RepoState,
    q: Seq<Seq<char>>,
) -> bool {
    idx.contains_key(q) && repo.has_set(idx[q]) && repo.set_named(idx[q]).tracks(q)
}

/// Some group is named `n`.
pub open spec fn group_named(groups: Seq<(SetName, Vec<LocalFilePath>)>, n: Seq<char>) -> bool {
    exists|gi: int| 0 <= gi < groups.len() && (#[trigger] groups[gi]).0@ == n
}

/// The group named `n` holds a path with view `q`.
pub open spec fn group_files(
    groups: Seq<(SetName, Vec<LocalFilePath>)>,
    n: Seq<char>,
    q: Seq<Seq<char>>,
) -> bool {
    exists|gi: int|
        0 <= gi < groups.len() && (#[trigger] groups[gi]).0@ == n && crate::paths::paths_contain(
            groups[gi].1@,
            q,
        )
}

/// The groups hold, under distinct set names and without empty groups,
/// exactly the kept walked files that `owner_of` assigns to each name.
pub open spec fn grouped_by(
    groups: Seq<(SetName, Vec<LocalFilePath>)>,
    w: Seq<LocalFilePath>,
    repo_prefix: Option<LocalFilePath>,
    owner_of: spec_fn(Seq<Seq<char>>) -> Option<Seq<char>>,
) -> bool {
    &&& (forall|i: int, j: int|
        0 <= i < j < groups.len() ==> (#[trigger] groups[i]).0@ != (#[trigger] groups[j]).0@)
    &&& (forall|gi: int| 0 <= gi < groups.len() ==> (#[trigger] groups[gi]).1@.len() > 0)
    &&& (forall|n: Seq<char>, q: Seq<Seq<char>>|
        #[trigger] group_files(groups, n, q) ==> kept_walk(w, repo_prefix, q) && owner_of(q)
            == Some(n))
    &&& (forall|q: Seq<Seq<char>>|
        #[trigger] kept_walk(w, repo_prefix, q) ==> (owner_of(q) matches Some(n)
            ==> group_files(groups, n, q)))
}

/// Appends one path to the files of group `i`, leaving every other group
/// untouched.
fn append_to_group(groups: &mut Vec<(SetName, Vec<LocalFilePath>)>, i: usize, p: LocalFilePath)
    requires
        i < old(groups)@.len(),
    ensures
        final(groups)@.len() == old(groups)@.len(),
        forall|gi: int|
            0 <= gi < final(groups)@.len() && gi != i ==> #[trigger] final(groups)@[gi] == old(
                groups,
            )@[gi],
        final(groups)@[i as int].0 == old(groups)@[i as int].0,
        final(groups)@[i as int].1@ == old(groups)@[i as int].1@.push(p),
{
    let ghost orig = groups@;
    let (name, mut files) = groups.remove(i);
    let ghost mid = groups@;
    files.push(p);
    groups.insert(i, (name, files));
    proof {
        orig.remove_ensures(i as int);
        mid.insert_ensures(i as int, groups@[i as int]);
        assert forall|gi: int|
            0 <= gi < groups@.len() && gi != i implies #[trigger] groups@[gi] == orig[gi] by {
            if gi < i {
                assert(groups@[gi] == mid[gi]);
                assert(mid[gi] == orig[gi]);
            } else {
                assert(groups@[gi] == mid.insert(i as int, groups@[i as int])[(gi - 1) + 1]);
                assert(groups@[gi] == mid[gi - 1]);
                assert(mid[gi - 1] == orig[gi]);
            }
        }
    }
}

/// Adds one path to the group of `name`, opening the group if it is new.
fn push_group(groups: &mut Vec<(SetName, Vec<LocalFilePath>)>, name: SetName, p: LocalFilePath)
    requires
        forall|i: int, j: int|
            0 <= i < j < old(groups)@.len() ==> (#[trigger] old(groups)@[i]).0@ != (
            #[trigger] old(groups)@[j]).0@,
        forall|gi: int| 0 <= gi < old(groups)@.len() ==> (#[trigger] old(groups)@[gi]).1@.len() > 0,
    ensures
        forall|i: int, j: int|
            0 <= i < j < final(groups)@.len() ==> (#[trigger] final(groups)@[i]).0@ != (
            #[trigger] final(groups)@[j]).0@,
        forall|gi: int|
            0 <= gi < final(groups)@.len() ==> (#[trigger] final(groups)@[gi]).1@.len() > 0,
        forall|n: Seq<char>, q: Seq<Seq<char>>|
            #[trigger] group_files(final(groups)@, n, q) <==> (group_files(old(groups)@, n, q)
                || (n == name@ && q == p@)),
        forall|n: Seq<char>|
            #[trigger] group_named(final(groups)@, n) <==> (group_named(old(groups)@, n) || n
                == name@),
{
    let ghost orig = groups@;
    let mut i: usize = 0;
    while i < groups.len()
        invariant
            i <= groups@.len(),
            groups@ == orig,
            orig == old(groups)@,
            forall|m: int, n: int|
                0 <= m < n < orig.len() ==> (#[trigger] orig[m]).0@ != (#[trigger] orig[n]).0@,
            forall|gi: int| 0 <= gi < orig.len() ==> (#[trigger] orig[gi]).1@.len() > 0,
            forall|j: int| 0 <= j < i ==> (#[trigger] orig[j]).0@ != name@,
        decreases groups@.len() - i,
    {
        if groups[i].0 == name {
            let ghost fprev = orig[i as int].1@;
            append_to_group(groups, i, p);
            proof {
                assert(groups@[i as int].0@ == name@);
                assert(orig[i as int].0@ == name@);
                assert(groups@[i as int].1@ == fprev.push(p));
                assert forall|gj: int|
                    0 <= gj < orig.len() && (#[trigger] orig[gj]).0@ == name@ implies gj
                    == i by {
                    if gj != i {
                        assert(orig[gj].0@ != orig[i as int].0@);
                    }
                }
                assert forall|gj: int|
                    0 <= gj < groups@.len() && (#[trigger] groups@[gj]).0@ == name@ implies gj
                    == i by {
                    if gj != i {
                        assert(groups@[gj] == orig[gj]);
                    }
                }
                assert forall|n: Seq<char>, q: Seq<Seq<char>>| #[trigger]
                    group_files(groups@, n, q) <==> (group_files(orig, n, q) || (n == name@ && q
                    == p@)) by {
                    if group_files(groups@, n, q) {
                        let gi = choose|gi: int|
                            0 <= gi < groups@.len() && (#[trigger] groups@[gi]).0@ == n
                                && crate::paths::paths_contain(groups@[gi].1@, q);
                        if gi != i {
                            assert(groups@[gi] == orig[gi]);
                            assert(group_files(orig, n, q));
                        } else {
                            let fnow = groups@[i as int].1@;
                            let m = choose|m: int|
                                0 <= m < fnow.len() && (#[trigger] fnow[m])@ == q;
                            if m < fprev.len() {
                                assert(fprev[m]@ == q);
                                assert(crate::paths::paths_contain(fprev, q));
                                assert(group_files(orig, n, q));
                            } else {
                                assert(fnow[m] == p);
                            }
                        }
                    }
                    if group_files(orig, n, q) {
                        let gi = choose|gi: int|
                            0 <= gi < orig.len() && (#[trigger] orig[gi]).0@ == n
                                && crate::paths::paths_contain(orig[gi].1@, q);
                        if gi != i {
                            assert(groups@[gi] == orig[gi]);
                            assert(group_files(groups@, n, q));
                        } else {
                            let m = choose|m: int|
                                0 <= m < fprev.len() && (#[trigger] fprev[m])@ == q;
                            assert(groups@[i as int].1@[m]@ == q);
                            assert(crate::paths::paths_contain(groups@[i as int].1@, q));
                            assert(group_files(groups@, n, q));
                        }
                    }
                    if n == name@ && q == p@ {
                        let fnow = groups@[i as int].1@;
                        assert(fnow[fprev.len() as int]@ == q);
                        assert(crate::paths::paths_contain(fnow, q));
                        assert(group_files(groups@, n, q));
                    }
                }
                assert forall|n: Seq<char>| #[trigger]
                    group_named(groups@, n) <==> (group_named(orig, n) || n == name@) by {
                    if group_named(groups@, n) {
                        let gi = choose|gi: int|
                            0 <= gi < groups@.len() && (#[trigger] groups@[gi]).0@ == n;
                        assert(groups@[gi].0@ == orig[gi].0@ || groups@[gi] == orig[gi]);
                        assert(group_named(orig, n));
                    }
                    if group_named(orig, n) {
                        let gi = choose|gi: int|
                            0 <= gi < orig.len() && (#[trigger] orig[gi]).0@ == n;
                        if gi != i {
                            assert(groups@[gi] == orig[gi]);
                        }
                        assert(group_named(groups@, n));
                    }
                    if n == name@ {
                        assert(group_named(groups@, n));
                    }
                }
                assert forall|gi: int|
                    0 <= gi < groups@.len() implies (#[trigger] groups@[gi]).1@.len() > 0 by {
                    if gi != i {
                        assert(groups@[gi] == orig[gi]);
                    }
                }
                assert forall|gi: int, gj: int|
                    0 <= gi < gj < groups@.len() implies (#[trigger] groups@[gi]).0@ != (
                #[trigger] groups@[gj]).0@ by {
                    if gi != i {
                        assert(groups@[gi] == orig[gi]);
                    }
                    if gj != i {
                        assert(groups@[gj] == orig[gj]);
                    }
                    assert(groups@[gi].0@ == orig[gi].0@);
                    assert(groups@[gj].0@ == orig[gj].0@);
                }
            }
            return ;
        }
        i += 1;
    }
    let mut files: Vec<LocalFilePath> = Vec::new();
    files.push(p);
    groups.push((name, files));
    proof {
        assert(groups@.len() == orig.len() + 1);
        assert forall|gi: int| 0 <= gi < orig.len() implies groups@[gi] == orig[gi] by {
            assert(groups@[gi] == orig.push(groups@[orig.len() as int])[gi]);
        }
        assert(groups@[orig.len() as int].0@ == name@);
        let files_seq = groups@[orig.len() as int].1@;
        assert(files_seq.len() == 1 && files_seq[0]@ == p@);
        assert forall|q: Seq<Seq<char>>|
            crate::paths::paths_contain(files_seq, q) <==> q == p@ by {
            if crate::paths::paths_contain(files_seq, q) {
                let m = choose|m: int| 0 <= m < files_seq.len() && (#[trigger] files_seq[m])@ == q;
                assert(m == 0);
            }
            if q == p@ {
                assert(files_seq[0]@ == q);
            }
        }
        assert forall|n: Seq<char>, q: Seq<Seq<char>>| #[trigger]
            group_files(groups@, n, q) <==> (group_files(orig, n, q) || (n == name@ && q
            == p@)) by {
            if group_files(groups@, n, q) {
                let gi = choose|gi: int|
                    0 <= gi < groups@.len() && (#[trigger] groups@[gi]).0@ == n
                        && crate::paths::paths_contain(groups@[gi].1@, q);
                if gi < orig.len() {
                    assert(groups@[gi] == orig[gi]);
                    assert(group_files(orig, n, q));
                }
            }
            if group_files(orig, n, q) {
                let gi = choose|gi: int|
                    0 <= gi < orig.len() && (#[trigger] orig[gi]).0@ == n
                        && crate::paths::paths_contain(orig[gi].1@, q);
                assert(groups@[gi] == orig[gi]);
                assert(group_files(groups@, n, q));
            }
            if n == name@ && q == p@ {
                assert(group_files(groups@, n, q));
            }
        }
        assert forall|n: Seq<char>| #[trigger]
            group_named(groups@, n) <==> (group_named(orig, n) || n == name@) by {
            if group_named(groups@, n) {
                let gi = choose|gi: int| 0 <= gi < groups@.len() && (#[trigger] groups@[gi]).0@
                    == n;
                if gi < orig.len() {
                    assert(groups@[gi] == orig[gi]);
                    assert(group_named(orig, n));
                }
            }
            if group_named(orig, n) {
                let gi = choose|gi: int| 0 <= gi < orig.len() && (#[trigger] orig[gi]).0@ == n;
                assert(groups@[gi] == orig[gi]);
                assert(group_named(groups@, n));
            }
            if n == name@ {
                assert(group_named(groups@, n));
            }
        }
        assert forall|gi: int, gj: int|
            0 <= gi < gj < groups@.len() implies (#[trigger] groups@[gi]).0@ != (
        #[trigger] groups@[gj]).0@ by {
            if gj < orig.len() {
                assert(groups@[gi] == orig[gi]);
                assert(groups@[gj] == orig[gj]);
            } else {
                assert(groups@[gi] == orig[gi]);
                assert(orig[gi].0@ != name@);
            }
        }
        assert forall|gi: int|
            0 <= gi < groups@.len() implies (#[trigger] groups@[gi]).1@.len() > 0 by {
            if gi < orig.len() {
                assert(groups@[gi] == orig[gi]);
            }
        }
    }
}

/// The owner assignment of the to-push partition: the recorded owner, for
/// paths whose set still tracks them.
pub open spec fn owner_to_push(
    idx: Map<Seq<Seq<char>>, Seq<char>>,
    repo: crate::repo::RepoState,
) -> spec_fn(Seq<Seq<char>>) -> Option<Seq<char>> {
    |q: Seq<Seq<char>>|
        if classifies_to_push(idx, repo, q) {
            Some(idx[q])
        } else {
            None
        }
}

/// The owner assignment of the missing-set partition.
pub open spec fn owner_missing_set(
    idx: Map<Seq<Seq<char>>, Seq<char>>,
    repo: crate::repo::RepoState,
) -> spec_fn(Seq<Seq<char>>) -> Option<Seq<char>> {
    |q: Seq<Seq<char>>|
        if classifies_missing_set(idx, repo, q) {
            Some(idx[q])
        } else {
            None
        }
}

/// The owner assignment of the missing-file partition.
pub open spec fn owner_missing_file(
    idx: Map<Seq<Seq<char>>, Seq<char>>,
    repo: crate::repo::RepoState,
) -> spec_fn(Seq<Seq<char>>) -> Option<Seq<char>> {
    |q: Seq<Seq<char>>|
        if classifies_missing_file(idx, repo, q) {
            Some(idx[q])
        } else {
            None
        }
}

/// Decides whether the classifier keeps a walked path.
fn keep_path_exec(p: &LocalFilePath, repo_prefix: &Option<LocalFilePath>) -> (r: bool)
    ensures
        r == keep_path(*p, *repo_prefix),
{
    if crate::is_monja_special_file(p) {
        return false;
    }
    match repo_prefix {
        Option::Some(q) => !p.is_child_of(q),
        Option::None => true,
    }
}

/// Classifies every locally discovered file against the index and the repo
/// state, building the four disjoint partitions of the local state, and
/// carries the index-diff along. Reserved files and files under the repo root
/// are skipped. Nothing is mutated: the same inputs classify the same way on
/// every call.
pub fn retrieve_state(
    walked: Vec<LocalFilePath>,
    repo_prefix: Option<LocalFilePath>,
    curr_index: &FileIndex,
    prev_index: &FileIndex,
    repo: &crate::repo::RepoState,
) -> (r: LocalState)
    requires
        curr_index.wf(),
        prev_index.wf(),
        repo.wf(),
    ensures
        grouped_by(
            r.files_to_push@,
            walked@,
            repo_prefix,
            owner_to_push(curr_index@, *repo),
        ),
        grouped_by(
            r.files_with_missing_sets@,
            walked@,
            repo_prefix,
            owner_missing_set(curr_index@, *repo),
        ),
        grouped_by(
            r.missing_files@,
            walked@,
            repo_prefix,
            owner_missing_file(curr_index@, *repo),
        ),
        forall|q: Seq<Seq<char>>|
            #[trigger] crate::paths::paths_contain(r.untracked_files@, q) <==> (kept_walk(
                walked@,
                repo_prefix,
                q,
            ) && classifies_untracked(curr_index@, q)),
        crate::paths::paths_sorted(r.old_files_since_last_pull@),
        forall|q: Seq<Seq<char>>|
            #[trigger] crate::paths::paths_contain(r.old_files_since_last_pull@, q) <==> (
            prev_index@.contains_key(q) && kept_walk(walked@, repo_prefix, q)
                && !curr_index@.contains_key(q)),
{
    let ghost worig = walked@;
    let mut walked = walked;
    let mut kept: Vec<LocalFilePath> = Vec::new();
    let ghost mut k: int = 0;
    proof {
        assert(worig.take(0) =~= Seq::<LocalFilePath>::empty());
    }
    while walked.len() > 0
        invariant
            0 <= k,
            k + walked@.len() == worig.len(),
            walked@ =~= worig.skip(k),
            forall|m: int| 0 <= m < kept@.len() ==> keep_path(#[trigger] kept@[m], repo_prefix),
            forall|q: Seq<Seq<char>>|
                #[trigger] crate::paths::paths_contain(kept@, q) <==> kept_walk(
                    worig.take(k),
                    repo_prefix,
                    q,
                ),
        decreases walked@.len(),
    {
        let ghost kprev = kept@;
        proof {
            assert(walked@[0] == worig[k]);
            assert(worig.take(k + 1).drop_last() =~= worig.take(k));
            assert(worig.take(k + 1).last() == worig[k]);
        }
        let p = walked.remove(0);
        let keep_it = keep_path_exec(&p, &repo_prefix);
        let ghost pview = p@;
        if keep_it {
            kept.push(p);
        }
        proof {
            k = k + 1;
            assert(walked@ =~= worig.skip(k));
            let taken = worig.take(k);
            assert forall|q: Seq<Seq<char>>| #[trigger]
                crate::paths::paths_contain(kept@, q) <==> kept_walk(
                taken,
                repo_prefix,
                q,
            ) by {
                if crate::paths::paths_contain(kept@, q) {
                    let m = choose|m: int| 0 <= m < kept@.len() && (#[trigger] kept@[m])@ == q;
                    if m < kprev.len() {
                        assert(kept@[m] == kprev[m]);
                        assert(crate::paths::paths_contain(kprev, q));
                        let i = choose|i: int|
                            0 <= i < worig.take(k - 1).len() && keep_path(
                                #[trigger] worig.take(k - 1)[i],
                                repo_prefix,
                            ) && worig.take(k - 1)[i]@ == q;
                        assert(taken[i] == worig.take(k - 1)[i]);
                        assert(kept_walk(taken, repo_prefix, q));
                    } else {
                        assert(kept@[m] == worig[k - 1]);
                        assert(taken[k - 1] == worig[k - 1]);
                        assert(kept_walk(taken, repo_prefix, q));
                    }
                }
                if kept_walk(taken, repo_prefix, q) {
                    let i = choose|i: int|
                        0 <= i < taken.len() && keep_path(#[trigger] taken[i], repo_prefix)
                            && taken[i]@ == q;
                    if i < k - 1 {
                        assert(worig.take(k - 1)[i] == taken[i]);
                        assert(kept_walk(worig.take(k - 1), repo_prefix, q));
                        assert(crate::paths::paths_contain(kprev, q));
                        let m = choose|m: int|
                            0 <= m < kprev.len() && (#[trigger] kprev[m])@ == q;
                        assert(kept@[m] == kprev[m]);
                        assert(crate::paths::paths_contain(kept@, q));
                    } else {
                        assert(taken[i] == worig[k - 1]);
                        assert(keep_path(worig[k - 1], repo_prefix));
                        assert(kept@[kept@.len() - 1]@ == q);
                        assert(crate::paths::paths_contain(kept@, q));
                    }
                }
            }
        }
    }
    proof {
        assert(worig.take(k) =~= worig);
    }
    let ghost kept0 = kept@;
    let old_files = old_files_since_last_pull(prev_index, curr_index, &kept);

    let mut kept = kept;
    let mut files_to_push: Vec<(SetName, Vec<LocalFilePath>)> = Vec::new();
    let mut files_with_missing_sets: Vec<(SetName, Vec<LocalFilePath>)> = Vec::new();
    let mut missing_files: Vec<(SetName, Vec<LocalFilePath>)> = Vec::new();
    let mut untracked_files: Vec<LocalFilePath> = Vec::new();
    let ghost o_push = owner_to_push(curr_index@, *repo);
    let ghost o_mset = owner_missing_set(curr_index@, *repo);
    let ghost o_mfile = owner_missing_file(curr_index@, *repo);
    let ghost mut k2: int = 0;
    proof {
        assert(kept0.take(0) =~= Seq::<LocalFilePath>::empty());
    }
    while kept.len() > 0
        invariant
            0 <= k2,
            k2 + kept@.len() == kept0.len(),
            kept@ =~= kept0.skip(k2),
            curr_index.wf(),
            repo.wf(),
            o_push == owner_to_push(curr_index@, *repo),
            o_mset == owner_missing_set(curr_index@, *repo),
            o_mfile == owner_missing_file(curr_index@, *repo),
            forall|m: int| 0 <= m < kept0.len() ==> keep_path(#[trigger] kept0[m], repo_prefix),
            grouped_by(files_to_push@, kept0.take(k2), repo_prefix, o_push),
            grouped_by(files_with_missing_sets@, kept0.take(k2), repo_prefix, o_mset),
            grouped_by(missing_files@, kept0.take(k2), repo_prefix, o_mfile),
            forall|q: Seq<Seq<char>>|
                #[trigger] crate::paths::paths_contain(untracked_files@, q) <==> (kept_walk(
                    kept0.take(k2),
                    repo_prefix,
                    q,
                ) && classifies_untracked(curr_index@, q)),
        decreases kept@.len(),
    {
        proof {
            assert(kept@[0] == kept0[k2]);
            assert(kept0.take(k2 + 1).drop_last() =~= kept0.take(k2));
            assert(kept0.take(k2 + 1).last() == kept0[k2]);
        }
        let p = kept.remove(0);
        let ghost pview = p@;
        let ghost taken_prev = kept0.take(k2);
        let ghost taken = kept0.take(k2 + 1);
        proof {
            assert(keep_path(kept0[k2], repo_prefix));
            assert forall|q: Seq<Seq<char>>| #[trigger]
                kept_walk(taken, repo_prefix, q) <==> (kept_walk(taken_prev, repo_prefix, q) || q
                == pview) by {
                if kept_walk(taken, repo_prefix, q) {
                    let i = choose|i: int|
                        0 <= i < taken.len() && keep_path(#[trigger] taken[i], repo_prefix)
                            && taken[i]@ == q;
                    if i < k2 {
                        assert(taken_prev[i] == taken[i]);
                        assert(kept_walk(taken_prev, repo_prefix, q));
                    } else {
                        assert(taken[i] == kept0[k2]);
                    }
                }
                if kept_walk(taken_prev, repo_prefix, q) {
                    let i = choose|i: int|
                        0 <= i < taken_prev.len() && keep_path(
                            #[trigger] taken_prev[i],
                            repo_prefix,
                        ) && taken_prev[i]@ == q;
                    assert(taken[i] == taken_prev[i]);
                    assert(kept_walk(taken, repo_prefix, q));
                }
                if q == pview {
                    assert(taken[k2] == kept0[k2]);
                    assert(kept_walk(taken, repo_prefix, q));
                }
            }
        }
        let owner = match curr_index.get(&p) {
            Option::Some(n) => Some(n.dup()),
            Option::None => None,
        };
        match owner {
            Option::None => {
                let ghost uprev = untracked_files@;
                untracked_files.push(p);
                proof {
                    assert forall|q: Seq<Seq<char>>| #[trigger]
                        crate::paths::paths_contain(untracked_files@, q) <==> (kept_walk(
                        taken,
                        repo_prefix,
                        q,
                    ) && classifies_untracked(curr_index@, q)) by {
                        if crate::paths::paths_contain(untracked_files@, q) {
                            let m = choose|m: int|
                                0 <= m < untracked_files@.len() && (
                                #[trigger] untracked_files@[m])@ == q;
                            if m < uprev.len() {
                                assert(untracked_files@[m] == uprev[m]);
                                assert(crate::paths::paths_contain(uprev, q));
                            } else {
                                assert(untracked_files@[m]@ == pview);
                            }
                        }
                        if kept_walk(taken, repo_prefix, q) && classifies_untracked(
                            curr_index@,
                            q,
                        ) {
                            if q == pview {
                                assert(untracked_files@[untracked_files@.len() - 1]@ == q);
                            } else {
                                assert(kept_walk(taken_prev, repo_prefix, q));
                                assert(crate::paths::paths_contain(uprev, q));
                                let m = choose|m: int|
                                    0 <= m < uprev.len() && (#[trigger] uprev[m])@ == q;
                                assert(untracked_files@[m] == uprev[m]);
                            }
                        }
                    }
                }
            },
            Option::Some(set_name) => {
                proof {
                    assert(curr_index@.contains_key(pview));
                    assert(curr_index@[pview] == set_name@);
                }
                let found = repo.find_set(&set_name);
                match found {
                    Option::None => {
                        proof {
                            assert(classifies_missing_set(curr_index@, *repo, pview));
                        }
                        push_group(&mut files_with_missing_sets, set_name, p);
                    },
                    Option::Some(set) => {
                        if set.tracks_file(&p) {
                            proof {
                                assert(*set == repo.set_named(set_name@));
                                assert(classifies_to_push(curr_index@, *repo, pview));
                            }
                            push_group(&mut files_to_push, set_name, p);
                        } else {
                            proof {
                                assert(*set == repo.set_named(set_name@));
                                assert(classifies_missing_file(curr_index@, *repo, pview));
                            }
                            push_group(&mut missing_files, set_name, p);
                        }
                    },
                }
            },
        }
        proof {
            k2 = k2 + 1;
            assert(kept@ =~= kept0.skip(k2));
            lemma_grouped_step(files_to_push@, taken_prev, taken, repo_prefix, o_push, pview);
            lemma_grouped_step(
                files_with_missing_sets@,
                taken_prev,
                taken,
                repo_prefix,
                o_mset,
                pview,
            );
            lemma_grouped_step(missing_files@, taken_prev, taken, repo_prefix, o_mfile, pview);
        }
    }
    proof {
        assert(kept0.take(k2) =~= kept0);
        lemma_kept_walk_lift(kept0, worig, repo_prefix);
        lemma_grouped_by_lift(files_to_push@, kept0, worig, repo_prefix, o_push);
        lemma_grouped_by_lift(files_with_missing_sets@, kept0, worig, repo_prefix, o_mset);
        lemma_grouped_by_lift(missing_files@, kept0, worig, repo_prefix, o_mfile);
    }
    LocalState {
        files_to_push,
        files_with_missing_sets,
        missing_files,
        untracked_files,
        old_files_since_last_pull: old_files,
    }
}

/// After one step, groups that already satisfy the step's membership change
/// satisfy `grouped_by` over the extended walk.
proof fn lemma_grouped_step(
    groups: Seq<(SetName, Vec<LocalFilePath>)>,
    taken_prev: Seq<LocalFilePath>,
    taken: Seq<LocalFilePath>,
    repo_prefix: Option<LocalFilePath>,
    owner: spec_fn(Seq<Seq<char>>) -> Option<Seq<char>>,
    pview: Seq<Seq<char>>,
)
    requires
        forall|q: Seq<Seq<char>>|
            #[trigger] kept_walk(taken, repo_prefix, q) <==> (kept_walk(taken_prev, repo_prefix, q)
                || q == pview),
        forall|i: int, j: int|
            0 <= i < j < groups.len() ==> (#[trigger] groups[i]).0@ != (#[trigger] groups[j]).0@,
        forall|gi: int| 0 <= gi < groups.len() ==> (#[trigger] groups[gi]).1@.len() > 0,
        forall|n: Seq<char>, q: Seq<Seq<char>>|
            #[trigger] group_files(groups, n, q) ==> ((kept_walk(taken_prev, repo_prefix, q)
                && owner(q) == Some(n)) || (q == pview && owner(q) == Some(n))),
        forall|q: Seq<Seq<char>>|
            #[trigger] kept_walk(taken_prev, repo_prefix, q) ==> (owner(q) matches Some(n)
                ==> group_files(groups, n, q)),
        owner(pview) matches Some(n) ==> group_files(groups, n, pview),
    ensures
        grouped_by(groups, taken, repo_prefix, owner),
{
    assert forall|n: Seq<char>, q: Seq<Seq<char>>| #[trigger]
        group_files(groups, n, q) implies kept_walk(taken, repo_prefix, q) && owner(q) == Some(
        n,
    ) by {
        assert((kept_walk(taken_prev, repo_prefix, q) && owner(q) == Some(n)) || (q == pview
            && owner(q) == Some(n)));
    }
    assert forall|q: Seq<Seq<char>>| #[trigger]
        kept_walk(taken, repo_prefix, q) implies (owner(q) matches Some(n) ==> group_files(
        groups,
        n,
        q,
    )) by {
        assert(kept_walk(taken_prev, repo_prefix, q) || q == pview);
    }
}

/// `grouped_by` only sees which paths a walk keeps, so it transfers between
/// walks that keep the same paths.
proof fn lemma_grouped_by_lift(
    groups: Seq<(SetName, Vec<LocalFilePath>)>,
    w1: Seq<LocalFilePath>,
    w2: Seq<LocalFilePath>,
    repo_prefix: Option<LocalFilePath>,
    owner: spec_fn(Seq<Seq<char>>) -> Option<Seq<char>>,
)
    requires
        grouped_by(groups, w1, repo_prefix, owner),
        forall|q: Seq<Seq<char>>|
            #[trigger] kept_walk(w1, repo_prefix, q) <==> kept_walk(w2, repo_prefix, q),
    ensures
        grouped_by(groups, w2, repo_prefix, owner),
{
    assert forall|n: Seq<char>, q: Seq<Seq<char>>| #[trigger]
        group_files(groups, n, q) implies kept_walk(w2, repo_prefix, q) && owner(q) == Some(n) by {
        assert(kept_walk(w1, repo_prefix, q));
    }
    assert forall|q: Seq<Seq<char>>| #[trigger]
        kept_walk(w2, repo_prefix, q) implies (owner(q) matches Some(n) ==> group_files(
        groups,
        n,
        q,
    )) by {
        assert(kept_walk(w1, repo_prefix, q));
    }
}

/// The kept-walk predicate and the partition conditions only see which paths
/// the walk keeps, so they transfer between walks that keep the same paths.
proof fn lemma_kept_walk_lift(
    kept0: Seq<LocalFilePath>,
    worig: Seq<LocalFilePath>,
    repo_prefix: Option<LocalFilePath>,
)
    requires
        forall|m: int| 0 <= m < kept0.len() ==> keep_path(#[trigger] kept0[m], repo_prefix),
        forall|q: Seq<Seq<char>>|
            #[trigger] crate::paths::paths_contain(kept0, q) <==> kept_walk(worig, repo_prefix, q),
    ensures
        forall|q: Seq<Seq<char>>|
            #[trigger] kept_walk(kept0, repo_prefix, q) <==> kept_walk(worig, repo_prefix, q),
{
    assert forall|q: Seq<Seq<char>>| #[trigger]
        kept_walk(kept0, repo_prefix, q) <==> kept_walk(worig, repo_prefix, q) by {
        if kept_walk(kept0, repo_prefix, q) {
            let i = choose|i: int|
                0 <= i < kept0.len() && keep_path(#[trigger] kept0[i], repo_prefix) && kept0[i]@
                    == q;
            assert(crate::paths::paths_contain(kept0, q));
        }
        if kept_walk(worig, repo_prefix, q) {
            assert(crate::paths::paths_contain(kept0, q));
            let m = choose|m: int| 0 <= m < kept0.len() && (#[trigger] kept0[m])@ == q;
            assert(keep_path(kept0[m], repo_prefix));
            assert(kept_walk(kept0, repo_prefix, q));
        }
    }
}

/// A failure while walking the local tree, reported by the caller that
/// performed the walk.
#[derive(Debug)]
pub struct LocalWalkError {
    pub message: String,
}

/// Which generation of the index a file holds.
#[derive(Debug)]
pub enum IndexKind {
    Current,
    Previous,
}

impl IndexKind {
    /// The file name the generation persists under.
    pub fn file_name(&self) -> (r: &'static str)
        ensures
            self is Current ==> r@ == "monja-index.toml"@,
            self is Previous ==> r@ == "monja-index-prev.toml"@,
    {
        match self {
            IndexKind::Current => "monja-index.toml",
            IndexKind::Previous => "monja-index-prev.toml",
        }
    }
}

} // verus!
