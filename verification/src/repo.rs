//! The repo side of the model: named sets, their shortcuts, and the
//! construction of a full repo-state snapshot from per-set inputs.
//!
//! A set is a directory at the top of the repo; its optional shortcut says
//! where under the local root its files mount. The loader validates every
//! shortcut and accumulates all errors instead of stopping at the first one.

use vstd::prelude::*;

use crate::paths::{
    all_valid_segments, clone_segments, lemma_resolve_valid, push_segment, resolve, resolve_spec,
    AbsolutePath, LocalFilePath, RawPath,
};

verus! {

/// A case-sensitive set identifier; equality is structural.
#[derive(Debug)]
pub struct SetName(pub String);

impl View for SetName {
    type V = Seq<char>;

    open spec fn view(&self) -> Seq<char> {
        self.0@
    }
}

impl SetName {
    /// Copies this name.
    pub fn dup(&self) -> (r: SetName)
        ensures
            r@ == self@,
    {
        SetName(self.0.clone())
    }
}

impl PartialEq for SetName {
    fn eq(&self, other: &SetName) -> (r: bool) {
        self.0 == other.0
    }
}

impl vstd::std_specs::cmp::PartialEqSpecImpl for SetName {
    open spec fn obeys_eq_spec() -> bool {
        true
    }

    open spec fn eq_spec(&self, other: &SetName) -> bool {
        self@ == other@
    }
}

/// The optional per-set configuration: where under the local root the set
/// mounts. Absent means an empty shortcut, i.e. the local root itself.
#[derive(Debug)]
pub struct SetConfig {
    pub shortcut: Option<RawPath>,
}

/// A validated shortcut: the relative mount point of a set under the local
/// root, held fully resolved.
#[derive(Debug)]
pub struct SetShortcut {
    pub segments: Vec<String>,
}

impl View for SetShortcut {
    type V = Seq<Seq<char>>;

    open spec fn view(&self) -> Seq<Seq<char>> {
        self.segments.deep_view()
    }
}

/// The ways a raw shortcut value is rejected.
#[derive(Debug)]
pub enum SetShortcutError {
    /// The value is an absolute path.
    NotRelative { path: RawPath },
    /// The value is non-empty yet resolves to the empty path, the signature
    /// of traversal above the local root (`..`, `../..`, ...).
    TraversalToParent { path: RawPath },
}

/// A non-empty raw value that resolves to nothing tries to traverse above the
/// root.
pub open spec fn shortcut_acceptable(path: RawPath) -> bool {
    &&& !path.absolute
    &&& (resolve_spec(Seq::empty(), path@).len() > 0 || path@.len() == 0)
}

/// What an accepted shortcut resolves to.
pub open spec fn shortcut_resolution(path: RawPath) -> Seq<Seq<char>> {
    resolve_spec(Seq::empty(), path@)
}

impl SetShortcut {
    /// Every segment is a valid resolved segment.
    pub open spec fn wf(self) -> bool {
        all_valid_segments(self@)
    }

    /// The empty shortcut: the set mounts at the local root itself.
    pub fn empty() -> (r: SetShortcut)
        ensures
            r@ =~= Seq::<Seq<char>>::empty(),
            r.wf(),
    {
        SetShortcut { segments: Vec::new() }
    }

    /// Validates a raw shortcut value: it must be relative, and resolving it
    /// against an empty base must not collapse a non-empty value to the empty
    /// path (the traversal signature of `..` and its repetitions).
    pub fn from_path(path: RawPath) -> (r: Result<SetShortcut, SetShortcutError>)
        requires
            path.wf(),
        ensures
            r is Ok <==> shortcut_acceptable(path),
            r matches Ok(sc) ==> sc@ == shortcut_resolution(path) && sc.wf(),
            r matches Err(SetShortcutError::NotRelative { path: p }) ==> path.absolute && p@
                == path@,
            r matches Err(SetShortcutError::TraversalToParent { path: p }) ==> !path.absolute
                && path@.len() > 0 && resolve_spec(Seq::empty(), path@).len() == 0 && p@ == path@,
    {
        if path.absolute {
            return Err(SetShortcutError::NotRelative { path });
        }
        let base: Vec<String> = Vec::new();
        let resolved = resolve(&base, &path.segments);
        proof {
            assert(base.deep_view() =~= Seq::<Seq<char>>::empty());
            assert(resolved.deep_view().len() == resolved@.len());
            assert(path@.len() == path.segments@.len());
        }
        if resolved.len() == 0 && path.segments.len() > 0 {
            return Err(SetShortcutError::TraversalToParent { path });
        }
        proof {
            lemma_resolve_valid(base.deep_view(), path@);
        }
        Ok(SetShortcut { segments: resolved })
    }

    /// Copies this shortcut.
    pub fn dup(&self) -> (r: SetShortcut)
        ensures
            r@ == self@,
    {
        SetShortcut { segments: clone_segments(&self.segments) }
    }

    /// Mounts a path-in-set under this shortcut.
    pub fn mount(&self, path_in_set: &LocalFilePath) -> (r: LocalFilePath)
        ensures
            r@ == self@ + path_in_set@,
    {
        let mut segments = clone_segments(&self.segments);
        let rest = path_in_set.segments();
        let mut i: usize = 0;
        while i < rest.len()
            invariant
                i <= rest@.len(),
                segments.deep_view() =~= self@ + rest.deep_view().take(i as int),
            decreases rest@.len() - i,
        {
            push_segment(&mut segments, &rest[i]);
            proof {
                assert(rest.deep_view()[i as int] == rest@[i as int]@);
                assert(segments.deep_view() =~= self@ + rest.deep_view().take((i + 1) as int));
            }
            i += 1;
        }
        proof {
            assert(rest.deep_view().take(rest.deep_view().len() as int) =~= rest.deep_view());
            assert(segments.deep_view() =~= self@ + path_in_set@);
        }
        let r = LocalFilePath { segments };
        r
    }
}

/// One file of a set: who owns it, where it sits inside the set, and where it
/// mounts under the local root.
#[derive(Debug)]
pub struct FileRecord {
    pub owning_set: SetName,
    pub path_in_set: LocalFilePath,
    pub local_path: LocalFilePath,
}

/// There is a record whose local path is `p`.
pub open spec fn records_have(records: Seq<FileRecord>, p: Seq<Seq<char>>) -> bool {
    exists|i: int| 0 <= i < records.len() && records[i].local_path@ == p
}

/// Decides whether some record's local path equals `p`.
pub fn records_track(records: &Vec<FileRecord>, p: &LocalFilePath) -> (r: bool)
    ensures
        r == records_have(records@, p@),
{
    let mut i: usize = 0;
    while i < records.len()
        invariant
            i <= records@.len(),
            forall|j: int| 0 <= j < i ==> (#[trigger] records@[j]).local_path@ != p@,
        decreases records@.len() - i,
    {
        if records[i].local_path == *p {
            return true;
        }
        i += 1;
    }
    false
}

/// One set of the repo, rebuilt from the filesystem on every operation.
#[derive(Debug)]
pub struct RepoSet {
    pub name: SetName,
    pub shortcut: SetShortcut,
    pub root: AbsolutePath,
    pub files: Vec<FileRecord>,
}

impl RepoSet {
    /// Structural soundness: every record is owned by this set, mounts its
    /// path-in-set under the shortcut, and no two records share a local path.
    pub open spec fn wf(self) -> bool {
        &&& crate::paths::valid_segment(self.name@)
        &&& self.shortcut.wf()
        &&& self.root.wf()
        &&& forall|i: int|
            0 <= i < self.files@.len() ==> {
                let rec = #[trigger] self.files@[i];
                &&& rec.owning_set@ == self.name@
                &&& rec.path_in_set.wf()
                &&& rec.path_in_set@.len() > 0
                &&& rec.local_path@ == self.shortcut@ + rec.path_in_set@
            }
        &&& forall|i: int, j: int|
            0 <= i < j < self.files@.len() ==> (#[trigger] self.files@[i]).local_path@ != (
            #[trigger] self.files@[j]).local_path@
    }

    /// This set tracks local path `p`.
    pub open spec fn tracks(self, p: Seq<Seq<char>>) -> bool {
        records_have(self.files@, p)
    }

    /// Decides whether this set tracks `local_path`.
    pub fn tracks_file(&self, local_path: &LocalFilePath) -> (r: bool)
        ensures
            r == self.tracks(local_path@),
    {
        records_track(&self.files, local_path)
    }
}

/// Errors met while building the repo state. They are accumulated across all
/// sets, never short-circuited.
#[derive(Debug)]
pub enum StateInitializationError {
    /// Reading the repo root's directory listing failed.
    ReadSetDirs { message: String },
    /// A set directory's name is not valid UTF-8.
    NonUtf8Path { name_lossy: String },
    /// The set's configured shortcut is invalid.
    SetShortcutInvalid { set_name: SetName, error: SetShortcutError },
    /// Walking a set directory failed.
    DirectoryWalk { set_name: SetName, message: String },
    /// The set's configuration could not be read.
    SetConfig { set_name: SetName, message: String },
}

/// What the caller gathered for one candidate set: either its raw shortcut
/// value and walked contents, or the error that reading it produced.
#[derive(Debug)]
pub enum SetSource {
    Loaded { shortcut: Option<RawPath>, files: Vec<LocalFilePath> },
    Failed { error: StateInitializationError },
}

/// One candidate set, named after its directory.
#[derive(Debug)]
pub struct SetInput {
    pub name: SetName,
    pub source: SetSource,
}

/// The input's paths are all well-formed.
pub open spec fn set_input_wf(inp: SetInput) -> bool {
    match inp.source {
        SetSource::Loaded { shortcut, files } => {
            &&& (shortcut matches Some(r) ==> r.wf())
            &&& forall|j: int|
                0 <= j < files@.len() ==> (#[trigger] files@[j]).wf() && files@[j]@.len() > 0
        },
        SetSource::Failed { .. } => true,
    }
}

/// The input was read successfully and its shortcut value is acceptable.
pub open spec fn set_input_ok(inp: SetInput) -> bool {
    match inp.source {
        SetSource::Loaded { shortcut, .. } => match shortcut {
            Option::None => true,
            Option::Some(r) => shortcut_acceptable(r),
        },
        SetSource::Failed { .. } => false,
    }
}

/// The resolved shortcut an input mounts at (empty when none is configured).
pub open spec fn input_shortcut(inp: SetInput) -> Seq<Seq<char>> {
    match inp.source {
        SetSource::Loaded { shortcut, .. } => match shortcut {
            Option::None => Seq::empty(),
            Option::Some(r) => shortcut_resolution(r),
        },
        SetSource::Failed { .. } => Seq::empty(),
    }
}

/// The walked contents of an input.
pub open spec fn input_files(inp: SetInput) -> Seq<LocalFilePath> {
    match inp.source {
        SetSource::Loaded { files, .. } => files@,
        SetSource::Failed { .. } => Seq::empty(),
    }
}

/// Local path `p` is where some non-reserved walked file mounts under
/// `shortcut`.
pub open spec fn mounts(shortcut: Seq<Seq<char>>, files: Seq<LocalFilePath>, p: Seq<Seq<char>>) -> bool {
    exists|j: int|
        0 <= j < files.len() && !crate::is_special_path(files[j]@) && p == shortcut + files[j]@
}

/// The built set reflects the input: same name, the resolved shortcut, its
/// root directly under the repo root, and exactly the mounted walked files.
pub open spec fn set_matches_input(set: RepoSet, repo_root: Seq<Seq<char>>, inp: SetInput) -> bool {
    &&& set.name@ == inp.name@
    &&& set.shortcut@ == input_shortcut(inp)
    &&& set.root@ == repo_root.push(inp.name@)
    &&& forall|p: Seq<Seq<char>>|
        #[trigger] set.tracks(p) <==> mounts(input_shortcut(inp), input_files(inp), p)
}

/// The error reported for a rejected input: a failed read is passed through
/// verbatim; an unacceptable shortcut is reported against the set's name with
/// the offending value.
pub open spec fn error_matches_input(e: StateInitializationError, inp: SetInput) -> bool {
    match inp.source {
        SetSource::Failed { error } => e == error,
        SetSource::Loaded { shortcut, .. } => match shortcut {
            Option::None => false,
            Option::Some(r) => {
                &&& e matches StateInitializationError::SetShortcutInvalid { set_name, error } ==> {
                    &&& set_name@ == inp.name@
                    &&& (error matches SetShortcutError::NotRelative { path } ==> r.absolute
                        && path@ == r@)
                    &&& (error matches SetShortcutError::TraversalToParent { path } ==> !r.absolute
                        && r@.len() > 0 && resolve_spec(Seq::empty(), r@).len() == 0 && path@
                        == r@)
                }
                &&& e matches StateInitializationError::SetShortcutInvalid { .. }
            },
        },
    }
}

/// Builds one set from its name, configuration and walked contents. Reserved
/// file names are skipped; every other walked file is mounted under the
/// resolved shortcut.
pub fn load_set_state(
    repo_root: &AbsolutePath,
    set_name: SetName,
    config: SetConfig,
    files: Vec<LocalFilePath>,
) -> (r: Result<RepoSet, StateInitializationError>)
    requires
        repo_root.wf(),
        crate::paths::valid_segment(set_name@),
        config.shortcut matches Some(p) ==> p.wf(),
        forall|j: int| 0 <= j < files@.len() ==> (#[trigger] files@[j]).wf() && files@[j]@.len() > 0,
    ensures
        r is Ok <==> (config.shortcut matches Some(p) ==> shortcut_acceptable(p)),
        r matches Ok(set) ==> {
            &&& set.wf()
            &&& set.name@ == set_name@
            &&& set.shortcut@ == match config.shortcut {
                Option::None => Seq::<Seq<char>>::empty(),
                Option::Some(p) => shortcut_resolution(p),
            }
            &&& set.root@ == repo_root@.push(set_name@)
            &&& forall|p: Seq<Seq<char>>| #[trigger] set.tracks(p) <==> mounts(set.shortcut@, files@, p)
        },
        r matches Err(e) ==> (config.shortcut matches Some(p) && !shortcut_acceptable(p) && (
        e matches StateInitializationError::SetShortcutInvalid { set_name: n, error } && n@
            == set_name@ && (error matches SetShortcutError::NotRelative { path } ==> p.absolute
            && path@ == p@) && (error matches SetShortcutError::TraversalToParent { path }
            ==> !p.absolute && path@ == p@))),
{
    let shortcut = match config.shortcut {
        Option::None => SetShortcut::empty(),
        Option::Some(raw) => match SetShortcut::from_path(raw) {
            Result::Ok(sc) => sc,
            Result::Err(error) => {
                return Err(StateInitializationError::SetShortcutInvalid { set_name, error });
            },
        },
    };
    let mut name_vec: Vec<String> = Vec::new();
    name_vec.push(set_name.0.clone());
    let root = repo_root.join(&name_vec);
    proof {
        assert(name_vec.deep_view() =~= seq![set_name@]);
        assert(root@ =~= repo_root@.push(set_name@));
    }
    let mut records: Vec<FileRecord> = Vec::new();
    let mut j: usize = 0;
    while j < files.len()
        invariant
            j <= files@.len(),
            shortcut.wf(),
            forall|m: int|
                0 <= m < files@.len() ==> (#[trigger] files@[m]).wf() && files@[m]@.len() > 0,
            forall|i: int|
                0 <= i < records@.len() ==> {
                    let rec = #[trigger] records@[i];
                    &&& rec.owning_set@ == set_name@
                    &&& rec.path_in_set.wf()
                    &&& rec.path_in_set@.len() > 0
                    &&& rec.local_path@ == shortcut@ + rec.path_in_set@
                },
            forall|i: int, i2: int|
                0 <= i < i2 < records@.len() ==> (#[trigger] records@[i]).local_path@ != (
                #[trigger] records@[i2]).local_path@,
            forall|p: Seq<Seq<char>>|
                #[trigger] records_have(records@, p) <==> mounts(
                    shortcut@,
                    files@.take(j as int),
                    p,
                ),
        decreases files@.len() - j,
    {
        let ghost prev = records@;
        let ghost taken = files@.take((j + 1) as int);
        let ghost taken_prev = files@.take(j as int);
        proof {
            assert(taken.drop_last() =~= taken_prev);
            assert(taken.last() == files@[j as int]);
            assert forall|jj: int| 0 <= jj < j implies taken[jj] == taken_prev[jj] by {}
        }
        let file = &files[j];
        if !crate::is_monja_special_file(file) {
            let local_path = shortcut.mount(file);
            let ghost mnt = local_path@;
            if !records_track(&records, &local_path) {
                let rec = FileRecord {
                    owning_set: set_name.dup(),
                    path_in_set: file.dup(),
                    local_path,
                };
                records.push(rec);
                proof {
                    assert forall|p: Seq<Seq<char>>| #[trigger] records_have(records@, p)
                        <==> mounts(shortcut@, taken, p) by {
                        if records_have(records@, p) {
                            let i = choose|i: int|
                                0 <= i < records@.len() && records@[i].local_path@ == p;
                            if i < prev.len() {
                                assert(records@[i] == prev[i]);
                                assert(records_have(prev, p));
                                let jj = choose|jj: int|
                                    0 <= jj < taken_prev.len() && !crate::is_special_path(
                                        taken_prev[jj]@,
                                    ) && p == shortcut@ + taken_prev[jj]@;
                                assert(taken[jj] == taken_prev[jj]);
                                assert(mounts(shortcut@, taken, p));
                            } else {
                                assert(records@[i] == rec);
                                assert(p == shortcut@ + files@[j as int]@);
                                assert(taken[j as int] == files@[j as int]);
                                assert(mounts(shortcut@, taken, p));
                            }
                        }
                        if mounts(shortcut@, taken, p) {
                            let jj = choose|jj: int|
                                0 <= jj < taken.len() && !crate::is_special_path(taken[jj]@)
                                    && p == shortcut@ + taken[jj]@;
                            if jj < j {
                                assert(taken_prev[jj] == taken[jj]);
                                assert(mounts(shortcut@, taken_prev, p));
                                assert(records_have(prev, p));
                                let i = choose|i: int|
                                    0 <= i < prev.len() && prev[i].local_path@ == p;
                                assert(records@[i] == prev[i]);
                                assert(records_have(records@, p));
                            } else {
                                assert(taken[jj] == files@[j as int]);
                                assert(p == mnt);
                                assert(records@[prev.len() as int] == rec);
                                assert(records_have(records@, p));
                            }
                        }
                    }
                }
            } else {
                proof {
                    assert(records_have(records@, mnt));
                    assert forall|p: Seq<Seq<char>>| #[trigger] records_have(records@, p)
                        <==> mounts(shortcut@, taken, p) by {
                        if records_have(records@, p) {
                            let jj = choose|jj: int|
                                0 <= jj < taken_prev.len() && !crate::is_special_path(
                                    taken_prev[jj]@,
                                ) && p == shortcut@ + taken_prev[jj]@;
                            assert(taken[jj] == taken_prev[jj]);
                            assert(mounts(shortcut@, taken, p));
                        }
                        if mounts(shortcut@, taken, p) {
                            let jj = choose|jj: int|
                                0 <= jj < taken.len() && !crate::is_special_path(taken[jj]@)
                                    && p == shortcut@ + taken[jj]@;
                            if jj < j {
                                assert(taken_prev[jj] == taken[jj]);
                                assert(mounts(shortcut@, taken_prev, p));
                            } else {
                                assert(taken[jj] == files@[j as int]);
                                assert(p == mnt);
                            }
                        }
                    }
                }
            }
        } else {
            proof {
                assert(crate::is_special_path(files@[j as int]@));
                assert forall|p: Seq<Seq<char>>| #[trigger] records_have(records@, p) <==> mounts(
                    shortcut@,
                    taken,
                    p,
                ) by {
                    if records_have(records@, p) {
                        let jj = choose|jj: int|
                            0 <= jj < taken_prev.len() && !crate::is_special_path(taken_prev[jj]@)
                                && p == shortcut@ + taken_prev[jj]@;
                        assert(taken[jj] == taken_prev[jj]);
                        assert(mounts(shortcut@, taken, p));
                    }
                    if mounts(shortcut@, taken, p) {
                        let jj = choose|jj: int|
                            0 <= jj < taken.len() && !crate::is_special_path(taken[jj]@) && p
                                == shortcut@ + taken[jj]@;
                        if jj < j {
                            assert(taken_prev[jj] == taken[jj]);
                            assert(mounts(shortcut@, taken_prev, p));
                        } else {
                            assert(taken[jj] == files@[j as int]);
                            assert(false);
                        }
                    }
                }
            }
        }
        j += 1;
    }
    proof {
        assert(files@.take(files@.len() as int) =~= files@);
    }
    Ok(RepoSet { name: set_name, shortcut, root, files: records })
}

/// One snapshot of the whole repo: every set, keyed by its unique name.
#[derive(Debug)]
pub struct RepoState {
    pub sets: Vec<RepoSet>,
}

impl RepoState {
    /// Every set is sound and no two sets share a name.
    pub open spec fn wf(self) -> bool {
        &&& forall|i: int| 0 <= i < self.sets@.len() ==> (#[trigger] self.sets@[i]).wf()
        &&& forall|i: int, j: int|
            0 <= i < j < self.sets@.len() ==> (#[trigger] self.sets@[i]).name@ != (
            #[trigger] self.sets@[j]).name@
    }

    /// A set of that name is present.
    pub open spec fn has_set(self, n: Seq<char>) -> bool {
        exists|i: int| 0 <= i < self.sets@.len() && self.sets@[i].name@ == n
    }

    /// The position of the set named `n`.
    pub open spec fn set_idx(self, n: Seq<char>) -> int {
        choose|i: int| 0 <= i < self.sets@.len() && self.sets@[i].name@ == n
    }

    /// The set named `n`.
    pub open spec fn set_named(self, n: Seq<char>) -> RepoSet {
        self.sets@[self.set_idx(n)]
    }

    /// Looks a set up by name.
    pub fn find_set(&self, name: &SetName) -> (r: Option<&RepoSet>)
        ensures
            r is Some <==> self.has_set(name@),
            r matches Some(s) ==> *s == self.set_named(name@) || !self.wf(),
    {
        let mut i: usize = 0;
        while i < self.sets.len()
            invariant
                i <= self.sets@.len(),
                forall|j: int| 0 <= j < i ==> (#[trigger] self.sets@[j]).name@ != name@,
            decreases self.sets@.len() - i,
        {
            if self.sets[i].name == *name {
                proof {
                    if self.wf() {
                        assert(self.sets@[self.set_idx(name@)].name@ == name@);
                        assert(self.set_idx(name@) == i as int);
                    }
                }
                return Some(&self.sets[i]);
            }
            i += 1;
        }
        None
    }

    /// Decides whether a set of that name is present.
    pub fn contains_set(&self, name: &SetName) -> (r: bool)
        ensures
            r == self.has_set(name@),
    {
        self.find_set(name).is_some()
    }
}

/// The inputs that were read successfully and carry an acceptable shortcut.
pub open spec fn good_inputs(s: Seq<SetInput>) -> Seq<SetInput> {
    s.filter(|inp: SetInput| set_input_ok(inp))
}

/// The inputs that failed to read or carry an unacceptable shortcut.
pub open spec fn bad_inputs(s: Seq<SetInput>) -> Seq<SetInput> {
    s.filter(|inp: SetInput| !set_input_ok(inp))
}

/// Filtering splits over appending one element.
proof fn lemma_inputs_filter_step(s: Seq<SetInput>, x: SetInput)
    ensures
        good_inputs(s.push(x)) == if set_input_ok(x) {
            good_inputs(s).push(x)
        } else {
            good_inputs(s)
        },
        bad_inputs(s.push(x)) == if set_input_ok(x) {
            bad_inputs(s)
        } else {
            bad_inputs(s).push(x)
        },
{
    reveal(Seq::filter);
    assert(s.push(x).drop_last() =~= s);
    assert(s.push(x).last() == x);
}

/// Every element of a filtered input list stems from the list itself.
proof fn lemma_good_inputs_element_of(s: Seq<SetInput>, i: int)
    requires
        0 <= i < good_inputs(s).len(),
    ensures
        exists|j: int| 0 <= j < s.len() && s[j] == good_inputs(s)[i],
    decreases s.len(),
{
    reveal(Seq::filter);
    if s.len() > 0 {
        let t = s.drop_last();
        assert(s =~= t.push(s.last()));
        lemma_inputs_filter_step(t, s.last());
        if set_input_ok(s.last()) {
            if i < good_inputs(t).len() {
                lemma_good_inputs_element_of(t, i);
                let j = choose|j: int| 0 <= j < t.len() && t[j] == good_inputs(t)[i];
                assert(s[j] == good_inputs(s)[i]);
            } else {
                assert(s[s.len() - 1] == good_inputs(s)[i]);
            }
        } else {
            lemma_good_inputs_element_of(t, i);
            let j = choose|j: int| 0 <= j < t.len() && t[j] == good_inputs(t)[i];
            assert(s[j] == good_inputs(s)[i]);
        }
    }
}

/// Filtering a list of distinctly named inputs keeps the names distinct.
proof fn lemma_good_inputs_distinct(s: Seq<SetInput>)
    requires
        forall|i: int, j: int|
            0 <= i < j < s.len() ==> (#[trigger] s[i]).name@ != (#[trigger] s[j]).name@,
    ensures
        forall|i: int, j: int|
            0 <= i < j < good_inputs(s).len() ==> (#[trigger] good_inputs(s)[i]).name@ != (
            #[trigger] good_inputs(s)[j]).name@,
    decreases s.len(),
{
    reveal(Seq::filter);
    if s.len() > 0 {
        let t = s.drop_last();
        assert(s =~= t.push(s.last()));
        lemma_inputs_filter_step(t, s.last());
        lemma_good_inputs_distinct(t);
        let g = good_inputs(s);
        assert forall|i: int, j: int| 0 <= i < j < g.len() implies (#[trigger] g[i]).name@ != (
        #[trigger] g[j]).name@ by {
            if set_input_ok(s.last()) && j == g.len() - 1 {
                assert(g[j] == s.last());
                lemma_good_inputs_element_of(t, i);
                let w = choose|w: int| 0 <= w < t.len() && t[w] == good_inputs(t)[i];
                assert(s[w] == g[i]);
                assert(s[w].name@ != s[s.len() - 1].name@);
            } else {
                assert(g[i] == good_inputs(t)[i]);
                assert(g[j] == good_inputs(t)[j]);
            }
        }
    }
}

/// When every input is acceptable, filtering keeps the whole list.
proof fn lemma_good_inputs_all(s: Seq<SetInput>)
    requires
        forall|i: int| 0 <= i < s.len() ==> set_input_ok(#[trigger] s[i]),
    ensures
        good_inputs(s) == s,
    decreases s.len(),
{
    reveal(Seq::filter);
    if s.len() > 0 {
        let t = s.drop_last();
        assert(s =~= t.push(s.last()));
        lemma_inputs_filter_step(t, s.last());
        lemma_good_inputs_all(t);
        assert(good_inputs(s) =~= s);
    }
}

/// A bad input shows up in the bad filter.
proof fn lemma_bad_inputs_nonempty(s: Seq<SetInput>, i: int)
    requires
        0 <= i < s.len(),
        !set_input_ok(s[i]),
    ensures
        bad_inputs(s).len() > 0,
    decreases s.len(),
{
    reveal(Seq::filter);
    if s.len() > 0 {
        let t = s.drop_last();
        assert(s =~= t.push(s.last()));
        lemma_inputs_filter_step(t, s.last());
        if i < s.len() - 1 {
            lemma_bad_inputs_nonempty(t, i);
        }
    }
}

/// Builds the repo state from all candidate sets, attempting every one and
/// accumulating every error: the caller's read errors come first, then one
/// error per rejected set, in input order. Only when nothing at all failed is
/// the state returned.
#[verifier::rlimit(60)]
pub fn initialize_full_state(
    repo_root: &AbsolutePath,
    inputs: Vec<SetInput>,
    io_errors: Vec<StateInitializationError>,
) -> (r: Result<RepoState, Vec<StateInitializationError>>)
    requires
        repo_root.wf(),
        forall|i: int|
            0 <= i < inputs@.len() ==> set_input_wf(#[trigger] inputs@[i])
                && crate::paths::valid_segment(inputs@[i].name@),
        forall|i: int, j: int|
            0 <= i < j < inputs@.len() ==> (#[trigger] inputs@[i]).name@ != (
            #[trigger] inputs@[j]).name@,
    ensures
        r is Ok <==> (io_errors@.len() == 0 && forall|i: int|
            0 <= i < inputs@.len() ==> set_input_ok(#[trigger] inputs@[i])),
        r matches Ok(state) ==> {
            &&& state.wf()
            &&& state.sets@.len() == inputs@.len()
            &&& forall|i: int|
                0 <= i < inputs@.len() ==> set_matches_input(
                    #[trigger] state.sets@[i],
                    repo_root@,
                    inputs@[i],
                )
        },
        r matches Err(errs) ==> {
            &&& errs@.len() == io_errors@.len() + bad_inputs(inputs@).len()
            &&& errs@.len() > 0
            &&& errs@.take(io_errors@.len() as int) == io_errors@
            &&& forall|m: int|
                0 <= m < bad_inputs(inputs@).len() ==> error_matches_input(
                    #[trigger] errs@[io_errors@.len() + m],
                    bad_inputs(inputs@)[m],
                )
        },
{
    let ghost orig = inputs@;
    let ghost io0 = io_errors@;
    let mut inputs = inputs;
    let mut errors = io_errors;
    let mut sets: Vec<RepoSet> = Vec::new();
    let ghost mut k: int = 0;
    proof {
        assert(orig.take(0) =~= Seq::<SetInput>::empty());
        reveal(Seq::filter);
        assert(errors@.take(io0.len() as int) =~= io0);
    }
    while inputs.len() > 0
        invariant
            repo_root.wf(),
            0 <= k,
            k + inputs@.len() == orig.len(),
            inputs@ =~= orig.skip(k),
            forall|i: int|
                0 <= i < orig.len() ==> set_input_wf(#[trigger] orig[i])
                    && crate::paths::valid_segment(orig[i].name@),
            forall|i: int, j: int|
                0 <= i < j < orig.len() ==> (#[trigger] orig[i]).name@ != (
                #[trigger] orig[j]).name@,
            errors@.len() == io0.len() + bad_inputs(orig.take(k)).len(),
            errors@.take(io0.len() as int) == io0,
            forall|m: int|
                0 <= m < bad_inputs(orig.take(k)).len() ==> error_matches_input(
                    #[trigger] errors@[io0.len() + m],
                    bad_inputs(orig.take(k))[m],
                ),
            sets@.len() == good_inputs(orig.take(k)).len(),
            forall|m: int|
                0 <= m < sets@.len() ==> set_matches_input(
                    #[trigger] sets@[m],
                    repo_root@,
                    good_inputs(orig.take(k))[m],
                ) && sets@[m].wf(),
        decreases inputs@.len(),
    {
        let ghost processed = orig.take(k);
        let ghost processed_next = orig.take(k + 1);
        proof {
            assert(inputs@[0] == orig[k]);
            assert(processed_next =~= processed.push(orig[k]));
            lemma_inputs_filter_step(processed, orig[k]);
        }
        let inp = inputs.remove(0);
        let SetInput { name, source } = inp;
        match source {
            SetSource::Failed { error } => {
                errors.push(error);
                proof {
                    assert(errors@.take(io0.len() as int) =~= io0);
                }
            },
            SetSource::Loaded { shortcut, files } => {
                match load_set_state(repo_root, name, SetConfig { shortcut }, files) {
                    Result::Ok(set) => {
                        sets.push(set);
                    },
                    Result::Err(e) => {
                        errors.push(e);
                        proof {
                            assert(errors@.take(io0.len() as int) =~= io0);
                        }
                    },
                }
            },
        }
        proof {
            k = k + 1;
            assert(inputs@ =~= orig.skip(k));
        }
    }
    proof {
        assert(orig.take(k) =~= orig);
    }
    if errors.len() == 0 {
        proof {
            assert forall|i: int| 0 <= i < orig.len() implies set_input_ok(#[trigger] orig[i]) by {
                if !set_input_ok(orig[i]) {
                    lemma_bad_inputs_nonempty(orig, i);
                }
            }
            lemma_good_inputs_all(orig);
            lemma_good_inputs_distinct(orig);
            assert(io0.len() == 0) by {
                assert(errors@.take(io0.len() as int) == io0);
            }
        }
        Ok(RepoState { sets })
    } else {
        proof {
            if io0.len() == 0 && forall|i: int|
                0 <= i < orig.len() ==> set_input_ok(#[trigger] orig[i]) {
                lemma_good_inputs_all(orig);
                assert(bad_inputs(orig).len() + good_inputs(orig).len() == orig.len()) by {
                    lemma_inputs_filter_lens(orig);
                }
                assert(false);
            }
        }
        Err(errors)
    }
}

/// The two filters split a list exactly.
proof fn lemma_inputs_filter_lens(s: Seq<SetInput>)
    ensures
        good_inputs(s).len() + bad_inputs(s).len() == s.len(),
    decreases s.len(),
{
    reveal(Seq::filter);
    if s.len() > 0 {
        let t = s.drop_last();
        assert(s =~= t.push(s.last()));
        lemma_inputs_filter_step(t, s.last());
        lemma_inputs_filter_lens(t);
    }
}

} // verus!
