//! The path-safety layer: segment-based path values and the logical
//! resolution used to keep every derived path inside its declared root.
//!
//! A path is a sequence of UTF-8 segments. An [`AbsolutePath`] is rooted at
//! the filesystem root; a [`LocalFilePath`] is relative to the local root and
//! is only ever constructed by resolution that proves it stays under that
//! root. Raw caller input, which may still contain `.` and `..` segments, is
//! carried by [`RawPath`] until it has been resolved.

use vstd::prelude::*;

verus! {

/// The navigation segment `.`.
pub open spec fn dot_seg() -> Seq<char> {
    seq!['.']
}

/// The navigation segment `..`.
pub open spec fn dotdot_seg() -> Seq<char> {
    seq!['.', '.']
}

/// A segment that may stand in a fully resolved path: non-empty, free of the
/// separator, and not a navigation segment.
pub open spec fn valid_segment(s: Seq<char>) -> bool {
    &&& s.len() > 0
    &&& (forall|i: int| 0 <= i < s.len() ==> s[i] != '/')
    &&& s != dot_seg()
    &&& s != dotdot_seg()
}

/// A segment as it arrives in raw input: non-empty and free of the separator,
/// with `.` and `..` still allowed.
pub open spec fn raw_segment(s: Seq<char>) -> bool {
    &&& s.len() > 0
    &&& (forall|i: int| 0 <= i < s.len() ==> s[i] != '/')
}

/// Every segment of `s` is a valid resolved segment.
pub open spec fn all_valid_segments(s: Seq<Seq<char>>) -> bool {
    forall|i: int| 0 <= i < s.len() ==> valid_segment(s[i])
}

/// Every segment of `s` is acceptable raw input.
pub open spec fn all_raw_segments(s: Seq<Seq<char>>) -> bool {
    forall|i: int| 0 <= i < s.len() ==> raw_segment(s[i])
}

fn dot_string() -> (r: String)
    ensures
        r@ == dot_seg(),
{
    let r = String::from_str(".");
    proof {
        reveal_strlit(".");
        assert(r@ =~= dot_seg());
    }
    r
}

fn dotdot_string() -> (r: String)
    ensures
        r@ == dotdot_seg(),
{
    let r = String::from_str("..");
    proof {
        reveal_strlit("..");
        assert(r@ =~= dotdot_seg());
    }
    r
}

/// Decides whether a segment is valid in a resolved path.
pub fn is_valid_segment(s: &String) -> (r: bool)
    ensures
        r == valid_segment(s@),
{
    let n = s.as_str().unicode_len();
    if n == 0 {
        return false;
    }
    let mut i: usize = 0;
    while i < n
        invariant
            i <= n,
            n == s@.len(),
            forall|j: int| 0 <= j < i ==> s@[j] != '/',
        decreases n - i,
    {
        if s.as_str().get_char(i) == '/' {
            return false;
        }
        i += 1;
    }
    if n == 1 && s.as_str().get_char(0) == '.' {
        proof {
            assert(s@ =~= dot_seg());
        }
        return false;
    }
    if n == 2 && s.as_str().get_char(0) == '.' && s.as_str().get_char(1) == '.' {
        proof {
            assert(s@ =~= dotdot_seg());
        }
        return false;
    }
    proof {
        if s@ == dot_seg() {
            assert(s@.len() == 1 && s@[0] == '.');
        }
        if s@ == dotdot_seg() {
            assert(s@.len() == 2 && s@[0] == '.' && s@[1] == '.');
        }
    }
    true
}

/// Decides whether a segment is acceptable raw input.
pub fn is_raw_segment(s: &String) -> (r: bool)
    ensures
        r == raw_segment(s@),
{
    let n = s.as_str().unicode_len();
    if n == 0 {
        return false;
    }
    let mut i: usize = 0;
    while i < n
        invariant
            i <= n,
            n == s@.len(),
            forall|j: int| 0 <= j < i ==> s@[j] != '/',
        decreases n - i,
    {
        if s.as_str().get_char(i) == '/' {
            return false;
        }
        i += 1;
    }
    true
}

/// Decides whether a string equals a literal, at the level of views.
pub fn string_eq_lit(s: &String, lit: &str) -> (r: bool)
    ensures
        r == (s@ == lit@),
{
    let l = String::from_str(lit);
    *s == l
}

/// Copies a segment vector; the copy has the same view.
pub fn clone_segments(v: &Vec<String>) -> (r: Vec<String>)
    ensures
        r.deep_view() == v.deep_view(),
{
    let mut r: Vec<String> = Vec::new();
    let mut i: usize = 0;
    while i < v.len()
        invariant
            i <= v.len(),
            r@.len() == i,
            forall|j: int| 0 <= j < i ==> #[trigger] r@[j]@ == v@[j]@,
        decreases v.len() - i,
    {
        let ghost prev_raw = r@;
        let x = v[i].clone();
        r.push(x);
        proof {
            assert forall|j: int| 0 <= j < i + 1 implies #[trigger] r@[j]@ == v@[j]@ by {
                assert(r@[j] == prev_raw.push(x)[j]);
            }
        }
        i += 1;
    }
    proof {
        assert forall|j: int| 0 <= j < r.deep_view().len() implies r.deep_view()[j]
            == v.deep_view()[j] by {
            assert(r@[j]@ == v@[j]@);
        }
        assert(r.deep_view() =~= v.deep_view());
    }
    r
}

/// Decides whether two segment vectors hold the same segments.
pub fn segments_eq(a: &Vec<String>, b: &Vec<String>) -> (r: bool)
    ensures
        r == (a.deep_view() == b.deep_view()),
{
    if a.len() != b.len() {
        proof {
            assert(a.deep_view().len() == a@.len());
            assert(b.deep_view().len() == b@.len());
        }
        return false;
    }
    let mut i: usize = 0;
    while i < a.len()
        invariant
            i <= a.len(),
            a@.len() == b@.len(),
            forall|j: int| 0 <= j < i ==> #[trigger] a@[j]@ == b@[j]@,
        decreases a.len() - i,
    {
        if !(a[i] == b[i]) {
            proof {
                assert(a.deep_view()[i as int] == a@[i as int]@);
                assert(b.deep_view()[i as int] == b@[i as int]@);
            }
            return false;
        }
        i += 1;
    }
    proof {
        assert forall|j: int| 0 <= j < a.deep_view().len() implies a.deep_view()[j]
            == b.deep_view()[j] by {
            assert(a@[j]@ == b@[j]@);
        }
        assert(a.deep_view() =~= b.deep_view());
    }
    true
}

/// Appends one segment; the view grows by exactly that segment.
pub fn push_segment(v: &mut Vec<String>, s: &String)
    ensures
        final(v).deep_view() == old(v).deep_view().push(s@),
{
    let ghost prev_raw = v@;
    let ghost prev = v.deep_view();
    v.push(s.clone());
    proof {
        assert forall|j: int| 0 <= j < v.deep_view().len() implies v.deep_view()[j]
            == prev.push(s@)[j] by {
            assert(v@[j] == prev_raw.push(v@[prev_raw.len() as int])[j]);
            if j < prev_raw.len() {
                assert(v@[j] == prev_raw[j]);
            }
        }
        assert(v.deep_view() =~= prev.push(s@));
    }
}

/// Removes the last segment; the view loses exactly its last element.
pub fn pop_segment(v: &mut Vec<String>)
    requires
        old(v)@.len() > 0,
    ensures
        final(v).deep_view() == old(v).deep_view().drop_last(),
{
    let ghost prev_raw = v@;
    let ghost prev = v.deep_view();
    let _ = v.pop();
    proof {
        assert forall|j: int| 0 <= j < v.deep_view().len() implies v.deep_view()[j]
            == prev.drop_last()[j] by {
            assert(v@[j] == prev_raw[j]);
        }
        assert(v.deep_view() =~= prev.drop_last());
    }
}

/// Logical resolution of raw segments against a base: `.` stays put, `..`
/// drops the last segment of the base (staying put when the base is already
/// empty), and any other segment is appended. No filesystem is consulted.
pub open spec fn resolve_spec(base: Seq<Seq<char>>, segs: Seq<Seq<char>>) -> Seq<Seq<char>>
    decreases segs.len(),
{
    if segs.len() == 0 {
        base
    } else {
        let first = segs[0];
        let next = if first == dot_seg() {
            base
        } else if first == dotdot_seg() {
            if base.len() == 0 {
                base
            } else {
                base.drop_last()
            }
        } else {
            base.push(first)
        };
        resolve_spec(next, segs.drop_first())
    }
}

/// Resolution of raw input against a base of valid segments yields only valid
/// segments.
pub proof fn lemma_resolve_valid(base: Seq<Seq<char>>, segs: Seq<Seq<char>>)
    requires
        all_valid_segments(base),
        all_raw_segments(segs),
    ensures
        all_valid_segments(resolve_spec(base, segs)),
    decreases segs.len(),
{
    if segs.len() > 0 {
        let first = segs[0];
        let next = if first == dot_seg() {
            base
        } else if first == dotdot_seg() {
            if base.len() == 0 {
                base
            } else {
                base.drop_last()
            }
        } else {
            base.push(first)
        };
        assert(all_valid_segments(next));
        assert(all_raw_segments(segs.drop_first()));
        lemma_resolve_valid(next, segs.drop_first());
    }
}

/// Computes the logical resolution of `segs` against `base`.
pub fn resolve(base: &Vec<String>, segs: &Vec<String>) -> (r: Vec<String>)
    ensures
        r.deep_view() == resolve_spec(base.deep_view(), segs.deep_view()),
{
    let dot = dot_string();
    let dotdot = dotdot_string();
    let mut stack = clone_segments(base);
    let mut i: usize = 0;
    proof {
        assert(segs.deep_view().skip(0) =~= segs.deep_view());
    }
    while i < segs.len()
        invariant
            i <= segs@.len(),
            dot@ == dot_seg(),
            dotdot@ == dotdot_seg(),
            resolve_spec(stack.deep_view(), segs.deep_view().skip(i as int)) == resolve_spec(
                base.deep_view(),
                segs.deep_view(),
            ),
        decreases segs@.len() - i,
    {
        let ghost rest = segs.deep_view().skip(i as int);
        let ghost before = stack.deep_view();
        proof {
            assert(rest[0] == segs.deep_view()[i as int]);
            assert(rest.drop_first() =~= segs.deep_view().skip((i + 1) as int));
        }
        let seg = &segs[i];
        proof {
            assert(seg@ == segs.deep_view()[i as int]);
        }
        if *seg == dot {
            proof {
                assert(resolve_spec(before, rest) == resolve_spec(before, rest.drop_first()));
            }
        } else if *seg == dotdot {
            if stack.len() > 0 {
                pop_segment(&mut stack);
            }
            proof {
                assert(resolve_spec(before, rest) == resolve_spec(
                    stack.deep_view(),
                    rest.drop_first(),
                ));
            }
        } else {
            push_segment(&mut stack, seg);
            proof {
                assert(resolve_spec(before, rest) == resolve_spec(
                    stack.deep_view(),
                    rest.drop_first(),
                ));
            }
        }
        i += 1;
    }
    proof {
        assert(segs.deep_view().skip(i as int) =~= Seq::<Seq<char>>::empty());
        assert(resolve_spec(stack.deep_view(), Seq::<Seq<char>>::empty()) == stack.deep_view());
    }
    stack
}

/// `p` is a prefix of `q`, segment for segment.
pub open spec fn is_prefix_of(p: Seq<Seq<char>>, q: Seq<Seq<char>>) -> bool {
    &&& p.len() <= q.len()
    &&& (forall|i: int| 0 <= i < p.len() ==> p[i] == q[i])
}

/// Decides whether the segments of `p` are a prefix of the segments of `q`.
pub fn segments_prefix_of(p: &Vec<String>, q: &Vec<String>) -> (r: bool)
    ensures
        r == is_prefix_of(p.deep_view(), q.deep_view()),
{
    if p.len() > q.len() {
        return false;
    }
    let mut i: usize = 0;
    while i < p.len()
        invariant
            i <= p@.len(),
            p@.len() <= q@.len(),
            forall|j: int| 0 <= j < i ==> #[trigger] p@[j]@ == q@[j]@,
        decreases p@.len() - i,
    {
        if !(p[i] == q[i]) {
            proof {
                assert(p.deep_view()[i as int] == p@[i as int]@);
                assert(q.deep_view()[i as int] == q@[i as int]@);
            }
            return false;
        }
        i += 1;
    }
    proof {
        assert forall|j: int| 0 <= j < p.deep_view().len() implies p.deep_view()[j]
            == q.deep_view()[j] by {
            assert(p@[j]@ == q@[j]@);
        }
    }
    true
}

/// Copies the segments of `q` that follow the prefix `p`.
pub fn segments_after_prefix(p: &Vec<String>, q: &Vec<String>) -> (r: Vec<String>)
    requires
        is_prefix_of(p.deep_view(), q.deep_view()),
    ensures
        r.deep_view() == q.deep_view().skip(p.deep_view().len() as int),
{
    let mut r: Vec<String> = Vec::new();
    let mut i: usize = p.len();
    proof {
        assert(p.deep_view().len() == p@.len());
        assert(q.deep_view().len() == q@.len());
    }
    while i < q.len()
        invariant
            p@.len() <= i <= q@.len(),
            r@.len() == i - p@.len(),
            forall|j: int| 0 <= j < r@.len() ==> #[trigger] r@[j]@ == q@[j + p@.len()]@,
        decreases q@.len() - i,
    {
        let ghost prev_raw = r@;
        r.push(q[i].clone());
        proof {
            assert forall|j: int| 0 <= j < r@.len() implies #[trigger] r@[j]@ == q@[j
                + p@.len()]@ by {
                assert(r@[j] == prev_raw.push(r@[prev_raw.len() as int])[j]);
                if j < prev_raw.len() {
                    assert(r@[j] == prev_raw[j]);
                }
            }
        }
        i += 1;
    }
    proof {
        let skipped = q.deep_view().skip(p.deep_view().len() as int);
        assert forall|j: int| 0 <= j < r.deep_view().len() implies r.deep_view()[j]
            == skipped[j] by {
            assert(r@[j]@ == q@[j + p@.len()]@);
        }
        assert(r.deep_view() =~= skipped);
    }
    r
}

/// A canonical absolute path, held as its segments below the filesystem root.
/// Callers canonicalize before constructing one, so no navigation segments
/// remain.
#[derive(Debug)]
pub struct AbsolutePath {
    pub segments: Vec<String>,
}

impl View for AbsolutePath {
    type V = Seq<Seq<char>>;

    open spec fn view(&self) -> Seq<Seq<char>> {
        self.segments.deep_view()
    }
}

impl AbsolutePath {
    /// Every segment is a valid resolved segment.
    pub open spec fn wf(self) -> bool {
        all_valid_segments(self@)
    }

    /// Builds an absolute path from already-canonical segments; rejects any
    /// navigation or malformed segment.
    pub fn new(segments: Vec<String>) -> (r: Option<AbsolutePath>)
        ensures
            r is Some <==> all_valid_segments(segments.deep_view()),
            r matches Some(p) ==> p@ == segments.deep_view() && p.wf(),
    {
        let mut i: usize = 0;
        while i < segments.len()
            invariant
                i <= segments@.len(),
                forall|j: int| 0 <= j < i ==> valid_segment(#[trigger] segments.deep_view()[j]),
            decreases segments@.len() - i,
        {
            if !is_valid_segment(&segments[i]) {
                proof {
                    assert(!valid_segment(segments.deep_view()[i as int]));
                }
                return None;
            }
            i += 1;
        }
        Some(AbsolutePath { segments })
    }

    /// Hands the segments back out.
    pub fn into_path_buf(self) -> (r: Vec<String>)
        ensures
            r.deep_view() == self@,
    {
        self.segments
    }

    /// Borrows the segments.
    pub fn segments(&self) -> (r: &Vec<String>)
        ensures
            r.deep_view() == self@,
    {
        &self.segments
    }

    /// Copies this path.
    pub fn dup(&self) -> (r: AbsolutePath)
        ensures
            r@ == self@,
    {
        AbsolutePath { segments: clone_segments(&self.segments) }
    }

    /// Extends this path by already-valid relative segments.
    pub fn join(&self, rel: &Vec<String>) -> (r: AbsolutePath)
        ensures
            r@ == self@ + rel.deep_view(),
    {
        let mut segments = clone_segments(&self.segments);
        let mut i: usize = 0;
        while i < rel.len()
            invariant
                i <= rel@.len(),
                segments.deep_view() =~= self@ + rel.deep_view().take(i as int),
            decreases rel@.len() - i,
        {
            push_segment(&mut segments, &rel[i]);
            proof {
                assert(rel.deep_view()[i as int] == rel@[i as int]@);
                assert(segments.deep_view() =~= self@ + rel.deep_view().take((i + 1) as int));
            }
            i += 1;
        }
        proof {
            assert(rel.deep_view().take(rel.deep_view().len() as int) =~= rel.deep_view());
        }
        AbsolutePath { segments }
    }
}

/// A path exactly as a caller supplied it: flagged absolute or relative, its
/// segments possibly still containing `.` and `..`.
#[derive(Debug)]
pub struct RawPath {
    pub absolute: bool,
    pub segments: Vec<String>,
}

impl View for RawPath {
    type V = Seq<Seq<char>>;

    open spec fn view(&self) -> Seq<Seq<char>> {
        self.segments.deep_view()
    }
}

impl RawPath {
    /// Every segment is acceptable raw input.
    pub open spec fn wf(self) -> bool {
        all_raw_segments(self@)
    }

    /// Copies this path.
    pub fn dup(&self) -> (r: RawPath)
        ensures
            r@ == self@,
            r.absolute == self.absolute,
    {
        RawPath { absolute: self.absolute, segments: clone_segments(&self.segments) }
    }
}

/// A file path known to lie under the local root, held relative to that root.
#[derive(Debug)]
pub struct LocalFilePath {
    pub segments: Vec<String>,
}

impl View for LocalFilePath {
    type V = Seq<Seq<char>>;

    open spec fn view(&self) -> Seq<Seq<char>> {
        self.segments.deep_view()
    }
}

/// The requested path cannot be expressed as a descendant of the local root.
#[derive(Debug)]
pub struct LocalFilePathError {
    pub path: RawPath,
}

/// The input, taken against the local root and working directory, resolves to
/// a descendant of the local root. Absolute inputs are used as given and so
/// must already be free of navigation segments; relative inputs are resolved
/// logically against the working directory.
pub open spec fn local_path_ok(
    root: Seq<Seq<char>>,
    absolute: bool,
    segs: Seq<Seq<char>>,
    cwd: Seq<Seq<char>>,
) -> bool {
    if absolute {
        all_valid_segments(segs) && is_prefix_of(root, segs)
    } else {
        is_prefix_of(root, resolve_spec(cwd, segs))
    }
}

/// The root-relative remainder a valid input denotes.
pub open spec fn local_path_of(
    root: Seq<Seq<char>>,
    absolute: bool,
    segs: Seq<Seq<char>>,
    cwd: Seq<Seq<char>>,
) -> Seq<Seq<char>> {
    if absolute {
        segs.skip(root.len() as int)
    } else {
        resolve_spec(cwd, segs).skip(root.len() as int)
    }
}

impl LocalFilePath {
    /// Every segment is a valid resolved segment.
    pub open spec fn wf(self) -> bool {
        all_valid_segments(self@)
    }

    /// Resolves caller input to a local path under `local_root`, or reports
    /// why it cannot be.
    pub fn from(local_root: &AbsolutePath, path: &RawPath, cwd: &AbsolutePath) -> (r: Result<
        LocalFilePath,
        LocalFilePathError,
    >)
        requires
            local_root.wf(),
            path.wf(),
            cwd.wf(),
        ensures
            r is Ok <==> local_path_ok(local_root@, path.absolute, path@, cwd@),
            r matches Ok(p) ==> p@ == local_path_of(local_root@, path.absolute, path@, cwd@)
                && p.wf(),
            r matches Err(e) ==> e.path@ == path@ && e.path.absolute == path.absolute,
    {
        if path.absolute {
            let mut i: usize = 0;
            while i < path.segments.len()
                invariant
                    path.absolute,
                    i <= path.segments@.len(),
                    forall|j: int| 0 <= j < i ==> valid_segment(#[trigger] path@[j]),
                decreases path.segments@.len() - i,
            {
                if !is_valid_segment(&path.segments[i]) {
                    proof {
                        assert(!valid_segment(path@[i as int]));
                        assert(!all_valid_segments(path@));
                    }
                    return Err(LocalFilePathError { path: path.dup() });
                }
                i += 1;
            }
            if !segments_prefix_of(&local_root.segments, &path.segments) {
                return Err(LocalFilePathError { path: path.dup() });
            }
            let segments = segments_after_prefix(&local_root.segments, &path.segments);
            proof {
                assert(all_valid_segments(path@));
                assert forall|j: int| 0 <= j < segments.deep_view().len() implies valid_segment(
                    #[trigger] segments.deep_view()[j],
                ) by {
                    assert(segments.deep_view()[j] == path@[j + local_root@.len()]);
                }
            }
            Ok(LocalFilePath { segments })
        } else {
            let resolved = resolve(&cwd.segments, &path.segments);
            if !segments_prefix_of(&local_root.segments, &resolved) {
                return Err(LocalFilePathError { path: path.dup() });
            }
            let segments = segments_after_prefix(&local_root.segments, &resolved);
            proof {
                lemma_resolve_valid(cwd@, path@);
                assert forall|j: int| 0 <= j < segments.deep_view().len() implies valid_segment(
                    #[trigger] segments.deep_view()[j],
                ) by {
                    assert(segments.deep_view()[j] == resolved.deep_view()[j
                        + local_root@.len()]);
                }
            }
            Ok(LocalFilePath { segments })
        }
    }

    /// Wraps already-valid root-relative segments.
    pub fn from_segments(segments: Vec<String>) -> (r: Option<LocalFilePath>)
        ensures
            r is Some <==> all_valid_segments(segments.deep_view()),
            r matches Some(p) ==> p@ == segments.deep_view() && p.wf(),
    {
        let mut i: usize = 0;
        while i < segments.len()
            invariant
                i <= segments@.len(),
                forall|j: int| 0 <= j < i ==> valid_segment(#[trigger] segments.deep_view()[j]),
            decreases segments@.len() - i,
        {
            if !is_valid_segment(&segments[i]) {
                proof {
                    assert(!valid_segment(segments.deep_view()[i as int]));
                }
                return None;
            }
            i += 1;
        }
        Some(LocalFilePath { segments })
    }

    /// Borrows the root-relative segments.
    pub fn segments(&self) -> (r: &Vec<String>)
        ensures
            r.deep_view() == self@,
    {
        &self.segments
    }

    /// Copies this path.
    pub fn dup(&self) -> (r: LocalFilePath)
        ensures
            r@ == self@,
    {
        LocalFilePath { segments: clone_segments(&self.segments) }
    }

    /// Decides whether this path lies at or under `location`.
    pub fn is_child_of(&self, location: &LocalFilePath) -> (r: bool)
        ensures
            r == is_prefix_of(location@, self@),
    {
        segments_prefix_of(&location.segments, &self.segments)
    }
}

/// Lexicographic order on segments by character code point.
pub open spec fn seg_lt(a: Seq<char>, b: Seq<char>) -> bool
    decreases a.len(),
{
    if b.len() == 0 {
        false
    } else if a.len() == 0 {
        true
    } else if a[0] == b[0] {
        seg_lt(a.drop_first(), b.drop_first())
    } else {
        (a[0] as u32) < (b[0] as u32)
    }
}

/// Lexicographic order on paths, segment by segment.
pub open spec fn path_lt(a: Seq<Seq<char>>, b: Seq<Seq<char>>) -> bool
    decreases a.len(),
{
    if b.len() == 0 {
        false
    } else if a.len() == 0 {
        true
    } else if a[0] == b[0] {
        path_lt(a.drop_first(), b.drop_first())
    } else {
        seg_lt(a[0], b[0])
    }
}

/// Distinct segments are ordered one way or the other.
pub proof fn lemma_seg_lt_total(a: Seq<char>, b: Seq<char>)
    requires
        a != b,
    ensures
        seg_lt(a, b) || seg_lt(b, a),
    decreases a.len(),
{
    if b.len() == 0 {
        if a.len() == 0 {
            assert(a =~= b);
        }
    } else if a.len() == 0 {
    } else if a[0] == b[0] {
        if a.drop_first() == b.drop_first() {
            assert(a.drop_first().len() == b.drop_first().len());
            assert forall|i: int| 0 <= i < a.len() implies a[i] == b[i] by {
                if i > 0 {
                    assert(a.drop_first()[i - 1] == a[i]);
                    assert(b.drop_first()[i - 1] == b[i]);
                    assert(a.drop_first()[i - 1] == b.drop_first()[i - 1]);
                }
            }
            assert(a =~= b);
        } else {
            lemma_seg_lt_total(a.drop_first(), b.drop_first());
        }
    } else {
        if (a[0] as u32) == (b[0] as u32) {
            vstd::utf8::char_u32_cast(a[0], a[0] as u32);
            vstd::utf8::char_u32_cast(b[0], b[0] as u32);
        }
    }
}

/// Distinct paths are ordered one way or the other.
pub proof fn lemma_path_lt_total(a: Seq<Seq<char>>, b: Seq<Seq<char>>)
    requires
        a != b,
    ensures
        path_lt(a, b) || path_lt(b, a),
    decreases a.len(),
{
    if b.len() == 0 {
        if a.len() == 0 {
            assert(a =~= b);
        }
    } else if a.len() == 0 {
    } else if a[0] == b[0] {
        if a.drop_first() == b.drop_first() {
            assert(a.drop_first().len() == b.drop_first().len());
            assert forall|i: int| 0 <= i < a.len() implies a[i] == b[i] by {
                if i > 0 {
                    assert(a.drop_first()[i - 1] == a[i]);
                    assert(b.drop_first()[i - 1] == b[i]);
                    assert(a.drop_first()[i - 1] == b.drop_first()[i - 1]);
                }
            }
            assert(a =~= b);
        } else {
            lemma_path_lt_total(a.drop_first(), b.drop_first());
        }
    } else {
        lemma_seg_lt_total(a[0], b[0]);
    }
}

/// When two segments agree up to `i`, their order is the order of their
/// remainders.
proof fn lemma_seg_lt_skip(a: Seq<char>, b: Seq<char>, i: int)
    requires
        0 <= i <= a.len(),
        i <= b.len(),
        forall|j: int| 0 <= j < i ==> a[j] == b[j],
    ensures
        seg_lt(a, b) == seg_lt(a.skip(i), b.skip(i)),
    decreases i,
{
    if i > 0 {
        assert(a.len() > 0 && b.len() > 0);
        assert(a[0] == b[0]);
        assert(a.drop_first() =~= a.skip(1));
        assert(b.drop_first() =~= b.skip(1));
        lemma_seg_lt_skip(a.skip(1), b.skip(1), i - 1);
        assert(a.skip(1).skip(i - 1) =~= a.skip(i));
        assert(b.skip(1).skip(i - 1) =~= b.skip(i));
    } else {
        assert(a.skip(0) =~= a);
        assert(b.skip(0) =~= b);
    }
}

/// When two paths agree up to `i`, their order is the order of their
/// remainders.
proof fn lemma_path_lt_skip(a: Seq<Seq<char>>, b: Seq<Seq<char>>, i: int)
    requires
        0 <= i <= a.len(),
        i <= b.len(),
        forall|j: int| 0 <= j < i ==> a[j] == b[j],
    ensures
        path_lt(a, b) == path_lt(a.skip(i), b.skip(i)),
    decreases i,
{
    if i > 0 {
        assert(a.len() > 0 && b.len() > 0);
        assert(a[0] == b[0]);
        assert(a.drop_first() =~= a.skip(1));
        assert(b.drop_first() =~= b.skip(1));
        lemma_path_lt_skip(a.skip(1), b.skip(1), i - 1);
        assert(a.skip(1).skip(i - 1) =~= a.skip(i));
        assert(b.skip(1).skip(i - 1) =~= b.skip(i));
    } else {
        assert(a.skip(0) =~= a);
        assert(b.skip(0) =~= b);
    }
}

/// Decides the lexicographic order of two segments.
pub fn seg_lt_exec(a: &String, b: &String) -> (r: bool)
    ensures
        r == seg_lt(a@, b@),
{
    let an = a.as_str().unicode_len();
    let bn = b.as_str().unicode_len();
    let min = if an < bn {
        an
    } else {
        bn
    };
    let mut i: usize = 0;
    while i < min
        invariant
            i <= min,
            an == a@.len(),
            bn == b@.len(),
            min == if an < bn {
                an
            } else {
                bn
            },
            forall|j: int| 0 <= j < i ==> a@[j] == b@[j],
        decreases min - i,
    {
        let ca = a.as_str().get_char(i);
        let cb = b.as_str().get_char(i);
        if ca != cb {
            proof {
                lemma_seg_lt_skip(a@, b@, i as int);
                assert(a@.skip(i as int)[0] == ca);
                assert(b@.skip(i as int)[0] == cb);
            }
            return (ca as u32) < (cb as u32);
        }
        i += 1;
    }
    proof {
        lemma_seg_lt_skip(a@, b@, min as int);
        if an == bn {
            assert(a@.skip(min as int).len() == 0 && b@.skip(min as int).len() == 0);
        }
    }
    an < bn
}

/// Decides the lexicographic order of two paths.
pub fn path_lt_exec(a: &LocalFilePath, b: &LocalFilePath) -> (r: bool)
    ensures
        r == path_lt(a@, b@),
{
    let min = if a.segments.len() < b.segments.len() {
        a.segments.len()
    } else {
        b.segments.len()
    };
    let mut i: usize = 0;
    while i < min
        invariant
            i <= min,
            min == if a.segments@.len() < b.segments@.len() {
                a.segments@.len()
            } else {
                b.segments@.len()
            },
            forall|j: int| 0 <= j < i ==> a@[j] == b@[j],
        decreases min - i,
    {
        let sa = &a.segments[i];
        let sb = &b.segments[i];
        proof {
            assert(a@[i as int] == a.segments@[i as int]@);
            assert(b@[i as int] == b.segments@[i as int]@);
        }
        if !(*sa == *sb) {
            let r = seg_lt_exec(sa, sb);
            proof {
                lemma_path_lt_skip(a@, b@, i as int);
                assert(a@.skip(i as int)[0] == a@[i as int]);
                assert(b@.skip(i as int)[0] == b@[i as int]);
            }
            return r;
        }
        i += 1;
    }
    proof {
        lemma_path_lt_skip(a@, b@, min as int);
        if a.segments.len() == b.segments.len() {
            assert(a@.skip(min as int).len() == 0 && b@.skip(min as int).len() == 0);
        }
    }
    a.segments.len() < b.segments.len()
}

/// The paths appear in strictly increasing order.
pub open spec fn paths_sorted(s: Seq<LocalFilePath>) -> bool {
    forall|i: int, j: int| 0 <= i < j < s.len() ==> path_lt((#[trigger] s[i])@, (#[trigger] s[j])@)
}

/// Some path in `s` has view `p`.
pub open spec fn paths_contain(s: Seq<LocalFilePath>, p: Seq<Seq<char>>) -> bool {
    exists|i: int| 0 <= i < s.len() && s[i]@ == p
}

/// The position at which a new path keeps a sorted list sorted.
fn find_insert_pos(arr: &Vec<LocalFilePath>, p: &LocalFilePath) -> (r: usize)
    requires
        paths_sorted(arr@),
        !paths_contain(arr@, p@),
    ensures
        r <= arr@.len(),
        forall|j: int| 0 <= j < r ==> path_lt((#[trigger] arr@[j])@, p@),
        r < arr@.len() ==> path_lt(p@, arr@[r as int]@),
{
    let mut idx: usize = 0;
    while idx < arr.len()
        invariant
            idx <= arr@.len(),
            paths_sorted(arr@),
            !paths_contain(arr@, p@),
            forall|j: int| 0 <= j < idx ==> path_lt((#[trigger] arr@[j])@, p@),
        decreases arr@.len() - idx,
    {
        if path_lt_exec(p, &arr[idx]) {
            return idx;
        }
        proof {
            assert(arr@[idx as int]@ != p@);
            lemma_path_lt_total(arr@[idx as int]@, p@);
        }
        idx += 1;
    }
    idx
}

/// Inserts a path not yet present into a sorted list, keeping it sorted.
pub fn insert_sorted(arr: &mut Vec<LocalFilePath>, p: LocalFilePath)
    requires
        paths_sorted(old(arr)@),
        !paths_contain(old(arr)@, p@),
    ensures
        paths_sorted(final(arr)@),
        final(arr)@.len() == old(arr)@.len() + 1,
        forall|q: Seq<Seq<char>>|
            #[trigger] paths_contain(final(arr)@, q) <==> paths_contain(old(arr)@, q) || q == p@,
{
    let ghost orig = arr@;
    let idx = find_insert_pos(arr, &p);
    arr.insert(idx, p);
    proof {
        let now = arr@;
        assert forall|i: int, j: int| 0 <= i < j < now.len() implies path_lt(
            (#[trigger] now[i])@,
            (#[trigger] now[j])@,
        ) by {
            let oi = if i < idx {
                orig[i]
            } else if i == idx {
                p
            } else {
                orig[i - 1]
            };
            assert(now[i] == oi);
            let oj = if j < idx {
                orig[j]
            } else if j == idx {
                p
            } else {
                orig[j - 1]
            };
            assert(now[j] == oj);
            if j == idx {
                assert(path_lt(now[i]@, p@));
            } else if i == idx {
                assert(j > idx && idx < orig.len());
                assert(path_lt(p@, orig[idx as int]@));
                if j - 1 > idx {
                    assert(path_lt(orig[idx as int]@, orig[j - 1]@));
                    lemma_path_lt_trans(p@, orig[idx as int]@, orig[j - 1]@);
                }
            }
        }
        assert forall|q: Seq<Seq<char>>| #[trigger]
            paths_contain(now, q) <==> paths_contain(orig, q) || q == p@ by {
            if paths_contain(now, q) {
                let i = choose|i: int| 0 <= i < now.len() && now[i]@ == q;
                if i < idx {
                    assert(orig[i]@ == q);
                } else if i == idx {
                } else {
                    assert(orig[i - 1]@ == q);
                }
            }
            if paths_contain(orig, q) {
                let i = choose|i: int| 0 <= i < orig.len() && orig[i]@ == q;
                if i < idx {
                    assert(now[i]@ == q);
                } else {
                    assert(now[i + 1]@ == q);
                }
            }
            if q == p@ {
                assert(now[idx as int]@ == q);
            }
        }
    }
}

/// Lexicographic order on segments is asymmetric.
proof fn lemma_seg_lt_asym(a: Seq<char>, b: Seq<char>)
    requires
        seg_lt(a, b),
    ensures
        !seg_lt(b, a),
    decreases a.len(),
{
    assert(b.len() > 0);
    if a.len() > 0 {
        if a[0] == b[0] {
            lemma_seg_lt_asym(a.drop_first(), b.drop_first());
        }
    }
}

/// Lexicographic order on paths is transitive.
pub proof fn lemma_path_lt_trans(a: Seq<Seq<char>>, b: Seq<Seq<char>>, c: Seq<Seq<char>>)
    requires
        path_lt(a, b),
        path_lt(b, c),
    ensures
        path_lt(a, c),
    decreases a.len() + b.len() + c.len(),
{
    assert(b.len() > 0 && c.len() > 0);
    if a.len() > 0 {
        if a[0] == b[0] && b[0] == c[0] {
            lemma_path_lt_trans(a.drop_first(), b.drop_first(), c.drop_first());
        } else if a[0] == b[0] {
            assert(seg_lt(b[0], c[0]));
        } else if b[0] == c[0] {
            assert(seg_lt(a[0], b[0]));
        } else {
            lemma_seg_lt_trans(a[0], b[0], c[0]);
            if a[0] == c[0] {
                lemma_seg_lt_asym(a[0], b[0]);
            }
        }
    }
}

/// Lexicographic order on segments is transitive.
proof fn lemma_seg_lt_trans(a: Seq<char>, b: Seq<char>, c: Seq<char>)
    requires
        seg_lt(a, b),
        seg_lt(b, c),
    ensures
        seg_lt(a, c),
    decreases a.len() + b.len() + c.len(),
{
    assert(b.len() > 0 && c.len() > 0);
    if a.len() == 0 {
    } else {
        if a[0] == b[0] && b[0] == c[0] {
            lemma_seg_lt_trans(a.drop_first(), b.drop_first(), c.drop_first());
        } else if a[0] == b[0] {
            assert(seg_lt(b, c) && b[0] != c[0]);
            assert((b[0] as u32) < (c[0] as u32));
            assert(a[0] != c[0]);
        } else if b[0] == c[0] {
            assert((a[0] as u32) < (b[0] as u32));
            assert(a[0] != c[0]);
        } else {
            assert((a[0] as u32) < (b[0] as u32));
            assert((b[0] as u32) < (c[0] as u32));
            assert(a[0] != c[0]);
        }
    }
}

/// Sorts distinct paths into strictly increasing order, keeping exactly the
/// same paths.
pub fn sort_paths(paths: Vec<LocalFilePath>) -> (r: Vec<LocalFilePath>)
    requires
        forall|i: int, j: int| 0 <= i < j < paths@.len() ==> (#[trigger] paths@[i])@ != (
        #[trigger] paths@[j])@,
    ensures
        paths_sorted(r@),
        r@.len() == paths@.len(),
        forall|q: Seq<Seq<char>>| #[trigger] paths_contain(r@, q) <==> paths_contain(paths@, q),
{
    let ghost orig = paths@;
    let mut paths = paths;
    let mut r: Vec<LocalFilePath> = Vec::new();
    let ghost mut k: int = 0;
    while paths.len() > 0
        invariant
            0 <= k,
            k + paths@.len() == orig.len(),
            paths@ =~= orig.skip(k),
            forall|i: int, j: int| 0 <= i < j < orig.len() ==> (#[trigger] orig[i])@ != (
            #[trigger] orig[j])@,
            paths_sorted(r@),
            r@.len() == k,
            forall|q: Seq<Seq<char>>|
                #[trigger] paths_contain(r@, q) <==> paths_contain(orig.take(k), q),
        decreases paths@.len(),
    {
        proof {
            assert(paths@[0] == orig[k]);
            assert(!paths_contain(r@, orig[k]@)) by {
                if paths_contain(orig.take(k), orig[k]@) {
                    let i = choose|i: int| 0 <= i < k && orig.take(k)[i]@ == orig[k]@;
                    assert(orig[i]@ == orig[k]@);
                }
            }
        }
        let p = paths.remove(0);
        let ghost pview = p@;
        insert_sorted(&mut r, p);
        proof {
            k = k + 1;
            assert(paths@ =~= orig.skip(k));
            assert(orig.take(k).drop_last() =~= orig.take(k - 1));
            assert forall|q: Seq<Seq<char>>| #[trigger]
                paths_contain(r@, q) <==> paths_contain(orig.take(k), q) by {
                if paths_contain(orig.take(k), q) {
                    let i = choose|i: int| 0 <= i < k && orig.take(k)[i]@ == q;
                    if i < k - 1 {
                        assert(orig.take(k - 1)[i]@ == q);
                        assert(paths_contain(orig.take(k - 1), q));
                    } else {
                        assert(q == pview);
                    }
                }
                if paths_contain(orig.take(k - 1), q) || q == pview {
                    if paths_contain(orig.take(k - 1), q) {
                        let i = choose|i: int| 0 <= i < k - 1 && (#[trigger] orig.take(k - 1)[i])@ == q;
                        assert(orig.take(k)[i]@ == q);
                    } else {
                        assert(orig.take(k)[k - 1]@ == q);
                    }
                }
            }
        }
    }
    proof {
        assert(orig.take(k) =~= orig);
    }
    r
}

impl PartialEq for LocalFilePath {
    fn eq(&self, other: &LocalFilePath) -> (r: bool) {
        segments_eq(&self.segments, &other.segments)
    }
}

impl vstd::std_specs::cmp::PartialEqSpecImpl for LocalFilePath {
    open spec fn obeys_eq_spec() -> bool {
        true
    }

    open spec fn eq_spec(&self, other: &LocalFilePath) -> bool {
        self@ == other@
    }
}

} // verus!
