//! Virtual paths: the unit of path virtualization.
//!
//! A guest supplies paths as forward-slash strings, either anchored at the
//! sandbox root (`/a/b`) or relative to the session's working directory
//! (`a/b`). A [`VirtualPath`] is the parsed form: an absolute/relative flag
//! plus the sequence of segments. Resolution normalizes a path against a base:
//! `.` segments are dropped and `..` segments pop the last segment, clamped at
//! the sandbox root so that no input can escape the sandbox.

use vstd::prelude::*;
use vstd::string::StrSliceExecFns;
use vstd::string::StringExecFns;

verus! {

/// Mathematical model of a virtual path: whether it is anchored at the
/// sandbox root, and its segments.
pub struct PathModel {
    pub absolute: bool,
    pub segments: Seq<Seq<char>>,
}

/// A guest-visible path inside the sandbox.
pub struct VirtualPath {
    pub absolute: bool,
    pub segments: Vec<String>,
}

impl View for VirtualPath {
    type V = PathModel;

    open spec fn view(&self) -> PathModel {
        PathModel { absolute: self.absolute, segments: self.segments.deep_view() }
    }
}

impl DeepView for VirtualPath {
    type V = PathModel;

    open spec fn deep_view(&self) -> PathModel {
        self.view()
    }
}

/// The `.` path segment, which resolution drops.
pub open spec fn dot() -> Seq<char> {
    seq!['.']
}

/// The `..` path segment, which resolution folds away (clamped at the root).
pub open spec fn dotdot() -> Seq<char> {
    seq!['.', '.']
}

/// A segment as it may appear in a fully resolved path: non-empty and not a
/// relative step.
pub open spec fn segment_wf(s: Seq<char>) -> bool {
    s.len() > 0 && s != dot() && s != dotdot()
}

/// All segments of a fully resolved path are well-formed.
pub open spec fn segments_wf(ss: Seq<Seq<char>>) -> bool {
    forall|i: int| 0 <= i < ss.len() ==> segment_wf(#[trigger] ss[i])
}

/// No segment is empty (true of anything the parser produces).
pub open spec fn segments_nonempty(ss: Seq<Seq<char>>) -> bool {
    forall|i: int| 0 <= i < ss.len() ==> (#[trigger] ss[i]).len() > 0
}

/// Splitting a path string at `/`, one character at a time: `cur` is the
/// segment being accumulated, `acc` the segments already complete. Runs of
/// slashes produce no empty segments.
pub open spec fn split_loop(s: Seq<char>, i: int, cur: Seq<char>, acc: Seq<Seq<char>>) -> Seq<
    Seq<char>,
>
    decreases s.len() - i,
{
    if i < 0 || i >= s.len() {
        if cur.len() > 0 {
            acc.push(cur)
        } else {
            acc
        }
    } else if s[i] == '/' {
        split_loop(
            s,
            i + 1,
            Seq::empty(),
            if cur.len() > 0 {
                acc.push(cur)
            } else {
                acc
            },
        )
    } else {
        split_loop(s, i + 1, cur.push(s[i]), acc)
    }
}

/// The segments of a guest path string.
pub open spec fn split_segments(s: Seq<char>) -> Seq<Seq<char>> {
    split_loop(s, 0, Seq::empty(), Seq::empty())
}

/// What parsing a guest path string yields: a leading `/` makes the path
/// absolute; the segments are the non-empty chunks between slashes.
pub open spec fn parse_spec(s: Seq<char>) -> PathModel {
    PathModel { absolute: s.len() > 0 && s[0] == '/', segments: split_segments(s) }
}

/// One resolution step: `.` is dropped, `..` pops the last segment unless the
/// path is already at the sandbox root (the escape is clamped), anything else
/// is appended.
pub open spec fn norm_step(acc: Seq<Seq<char>>, seg: Seq<char>) -> Seq<Seq<char>> {
    if seg == dot() {
        acc
    } else if seg == dotdot() {
        if acc.len() > 0 {
            acc.drop_last()
        } else {
            acc
        }
    } else {
        acc.push(seg)
    }
}

/// Resolving a sequence of raw segments on top of an already-resolved base.
pub open spec fn normalize_onto(acc: Seq<Seq<char>>, segs: Seq<Seq<char>>) -> Seq<Seq<char>>
    decreases segs.len(),
{
    if segs.len() == 0 {
        acc
    } else {
        normalize_onto(norm_step(acc, segs[0]), segs.skip(1))
    }
}

/// The absolute location a parsed guest path denotes: an absolute path is
/// resolved from the sandbox root, a relative one from the working directory.
pub open spec fn resolve_spec(cwd: Seq<Seq<char>>, p: PathModel) -> Seq<Seq<char>> {
    if p.absolute {
        normalize_onto(Seq::empty(), p.segments)
    } else {
        normalize_onto(cwd, p.segments)
    }
}

/// The string form of a path: segments joined by `/`, with a leading `/` when
/// the path is absolute.
pub open spec fn join_segments(segs: Seq<Seq<char>>) -> Seq<char>
    decreases segs.len(),
{
    if segs.len() == 0 {
        Seq::empty()
    } else if segs.len() == 1 {
        segs[0]
    } else {
        join_segments(segs.drop_last()) + seq!['/'] + segs.last()
    }
}

/// The string form of a [`VirtualPath`].
pub open spec fn render_spec(p: PathModel) -> Seq<char> {
    if p.absolute {
        seq!['/'] + join_segments(p.segments)
    } else {
        join_segments(p.segments)
    }
}

/// Whether a guest path string denotes an absolute path.
pub open spec fn is_absolute_string(s: Seq<char>) -> bool {
    s.len() > 0 && s[0] == '/'
}

/// Parse a guest path string into a [`VirtualPath`].
pub fn parse_path(s: &str) -> (p: VirtualPath)
    ensures
        p@ == parse_spec(s@),
{
    let n: usize = s.unicode_len();
    let absolute = n > 0 && s.get_char(0) == '/';
    let mut segments: Vec<String> = Vec::new();
    let mut start: usize = 0;
    let mut i: usize = 0;
    proof {
        assert(s@.subrange(0, 0) =~= Seq::<char>::empty());
        assert(segments.deep_view() =~= Seq::<Seq<char>>::empty());
    }
    while i < n
        invariant
            start <= i <= n,
            n == s@.len(),
            split_segments(s@) == split_loop(
                s@,
                i as int,
                s@.subrange(start as int, i as int),
                segments.deep_view(),
            ),
        decreases n - i,
    {
        let ghost cur = s@.subrange(start as int, i as int);
        let ghost acc = segments.deep_view();
        let c = s.get_char(i);
        if c == '/' {
            if i > start {
                let seg = s.substring_char(start, i);
                segments.push(seg.to_owned());
                proof {
                    assert(segments.deep_view() =~= acc.push(cur));
                }
            }
            start = i + 1;
            proof {
                assert(s@.subrange(start as int, i + 1) =~= Seq::<char>::empty());
            }
        } else {
            proof {
                assert(s@.subrange(start as int, i + 1) =~= cur.push(s@[i as int]));
            }
        }
        i = i + 1;
    }
    if i > start {
        let ghost cur = s@.subrange(start as int, i as int);
        let ghost acc = segments.deep_view();
        let seg = s.substring_char(start, i);
        segments.push(seg.to_owned());
        proof {
            assert(segments.deep_view() =~= acc.push(cur));
        }
    }
    proof {
        assert(parse_spec(s@).absolute == absolute);
    }
    VirtualPath { absolute, segments }
}

/// Every segment the parser yields is non-empty, provided every segment
/// already accumulated is.
proof fn lemma_split_loop_nonempty(s: Seq<char>, i: int, cur: Seq<char>, acc: Seq<Seq<char>>)
    requires
        segments_nonempty(acc),
    ensures
        segments_nonempty(split_loop(s, i, cur, acc)),
    decreases s.len() - i,
{
    if i < 0 || i >= s.len() {
        if cur.len() > 0 {
            assert(segments_nonempty(acc.push(cur)));
        }
    } else if s[i] == '/' {
        if cur.len() > 0 {
            assert(segments_nonempty(acc.push(cur)));
            lemma_split_loop_nonempty(s, i + 1, Seq::empty(), acc.push(cur));
        } else {
            lemma_split_loop_nonempty(s, i + 1, Seq::empty(), acc);
        }
    } else {
        lemma_split_loop_nonempty(s, i + 1, cur.push(s[i]), acc);
    }
}

/// The parser never produces an empty segment.
pub proof fn lemma_parse_segments_nonempty(s: Seq<char>)
    ensures
        segments_nonempty(split_segments(s)),
{
    lemma_split_loop_nonempty(s, 0, Seq::empty(), Seq::empty());
}

/// Sandbox containment: resolving any sequence of non-empty guest segments on
/// top of a well-formed base yields a well-formed path again — in particular,
/// no `.` or `..` survives resolution, so the resolved location never lies
/// outside the sandbox root, however many parent-directory segments the guest
/// supplies.
pub proof fn lemma_sandbox_containment(acc: Seq<Seq<char>>, segs: Seq<Seq<char>>)
    requires
        segments_wf(acc),
        segments_nonempty(segs),
    ensures
        segments_wf(normalize_onto(acc, segs)),
    decreases segs.len(),
{
    if segs.len() > 0 {
        let stepped = norm_step(acc, segs[0]);
        assert(segments_wf(stepped)) by {
            if segs[0] == dot() {
            } else if segs[0] == dotdot() {
                if acc.len() > 0 {
                    assert(forall|i: int|
                        0 <= i < acc.drop_last().len() ==> acc.drop_last()[i] == acc[i]);
                }
            } else {
                assert(segment_wf(segs[0]));
                assert(forall|i: int|
                    0 <= i < stepped.len() - 1 ==> stepped[i] == acc[i]);
            }
        }
        assert(segments_nonempty(segs.skip(1))) by {
            assert(forall|i: int| 0 <= i < segs.skip(1).len() ==> segs.skip(1)[i] == segs[i + 1]);
        }
        lemma_sandbox_containment(stepped, segs.skip(1));
    }
}

/// Whether a segment is `.`.
fn is_dot(s: &String) -> (r: bool)
    ensures
        r == (s@ == dot()),
{
    let n: usize = s.as_str().unicode_len();
    if n == 1 {
        let c = s.as_str().get_char(0);
        proof {
            if c == '.' {
                assert(s@ =~= dot());
            }
        }
        c == '.'
    } else {
        false
    }
}

/// Whether a segment is `..`.
fn is_dotdot(s: &String) -> (r: bool)
    ensures
        r == (s@ == dotdot()),
{
    let n: usize = s.as_str().unicode_len();
    if n == 2 {
        let c0 = s.as_str().get_char(0);
        let c1 = s.as_str().get_char(1);
        proof {
            if c0 == '.' && c1 == '.' {
                assert(s@ =~= dotdot());
            }
        }
        c0 == '.' && c1 == '.'
    } else {
        false
    }
}

impl VirtualPath {
    /// Copy a path, preserving its model.
    pub fn duplicate(&self) -> (r: VirtualPath)
        ensures
            r@ == self@,
    {
        VirtualPath { absolute: self.absolute, segments: clone_segments(&self.segments) }
    }
}

/// Clone a segment vector, preserving its model.
pub fn clone_segments(v: &Vec<String>) -> (r: Vec<String>)
    ensures
        r.deep_view() == v.deep_view(),
{
    let r = v.clone();
    proof {
        assert(r.deep_view() =~= v.deep_view());
        vstd::std_specs::vec::vec_clone_deep_view_proof(*v, r);
    }
    r
}

/// Resolve a parsed guest path against a base (the working directory for
/// relative paths; ignored for absolute ones), clamping at the sandbox root.
pub fn resolve_against(base: &Vec<String>, p: &VirtualPath) -> (r: Vec<String>)
    ensures
        r.deep_view() == resolve_spec(base.deep_view(), p@),
{
    let mut acc: Vec<String> = if p.absolute {
        Vec::new()
    } else {
        clone_segments(base)
    };
    let ghost segs = p@.segments;
    let ghost goal = resolve_spec(base.deep_view(), p@);
    proof {
        assert(segs.skip(0) =~= segs);
        if p.absolute {
            assert(acc.deep_view() =~= Seq::<Seq<char>>::empty());
        }
    }
    let mut i: usize = 0;
    while i < p.segments.len()
        invariant
            i <= p.segments.len(),
            segs == p@.segments,
            p.segments.len() == segs.len(),
            goal == normalize_onto(acc.deep_view(), segs.skip(i as int)),
        decreases p.segments.len() - i,
    {
        let ghost acc0 = acc.deep_view();
        let ghost rest = segs.skip(i as int);
        let seg = &p.segments[i];
        assert(seg@ == segs[i as int]);
        if is_dot(seg) {
        } else if is_dotdot(seg) {
            if acc.len() > 0 {
                acc.pop();
                proof {
                    assert(acc.deep_view() =~= acc0.drop_last());
                }
            }
        } else {
            acc.push(seg.clone());
            proof {
                assert(acc.deep_view() =~= acc0.push(seg@));
            }
        }
        proof {
            assert(rest[0] == segs[i as int]);
            assert(acc.deep_view() == norm_step(acc0, rest[0]));
            assert(rest.skip(1) =~= segs.skip(i + 1));
        }
        i = i + 1;
    }
    proof {
        assert(segs.skip(segs.len() as int) =~= Seq::<Seq<char>>::empty());
    }
    acc
}

/// Append one literal child segment to an already-resolved path.
pub fn child_of(base: &Vec<String>, name: &str) -> (r: Vec<String>)
    ensures
        r.deep_view() == base.deep_view().push(name@),
{
    let mut r = clone_segments(base);
    r.push(name.to_owned());
    proof {
        assert(r.deep_view() =~= base.deep_view().push(name@));
    }
    r
}

/// Render a path as its guest string form.
pub fn path_to_string(p: &VirtualPath) -> (r: String)
    ensures
        r@ == render_spec(p@),
{
    let ghost segs = p@.segments;
    let mut out = String::new();
    let ghost lead: Seq<char> = if p.absolute {
        seq!['/']
    } else {
        Seq::empty()
    };
    if p.absolute {
        out.append("/");
        proof {
            reveal_strlit("/");
            assert("/"@ =~= seq!['/']);
        }
    }
    proof {
        assert(out@ =~= lead + join_segments(segs.take(0)));
    }
    let mut i: usize = 0;
    while i < p.segments.len()
        invariant
            i <= p.segments.len(),
            segs == p@.segments,
            p.segments.len() == segs.len(),
            lead == (if p@.absolute {
                seq!['/']
            } else {
                Seq::<char>::empty()
            }),
            out@ == lead + join_segments(segs.take(i as int)),
        decreases p.segments.len() - i,
    {
        let ghost out0 = out@;
        if i > 0 {
            out.append("/");
            proof {
                reveal_strlit("/");
                assert("/"@ =~= seq!['/']);
            }
        }
        out.append(p.segments[i].as_str());
        proof {
            let taken = segs.take(i + 1);
            assert(taken.drop_last() =~= segs.take(i as int));
            assert(taken.last() == segs[i as int]);
            if i == 0 {
                assert(join_segments(taken) == segs[0]);
                assert(out@ =~= lead + join_segments(taken));
            } else {
                assert(join_segments(taken) == join_segments(segs.take(i as int)) + seq!['/']
                    + segs[i as int]);
                assert(out@ =~= lead + join_segments(taken));
            }
        }
        i = i + 1;
    }
    proof {
        assert(segs.take(segs.len() as int) =~= segs);
    }
    out
}

/// Compare two resolved paths segment for segment.
pub fn segments_eq(a: &Vec<String>, b: &Vec<String>) -> (r: bool)
    ensures
        r == (a.deep_view() == b.deep_view()),
{
    if a.len() != b.len() {
        proof {
            assert(a.deep_view().len() == a@.len());
            assert(b.deep_view().len() == b@.len());
        }
        return false;
    }
    let mut i: usize = 0;
    while i < a.len()
        invariant
            i <= a.len(),
            a.len() == b.len(),
            forall|j: int| 0 <= j < i ==> a.deep_view()[j] == b.deep_view()[j],
        decreases a.len() - i,
    {
        if !a[i].eq(&b[i]) {
            proof {
                assert(a.deep_view()[i as int] != b.deep_view()[i as int]);
            }
            return false;
        }
        i = i + 1;
    }
    proof {
        assert(a.deep_view() =~= b.deep_view());
    }
    true
}

} // verus!
