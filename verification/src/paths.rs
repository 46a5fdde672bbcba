//! Paths as text: joining, stripping a directory prefix, and turning a path
//! the user typed into a pattern anchored at the repository root.
use vstd::prelude::*;
use crate::text::{chars_of, push_str, range_eq, string_of};
use crate::strlist::{str_eq, views};
use crate::exclude::string_of_str;

verus! {

/// `base` joined with `rel` the way `Path::join` does it on Unix: an
/// absolute `rel` replaces `base`; otherwise a `'/'` separates the two
/// unless `base` is empty or already ends with one.
pub open spec fn path_join(base: Seq<char>, rel: Seq<char>) -> Seq<char> {
    if rel.len() > 0 && rel[0] == '/' {
        rel
    } else if base.len() == 0 {
        rel
    } else if base.last() == '/' {
        base + rel
    } else {
        base + seq!['/'] + rel
    }
}

/// Joins `rel` onto `base` (see [`path_join`]).
pub fn join_path(base: &str, rel: &str) -> (out: String)
    ensures
        out@ == path_join(base@, rel@),
{
    let b = chars_of(base);
    let r = chars_of(rel);
    if r.len() > 0 && r[0] == '/' {
        return string_of(&r, 0, r.len());
    }
    let mut out = string_of(&b, 0, b.len());
    assert(b@.subrange(0, b.len() as int) =~= b@);
    assert(r@.subrange(0, r.len() as int) =~= r@);
    if b.len() > 0 && b[b.len() - 1] != '/' {
        out.push('/');
    }
    push_str(&mut out, rel);
    out
}

/// The part of `path` below the directory `dir`: `Some(rest)` when `path` is
/// `dir`, a `'/'`, and `rest` (for a `dir` that already ends with `'/'`,
/// `dir` and then `rest`); `None` otherwise.
pub open spec fn spec_strip_dir(dir: Seq<char>, path: Seq<char>) -> Option<Seq<char>> {
    if dir.len() > 0 && dir.last() == '/' {
        if path.len() > dir.len() && path.subrange(0, dir.len() as int) == dir {
            Some(path.subrange(dir.len() as int, path.len() as int))
        } else {
            None
        }
    } else if path.len() > dir.len() && path.subrange(0, dir.len() as int) == dir
        && path[dir.len() as int] == '/' {
        Some(path.subrange(dir.len() + 1int, path.len() as int))
    } else {
        None
    }
}

/// The part of `path` below the directory `dir` (see [`spec_strip_dir`]).
pub fn strip_dir(dir: &str, path: &str) -> (out: Option<String>)
    ensures
        match out {
            Some(r) => spec_strip_dir(dir@, path@) == Some(r@),
            None => spec_strip_dir(dir@, path@) is None,
        },
{
    let d = chars_of(dir);
    let p = chars_of(path);
    if p.len() <= d.len() {
        return None;
    }
    let mut i: usize = 0;
    while i < d.len()
        invariant
            i <= d.len() < p.len(),
            d@ == dir@,
            p@ == path@,
            forall|j: int| 0 <= j < i ==> p@[j] == d@[j],
        decreases d.len() - i,
    {
        if p[i] != d[i] {
            assert(p@.subrange(0, d.len() as int)[i as int] != d@[i as int]);
            return None;
        }
        i = i + 1;
    }
    assert(p@.subrange(0, d.len() as int) =~= d@);
    if d.len() > 0 && d[d.len() - 1] == '/' {
        return Some(string_of(&p, d.len(), p.len()));
    }
    if p[d.len()] != '/' {
        return None;
    }
    Some(string_of(&p, d.len() + 1, p.len()))
}

/// The index of the first `'/'` in `s` at or after `i`, or `s.len()`.
pub open spec fn seg_end(s: Seq<char>, i: int) -> int
    decreases s.len() - i,
{
    if i < 0 {
        0
    } else if i >= s.len() {
        s.len() as int
    } else if s[i] == '/' {
        i
    } else {
        seg_end(s, i + 1)
    }
}

pub proof fn lemma_seg_end_bounds(s: Seq<char>, i: int)
    requires
        0 <= i <= s.len(),
    ensures
        i <= seg_end(s, i) <= s.len(),
        seg_end(s, i) < s.len() ==> s[seg_end(s, i)] == '/',
    decreases s.len() - i,
{
    if i < s.len() && s[i] != '/' {
        lemma_seg_end_bounds(s, i + 1);
    }
}

/// Whether a segment between separators names a path component: not empty
/// and not `.`.
pub open spec fn is_component(seg: Seq<char>) -> bool {
    seg.len() > 0 && seg != seq!['.']
}

/// The components of `s` from position `p` on: the text between `'/'`
/// separators, without empty segments and `.`, as `Path::components` gives
/// them for an absolute path (without its root).
pub open spec fn components_from(s: Seq<char>, p: int) -> Seq<Seq<char>>
    decreases s.len() - p,
{
    if p < 0 || p >= s.len() {
        seq![]
    } else {
        let k = seg_end(s, p);
        proof {
            lemma_seg_end_bounds(s, p);
        }
        let rest = if k < s.len() {
            components_from(s, k + 1)
        } else {
            seq![]
        };
        let seg = s.subrange(p, k);
        if is_component(seg) {
            seq![seg] + rest
        } else {
            rest
        }
    }
}

/// The components of `s` (see [`components_from`]).
pub open spec fn components(s: Seq<char>) -> Seq<Seq<char>> {
    components_from(s, 0)
}

/// Components with `..` resolved lexically: a `..` drops the component
/// before it, if any.
pub open spec fn normalize(cs: Seq<Seq<char>>) -> Seq<Seq<char>>
    decreases cs.len(),
{
    if cs.len() == 0 {
        seq![]
    } else {
        let prev = normalize(cs.drop_last());
        if cs.last() == seq!['.', '.'] {
            if prev.len() > 0 {
                prev.drop_last()
            } else {
                prev
            }
        } else {
            prev.push(cs.last())
        }
    }
}

/// Whether resolving `..` in `cs` climbs above where `cs` starts: some `..`
/// meets no component before it to drop.
pub open spec fn climbs(cs: Seq<Seq<char>>) -> bool
    decreases cs.len(),
{
    if cs.len() == 0 {
        false
    } else {
        climbs(cs.drop_last()) || (cs.last() == seq!['.', '.'] && normalize(cs.drop_last()).len()
            == 0)
    }
}

/// The components joined with `'/'`.
pub open spec fn join_slash(cs: Seq<Seq<char>>) -> Seq<char>
    decreases cs.len(),
{
    if cs.len() == 0 {
        seq![]
    } else if cs.len() == 1 {
        cs[0]
    } else {
        join_slash(cs.drop_last()) + seq!['/'] + cs.last()
    }
}

/// Why a path cannot be turned into a root-anchored pattern.
pub enum AnchorError {
    /// The path lies outside the repository.
    Outside,
    /// The path is the repository root itself.
    IsRoot,
}

/// The root-anchored pattern (`/rel/path`) for `input`, taken relative to
/// `cwd` when it is not absolute, inside the repository at `root`. A path
/// outside the repository, also one whose `..` climbs above the root, is
/// refused.
pub open spec fn anchored_pattern(root: Seq<char>, cwd: Seq<char>, input: Seq<char>) -> Result<
    Seq<char>,
    AnchorError,
> {
    let rc = components(root);
    let ac = components(path_join(cwd, input));
    if rc.len() <= ac.len() && ac.take(rc.len() as int) == rc && !climbs(ac.skip(rc.len() as int)) {
        let rel = normalize(ac.skip(rc.len() as int));
        if rel.len() == 0 {
            Err(AnchorError::IsRoot)
        } else {
            Ok(seq!['/'] + join_slash(rel))
        }
    } else {
        Err(AnchorError::Outside)
    }
}

/// The components of `s` (see [`components`]).
pub fn components_of(s: &str) -> (out: Vec<String>)
    ensures
        views(out@) == components(s@),
{
    let cs = chars_of(s);
    let mut rev: Vec<String> = Vec::new();
    let mut p: usize = 0;
    while p < cs.len()
        invariant
            p <= cs.len(),
            cs@ == s@,
            components(s@) == views(rev@) + components_from(cs@, p as int),
        decreases cs.len() - p,
    {
        let mut k = p;
        while k < cs.len() && cs[k] != '/'
            invariant
                p <= k <= cs.len(),
                seg_end(cs@, p as int) == seg_end(cs@, k as int),
            decreases cs.len() - k,
        {
            k = k + 1;
        }
        let is_dot = k == p + 1 && cs[p] == '.';
        proof {
            let seg = cs@.subrange(p as int, k as int);
            if k == p + 1 && cs@[p as int] == '.' {
                assert(seg =~= seq!['.']);
            }
            if seg == seq!['.'] {
                assert(seg.len() == 1);
                assert(seg[0] == '.');
            }
        }
        if k > p && !is_dot {
            let seg = string_of(&cs, p, k);
            let ghost before = rev@;
            rev.push(seg);
            proof {
                assert(views(rev@) =~= views(before).push(seg@));
                assert(views(before) + (seq![seg@] + components_from(cs@, k + 1)) =~= views(rev@)
                    + components_from(cs@, k + 1));
            }
        }
        if k == cs.len() {
            p = k;
        } else {
            p = k + 1;
        }
    }
    assert(components_from(cs@, p as int) =~= seq![]);
    assert(views(rev@) + seq![] =~= views(rev@));
    rev
}

/// [`normalize`] of the components `cs[from..]`, and whether resolving
/// them climbs above `from` (see [`climbs`]).
fn normalize_from(cs: &Vec<String>, from: usize) -> (out: (Vec<String>, bool))
    requires
        from <= cs.len(),
    ensures
        views(out.0@) == normalize(views(cs@).skip(from as int)),
        out.1 == climbs(views(cs@).skip(from as int)),
{
    let mut out: Vec<String> = Vec::new();
    let mut climbed = false;
    let mut i = from;
    let ghost vs = views(cs@).skip(from as int);
    assert(vs.take(0) =~= seq![]);
    while i < cs.len()
        invariant
            from <= i <= cs.len(),
            vs == views(cs@).skip(from as int),
            views(out@) == normalize(vs.take(i - from)),
            climbed == climbs(vs.take(i - from)),
        decreases cs.len() - i,
    {
        proof {
            assert(vs.take(i - from + 1).drop_last() =~= vs.take(i - from));
            assert(vs.take(i - from + 1).last() == cs@[i as int]@);
        }
        if str_eq(cs[i].as_str(), "..") {
            proof {
                reveal_strlit("..");
                assert(".."@ =~= seq!['.', '.']);
            }
            if out.len() > 0 {
                let ghost before = out@;
                out.pop();
                assert(views(out@) =~= views(before).drop_last());
            } else {
                climbed = true;
            }
        } else {
            proof {
                reveal_strlit("..");
                assert(".."@ =~= seq!['.', '.']);
            }
            let ghost before = out@;
            out.push(cs[i].clone());
            assert(views(out@) =~= views(before).push(cs@[i as int]@));
        }
        i = i + 1;
    }
    assert(vs.take(cs.len() - from) =~= vs);
    (out, climbed)
}

/// The components joined with `'/'` (see [`join_slash`]).
fn join_components(cs: &Vec<String>) -> (out: String)
    ensures
        out@ == join_slash(views(cs@)),
{
    let mut out = String::new();
    let mut i: usize = 0;
    while i < cs.len()
        invariant
            i <= cs.len(),
            out@ == join_slash(views(cs@).take(i as int)),
        decreases cs.len() - i,
    {
        proof {
            assert(views(cs@).take(i + 1).drop_last() =~= views(cs@).take(i as int));
            assert(views(cs@).take(i + 1).last() == cs@[i as int]@);
        }
        if i > 0 {
            out.push('/');
        } else {
            assert(views(cs@).take(0) =~= seq![]);
        }
        push_str(&mut out, cs[i].as_str());
        proof {
            if i == 0 {
                assert(out@ =~= views(cs@).take(1)[0]);
            } else {
                assert(out@ =~= join_slash(views(cs@).take(i as int)) + seq!['/'] + cs@[i as int]@);
            }
        }
        i = i + 1;
    }
    assert(views(cs@).take(cs.len() as int) =~= views(cs@));
    out
}

/// The root-anchored pattern for `input` (see [`anchored_pattern`]); `root`
/// and `cwd` are the resolved repository root and working directory.
pub fn anchor_path(root: &str, cwd: &str, input: &str) -> (r: Result<String, AnchorError>)
    ensures
        match r {
            Ok(p) => anchored_pattern(root@, cwd@, input@) == Ok::<Seq<char>, AnchorError>(p@),
            Err(e) => anchored_pattern(root@, cwd@, input@) == Err::<Seq<char>, AnchorError>(e),
        },
{
    let abs = join_path(cwd, input);
    let rc = components_of(root);
    let ac = components_of(abs.as_str());
    if rc.len() > ac.len() {
        return Err(AnchorError::Outside);
    }
    let mut i: usize = 0;
    while i < rc.len()
        invariant
            i <= rc.len() <= ac.len(),
            views(rc@) == components(root@),
            views(ac@) == components(abs@),
            abs@ == path_join(cwd@, input@),
            forall|j: int| 0 <= j < i ==> rc@[j]@ == ac@[j]@,
        decreases rc.len() - i,
    {
        if !str_eq(rc[i].as_str(), ac[i].as_str()) {
            assert(views(ac@).take(rc.len() as int)[i as int] != views(rc@)[i as int]);
            assert(views(ac@).take(rc.len() as int) != views(rc@));
            return Err(AnchorError::Outside);
        }
        i = i + 1;
    }
    assert(views(ac@).take(rc.len() as int) =~= views(rc@));
    let (rel, climbed) = normalize_from(&ac, rc.len());
    if climbed {
        return Err(AnchorError::Outside);
    }
    if rel.len() == 0 {
        return Err(AnchorError::IsRoot);
    }
    let mut out = String::new();
    out.push('/');
    let joined = join_components(&rel);
    push_str(&mut out, joined.as_str());
    Ok(out)
}

/// The error for the path `input` that cannot be anchored in the repository
/// at `root`.
pub open spec fn anchor_error_text(input: Seq<char>, root: Seq<char>, e: AnchorError) -> Seq<char> {
    match e {
        AnchorError::Outside => "path "@ + input + " is outside the repository "@ + root,
        AnchorError::IsRoot => "path "@ + input + " is the repository root, not a file"@,
    }
}

/// Converts each path into a root-anchored gitignore pattern (`/rel/path`)
/// that matches only the file at that path relative to the repository root.
/// Relative paths are taken from the working directory `cwd`; `repo_root`
/// and `cwd` are already resolved. It fails when a path lies outside the
/// repository or is its root.
pub fn paths_to_patterns(repo_root: &str, cwd: &str, paths: &Vec<String>) -> (r: Result<
    Vec<String>,
    String,
>)
    ensures
        r is Ok <==> forall|i: int|
            0 <= i < paths.len() ==> anchored_pattern(repo_root@, cwd@, #[trigger] paths@[i]@) is Ok,
        r matches Ok(v) ==> v.len() == paths.len() && forall|i: int|
            0 <= i < paths.len() ==> anchored_pattern(repo_root@, cwd@, #[trigger] paths@[i]@)
                == Ok::<Seq<char>, AnchorError>(v@[i]@),
        r matches Err(m) ==> exists|i: int|
            {
                &&& 0 <= i < paths.len()
                &&& forall|j: int|
                    0 <= j < i ==> anchored_pattern(repo_root@, cwd@, #[trigger] paths@[j]@) is Ok
                &&& anchored_pattern(repo_root@, cwd@, #[trigger] paths@[i]@) matches Err(e)
                &&& m@ == anchor_error_text(paths@[i]@, repo_root@, e)
            },
{
    let mut out: Vec<String> = Vec::new();
    let mut i: usize = 0;
    while i < paths.len()
        invariant
            i <= paths.len(),
            out.len() == i,
            forall|j: int|
                0 <= j < i ==> anchored_pattern(repo_root@, cwd@, #[trigger] paths@[j]@) == Ok::<
                    Seq<char>,
                    AnchorError,
                >(out@[j]@),
        decreases paths.len() - i,
    {
        match anchor_path(repo_root, cwd, paths[i].as_str()) {
            Ok(p) => {
                out.push(p);
            },
            Err(e) => {
                let mut msg = string_of_str("path ");
                push_str(&mut msg, paths[i].as_str());
                match e {
                    AnchorError::Outside => {
                        push_str(&mut msg, " is outside the repository ");
                        push_str(&mut msg, repo_root);
                    },
                    AnchorError::IsRoot => {
                        push_str(&mut msg, " is the repository root, not a file");
                    },
                }
                return Err(msg);
            },
        }
        i = i + 1;
    }
    Ok(out)
}

/// Each of `ps` taken below the directory `dir`, in order; `None` when one
/// of them does not lie below it.
pub open spec fn strip_dir_all(dir: Seq<char>, ps: Seq<Seq<char>>) -> Option<Seq<Seq<char>>>
    decreases ps.len(),
{
    if ps.len() == 0 {
        Some(seq![])
    } else {
        match (strip_dir_all(dir, ps.drop_last()), spec_strip_dir(dir, ps.last())) {
            (Some(r), Some(x)) => Some(r.push(x)),
            _ => None,
        }
    }
}

/// The error for `ps` taken below `dir`: it names the first of them that
/// does not lie below `dir`.
pub open spec fn relativize_failure(dir: Seq<char>, ps: Seq<Seq<char>>, m: Seq<char>) -> bool {
    exists|i: int|
        {
            &&& 0 <= i < ps.len()
            &&& forall|j: int| 0 <= j < i ==> spec_strip_dir(dir, #[trigger] ps[j]) is Some
            &&& spec_strip_dir(dir, #[trigger] ps[i]) is None
            &&& m == "failed to relativize "@ + ps[i] + " to "@ + dir
        }
}

/// Each of `paths` taken below the directory `dir` (see [`strip_dir_all`]);
/// it fails when one of them does not lie below it.
pub fn relativize_all(dir: &str, paths: &Vec<String>) -> (r: Result<Vec<String>, String>)
    ensures
        r is Ok <==> strip_dir_all(dir@, views(paths@)) is Some,
        r matches Ok(v) ==> strip_dir_all(dir@, views(paths@)) == Some(views(v@)),
        r matches Err(m) ==> relativize_failure(dir@, views(paths@), m@),
{
    let mut out: Vec<String> = Vec::new();
    let mut i: usize = 0;
    while i < paths.len()
        invariant
            i <= paths.len(),
            strip_dir_all(dir@, views(paths@).take(i as int)) == Some(views(out@)),
            forall|j: int| 0 <= j < i ==> spec_strip_dir(dir@, #[trigger] paths@[j]@) is Some,
        decreases paths.len() - i,
    {
        proof {
            assert(views(paths@).take(i + 1).drop_last() =~= views(paths@).take(i as int));
            assert(views(paths@).take(i + 1).last() == paths@[i as int]@);
        }
        match strip_dir(dir, paths[i].as_str()) {
            Some(rel) => {
                let ghost before = out@;
                out.push(rel);
                assert(views(out@) =~= views(before).push(rel@));
            },
            None => {
                proof {
                    lemma_strip_dir_all_none(dir@, views(paths@), i + 1);
                }
                let mut msg = string_of_str("failed to relativize ");
                push_str(&mut msg, paths[i].as_str());
                push_str(&mut msg, " to ");
                push_str(&mut msg, dir);
                return Err(msg);
            },
        }
        i = i + 1;
    }
    assert(views(paths@).take(paths.len() as int) =~= views(paths@));
    Ok(out)
}

/// Once a prefix of the paths fails to lie below `dir`, so do all of them.
proof fn lemma_strip_dir_all_none(dir: Seq<char>, ps: Seq<Seq<char>>, n: int)
    requires
        0 <= n <= ps.len(),
        strip_dir_all(dir, ps.take(n)) is None,
    ensures
        strip_dir_all(dir, ps) is None,
    decreases ps.len() - n,
{
    if n < ps.len() {
        assert(ps.take(n + 1).drop_last() =~= ps.take(n));
        lemma_strip_dir_all_none(dir, ps, n + 1);
    } else {
        assert(ps.take(n) =~= ps);
    }
}

/// Resolving `..` leaves no `..` component.
proof fn lemma_normalize_no_parent(cs: Seq<Seq<char>>)
    ensures
        !normalize(cs).contains(seq!['.', '.']),
    decreases cs.len(),
{
    if cs.len() > 0 {
        let prev = normalize(cs.drop_last());
        lemma_normalize_no_parent(cs.drop_last());
        if cs.last() == seq!['.', '.'] {
            if prev.len() > 0 {
                if prev.drop_last().contains(seq!['.', '.']) {
                    let i = choose|i: int|
                        0 <= i < prev.drop_last().len() && prev.drop_last()[i] == seq!['.', '.'];
                    assert(prev[i] == seq!['.', '.']);
                }
            }
        } else {
            if prev.push(cs.last()).contains(seq!['.', '.']) {
                let i = choose|i: int|
                    0 <= i < prev.push(cs.last()).len() && prev.push(cs.last())[i] == seq![
                        '.',
                        '.',
                    ];
                assert(prev[i] == seq!['.', '.']);
            }
        }
    }
}

/// Components without `..` are left as they are by resolving `..`.
proof fn lemma_normalize_plain(cs: Seq<Seq<char>>)
    requires
        !cs.contains(seq!['.', '.']),
    ensures
        normalize(cs) == cs,
        !climbs(cs),
    decreases cs.len(),
{
    if cs.len() > 0 {
        if cs.drop_last().contains(seq!['.', '.']) {
            let i = choose|i: int| 0 <= i < cs.drop_last().len() && cs.drop_last()[i] == seq!['.', '.'];
            assert(cs[i] == seq!['.', '.']);
        }
        assert(cs.last() != seq!['.', '.']) by {
            if cs.last() == seq!['.', '.'] {
                assert(cs[cs.len() - 1] == seq!['.', '.']);
            }
        }
        lemma_normalize_plain(cs.drop_last());
        assert(cs.drop_last().push(cs.last()) =~= cs);
    }
}

/// Resolving `..` is idempotent: resolved components resolve to themselves
/// and never climb.
pub proof fn lemma_normalize_idempotent(cs: Seq<Seq<char>>)
    ensures
        normalize(normalize(cs)) == normalize(cs),
        !climbs(normalize(cs)),
{
    lemma_normalize_no_parent(cs);
    lemma_normalize_plain(normalize(cs));
}

/// A file's pattern is anchored at the repository root and names its path
/// with `.` and `..` resolved: it starts with `'/'`, and the text after it
/// is its components joined with `'/'`, each of them non-empty, neither `.`
/// nor `..`, without a `'/'`. Splitting the pattern again gives back the
/// same components, which resolving leaves as they are.
pub proof fn lemma_anchored_pattern_shape(root: Seq<char>, cwd: Seq<char>, input: Seq<char>)
    ensures
        anchored_pattern(root, cwd, input) matches Ok(p) ==> {
            let rc = components(root);
            let ac = components(path_join(cwd, input));
            let rel = normalize(ac.skip(rc.len() as int));
            &&& p.len() > 0
            &&& p[0] == '/'
            &&& p == seq!['/'] + join_slash(rel)
            &&& rel.len() > 0
            &&& !rel.contains(seq!['.', '.'])
            &&& forall|i: int| 0 <= i < rel.len() ==> plain_component(#[trigger] rel[i])
            &&& components(p) == rel
            &&& normalize(components(p)) == components(p)
            &&& !climbs(ac.skip(rc.len() as int))
        },
{
    let rc = components(root);
    let ac = components(path_join(cwd, input));
    let tail = ac.skip(rc.len() as int);
    lemma_normalize_no_parent(tail);
    if anchored_pattern(root, cwd, input) is Ok {
        let rel = normalize(tail);
        lemma_components_from_plain(path_join(cwd, input), 0);
        assert forall|i: int| 0 <= i < tail.len() implies plain_component(#[trigger] tail[i]) by {
            assert(tail[i] == ac[rc.len() + i]);
        }
        lemma_normalize_plain_elements(tail);
        lemma_components_of_joined(rel);
        let pre = seq!['/'];
        let j = join_slash(rel);
        let s = pre + j;
        lemma_seg_end_at(s, 0, 0);
        lemma_components_from_shift(pre, j, 0);
        assert(s.subrange(0, 0) =~= Seq::<char>::empty());
        assert(components(s) == components(j));
        lemma_normalize_plain(rel);
    }
}

/// A component as [`components`] gives it: a segment that names a path
/// component and holds no `'/'`.
pub open spec fn plain_component(seg: Seq<char>) -> bool {
    is_component(seg) && !seg.contains('/')
}

/// No `'/'` lies between `i` and the end of its segment.
proof fn lemma_seg_end_no_slash(s: Seq<char>, i: int)
    requires
        0 <= i <= s.len(),
    ensures
        forall|j: int| i <= j < seg_end(s, i) ==> s[j] != '/',
    decreases s.len() - i,
{
    if i < s.len() && s[i] != '/' {
        lemma_seg_end_no_slash(s, i + 1);
    }
}

/// The segment from `i` ends at `k` when no `'/'` lies between them and `k`
/// is the end or a `'/'`.
proof fn lemma_seg_end_at(s: Seq<char>, i: int, k: int)
    requires
        0 <= i <= k <= s.len(),
        forall|j: int| i <= j < k ==> s[j] != '/',
        k < s.len() ==> s[k] == '/',
    ensures
        seg_end(s, i) == k,
    decreases k - i,
{
    if i < k {
        lemma_seg_end_at(s, i + 1, k);
    }
}

/// Every component of `s` from `p` on is plain.
proof fn lemma_components_from_plain(s: Seq<char>, p: int)
    ensures
        forall|i: int|
            0 <= i < components_from(s, p).len() ==> plain_component(
                #[trigger] components_from(s, p)[i],
            ),
    decreases s.len() - p,
{
    if 0 <= p < s.len() {
        let k = seg_end(s, p);
        lemma_seg_end_bounds(s, p);
        lemma_seg_end_no_slash(s, p);
        if k < s.len() {
            lemma_components_from_plain(s, k + 1);
        }
        let seg = s.subrange(p, k);
        assert(!seg.contains('/')) by {
            if seg.contains('/') {
                let j = choose|j: int| 0 <= j < seg.len() && seg[j] == '/';
                assert(s[p + j] == '/');
            }
        }
        let rest = if k < s.len() {
            components_from(s, k + 1)
        } else {
            seq![]
        };
        let cf = components_from(s, p);
        assert forall|i: int| 0 <= i < cf.len() implies plain_component(#[trigger] cf[i]) by {
            if is_component(seg) {
                assert(cf == seq![seg] + rest);
                if i > 0 {
                    assert(cf[i] == rest[i - 1]);
                }
            } else {
                assert(cf == rest);
            }
        }
    }
}

/// Every component of `s` is plain.
pub proof fn lemma_components_plain(s: Seq<char>)
    ensures
        forall|i: int| 0 <= i < components(s).len() ==> plain_component(#[trigger] components(s)[i]),
{
    lemma_components_from_plain(s, 0);
}

/// The segments after a prefix are found as in the text that follows it.
proof fn lemma_seg_end_shift(pre: Seq<char>, y: Seq<char>, i: int)
    requires
        0 <= i <= y.len(),
    ensures
        seg_end(pre + y, pre.len() + i) == pre.len() + seg_end(y, i),
    decreases y.len() - i,
{
    if i < y.len() {
        assert((pre + y)[pre.len() + i] == y[i]);
        if y[i] != '/' {
            lemma_seg_end_shift(pre, y, i + 1);
        }
    }
}

/// The components after a prefix are those of the text that follows it.
proof fn lemma_components_from_shift(pre: Seq<char>, y: Seq<char>, i: int)
    requires
        0 <= i,
    ensures
        components_from(pre + y, pre.len() + i) == components_from(y, i),
    decreases y.len() - i,
{
    let s = pre + y;
    if i < y.len() {
        lemma_seg_end_shift(pre, y, i);
        lemma_seg_end_bounds(y, i);
        let k = seg_end(y, i);
        if k < y.len() {
            lemma_components_from_shift(pre, y, k + 1);
            assert(s[pre.len() + k] == y[k]);
        }
        assert(s.subrange(pre.len() + i, pre.len() + k) =~= y.subrange(i, k));
    }
}

/// The components of `x`, a `'/'`, then `y`, from a position `p` in `x` on:
/// those of `x` from `p`, then those of `y`.
proof fn lemma_components_from_concat(x: Seq<char>, y: Seq<char>, p: int)
    requires
        0 <= p <= x.len(),
    ensures
        components_from(x + seq!['/'] + y, p) == components_from(x, p) + components(y),
    decreases x.len() - p,
{
    let s = x + seq!['/'] + y;
    let pre = x + seq!['/'];
    assert(s == pre + y);
    lemma_components_from_shift(pre, y, 0);
    assert(s[x.len() as int] == '/');
    if p == x.len() {
        lemma_seg_end_at(s, p, p);
        assert(s.subrange(p, p) =~= Seq::<char>::empty());
        assert(components_from(x, p) =~= Seq::<Seq<char>>::empty());
        assert(components_from(s, p) == components_from(s, p + 1));
        assert(components_from(x, p) + components(y) =~= components(y));
    } else {
        let k = seg_end(x, p);
        lemma_seg_end_bounds(x, p);
        lemma_seg_end_no_slash(x, p);
        assert forall|j: int| p <= j < k implies s[j] != '/' by {
            assert(s[j] == x[j]);
        }
        if k < x.len() {
            assert(s[k] == x[k]);
        }
        lemma_seg_end_at(s, p, k);
        assert(s.subrange(p, k) =~= x.subrange(p, k));
        let seg = x.subrange(p, k);
        if k < x.len() {
            lemma_components_from_concat(x, y, k + 1);
            if is_component(seg) {
                assert(components_from(s, p) == seq![seg] + components_from(s, k + 1));
                assert(components_from(x, p) == seq![seg] + components_from(x, k + 1));
                assert(seq![seg] + (components_from(x, k + 1) + components(y)) =~= (seq![seg]
                    + components_from(x, k + 1)) + components(y));
            }
        } else {
            assert(components_from(s, p) == (if is_component(seg) {
                seq![seg] + components_from(s, k + 1)
            } else {
                components_from(s, k + 1)
            }));
            assert(components_from(x, p) == (if is_component(seg) {
                seq![seg]
            } else {
                Seq::<Seq<char>>::empty()
            }));
            lemma_components_from_concat(x, y, x.len() as int);
            assert(components_from(s, x.len() as int) == components(y));
            lemma_seg_end_at(s, x.len() as int, x.len() as int);
            assert(s.subrange(x.len() as int, x.len() as int) =~= Seq::<char>::empty());
            if is_component(seg) {
                assert(seq![seg] + Seq::<Seq<char>>::empty() =~= seq![seg]);
            } else {
                assert(Seq::<Seq<char>>::empty() + components(y) =~= components(y));
            }
        }
    }
}

/// Joining a relative path appends its components (`Path::join`).
pub proof fn lemma_components_of_path_join(base: Seq<char>, rel: Seq<char>)
    requires
        rel.len() == 0 || rel[0] != '/',
    ensures
        components(path_join(base, rel)) == components(base) + components(rel),
{
    if base.len() == 0 {
        assert(components(base) =~= Seq::<Seq<char>>::empty());
        assert(components(base) + components(rel) =~= components(rel));
    } else if base.last() == '/' {
        let x = base.drop_last();
        assert(base =~= x + seq!['/'] + Seq::<char>::empty());
        lemma_components_from_concat(x, Seq::<char>::empty(), 0);
        assert(components(Seq::<char>::empty()) =~= Seq::<Seq<char>>::empty());
        assert(components(base) =~= components(x));
        assert(base + rel =~= x + seq!['/'] + rel);
        lemma_components_from_concat(x, rel, 0);
    } else {
        lemma_components_from_concat(base, rel, 0);
    }
}

/// Joining components of two or more: the first, a `'/'`, then the others
/// joined.
proof fn lemma_join_slash_first(cs: Seq<Seq<char>>)
    requires
        cs.len() >= 2,
    ensures
        join_slash(cs) == cs[0] + seq!['/'] + join_slash(cs.drop_first()),
    decreases cs.len(),
{
    if cs.len() == 2 {
        assert(cs.drop_last() =~= seq![cs[0]]);
        assert(cs.drop_first() =~= seq![cs[1]]);
        assert(join_slash(cs.drop_last()) == cs[0]);
        assert(join_slash(cs.drop_first()) == cs[1]);
        assert(join_slash(cs) == join_slash(cs.drop_last()) + seq!['/'] + cs.last());
    } else {
        let a = cs.drop_last();
        let b = cs.drop_first();
        lemma_join_slash_first(a);
        assert(a.drop_first() =~= b.drop_last());
        assert(b.last() == cs.last());
        assert(a[0] == cs[0]);
        assert(join_slash(cs) == join_slash(a) + seq!['/'] + cs.last());
        assert(join_slash(b) == join_slash(b.drop_last()) + seq!['/'] + b.last());
        assert(join_slash(cs) =~= cs[0] + seq!['/'] + join_slash(b));
    }
}

/// Plain components joined with `'/'` split back into themselves.
pub proof fn lemma_components_of_joined(cs: Seq<Seq<char>>)
    requires
        forall|i: int| 0 <= i < cs.len() ==> plain_component(#[trigger] cs[i]),
    ensures
        components(join_slash(cs)) == cs,
        cs.len() > 0 ==> join_slash(cs)[0] != '/',
    decreases cs.len(),
{
    if cs.len() == 1 {
        let c = cs[0];
        assert(plain_component(cs[0]));
        assert forall|j: int| 0 <= j < c.len() implies c[j] != '/' by {
            if c[j] == '/' {
                assert(c.contains('/'));
            }
        }
        lemma_seg_end_at(c, 0, c.len() as int);
        assert(c.subrange(0, c.len() as int) =~= c);
        assert(components(join_slash(cs)) =~= cs);
    } else if cs.len() >= 2 {
        let c = cs[0];
        assert(plain_component(cs[0]));
        let rest = cs.drop_first();
        assert forall|i: int| 0 <= i < rest.len() implies plain_component(#[trigger] rest[i]) by {
            assert(rest[i] == cs[i + 1]);
        }
        lemma_components_of_joined(rest);
        lemma_join_slash_first(cs);
        let pre = c + seq!['/'];
        let s = pre + join_slash(rest);
        assert(join_slash(cs) =~= s);
        assert forall|j: int| 0 <= j < c.len() implies s[j] != '/' by {
            assert(s[j] == c[j]);
            if c[j] == '/' {
                assert(c.contains('/'));
            }
        }
        assert(s[c.len() as int] == '/');
        lemma_seg_end_at(s, 0, c.len() as int);
        lemma_components_from_shift(pre, join_slash(rest), 0);
        assert(s.subrange(0, c.len() as int) =~= c);
        assert(components(s) =~= seq![c] + rest);
        assert(cs =~= seq![c] + rest);
        assert(s[0] == c[0]);
        if c[0] == '/' {
            assert(c.contains('/'));
        }
    }
}

/// Resolving `..` keeps only components of the input.
proof fn lemma_normalize_plain_elements(cs: Seq<Seq<char>>)
    requires
        forall|i: int| 0 <= i < cs.len() ==> plain_component(#[trigger] cs[i]),
    ensures
        forall|i: int| 0 <= i < normalize(cs).len() ==> plain_component(#[trigger] normalize(cs)[i]),
    decreases cs.len(),
{
    if cs.len() > 0 {
        let prev = normalize(cs.drop_last());
        assert forall|i: int| 0 <= i < cs.drop_last().len() implies plain_component(
            #[trigger] cs.drop_last()[i],
        ) by {
            assert(cs.drop_last()[i] == cs[i]);
        }
        lemma_normalize_plain_elements(cs.drop_last());
        assert(plain_component(cs[cs.len() - 1]));
        if cs.last() == seq!['.', '.'] {
            if prev.len() > 0 {
                assert forall|i: int| 0 <= i < prev.drop_last().len() implies plain_component(
                    #[trigger] prev.drop_last()[i],
                ) by {
                    assert(prev.drop_last()[i] == prev[i]);
                }
            }
        } else {
            assert forall|i: int| 0 <= i < prev.push(cs.last()).len() implies plain_component(
                #[trigger] prev.push(cs.last())[i],
            ) by {
                if i < prev.len() {
                    assert(prev.push(cs.last())[i] == prev[i]);
                }
            }
        }
    }
}

/// Whether `path` is the Git directory `.git` directly below `root`, or
/// lies inside it.
pub open spec fn in_git_dir(root: Seq<char>, path: Seq<char>) -> bool {
    match spec_strip_dir(root, path) {
        Some(rel) => rel == ".git"@ || (rel.len() > 4 && rel.take(5) == ".git/"@),
        None => false,
    }
}

/// Whether `path` is `root/.git` or lies inside it (see [`in_git_dir`]).
pub fn is_in_git_dir(root: &str, path: &str) -> (b: bool)
    ensures
        b == in_git_dir(root@, path@),
{
    match strip_dir(root, path) {
        Some(rel) => {
            if str_eq(rel.as_str(), ".git") {
                return true;
            }
            let cs = chars_of(rel.as_str());
            let pat = chars_of(".git/");
            proof {
                reveal_strlit(".git/");
            }
            cs.len() > 4 && range_eq(&cs, 0, 5, &pat)
        },
        None => false,
    }
}

} // verus!
