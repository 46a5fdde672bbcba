//! Gitignore-style matching of file paths against a list of patterns, by
//! the `ignore` crate, and the selection of the files that match.
use vstd::prelude::*;
use ignore::gitignore::{Gitignore, GitignoreBuilder};
use crate::strlist::views;
use crate::text::{chars_of, debug_quoted, is_whitespace, is_ws, push_debug_quoted, push_str, range_eq, trim_end};
use crate::exclude::string_of_str;
use crate::paths::{in_git_dir, is_in_git_dir};

verus! {

/// A matcher builder of the `ignore` crate.
#[verifier::external_type_specification]
#[verifier::external_body]
pub struct ExGitignoreBuilder(GitignoreBuilder);

/// A built gitignore matcher of the `ignore` crate.
#[verifier::external_type_specification]
#[verifier::external_body]
pub struct ExGitignore(Gitignore);

/// An error of the `ignore` crate.
#[verifier::external_type_specification]
#[verifier::external_body]
pub struct ExIgnoreError(ignore::Error);

/// The root path a builder keeps.
pub uninterp spec fn builder_root(b: GitignoreBuilder) -> Seq<char>;

/// The glob lines a builder holds, in order, as it stores them.
pub uninterp spec fn builder_lines(b: GitignoreBuilder) -> Seq<Seq<char>>;

/// The root path a matcher keeps.
pub uninterp spec fn matcher_root(g: Gitignore) -> Seq<char>;

/// The glob lines a matcher was built from, in order.
pub uninterp spec fn matcher_lines(g: Gitignore) -> Seq<Seq<char>>;

/// Whether `GitignoreBuilder::add_line` accepts `line` as a gitignore line.
pub uninterp spec fn gitignore_line_accepted(line: Seq<char>) -> bool;

/// Whether `GitignoreBuilder::build` succeeds on the stored `lines`.
pub uninterp spec fn gitignore_lines_build(lines: Seq<Seq<char>>) -> bool;

/// Whether a matcher for `root` built from `lines` says that `path`, or one
/// of the directories it lies in, is ignored
/// (`Gitignore::matched_path_or_any_parents(..).is_ignore()`).
pub uninterp spec fn gitignore_ignores(
    root: Seq<char>,
    lines: Seq<Seq<char>>,
    path: Seq<char>,
    is_dir: bool,
) -> bool;

/// `s` without one leading `./`.
pub open spec fn without_dot_slash(s: Seq<char>) -> Seq<char> {
    if s.len() >= 2 && s[0] == '.' && s[1] == '/' {
        s.skip(2)
    } else {
        s
    }
}

/// A line that ends with an escaped space, `\ `.
pub open spec fn ends_with_escaped_space(l: Seq<char>) -> bool {
    l.len() >= 2 && l[l.len() - 2] == '\\' && l[l.len() - 1] == ' '
}

/// What the builder stores of an accepted `line`: nothing for a comment or
/// a line that is blank once trailing whitespace is trimmed; otherwise the
/// line with its trailing whitespace trimmed, unless it ends with `\ `.
pub open spec fn kept_line(line: Seq<char>) -> Option<Seq<char>> {
    if line.len() > 0 && line[0] == '#' {
        None
    } else {
        let t = if ends_with_escaped_space(line) {
            line
        } else {
            trim_end(line)
        };
        if t.len() == 0 {
            None
        } else {
            Some(t)
        }
    }
}

/// What the builder stores of `lines`, in order (see [`kept_line`]).
pub open spec fn kept_lines(lines: Seq<Seq<char>>) -> Seq<Seq<char>>
    decreases lines.len(),
{
    if lines.len() == 0 {
        seq![]
    } else {
        match kept_line(lines.last()) {
            Some(t) => kept_lines(lines.drop_last()).push(t),
            None => kept_lines(lines.drop_last()),
        }
    }
}

/// `GitignoreBuilder::new(root)`: an empty builder, keeping `root` without
/// one leading `./`.
#[verifier::external_body]
fn builder_new(root: &str) -> (b: GitignoreBuilder)
    ensures
        builder_root(b) == without_dot_slash(root@),
        builder_lines(b) == Seq::<Seq<char>>::empty(),
{
    GitignoreBuilder::new(root)
}

/// `GitignoreBuilder::add_line(None, line)`: the line is accepted exactly
/// when it parses as a gitignore line; an accepted line is stored as
/// [`kept_line`] says (comments and blank lines store nothing), and a
/// refused one leaves the builder as it was.
#[verifier::external_body]
fn builder_add_line(b: &mut GitignoreBuilder, line: &str) -> (r: Result<(), ignore::Error>)
    ensures
        r is Ok <==> gitignore_line_accepted(line@),
        builder_root(*final(b)) == builder_root(*old(b)),
        r is Ok ==> builder_lines(*final(b)) == match kept_line(line@) {
            Some(t) => builder_lines(*old(b)).push(t),
            None => builder_lines(*old(b)),
        },
        r is Err ==> builder_lines(*final(b)) == builder_lines(*old(b)),
{
    match b.add_line(None, line) {
        Ok(_) => Ok(()),
        Err(e) => Err(e),
    }
}

/// `GitignoreBuilder::build()`: a matcher for the builder's lines, when they
/// build; it keeps the builder's root when there is at least one line (the
/// empty matcher keeps the empty path).
#[verifier::external_body]
fn builder_build(b: &GitignoreBuilder) -> (r: Result<Gitignore, ignore::Error>)
    ensures
        r is Ok <==> gitignore_lines_build(builder_lines(*b)),
        r matches Ok(g) ==> matcher_lines(g) == builder_lines(*b) && (builder_lines(*b).len() > 0
            ==> matcher_root(g) == builder_root(*b)),
{
    b.build()
}

/// A path that starts with `'/'`.
pub open spec fn starts_with_slash(s: Seq<char>) -> bool {
    s.len() > 0 && s[0] == '/'
}

/// Whether the matcher strips its root `r` from `p`: `p` holds a `'/'` and
/// starts with `r`.
pub open spec fn strips_root(r: Seq<char>, p: Seq<char>) -> bool {
    p.contains('/') && r.len() <= p.len() && p.take(r.len() as int) == r
}

/// What is left of `p` once the root `r` and then one `'/'` are stripped.
pub open spec fn after_root(r: Seq<char>, p: Seq<char>) -> Seq<char> {
    let q = p.skip(r.len() as int);
    if starts_with_slash(q) {
        q.drop_first()
    } else {
        q
    }
}

/// Whether the `ignore` crate can be asked about `path` by a matcher that
/// keeps the root `r` without panicking. The crate strips one leading `./`
/// from the path, then, when its root is not `.` and the path holds a `'/'`
/// and starts with the root, the root and one `'/'`; it panics when what is
/// left starts with `'/'`. Whatever the root `.` does, the path is safe.
pub open spec fn askable(r: Seq<char>, path: Seq<char>) -> bool {
    let p = without_dot_slash(path);
    &&& (!starts_with_slash(p) || (starts_with_slash(r) && strips_root(r, p)))
    &&& (strips_root(r, p) ==> !starts_with_slash(after_root(r, p)))
}

/// Whether a matcher for `root` (as given) built from the pattern `lines`
/// says that `path`, or a directory it lies in, is ignored: never for a
/// matcher without globs, nor for a path it cannot be asked about.
pub open spec fn ignored_by(root: Seq<char>, lines: Seq<Seq<char>>, path: Seq<char>) -> bool {
    &&& kept_lines(lines).len() > 0
    &&& askable(without_dot_slash(root), path)
    &&& gitignore_ignores(without_dot_slash(root), kept_lines(lines), path, false)
}

/// `Gitignore::matched_path_or_any_parents(path, is_dir).is_ignore()`: the
/// path, or failing that each of its parent directories in turn, is matched.
/// A matcher without globs matches nothing and strips nothing; otherwise the
/// crate panics on a path it cannot strip to a relative one, which
/// `requires` leaves out.
#[verifier::external_body]
fn matcher_ignores(g: &Gitignore, path: &str, is_dir: bool) -> (r: bool)
    requires
        matcher_lines(*g).len() == 0 || askable(matcher_root(*g), path@),
    ensures
        r == gitignore_ignores(matcher_root(*g), matcher_lines(*g), path@, is_dir),
        matcher_lines(*g).len() == 0 ==> !r,
{
    g.matched_path_or_any_parents(path, is_dir).is_ignore()
}

/// Whether a text holds only whitespace: its trailing whitespace trimmed,
/// nothing is left.
proof fn lemma_trim_end_empty(s: Seq<char>)
    ensures
        trim_end(s).len() == 0 <==> forall|i: int| 0 <= i < s.len() ==> is_ws(#[trigger] s[i]),
    decreases s.len(),
{
    if s.len() > 0 {
        lemma_trim_end_empty(s.drop_last());
        if is_ws(s.last()) {
            assert forall|i: int| 0 <= i < s.len() && (forall|j: int|
                0 <= j < s.drop_last().len() ==> is_ws(#[trigger] s.drop_last()[j])) implies is_ws(
                #[trigger] s[i],
            ) by {
                if i < s.len() - 1 {
                    assert(s.drop_last()[i] == s[i]);
                }
            }
            assert((forall|i: int| 0 <= i < s.len() ==> is_ws(#[trigger] s[i])) ==> forall|j: int|
                0 <= j < s.drop_last().len() ==> is_ws(#[trigger] s.drop_last()[j])) by {
                assert forall|j: int| 0 <= j < s.drop_last().len() && (forall|i: int|
                    0 <= i < s.len() ==> is_ws(#[trigger] s[i])) implies is_ws(
                    #[trigger] s.drop_last()[j],
                ) by {
                    assert(s.drop_last()[j] == s[j]);
                }
            }
        } else {
            assert(!is_ws(s[s.len() - 1]));
        }
    }
}

/// Whether the builder stores anything of `line` (see [`kept_line`]).
fn keeps_line(line: &str) -> (b: bool)
    ensures
        b == kept_line(line@) is Some,
{
    let cs = chars_of(line);
    if cs.len() > 0 && cs[0] == '#' {
        return false;
    }
    let n = cs.len();
    if n >= 2 && cs[n - 2] == '\\' && cs[n - 1] == ' ' {
        assert(ends_with_escaped_space(line@));
        return true;
    }
    let mut i: usize = 0;
    while i < n
        invariant
            i <= n == cs.len(),
            cs@ == line@,
            !ends_with_escaped_space(line@),
            line@.len() > 0 ==> line@[0] != '#',
            forall|j: int| 0 <= j < i ==> is_ws(#[trigger] cs@[j]),
        decreases n - i,
    {
        if !is_whitespace(cs[i]) {
            proof {
                lemma_trim_end_empty(line@);
                assert(!is_ws(line@[i as int]));
            }
            return true;
        }
        i = i + 1;
    }
    proof {
        lemma_trim_end_empty(line@);
    }
    false
}

/// `s` without one leading `./` (see [`without_dot_slash`]).
fn strip_dot_slash(s: &Vec<char>) -> (out: Vec<char>)
    ensures
        out@ == without_dot_slash(s@),
{
    if s.len() >= 2 && s[0] == '.' && s[1] == '/' {
        let mut out: Vec<char> = Vec::new();
        let mut i: usize = 2;
        while i < s.len()
            invariant
                2 <= i <= s.len(),
                out@ == s@.subrange(2, i as int),
            decreases s.len() - i,
        {
            out.push(s[i]);
            assert(out@ =~= s@.subrange(2, i + 1));
            i = i + 1;
        }
        assert(s@.skip(2) =~= s@.subrange(2, s.len() as int));
        out
    } else {
        s.clone()
    }
}

/// Whether `cs` holds `c`.
fn holds_char(cs: &Vec<char>, c: char) -> (b: bool)
    ensures
        b == cs@.contains(c),
{
    let mut i: usize = 0;
    while i < cs.len()
        invariant
            i <= cs.len(),
            forall|j: int| 0 <= j < i ==> cs@[j] != c,
        decreases cs.len() - i,
    {
        if cs[i] == c {
            assert(cs@[i as int] == c);
            return true;
        }
        i = i + 1;
    }
    false
}

/// Whether the matcher can be asked about `path`, its root given as `root`
/// (see [`askable`]).
fn is_askable(root: &str, path: &str) -> (b: bool)
    ensures
        b == askable(without_dot_slash(root@), path@),
{
    let r = strip_dot_slash(&chars_of(root));
    let p = strip_dot_slash(&chars_of(path));
    let p_abs = p.len() > 0 && p[0] == '/';
    let r_abs = r.len() > 0 && r[0] == '/';
    let strips = holds_char(&p, '/') && r.len() <= p.len() && range_eq(&p, 0, r.len(), &r);
    proof {
        if r.len() <= p.len() {
            assert(p@.subrange(0, r.len() as int) == p@.take(r.len() as int));
        }
    }
    if p_abs && !(r_abs && strips) {
        return false;
    }
    if strips {
        let n = r.len();
        let after_abs = if n < p.len() && p[n] == '/' {
            n + 1 < p.len() && p[n + 1] == '/'
        } else {
            n < p.len() && p[n] == '/'
        };
        proof {
            let q = p@.skip(n as int);
            if n < p.len() {
                assert(q[0] == p@[n as int]);
                if p@[n as int] == '/' && n + 1 < p.len() {
                    assert(q.drop_first()[0] == p@[n + 1]);
                }
            }
        }
        return !after_abs;
    }
    true
}

/// The message of an `ignore::Error`, as its `Display` implementation
/// (`to_string`) writes it. Nothing is stated of the text: it is the outside
/// crate's wording.
#[verifier::external_body]
fn error_text(e: &ignore::Error) -> String {
    e.to_string()
}

/// The index of the first of `lines`, from `i` on, that the builder
/// refuses, or `lines.len()` when it accepts them all.
pub open spec fn first_refused(lines: Seq<Seq<char>>, i: int) -> int
    decreases lines.len() - i,
{
    if i < 0 || i >= lines.len() {
        lines.len() as int
    } else if !gitignore_line_accepted(lines[i]) {
        i
    } else {
        first_refused(lines, i + 1)
    }
}

/// How the error for a matcher that cannot be built from `lines` begins:
/// `invalid <what> pattern <line>: ` for the first line the builder refuses,
/// the line quoted as `{:?}` quotes it, or `failed to build <name> matcher: `
/// when it accepts them all. The `ignore` crate's own message follows.
pub open spec fn build_error_prefix(what: Seq<char>, name: Seq<char>, lines: Seq<Seq<char>>) -> Seq<
    char,
> {
    let k = first_refused(lines, 0);
    if k < lines.len() {
        "invalid "@ + what + " pattern "@ + debug_quoted(lines[k]) + ": "@
    } else {
        "failed to build "@ + name + " matcher: "@
    }
}

/// The first refused line from `k` on is the line `i` when the lines from
/// `k` up to `i` are accepted and line `i` is refused, or the end when all
/// from `k` are accepted.
proof fn lemma_first_refused(lines: Seq<Seq<char>>, k: int, i: int)
    requires
        0 <= k <= i <= lines.len(),
        forall|j: int| k <= j < i ==> gitignore_line_accepted(#[trigger] lines[j]),
        i < lines.len() ==> !gitignore_line_accepted(lines[i]),
    ensures
        first_refused(lines, k) == i,
    decreases i - k,
{
    if k < i {
        lemma_first_refused(lines, k + 1, i);
    }
}

/// A gitignore matcher for `root` with `patterns` as its lines, in order.
pub struct PatternMatcher {
    inner: Gitignore,
    root_text: String,
    has_globs: bool,
    patterns: Ghost<Seq<Seq<char>>>,
}

impl PatternMatcher {
    /// The root the matcher was built for, as given.
    pub closed spec fn root(&self) -> Seq<char> {
        self.root_text@
    }

    /// The pattern lines the matcher was built from, as given.
    pub closed spec fn lines(&self) -> Seq<Seq<char>> {
        self.patterns@
    }

    /// The matcher holds what its builder stored of its pattern lines, knows
    /// whether that is anything, and then keeps its root.
    pub closed spec fn well_formed(&self) -> bool {
        &&& matcher_lines(self.inner) == kept_lines(self.patterns@)
        &&& self.has_globs == (kept_lines(self.patterns@).len() > 0)
        &&& self.has_globs ==> matcher_root(self.inner) == without_dot_slash(self.root_text@)
    }

    /// Builds the matcher for `root` from `patterns`. It fails exactly when
    /// a pattern is not a valid gitignore line or the lines do not build;
    /// `what` names the patterns in the error message.
    pub fn build(root: &str, patterns: &Vec<String>, what: &str, name: &str) -> (r: Result<
        Self,
        String,
    >)
        ensures
            r is Ok <==> (forall|i: int|
                0 <= i < patterns.len() ==> gitignore_line_accepted(#[trigger] patterns@[i]@))
                && gitignore_lines_build(kept_lines(views(patterns@))),
            r matches Ok(m) ==> m.root() == root@ && m.lines() == views(patterns@) && m.well_formed(),
            r matches Err(m) ==> build_error_prefix(what@, name@, views(patterns@)).is_prefix_of(m@),
    {
        let mut b = builder_new(root);
        let mut has_globs = false;
        let mut i: usize = 0;
        while i < patterns.len()
            invariant
                i <= patterns.len(),
                builder_root(b) == without_dot_slash(root@),
                builder_lines(b) == kept_lines(views(patterns@).take(i as int)),
                has_globs == (kept_lines(views(patterns@).take(i as int)).len() > 0),
                forall|j: int| 0 <= j < i ==> gitignore_line_accepted(#[trigger] patterns@[j]@),
            decreases patterns.len() - i,
        {
            proof {
                assert(views(patterns@).take(i + 1).drop_last() =~= views(patterns@).take(i as int));
                assert(views(patterns@).take(i + 1).last() == patterns@[i as int]@);
            }
            match builder_add_line(&mut b, patterns[i].as_str()) {
                Ok(()) => {
                    if keeps_line(patterns[i].as_str()) {
                        has_globs = true;
                    }
                },
                Err(e) => {
                    proof {
                        let lines = views(patterns@);
                        assert forall|j: int| 0 <= j < i implies gitignore_line_accepted(
                            #[trigger] lines[j],
                        ) by {
                            assert(lines[j] == patterns@[j]@);
                        }
                        assert(lines[i as int] == patterns@[i as int]@);
                        lemma_first_refused(lines, 0, i as int);
                    }
                    let mut msg = string_of_str("invalid ");
                    push_str(&mut msg, what);
                    push_str(&mut msg, " pattern ");
                    push_debug_quoted(&mut msg, patterns[i].as_str());
                    push_str(&mut msg, ": ");
                    let ghost prefix = msg@;
                    push_str(&mut msg, error_text(&e).as_str());
                    assert(msg@.subrange(0, prefix.len() as int) =~= prefix);
                    return Err(msg);
                },
            }
            i = i + 1;
        }
        assert(views(patterns@).take(patterns.len() as int) =~= views(patterns@));
        match builder_build(&b) {
            Ok(g) => Ok(
                PatternMatcher {
                    inner: g,
                    root_text: string_of_str(root),
                    has_globs,
                    patterns: Ghost(views(patterns@)),
                },
            ),
            Err(e) => {
                proof {
                    let lines = views(patterns@);
                    assert forall|j: int| 0 <= j < lines.len() implies gitignore_line_accepted(
                        #[trigger] lines[j],
                    ) by {
                        assert(lines[j] == patterns@[j]@);
                    }
                    lemma_first_refused(lines, 0, lines.len() as int);
                }
                let mut msg = string_of_str("failed to build ");
                push_str(&mut msg, name);
                push_str(&mut msg, " matcher: ");
                let ghost prefix = msg@;
                push_str(&mut msg, error_text(&e).as_str());
                assert(msg@.subrange(0, prefix.len() as int) =~= prefix);
                Err(msg)
            },
        }
    }

    /// Whether the matcher ignores the file at `path` (or a directory it
    /// lies in); a path it cannot be asked about is not ignored.
    pub fn ignores(&self, path: &str) -> (r: bool)
        requires
            self.well_formed(),
        ensures
            r == ignored_by(self.root(), self.lines(), path@),
    {
        if !self.has_globs {
            return false;
        }
        if !is_askable(self.root_text.as_str(), path) {
            return false;
        }
        matcher_ignores(&self.inner, path, false)
    }
}

/// One entry met while walking a directory tree.
pub struct WalkEntry {
    pub path: String,
    pub is_dir: bool,
}

/// The view of walk entries: each path with whether it is a directory.
pub open spec fn entry_views(es: Seq<WalkEntry>) -> Seq<(Seq<char>, bool)> {
    es.map_values(|e: WalkEntry| (e.path@, e.is_dir))
}

/// The paths of the entries that are files outside the Git directory of
/// `root`, that the matcher can be asked about, and that a matcher for
/// `root` built from `lines` ignores (the file or a directory it lies in),
/// in walk order.
pub open spec fn matching_paths(
    root: Seq<char>,
    lines: Seq<Seq<char>>,
    es: Seq<(Seq<char>, bool)>,
) -> Seq<Seq<char>>
    decreases es.len(),
{
    if es.len() == 0 {
        seq![]
    } else {
        let rest = matching_paths(root, lines, es.drop_last());
        let e = es.last();
        if !e.1 && !in_git_dir(root, e.0) && ignored_by(root, lines, e.0) {
            rest.push(e.0)
        } else {
            rest
        }
    }
}

/// Whether the walk entry `e` is a file to select: not a directory, not in
/// the Git directory of `root`, and ignored by a matcher for `root` built
/// from `lines`, whatever its name.
pub open spec fn selected_entry(root: Seq<char>, lines: Seq<Seq<char>>, e: (Seq<char>, bool)) -> bool {
    !e.1 && !in_git_dir(root, e.0) && ignored_by(root, lines, e.0)
}

/// A path is among the matched files exactly when some walk entry with that
/// path is a file outside the Git directory that the patterns ignore; a
/// hidden file (a name starting with `.`) is no exception. The matched files
/// come in walk order and are never more than the entries.
pub proof fn lemma_matching_paths_members(
    root: Seq<char>,
    lines: Seq<Seq<char>>,
    es: Seq<(Seq<char>, bool)>,
)
    ensures
        forall|p: Seq<char>|
            #[trigger] matching_paths(root, lines, es).contains(p) <==> exists|i: int|
                0 <= i < es.len() && es[i].0 == p && selected_entry(root, lines, #[trigger] es[i]),
        matching_paths(root, lines, es).len() <= es.len(),
    decreases es.len(),
{
    if es.len() > 0 {
        let init = es.drop_last();
        let rest = matching_paths(root, lines, init);
        let e = es.last();
        lemma_matching_paths_members(root, lines, init);
        let out = matching_paths(root, lines, es);
        assert forall|p: Seq<char>| #[trigger] out.contains(p) <==> exists|i: int|
            0 <= i < es.len() && es[i].0 == p && selected_entry(root, lines, #[trigger] es[i]) by {
            if out.contains(p) {
                if rest.contains(p) {
                    let i = choose|i: int|
                        0 <= i < init.len() && init[i].0 == p && selected_entry(root, lines, #[trigger] init[i]);
                    assert(es[i] == init[i]);
                } else {
                    assert(selected_entry(root, lines, e));
                    assert(out == rest.push(e.0));
                    let j = choose|j: int| 0 <= j < out.len() && out[j] == p;
                    if j < rest.len() {
                        assert(out[j] == rest[j]);
                        assert(rest.contains(p));
                    }
                    assert(es[es.len() - 1] == e);
                }
            }
            if exists|i: int| 0 <= i < es.len() && es[i].0 == p && selected_entry(root, lines, #[trigger] es[i]) {
                let i = choose|i: int|
                    0 <= i < es.len() && es[i].0 == p && selected_entry(root, lines, #[trigger] es[i]);
                if i < es.len() - 1 {
                    assert(init[i] == es[i]);
                    assert(rest.contains(p));
                    let j = choose|j: int| 0 <= j < rest.len() && rest[j] == p;
                    if selected_entry(root, lines, e) {
                        assert(out == rest.push(e.0));
                        assert(out[j] == p);
                    }
                } else {
                    assert(es[i] == e);
                    assert(out == rest.push(e.0));
                    assert(out[rest.len() as int] == p);
                }
            }
        }
    }
}

/// The paths that a matcher for `root` built from `lines` does not ignore
/// (neither the path nor a directory it lies in), in order; a path the
/// matcher cannot be asked about is kept.
pub open spec fn unmatched_paths(
    root: Seq<char>,
    lines: Seq<Seq<char>>,
    ps: Seq<Seq<char>>,
) -> Seq<Seq<char>>
    decreases ps.len(),
{
    if ps.len() == 0 {
        seq![]
    } else {
        let rest = unmatched_paths(root, lines, ps.drop_last());
        if ignored_by(root, lines, ps.last()) {
            rest
        } else {
            rest.push(ps.last())
        }
    }
}

impl PatternMatcher {
    /// The paths of the file entries that the matcher ignores, in walk
    /// order; directories and the Git directory are passed over.
    pub fn matching_files(&self, entries: &Vec<WalkEntry>) -> (out: Vec<String>)
        requires
            self.well_formed(),
        ensures
            views(out@) == matching_paths(self.root(), self.lines(), entry_views(entries@)),
    {
        let mut out: Vec<String> = Vec::new();
        let mut i: usize = 0;
        while i < entries.len()
            invariant
                i <= entries.len(),
                self.well_formed(),
                views(out@) == matching_paths(
                    self.root(),
                    self.lines(),
                    entry_views(entries@).take(i as int),
                ),
            decreases entries.len() - i,
        {
            proof {
                assert(entry_views(entries@).take(i + 1).drop_last() =~= entry_views(entries@).take(
                    i as int,
                ));
                assert(entry_views(entries@).take(i + 1).last() == (
                    entries@[i as int].path@,
                    entries@[i as int].is_dir,
                ));
            }
            if !entries[i].is_dir && !is_in_git_dir(self.root_text.as_str(), entries[i].path.as_str())
                && self.ignores(entries[i].path.as_str()) {
                let ghost before = out@;
                out.push(entries[i].path.clone());
                assert(views(out@) =~= views(before).push(entries@[i as int].path@));
            }
            i = i + 1;
        }
        assert(entry_views(entries@).take(entries.len() as int) =~= entry_views(entries@));
        out
    }

    /// The paths that the matcher does not ignore, in order.
    pub fn unmatched(&self, paths: &Vec<String>) -> (out: Vec<String>)
        requires
            self.well_formed(),
        ensures
            views(out@) == unmatched_paths(self.root(), self.lines(), views(paths@)),
    {
        let mut out: Vec<String> = Vec::new();
        let mut i: usize = 0;
        while i < paths.len()
            invariant
                i <= paths.len(),
                self.well_formed(),
                views(out@) == unmatched_paths(
                    self.root(),
                    self.lines(),
                    views(paths@).take(i as int),
                ),
            decreases paths.len() - i,
        {
            proof {
                assert(views(paths@).take(i + 1).drop_last() =~= views(paths@).take(i as int));
                assert(views(paths@).take(i + 1).last() == paths@[i as int]@);
            }
            if !self.ignores(paths[i].as_str()) {
                let ghost before = out@;
                out.push(paths[i].clone());
                assert(views(out@) =~= views(before).push(paths@[i as int]@));
            }
            i = i + 1;
        }
        assert(views(paths@).take(paths.len() as int) =~= views(paths@));
        out
    }
}

} // verus!
