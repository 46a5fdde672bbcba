//! The repository's private Git ignore file, `.git/info/exclude`.
//!
//! A list of patterns lives between two guard lines. Only that region is
//! managed; the text before the opening guard (`head`) and after the closing
//! guard (`tail`) is kept as the user wrote it.
use vstd::prelude::*;
use crate::paths::{join_path, path_join};
use crate::strlist::{removed, remove_str, views};
use crate::text::{is_ws, lemma_line_end_unique, lemma_line_end_bounds, line_end, lines_from, strip_cr, lemma_lines_concat, lemma_lines_join, lemma_trimmed_ends, lemma_trim_drop_ws, lemma_trim_start_suffix, lemma_trim_end_prefix, trim_end, trim_start, is_plain_line, lemma_trim_of_trimmed, chars_of, ends_with_newline_or_empty, join_lines, line_spans, lines, push_str, range_eq, string_of, trim, trim_bounds, line_start, lemma_line_start_end, lemma_lines_take_start, lemma_line_start_prefix, lemma_line_start_inside, lemma_line_start_bounds, lemma_lines_from_start};

verus! {

/// Opening guard line of the managed region.
pub open spec fn open_guard() -> Seq<char> {
    "# >>> managed by git-overlay"@
}

/// Closing guard line of the managed region.
pub open spec fn close_guard() -> Seq<char> {
    "# <<< managed by git-overlay"@
}

/// The opening guard line.
pub fn open_guard_text() -> (s: &'static str)
    ensures
        s@ == open_guard(),
{
    "# >>> managed by git-overlay"
}

/// The closing guard line.
pub fn close_guard_text() -> (s: &'static str)
    ensures
        s@ == close_guard(),
{
    "# <<< managed by git-overlay"
}

/// Location of the exclude file below the repository root.
pub open spec fn exclude_path(root: Seq<char>) -> Seq<char> {
    path_join(path_join(path_join(root, ".git"@), "info"@), "exclude"@)
}

/// A pattern line with one leading comment marker and the whitespace around
/// it removed: `# foo` and `#foo` both give `foo`, `foo` stays `foo`.
pub open spec fn uncomment(line: Seq<char>) -> Seq<char> {
    let t = trim(line);
    if t.len() > 0 && t[0] == '#' {
        trim(t.drop_first())
    } else {
        t
    }
}

/// A pattern as it is stored commented out: `"# "` and the pattern.
pub open spec fn commented(p: Seq<char>) -> Seq<char> {
    "# "@ + p
}

/// The index of the first line at or after `i` whose trimmed text is `g`, or
/// `ls.len()` when there is none.
pub open spec fn find_guard(ls: Seq<Seq<char>>, g: Seq<char>, i: int) -> int
    decreases ls.len() - i,
{
    if i < 0 || i >= ls.len() {
        ls.len() as int
    } else if trim(ls[i]) == g {
        i
    } else {
        find_guard(ls, g, i + 1)
    }
}

/// The index of the opening guard line: the first line whose trimmed text
/// is the opening guard, or `ls.len()`.
pub open spec fn open_index(ls: Seq<Seq<char>>) -> int {
    find_guard(ls, open_guard(), 0)
}

/// The index of the closing guard line: the first line whose trimmed text
/// is the closing guard, or `ls.len()`.
pub open spec fn close_index(ls: Seq<Seq<char>>) -> int {
    find_guard(ls, close_guard(), 0)
}

/// Whether `ls` holds a managed region: both guard lines occur, the first
/// opening guard before the first closing guard.
pub open spec fn has_region(ls: Seq<Seq<char>>) -> bool {
    open_index(ls) < ls.len() && close_index(ls) < ls.len() && open_index(ls) < close_index(ls)
}

/// The text before the managed region of `content`, byte for byte: all of
/// it when there is no region.
pub open spec fn parsed_head(content: Seq<char>) -> Seq<char> {
    let ls = lines(content);
    if has_region(ls) {
        content.take(line_start(content, open_index(ls) as nat))
    } else {
        content
    }
}

/// The patterns of the managed region of `content`, uncommented: the lines
/// between the two guard lines; none when there is no region.
pub open spec fn parsed_patterns(content: Seq<char>) -> Seq<Seq<char>> {
    let ls = lines(content);
    if has_region(ls) {
        ls.subrange(open_index(ls) + 1, close_index(ls)).map_values(|l: Seq<char>| uncomment(l))
    } else {
        seq![]
    }
}

/// The text after the closing guard line of `content`, byte for byte;
/// empty when there is no region.
pub open spec fn parsed_tail(content: Seq<char>) -> Seq<char> {
    let ls = lines(content);
    if has_region(ls) {
        content.skip(line_start(content, (close_index(ls) + 1) as nat))
    } else {
        seq![]
    }
}

/// `head` followed by a line feed when it is not empty and does not end with
/// one.
pub open spec fn terminated(head: Seq<char>) -> Seq<char> {
    if head.len() > 0 && head.last() != '\n' {
        head.push('\n')
    } else {
        head
    }
}

/// The exclude file written with `body` as its managed region.
pub open spec fn render(head: Seq<char>, body: Seq<Seq<char>>, tail: Seq<char>) -> Seq<char> {
    terminated(head) + open_guard() + seq!['\n'] + join_lines(body) + close_guard() + seq!['\n']
        + tail
}

/// The lines of a text hold no line whose trimmed text is a guard.
pub open spec fn has_no_guard(text: Seq<char>) -> bool {
    forall|i: int|
        0 <= i < lines(text).len() ==> trim(#[trigger] lines(text)[i]) != open_guard() && trim(
            lines(text)[i],
        ) != close_guard()
}

/// A pattern that is stored and read back unchanged: no whitespace around
/// it, no line feed inside, and no leading comment marker.
pub open spec fn is_clean_pattern(p: Seq<char>) -> bool {
    &&& trim(p) == p
    &&& !p.contains('\n')
    &&& (p.len() == 0 || p[0] != '#')
}

/// Whether some line of `text`, trimmed, is `p`.
pub open spec fn has_line(text: Seq<char>, p: Seq<char>) -> bool {
    exists|i: int| 0 <= i < lines(text).len() && trim(#[trigger] lines(text)[i]) == p
}

/// `text` with a line `p` added at its end (the text gaining a final line
/// feed first when it lacks one).
pub open spec fn with_line(text: Seq<char>, p: Seq<char>) -> Seq<char> {
    terminated(text) + p + seq!['\n']
}

/// `text` without its lines that, trimmed, are `p`; unchanged when it has
/// none.
pub open spec fn without_line(text: Seq<char>, p: Seq<char>) -> Seq<char> {
    if has_line(text, p) {
        join_lines(lines(text).filter(|l: Seq<char>| trim(l) != p))
    } else {
        text
    }
}

/// The abstract state of an [`ExcludeFile`].
pub struct ExcludeModel {
    pub root: Seq<char>,
    pub path: Seq<char>,
    pub patterns: Seq<Seq<char>>,
    pub head: Seq<char>,
    pub tail: Seq<char>,
}

/// Manages the repo's private Git ignore file, i.e. `.git/info/exclude`.
///
/// Unlike `.gitignore`, files listed here are private to a single working
/// copy: they are never tracked or shared with other clones of the
/// repository.
pub struct ExcludeFile {
    root: String,
    path: String,
    patterns: Vec<String>,
    head: String,
    tail: String,
}

/// The model after making sure `p` is a line outside the managed region.
pub open spec fn with_ignore(m: ExcludeModel, p: Seq<char>) -> ExcludeModel {
    if has_line(m.head, p) || has_line(m.tail, p) {
        m
    } else {
        ExcludeModel { tail: with_line(m.tail, p), ..m }
    }
}

/// The model after making sure each of `ps`, in turn, is a line outside the
/// managed region.
pub open spec fn with_ignores(m: ExcludeModel, ps: Seq<Seq<char>>) -> ExcludeModel
    decreases ps.len(),
{
    if ps.len() == 0 {
        m
    } else {
        with_ignore(with_ignores(m, ps.drop_last()), ps.last())
    }
}

/// The model after dropping the lines `p` outside the managed region.
pub open spec fn without_ignore(m: ExcludeModel, p: Seq<char>) -> ExcludeModel {
    ExcludeModel { head: without_line(m.head, p), tail: without_line(m.tail, p), ..m }
}

/// The model after dropping the lines of each of `ps`, in turn, outside the
/// managed region.
pub open spec fn without_ignores(m: ExcludeModel, ps: Seq<Seq<char>>) -> ExcludeModel
    decreases ps.len(),
{
    if ps.len() == 0 {
        m
    } else {
        without_ignore(without_ignores(m, ps.drop_last()), ps.last())
    }
}

impl View for ExcludeFile {
    type V = ExcludeModel;

    closed spec fn view(&self) -> ExcludeModel {
        ExcludeModel {
            root: self.root@,
            path: self.path@,
            patterns: views(self.patterns@),
            head: self.head@,
            tail: self.tail@,
        }
    }
}

/// [`uncomment`] applied to `cs[lo..hi]`.
fn uncomment_span(cs: &Vec<char>, lo: usize, hi: usize) -> (out: String)
    requires
        lo <= hi <= cs.len(),
    ensures
        out@ == uncomment(cs@.subrange(lo as int, hi as int)),
{
    let (a, b) = trim_bounds(cs, lo, hi);
    if a < b && cs[a] == '#' {
        assert(cs@.subrange(a as int, b as int).drop_first() =~= cs@.subrange(a + 1, b as int));
        let (a2, b2) = trim_bounds(cs, a + 1, b);
        string_of(cs, a2, b2)
    } else {
        string_of(cs, a, b)
    }
}

/// The first line of `spans[from..]` whose trimmed text is `g`, or
/// `spans.len()`.
fn find_guard_span(cs: &Vec<char>, spans: &Vec<(usize, usize)>, g: &Vec<char>, from: usize) -> (idx:
    usize)
    requires
        from <= spans.len(),
        forall|i: int|
            0 <= i < spans.len() ==> (#[trigger] spans[i]).0 <= spans[i].1 <= cs.len(),
    ensures
        idx == find_guard(
            spans@.map_values(|sp: (usize, usize)| cs@.subrange(sp.0 as int, sp.1 as int)),
            g@,
            from as int,
        ),
{
    let ghost ls = spans@.map_values(|sp: (usize, usize)| cs@.subrange(sp.0 as int, sp.1 as int));
    let mut i: usize = from;
    while i < spans.len()
        invariant
            from <= i <= spans.len(),
            ls == spans@.map_values(|sp: (usize, usize)| cs@.subrange(sp.0 as int, sp.1 as int)),
            forall|j: int| 0 <= j < spans.len() ==> (#[trigger] spans[j]).0 <= spans[j].1 <= cs.len(),
            find_guard(ls, g@, from as int) == find_guard(ls, g@, i as int),
        decreases spans.len() - i,
    {
        let (a, b) = trim_bounds(cs, spans[i].0, spans[i].1);
        assert(ls[i as int] == cs@.subrange(spans[i as int].0 as int, spans[i as int].1 as int));
        if range_eq(cs, a, b, g) {
            return i;
        }
        i = i + 1;
    }
    i
}

impl ExcludeFile {
    /// Builds the manager for the exclude file of the repository at `root`
    /// from the file's `content`: the patterns of the guard-clause region,
    /// and the text before and after it, byte for byte. A region without a
    /// closing guard runs to the end of the file; a file without an opening
    /// guard is kept whole as the text before the region, with no patterns.
    pub fn load(root: &str, content: &str) -> (file: Self)
        ensures
            file@.root == root@,
            file@.path == exclude_path(root@),
            file@.head == parsed_head(content@),
            file@.patterns == parsed_patterns(content@),
            file@.tail == parsed_tail(content@),
    {
        let p1 = join_path(root, ".git");
        let p2 = join_path(p1.as_str(), "info");
        let path = join_path(p2.as_str(), "exclude");
        let cs = chars_of(content);
        let spans = line_spans(&cs);
        let ghost ls = lines(content@);
        let ghost f = |sp: (usize, usize)| cs@.subrange(sp.0 as int, sp.1 as int);
        proof {
            assert(spans@.map_values(f) =~= ls);
        }
        let open = chars_of(open_guard_text());
        let close = chars_of(close_guard_text());
        let o = find_guard_span(&cs, &spans, &open, 0);
        let c = find_guard_span(&cs, &spans, &close, 0);
        if o < spans.len() && c < spans.len() && o < c {
            let head = string_of(&cs, 0, spans[o].0);
            let tail = if c + 1 < spans.len() {
                string_of(&cs, spans[c + 1].0, cs.len())
            } else {
                String::new()
            };
            proof {
                assert(cs@.subrange(0, spans@[o as int].0 as int) =~= content@.take(
                    line_start(content@, o as nat),
                ));
                if c + 1 < spans.len() {
                    assert(cs@.subrange(spans@[c + 1].0 as int, cs.len() as int) =~= content@.skip(
                        line_start(content@, (c + 1) as nat),
                    ));
                } else {
                    lemma_line_start_end(content@);
                    assert(content@.skip(line_start(content@, (c + 1) as nat)) =~= seq![]);
                }
            }
            let mut patterns: Vec<String> = Vec::new();
            let mut i = o + 1;
            while i < c
                invariant
                    o < i <= c <= spans.len(),
                    forall|j: int|
                        0 <= j < spans.len() ==> (#[trigger] spans[j]).0 <= spans[j].1 <= cs.len(),
                    ls == spans@.map_values(f),
                    f == (|sp: (usize, usize)| cs@.subrange(sp.0 as int, sp.1 as int)),
                    views(patterns@) == ls.subrange(o + 1, i as int).map_values(
                        |l: Seq<char>| uncomment(l),
                    ),
                decreases c - i,
            {
                let line = uncomment_span(&cs, spans[i].0, spans[i].1);
                let ghost before = patterns@;
                patterns.push(line);
                proof {
                    assert(ls[i as int] == cs@.subrange(
                        spans[i as int].0 as int,
                        spans[i as int].1 as int,
                    ));
                    assert(views(patterns@) =~= views(before).push(line@));
                    assert(ls.subrange(o + 1, i + 1).map_values(|l: Seq<char>| uncomment(l))
                        =~= ls.subrange(o + 1, i as int).map_values(|l: Seq<char>| uncomment(l)).push(
                        uncomment(ls[i as int]),
                    ));
                }
                i = i + 1;
            }
            ExcludeFile { root: string_of_str(root), path, patterns, head, tail }
        } else {
            ExcludeFile {
                root: string_of_str(root),
                path,
                patterns: Vec::new(),
                head: string_of_str(content),
                tail: String::new(),
            }
        }
    }

    /// The content of the file with `body` as its managed region, wrapped
    /// in the guard lines, the surrounding text left intact.
    fn content_with(&self, body: &Vec<String>) -> (out: String)
        ensures
            out@ == render(self@.head, views(body@), self@.tail),
    {
        let hc = chars_of(self.head.as_str());
        let mut out = string_of_str(self.head.as_str());
        if hc.len() > 0 && hc[hc.len() - 1] != '\n' {
            out.push('\n');
        }
        push_str(&mut out, open_guard_text());
        out.push('\n');
        let mut i: usize = 0;
        while i < body.len()
            invariant
                i <= body.len(),
                out@ == terminated(self@.head) + open_guard() + seq!['\n'] + join_lines(
                    views(body@).take(i as int),
                ),
            decreases body.len() - i,
        {
            let ghost before = out@;
            push_str(&mut out, body[i].as_str());
            out.push('\n');
            proof {
                lemma_join_lines_push(views(body@).take(i as int), body@[i as int]@);
                assert(views(body@).take(i + 1) =~= views(body@).take(i as int).push(
                    body@[i as int]@,
                ));
            }
            i = i + 1;
        }
        assert(views(body@).take(body.len() as int) =~= views(body@));
        push_str(&mut out, close_guard_text());
        out.push('\n');
        push_str(&mut out, self.tail.as_str());
        out
    }

    /// The content that disables the ignores while keeping the list: each
    /// pattern commented out as `# pattern` in the managed region, the
    /// surrounding text unchanged.
    pub fn freeze(&self) -> (out: String)
        ensures
            out@ == render(
                self@.head,
                self@.patterns.map_values(|p: Seq<char>| commented(p)),
                self@.tail,
            ),
    {
        let mut commented_lines: Vec<String> = Vec::new();
        let mut i: usize = 0;
        while i < self.patterns.len()
            invariant
                i <= self.patterns.len(),
                views(commented_lines@) == views(self.patterns@).take(i as int).map_values(
                    |p: Seq<char>| commented(p),
                ),
            decreases self.patterns.len() - i,
        {
            let mut line = string_of_str("# ");
            push_str(&mut line, self.patterns[i].as_str());
            let ghost before = commented_lines@;
            commented_lines.push(line);
            proof {
                assert(views(commented_lines@) =~= views(before).push(line@));
                assert(views(self.patterns@).take(i + 1).map_values(|p: Seq<char>| commented(p))
                    =~= views(self.patterns@).take(i as int).map_values(
                    |p: Seq<char>| commented(p),
                ).push(commented(self.patterns@[i as int]@)));
            }
            i = i + 1;
        }
        assert(views(self.patterns@).take(self.patterns.len() as int) =~= views(self.patterns@));
        self.content_with(&commented_lines)
    }

    /// The content that restores the ignores: each pattern as it is, with
    /// no comment marker, the surrounding text unchanged.
    pub fn unfreeze(&self) -> (out: String)
        ensures
            out@ == render(self@.head, self@.patterns, self@.tail),
    {
        self.content_with(&self.patterns)
    }

    /// The content that stores the current patterns, plain, in the managed
    /// region, the surrounding text unchanged.
    pub fn save(&self) -> (out: String)
        ensures
            out@ == render(self@.head, self@.patterns, self@.tail),
    {
        self.content_with(&self.patterns)
    }

    /// Appends a pattern to the list; duplicates are not filtered.
    pub fn add(&mut self, pattern: String)
        ensures
            final(self)@ == (ExcludeModel { patterns: old(self)@.patterns.push(pattern@), ..old(self)@ }),
    {
        self.patterns.push(pattern);
        assert(views(self.patterns@) =~= old(self)@.patterns.push(pattern@));
    }

    /// Removes every pattern equal to `pattern` from the list.
    pub fn remove(&mut self, pattern: &str)
        ensures
            final(self)@ == (ExcludeModel {
                patterns: removed(old(self)@.patterns, pattern@),
                ..old(self)@
            }),
    {
        remove_str(&mut self.patterns, pattern);
    }

    /// Empties the list of patterns.
    pub fn clear(&mut self)
        ensures
            final(self)@ == (ExcludeModel { patterns: seq![], ..old(self)@ }),
    {
        self.patterns = Vec::new();
        assert(views(self.patterns@) =~= seq![]);
    }

    /// The repository root this file belongs to.
    pub fn root(&self) -> (r: &str)
        ensures
            r@ == self@.root,
    {
        self.root.as_str()
    }

    /// Location of the file on disk.
    pub fn path(&self) -> (r: &str)
        ensures
            r@ == self@.path,
    {
        self.path.as_str()
    }

    /// Makes sure `pattern` is a line of the file outside the managed
    /// region: when no line before or after the region is `pattern`, it is
    /// appended after the region.
    pub fn add_ignore(&mut self, pattern: &str)
        ensures
            final(self)@ == with_ignore(old(self)@, pattern@),
    {
        if text_has_line(self.head.as_str(), pattern) || text_has_line(self.tail.as_str(), pattern) {
            return ;
        }
        let tc = chars_of(self.tail.as_str());
        let mut tail = string_of_str(self.tail.as_str());
        if tc.len() > 0 && tc[tc.len() - 1] != '\n' {
            tail.push('\n');
        }
        push_str(&mut tail, pattern);
        tail.push('\n');
        assert(tail@ =~= with_line(self.tail@, pattern@));
        self.tail = tail;
    }

    /// Makes sure `pattern` is no line of the file outside the managed
    /// region: the lines before and after the region that are `pattern`
    /// are dropped.
    pub fn remove_ignore(&mut self, pattern: &str)
        ensures
            final(self)@ == without_ignore(old(self)@, pattern@),
    {
        let head = text_without_line(self.head.as_str(), pattern);
        let tail = text_without_line(self.tail.as_str(), pattern);
        self.head = head;
        self.tail = tail;
    }

    /// Whether `pattern` is a line of the file outside the managed region.
    pub fn has_outside_line(&self, pattern: &str) -> (b: bool)
        ensures
            b == (has_line(self@.head, pattern@) || has_line(self@.tail, pattern@)),
    {
        text_has_line(self.head.as_str(), pattern) || text_has_line(self.tail.as_str(), pattern)
    }

    /// The text before the managed region.
    pub fn head(&self) -> (r: &str)
        ensures
            r@ == self@.head,
    {
        self.head.as_str()
    }

    /// The text after the managed region.
    pub fn tail(&self) -> (r: &str)
        ensures
            r@ == self@.tail,
    {
        self.tail.as_str()
    }

    /// The patterns between the guard lines.
    pub fn patterns(&self) -> (r: &Vec<String>)
        ensures
            views(r@) == self@.patterns,
    {
        &self.patterns
    }
}

/// Whether some line of `text`, trimmed, is `p` (see [`has_line`]).
fn text_has_line(text: &str, p: &str) -> (b: bool)
    ensures
        b == has_line(text@, p@),
{
    let cs = chars_of(text);
    let pc = chars_of(p);
    let spans = line_spans(&cs);
    let mut i: usize = 0;
    while i < spans.len()
        invariant
            i <= spans.len() == lines(cs@).len(),
            cs@ == text@,
            pc@ == p@,
            forall|j: int| 0 <= j < spans.len() ==> (#[trigger] spans[j]).0 <= spans[j].1 <= cs.len(),
            forall|j: int|
                0 <= j < spans.len() ==> #[trigger] cs@.subrange(spans[j].0 as int, spans[j].1 as int)
                    == lines(cs@)[j],
            forall|j: int| 0 <= j < i ==> trim(#[trigger] lines(cs@)[j]) != p@,
        decreases spans.len() - i,
    {
        let (a, b) = trim_bounds(&cs, spans[i].0, spans[i].1);
        assert(cs@.subrange(spans[i as int].0 as int, spans[i as int].1 as int) == lines(cs@)[i as int]);
        if range_eq(&cs, a, b, &pc) {
            return true;
        }
        i = i + 1;
    }
    false
}

/// `text` without its lines that, trimmed, are `p` (see [`without_line`]).
fn text_without_line(text: &str, p: &str) -> (out: String)
    ensures
        out@ == without_line(text@, p@),
{
    if !text_has_line(text, p) {
        return string_of_str(text);
    }
    let cs = chars_of(text);
    let pc = chars_of(p);
    let spans = line_spans(&cs);
    let ghost ls = lines(cs@);
    let ghost keep = |l: Seq<char>| trim(l) != p@;
    let mut out = String::new();
    let mut i: usize = 0;
    while i < spans.len()
        invariant
            i <= spans.len() == ls.len(),
            ls == lines(cs@),
            cs@ == text@,
            pc@ == p@,
            keep == (|l: Seq<char>| trim(l) != p@),
            forall|j: int| 0 <= j < spans.len() ==> (#[trigger] spans[j]).0 <= spans[j].1 <= cs.len(),
            forall|j: int|
                0 <= j < spans.len() ==> #[trigger] cs@.subrange(spans[j].0 as int, spans[j].1 as int)
                    == ls[j],
            out@ == join_lines(ls.take(i as int).filter(keep)),
        decreases spans.len() - i,
    {
        let (a, b) = trim_bounds(&cs, spans[i].0, spans[i].1);
        assert(cs@.subrange(spans[i as int].0 as int, spans[i as int].1 as int) == ls[i as int]);
        proof {
            reveal(Seq::filter);
            assert(ls.take(i + 1).drop_last() =~= ls.take(i as int));
            assert(ls.take(i + 1).last() == ls[i as int]);
        }
        if !range_eq(&cs, a, b, &pc) {
            let line = string_of(&cs, spans[i].0, spans[i].1);
            push_str(&mut out, line.as_str());
            out.push('\n');
            proof {
                lemma_join_lines_push(ls.take(i as int).filter(keep), ls[i as int]);
            }
        }
        i = i + 1;
    }
    assert(ls.take(ls.len() as int) =~= ls);
    out
}

/// The owned copy of a string slice.
pub fn string_of_str(s: &str) -> (out: String)
    ensures
        out@ == s@,
{
    let mut out = String::new();
    push_str(&mut out, s);
    out
}

/// Joining one more line.
proof fn lemma_join_lines_push(ls: Seq<Seq<char>>, l: Seq<char>)
    ensures
        join_lines(ls.push(l)) == join_lines(ls) + l + seq!['\n'],
    decreases ls.len(),
{
    if ls.len() == 0 {
        assert(ls.push(l).drop_first() =~= Seq::<Seq<char>>::empty());
        assert(join_lines(Seq::<Seq<char>>::empty()) == Seq::<char>::empty());
        assert(join_lines(ls.push(l)) =~= l + seq!['\n']);
        assert(join_lines(ls) + l + seq!['\n'] =~= l + seq!['\n']);
    } else {
        lemma_join_lines_push(ls.drop_first(), l);
        assert(ls.push(l).drop_first() =~= ls.drop_first().push(l));
        assert(join_lines(ls.push(l)) =~= ls[0] + seq!['\n'] + join_lines(ls.drop_first().push(l)));
    }
}

} // verus!

verus! {

/// Facts about the two guard lines.
proof fn lemma_guard_facts()
    ensures
        trim(open_guard()) == open_guard(),
        trim(close_guard()) == close_guard(),
        open_guard() != close_guard(),
        is_plain_line(open_guard()),
        is_plain_line(close_guard()),
        open_guard().len() > 0 && open_guard()[0] == '#',
        close_guard().len() > 0 && close_guard()[0] == '#',
{
    reveal_strlit("# >>> managed by git-overlay");
    reveal_strlit("# <<< managed by git-overlay");
    assert(open_guard()[2] != close_guard()[2]);
    assert(!open_guard().contains('\n'));
    assert(!close_guard().contains('\n'));
}

/// The search for a guard passes over lines that are not that guard.
proof fn lemma_find_guard_skip(ls: Seq<Seq<char>>, g: Seq<char>, j: int, k: int)
    requires
        0 <= j <= k <= ls.len(),
        forall|i: int| j <= i < k ==> trim(#[trigger] ls[i]) != g,
    ensures
        find_guard(ls, g, j) == find_guard(ls, g, k),
    decreases k - j,
{
    if j < k {
        lemma_find_guard_skip(ls, g, j + 1, k);
    }
}

/// A clean pattern is a plain line that [`uncomment`] leaves as it is and
/// that is no guard line.
proof fn lemma_clean_pattern(p: Seq<char>)
    requires
        is_clean_pattern(p),
    ensures
        is_plain_line(p),
        uncomment(p) == p,
        trim(p) != open_guard(),
        trim(p) != close_guard(),
{
    lemma_guard_facts();
    if p.len() > 0 {
        lemma_trimmed_ends(p);
        assert(p.last() != '\r');
    }
}

/// The lines of a rendered exclude file: those of the head, the opening
/// guard, the body, the closing guard, and those of the tail.
proof fn lemma_render_lines(head: Seq<char>, body: Seq<Seq<char>>, tail: Seq<char>)
    requires
        ends_with_newline_or_empty(head),
        forall|i: int| 0 <= i < body.len() ==> is_plain_line(#[trigger] body[i]),
    ensures
        lines(render(head, body, tail)) == lines(head) + (seq![open_guard()] + body + seq![
            close_guard(),
        ]) + lines(tail),
{
    lemma_guard_facts();
    let mid = seq![open_guard()] + body + seq![close_guard()];
    assert forall|i: int| 0 <= i < mid.len() implies is_plain_line(#[trigger] mid[i]) by {
        if i > 0 && i < mid.len() - 1 {
            assert(mid[i] == body[i - 1]);
        }
    }
    lemma_lines_join(mid);
    lemma_join_lines_push(seq![open_guard()] + body, close_guard());
    lemma_join_lines_prepend(open_guard(), body);
    assert(mid =~= (seq![open_guard()] + body).push(close_guard()));
    assert(join_lines(mid) =~= open_guard() + seq!['\n'] + join_lines(body) + close_guard() + seq![
        '\n',
    ]);
    assert(render(head, body, tail) =~= head + (join_lines(mid) + tail));
    lemma_lines_concat(head, join_lines(mid) + tail);
    lemma_lines_concat(join_lines(mid), tail);
}

/// Joining lines after one more first line.
proof fn lemma_join_lines_prepend(l: Seq<char>, ls: Seq<Seq<char>>)
    ensures
        join_lines(seq![l] + ls) == l + seq!['\n'] + join_lines(ls),
{
    assert((seq![l] + ls).drop_first() =~= ls);
}

/// The search for a guard from `i` ends at or after `i`, and within the
/// lines or at their end.
proof fn lemma_find_guard_bounds(ls: Seq<Seq<char>>, g: Seq<char>, i: int)
    requires
        0 <= i,
    ensures
        i <= find_guard(ls, g, i) <= ls.len() || (i > ls.len() && find_guard(ls, g, i) == ls.len()),
    decreases ls.len() - i,
{
    if i < ls.len() && trim(ls[i]) != g {
        lemma_find_guard_bounds(ls, g, i + 1);
    }
}

/// The search for a guard from `j` gives `i` when no line from `j` up to `i`
/// is that guard.
proof fn lemma_find_guard_before(ls: Seq<Seq<char>>, g: Seq<char>, j: int, i: int)
    requires
        0 <= j <= i,
        find_guard(ls, g, j) == i,
    ensures
        forall|k: int| j <= k < i && k < ls.len() ==> trim(#[trigger] ls[k]) != g,
    decreases i - j,
{
    if j < i && j < ls.len() {
        lemma_find_guard_before(ls, g, j + 1, i);
    }
}

/// A rendered file loads back to the text before the region, the body
/// uncommented, and the text after the region, when the text before the
/// region ends with a line feed (or is empty) and holds no opening guard
/// line, and the body lines are plain and no closing guard.
proof fn lemma_render_parse(head: Seq<char>, body: Seq<Seq<char>>, tail: Seq<char>)
    requires
        ends_with_newline_or_empty(head),
        has_no_guard(head),
        forall|i: int| 0 <= i < body.len() ==> is_plain_line(#[trigger] body[i]),
        forall|i: int| 0 <= i < body.len() ==> trim(#[trigger] body[i]) != close_guard(),
    ensures
        parsed_head(render(head, body, tail)) == head,
        parsed_patterns(render(head, body, tail)) == body.map_values(|l: Seq<char>| uncomment(l)),
        parsed_tail(render(head, body, tail)) == tail,
{
    lemma_guard_facts();
    lemma_render_lines(head, body, tail);
    let content = render(head, body, tail);
    let ls = lines(content);
    let hl = lines(head);
    let n = hl.len() as int;
    let mid = seq![open_guard()] + body + seq![close_guard()];
    assert forall|i: int| 0 <= i < n implies trim(#[trigger] ls[i]) != open_guard() by {
        assert(ls[i] == hl[i]);
    }
    lemma_find_guard_skip(ls, open_guard(), 0, n);
    assert(ls[n] == open_guard());
    assert(open_index(ls) == n);
    assert forall|i: int| 0 <= i < n + 1 + body.len() implies trim(#[trigger] ls[i])
        != close_guard() by {
        if i < n {
            assert(ls[i] == hl[i]);
        } else if i > n {
            assert(ls[i] == body[i - n - 1]);
        }
    }
    lemma_find_guard_skip(ls, close_guard(), 0, n + 1 + body.len());
    assert(ls[n + 1 + body.len()] == close_guard());
    assert(close_index(ls) == n + 1 + body.len());
    assert(ls.subrange(n + 1, n + 1 + body.len()) =~= body);
    assert(has_region(ls));
    // The text before the region.
    assert forall|i: int| 0 <= i < mid.len() implies is_plain_line(#[trigger] mid[i]) by {
        if i > 0 && i < mid.len() - 1 {
            assert(mid[i] == body[i - 1]);
        }
    }
    lemma_lines_join(mid);
    lemma_join_lines_push(seq![open_guard()] + body, close_guard());
    lemma_join_lines_prepend(open_guard(), body);
    assert(mid =~= (seq![open_guard()] + body).push(close_guard()));
    let block = join_lines(mid);
    assert(block =~= open_guard() + seq!['\n'] + join_lines(body) + close_guard() + seq!['\n']);
    assert(content =~= head + (block + tail));
    lemma_line_start_prefix(head, block + tail, n as nat);
    lemma_line_start_end(head);
    assert(content.take(head.len() as int) =~= head);
    // The text after the region.
    let a = head + block;
    assert(content =~= a + tail);
    assert(a.last() == '\n');
    lemma_lines_concat(head, block);
    assert(lines(a).len() == n + 2 + body.len());
    lemma_line_start_prefix(a, tail, lines(a).len());
    lemma_line_start_end(a);
    assert(content.skip(a.len() as int) =~= tail);
}

/// Saving the patterns and loading the file again gives back the same
/// patterns, the same text after the managed region, byte for byte, and the
/// text before it, byte for byte, with the line feed that saving adds when
/// that text lacks a final one. This holds when the text before the region
/// holds no guard line (as a loaded file's does), and each pattern is stored
/// as it is read.
pub proof fn lemma_save_load_roundtrip(
    head: Seq<char>,
    patterns: Seq<Seq<char>>,
    tail: Seq<char>,
)
    requires
        has_no_guard(head),
        forall|i: int| 0 <= i < patterns.len() ==> is_clean_pattern(#[trigger] patterns[i]),
    ensures
        parsed_head(render(head, patterns, tail)) == terminated(head),
        parsed_patterns(render(head, patterns, tail)) == patterns,
        parsed_tail(render(head, patterns, tail)) == tail,
{
    assert forall|i: int| 0 <= i < patterns.len() implies is_plain_line(#[trigger] patterns[i])
        && trim(patterns[i]) != close_guard() && uncomment(patterns[i]) == patterns[i] by {
        lemma_clean_pattern(patterns[i]);
    }
    lemma_terminated_no_guard(head);
    assert(render(head, patterns, tail) == render(terminated(head), patterns, tail));
    lemma_render_parse(terminated(head), patterns, tail);
    assert(patterns.map_values(|l: Seq<char>| uncomment(l)) =~= patterns);
}

/// The lines of `h` from position `p` on, and those of `h` with a final
/// line feed added, are as many and trim alike, when `h` lacks a final line
/// feed.
proof fn lemma_lines_from_push_newline(h: Seq<char>, p: int)
    requires
        h.len() > 0,
        h.last() != '\n',
        0 <= p < h.len(),
    ensures
        lines_from(h.push('\n'), p).len() == lines_from(h, p).len(),
        forall|i: int|
            0 <= i < lines_from(h, p).len() ==> trim(#[trigger] lines_from(h.push('\n'), p)[i])
                == trim(lines_from(h, p)[i]),
    decreases h.len() - p,
{
    let s = h.push('\n');
    {
        lemma_line_end_bounds(h, p);
        let k = line_end(h, p);
        assert forall|j: int| p <= j < k implies s[j] != '\n' by {
            assert(s[j] == h[j]);
        }
        if k < h.len() {
            assert(s[k] == h[k]);
            lemma_line_end_unique(s, p, k);
            assert(s.subrange(p, k) =~= h.subrange(p, k));
            assert(k + 1 < h.len()) by {
                if k + 1 == h.len() {
                    assert(h.last() == h[k]);
                }
            }
            lemma_lines_from_push_newline(h, k + 1);
            assert(lines_from(s, p) == seq![strip_cr(s.subrange(p, k))] + lines_from(s, k + 1));
            assert(lines_from(h, p) == seq![strip_cr(h.subrange(p, k))] + lines_from(h, k + 1));
            assert forall|i: int| 0 <= i < lines_from(h, p).len() implies trim(
                #[trigger] lines_from(s, p)[i],
            ) == trim(lines_from(h, p)[i]) by {
                if i > 0 {
                    assert(lines_from(s, p)[i] == lines_from(s, k + 1)[i - 1]);
                    assert(lines_from(h, p)[i] == lines_from(h, k + 1)[i - 1]);
                }
            }
        } else {
            assert(s[k] == '\n');
            lemma_line_end_unique(s, p, k);
            assert(s.subrange(p, k) =~= h.subrange(p, k));
            assert(lines_from(s, k + 1) =~= seq![]);
            assert(lines_from(s, p) =~= seq![strip_cr(h.subrange(p, k))]);
            assert(lines_from(h, p) =~= seq![h.subrange(p, h.len() as int)]);
            lemma_trim_strip_cr(h.subrange(p, k));
            assert(lines_from(s, p)[0] == strip_cr(h.subrange(p, k)));
        }
    }
}

/// Adding the final line feed that saving adds brings in no guard line.
proof fn lemma_terminated_no_guard(h: Seq<char>)
    requires
        has_no_guard(h),
    ensures
        has_no_guard(terminated(h)),
        ends_with_newline_or_empty(terminated(h)),
{
    if h.len() > 0 && h.last() != '\n' {
        lemma_lines_from_push_newline(h, 0);
        assert forall|i: int| 0 <= i < lines(terminated(h)).len() implies trim(
            #[trigger] lines(terminated(h))[i],
        ) != open_guard() && trim(lines(terminated(h))[i]) != close_guard() by {
            assert(trim(lines(terminated(h))[i]) == trim(lines(h)[i]));
        }
    }
}

/// The text before the region of a loaded file holds no guard line, when
/// the file has a region or holds no guard line at all; with a region, it
/// ends with a line feed (or is empty).
proof fn lemma_loaded_head(content: Seq<char>)
    requires
        has_region(lines(content)) || has_no_guard(content),
    ensures
        has_no_guard(parsed_head(content)),
        has_region(lines(content)) ==> ends_with_newline_or_empty(parsed_head(content)),
{
    let ls = lines(content);
    let o = open_index(ls);
    let c = close_index(ls);
    lemma_find_guard_bounds(ls, open_guard(), 0);
    lemma_find_guard_bounds(ls, close_guard(), 0);
    lemma_find_guard_before(ls, open_guard(), 0, o);
    lemma_find_guard_before(ls, close_guard(), 0, c);
    if has_region(ls) {
        lemma_lines_take_start(content, o as nat);
        assert forall|i: int| 0 <= i < lines(parsed_head(content)).len() implies trim(
            #[trigger] lines(parsed_head(content))[i],
        ) != open_guard() && trim(lines(parsed_head(content))[i]) != close_guard() by {
            assert(lines(parsed_head(content))[i] == ls[i]);
        }
    }
}

/// Every loaded file whose patterns are stored as they are read is saved
/// and loaded back to itself: the same patterns, the same text after the
/// region and the same text before it, which only gains the final line feed
/// saving adds when it lacks one. A file without a region must hold no
/// guard line: a stray closing guard before the region saving adds would
/// end that region first.
pub proof fn lemma_load_save_load(content: Seq<char>)
    requires
        has_region(lines(content)) || has_no_guard(content),
        forall|i: int|
            0 <= i < parsed_patterns(content).len() ==> is_clean_pattern(
                #[trigger] parsed_patterns(content)[i],
            ),
    ensures
        ({
            let saved = render(parsed_head(content), parsed_patterns(content), parsed_tail(content));
            &&& parsed_head(saved) == terminated(parsed_head(content))
            &&& parsed_patterns(saved) == parsed_patterns(content)
            &&& parsed_tail(saved) == parsed_tail(content)
        }),
{
    lemma_loaded_head(content);
    lemma_save_load_roundtrip(parsed_head(content), parsed_patterns(content), parsed_tail(content));
}

/// Saving a loaded file with any patterns writes the text before the
/// region and the text after it exactly as they were read, around the
/// guard lines and the patterns.
pub proof fn lemma_edit_keeps_surroundings(content: Seq<char>, patterns: Seq<Seq<char>>)
    requires
        has_region(lines(content)),
    ensures
        render(parsed_head(content), patterns, parsed_tail(content)) == content.take(
            line_start(content, open_index(lines(content)) as nat),
        ) + open_guard() + seq!['\n'] + join_lines(patterns) + close_guard() + seq!['\n']
            + content.skip(line_start(content, (close_index(lines(content)) + 1) as nat)),
{
    lemma_loaded_head(content);
}

/// The text of lines `o..i` of `s`, each ended by its line feed, when none
/// of them is the last line without one and the stretch holds no carriage
/// return.
proof fn lemma_block_text(s: Seq<char>, o: nat, i: nat)
    requires
        o <= i <= lines(s).len(),
        forall|j: nat| o <= j < i ==> line_end(s, #[trigger] line_start(s, j)) < s.len(),
        forall|k: int| line_start(s, o) <= k < line_start(s, i) ==> s[k] != '\r',
    ensures
        line_start(s, o) <= line_start(s, i),
        s.subrange(line_start(s, o), line_start(s, i)) == join_lines(
            lines(s).subrange(o as int, i as int),
        ),
    decreases i - o,
{
    let ls = lines(s);
    lemma_line_start_bounds(s, o);
    if i == o {
        assert(lines(s).subrange(o as int, i as int) =~= seq![]);
        assert(s.subrange(line_start(s, o), line_start(s, i)) =~= seq![]);
    } else {
        let i1 = (i - 1) as nat;
        let q = line_start(s, i1);
        lemma_line_start_bounds(s, i1);
        lemma_line_start_bounds(s, i);
        lemma_line_end_bounds(s, q);
        let e = line_end(s, q);
        assert(line_end(s, line_start(s, i1)) < s.len());
        assert(line_start(s, i) == e + 1);
        lemma_block_text(s, o, i1);
        lemma_line_start_inside(s, i1);
        let raw = s.subrange(q, e);
        if raw.len() > 0 {
            assert(raw.last() == s[e - 1]);
            assert(s[e - 1] != '\r');
        }
        assert(strip_cr(raw) == raw);
        assert(ls[i1 as int] == raw);
        lemma_join_lines_push(ls.subrange(o as int, i1 as int), ls[i1 as int]);
        assert(ls.subrange(o as int, i as int) =~= ls.subrange(o as int, i1 as int).push(
            ls[i1 as int],
        ));
        assert(s[e] == '\n');
        assert(line_start(s, o) <= q);
        assert(s.subrange(line_start(s, o), e + 1) =~= s.subrange(line_start(s, o), q) + raw
            + seq!['\n']);
    }
}

/// Loading a file and saving it unchanged writes back the very same text
/// when its managed region is written the way it is saved: a closing guard
/// follows the opening one, each guard line is exactly the guard, each line
/// between them is a clean pattern, the region holds no carriage return and
/// the closing guard line ends with a line feed. The text around the region
/// may be anything.
pub proof fn lemma_load_save_unchanged(content: Seq<char>)
    requires
        has_region(lines(content)),
        close_index(lines(content)) < lines(content).len(),
        lines(content)[open_index(lines(content))] == open_guard(),
        lines(content)[close_index(lines(content))] == close_guard(),
        forall|i: int|
            open_index(lines(content)) < i < close_index(lines(content)) ==> uncomment(
                #[trigger] lines(content)[i],
            ) == lines(content)[i],
        forall|k: int|
            line_start(content, open_index(lines(content)) as nat) <= k < line_start(
                content,
                (close_index(lines(content)) + 1) as nat,
            ) ==> content[k] != '\r',
        line_end(content, line_start(content, close_index(lines(content)) as nat)) < content.len(),
    ensures
        render(parsed_head(content), parsed_patterns(content), parsed_tail(content)) == content,
{
    let ls = lines(content);
    let o = open_index(ls);
    lemma_find_guard_bounds(ls, open_guard(), 0);
    let c = close_index(ls);
    lemma_find_guard_bounds(ls, close_guard(), o + 1);
    let on = o as nat;
    let cn = (c + 1) as nat;
    assert forall|j: nat| on <= j < cn implies line_end(content, #[trigger] line_start(content, j))
        < content.len() by {
        if j < c {
            lemma_line_start_inside(content, (j + 1) as nat);
            lemma_line_start_bounds(content, j);
            lemma_line_end_bounds(content, line_start(content, j));
        }
    }
    lemma_block_text(content, on, cn);
    lemma_line_start_bounds(content, cn);
    lemma_line_start_bounds(content, on);
    let region = ls.subrange(o + 1, c);
    assert(ls.subrange(o, c + 1) =~= seq![open_guard()] + region + seq![close_guard()]);
    assert(region.map_values(|l: Seq<char>| uncomment(l)) =~= region) by {
        assert forall|j: int| 0 <= j < region.len() implies uncomment(#[trigger] region[j])
            == region[j] by {
            assert(region[j] == ls[o + 1 + j]);
        }
    }
    let mid = seq![open_guard()] + region + seq![close_guard()];
    lemma_join_lines_push(seq![open_guard()] + region, close_guard());
    assert(mid =~= (seq![open_guard()] + region).push(close_guard()));
    lemma_join_lines_prepend(open_guard(), region);
    let head = content.take(line_start(content, on));
    let tail = content.skip(line_start(content, cn));
    lemma_lines_take_start(content, on);
    assert(terminated(head) == head);
    assert(content =~= head + content.subrange(line_start(content, on), line_start(content, cn))
        + tail);
    assert(render(head, region, tail) =~= head + join_lines(mid) + tail);
}

/// Freezing keeps the patterns: a frozen file, loaded again, gives back the
/// same uncommented patterns and the same text after the region, byte for
/// byte, and the text before it with the final line feed saving adds when it
/// lacks one, unless a pattern commented out reads as the closing guard.
pub proof fn lemma_freeze_load(head: Seq<char>, patterns: Seq<Seq<char>>, tail: Seq<char>)
    requires
        has_no_guard(head),
        forall|i: int|
            0 <= i < patterns.len() ==> trim(#[trigger] patterns[i]) == patterns[i]
                && !patterns[i].contains('\n') && commented(patterns[i]) != close_guard(),
    ensures
        ({
            let content = render(head, patterns.map_values(|p: Seq<char>| commented(p)), tail);
            &&& parsed_head(content) == terminated(head)
            &&& parsed_patterns(content) == patterns
            &&& parsed_tail(content) == tail
        }),
{
    let body = patterns.map_values(|p: Seq<char>| commented(p));
    assert forall|i: int| 0 <= i < body.len() implies is_plain_line(#[trigger] body[i]) && trim(
        body[i],
    ) != close_guard() && uncomment(body[i]) == patterns[i] by {
        lemma_commented_pattern(patterns[i]);
    }
    lemma_terminated_no_guard(head);
    assert(render(head, body, tail) == render(terminated(head), body, tail));
    lemma_render_parse(terminated(head), body, tail);
    assert(body.map_values(|l: Seq<char>| uncomment(l)) =~= patterns);
}

/// Every loaded file freezes and loads back to the same patterns and the
/// same surrounding text, unless one of its patterns commented out reads as
/// the closing guard. A file without a region must hold no guard line.
pub proof fn lemma_load_freeze_load(content: Seq<char>)
    requires
        has_region(lines(content)) || has_no_guard(content),
        forall|i: int|
            0 <= i < parsed_patterns(content).len() ==> commented(
                #[trigger] parsed_patterns(content)[i],
            ) != close_guard(),
    ensures
        ({
            let frozen = render(
                parsed_head(content),
                parsed_patterns(content).map_values(|p: Seq<char>| commented(p)),
                parsed_tail(content),
            );
            &&& parsed_head(frozen) == terminated(parsed_head(content))
            &&& parsed_patterns(frozen) == parsed_patterns(content)
            &&& parsed_tail(frozen) == parsed_tail(content)
        }),
{
    lemma_loaded_head(content);
    let ps = parsed_patterns(content);
    let ls = lines(content);
    assert forall|i: int| 0 <= i < ps.len() implies trim(#[trigger] ps[i]) == ps[i]
        && !ps[i].contains('\n') by {
        let o = open_index(ls);
        lemma_find_guard_bounds(ls, open_guard(), 0);
        lemma_find_guard_bounds(ls, close_guard(), 0);
        let l = ls[o + 1 + i];
        assert(ps[i] == uncomment(l));
        lemma_lines_plain(content);
        assert(ls.contains(l));
        lemma_uncomment_clean(l);
    }
    lemma_freeze_load(parsed_head(content), ps, parsed_tail(content));
}

/// Trimming again changes nothing, and trimming brings in no line feed.
proof fn lemma_trim_facts(s: Seq<char>)
    ensures
        trim(trim(s)) == trim(s),
        !s.contains('\n') ==> !trim(s).contains('\n'),
{
    let t = trim_start(s);
    let u = trim_end(t);
    lemma_trim_start_suffix(s);
    lemma_trim_end_prefix(t);
    assert(trim(s) == u);
    if u.len() > 0 {
        assert(u[0] == t[0]);
    }
    lemma_trim_of_trimmed(u);
    if !s.contains('\n') && u.contains('\n') {
        let i = choose|i: int| 0 <= i < u.len() && u[i] == '\n';
        assert(u[i] == t[i]);
        assert(t[i] == s[s.len() - t.len() + i]);
        assert(s.contains(s[s.len() - t.len() + i]));
    }
}

/// An uncommented line that holds no line feed is trimmed and holds none.
proof fn lemma_uncomment_clean(l: Seq<char>)
    requires
        !l.contains('\n'),
    ensures
        trim(uncomment(l)) == uncomment(l),
        !uncomment(l).contains('\n'),
{
    lemma_trim_facts(l);
    let t = trim(l);
    if t.len() > 0 && t[0] == '#' {
        assert(!t.drop_first().contains('\n')) by {
            if t.drop_first().contains('\n') {
                let i = choose|i: int| 0 <= i < t.drop_first().len() && t.drop_first()[i] == '\n';
                assert(t[i + 1] == '\n');
                assert(t.contains(t[i + 1]));
            }
        }
        lemma_trim_facts(t.drop_first());
    }
}

/// A clean pattern commented out is a plain line that [`uncomment`] turns
/// back into the pattern.
proof fn lemma_commented_pattern(p: Seq<char>)
    requires
        trim(p) == p,
        !p.contains('\n'),
        commented(p) != close_guard(),
    ensures
        is_plain_line(commented(p)),
        uncomment(commented(p)) == p,
        trim(commented(p)) != close_guard(),
{
    reveal_strlit("# ");
    reveal_strlit("# <<< managed by git-overlay");
    let c = commented(p);
    assert(c[0] == '#');
    assert(c[1] == ' ');
    if p.len() > 0 {
        lemma_trimmed_ends(p);
        assert(c.last() == p.last());
        assert(!c.contains('\n')) by {
            if c.contains('\n') {
                let i = choose|i: int| 0 <= i < c.len() && c[i] == '\n';
                assert(p[i - 2] == c[i]);
                assert(p.contains(p[i - 2]));
            }
        }
        lemma_trim_of_trimmed(c);
        assert(c.drop_first() =~= seq![' '] + p);
        lemma_trim_drop_ws(c.drop_first());
        assert((seq![' '] + p).drop_first() =~= p);
    } else {
        assert(c =~= seq!['#', ' ']);
        assert(trim(c) =~= seq!['#']) by {
            assert(trim_start(c) == c);
            assert(c.drop_last() =~= seq!['#']);
            assert(trim_end(seq!['#']) == seq!['#']);
        }
        assert(seq!['#'].drop_first() =~= Seq::<char>::empty());
        assert(!c.contains('\n')) by {
            if c.contains('\n') {
                let i = choose|i: int| 0 <= i < c.len() && c[i] == '\n';
                assert(i == 0 || i == 1);
            }
        }
    }
}

/// Adding a personal ignore pattern makes it a line outside the managed
/// region, and removing it again leaves no such line; the managed patterns
/// are untouched by either.
pub proof fn lemma_ignore_add_remove(m: ExcludeModel, p: Seq<char>)
    requires
        is_clean_pattern(p),
    ensures
        has_line(with_ignore(m, p).head, p) || has_line(with_ignore(m, p).tail, p),
        with_ignore(m, p).patterns == m.patterns,
        !has_line(without_ignore(with_ignore(m, p), p).head, p),
        !has_line(without_ignore(with_ignore(m, p), p).tail, p),
        without_ignore(with_ignore(m, p), p).patterns == m.patterns,
{
    if !(has_line(m.head, p) || has_line(m.tail, p)) {
        lemma_with_line_has(m.tail, p);
    }
    let m2 = with_ignore(m, p);
    lemma_without_line_lacks(m2.head, p);
    lemma_without_line_lacks(m2.tail, p);
}

/// Removing a personal ignore pattern `p` keeps every other line outside
/// the managed region, before it and after it, in order, and leaves the
/// managed patterns as they are.
pub proof fn lemma_remove_ignore_keeps_others(m: ExcludeModel, p: Seq<char>)
    ensures
        trimmed_lines(without_ignore(m, p).head) == trimmed_lines(m.head).filter(
            |q: Seq<char>| q != p,
        ),
        trimmed_lines(without_ignore(m, p).tail) == trimmed_lines(m.tail).filter(
            |q: Seq<char>| q != p,
        ),
        without_ignore(m, p).patterns == m.patterns,
{
    lemma_without_line_keeps_others(m.head, p);
    lemma_without_line_keeps_others(m.tail, p);
}

/// A text with a clean line `p` appended has `p` as a line.
proof fn lemma_with_line_has(text: Seq<char>, p: Seq<char>)
    requires
        is_clean_pattern(p),
    ensures
        has_line(with_line(text, p), p),
{
    lemma_clean_pattern(p);
    let t = terminated(text);
    assert(ends_with_newline_or_empty(t));
    lemma_lines_concat(t, p + seq!['\n']);
    assert(with_line(text, p) =~= t + (p + seq!['\n']));
    lemma_lines_single_line(p);
    let ls = lines(with_line(text, p));
    assert(ls[lines(t).len() as int] == p);
}

/// The lines of one plain line followed by a line feed.
proof fn lemma_lines_single_line(l: Seq<char>)
    requires
        is_plain_line(l),
    ensures
        lines(l + seq!['\n']) == seq![l],
{
    lemma_lines_join(seq![l]);
    assert(seq![l].drop_first() =~= Seq::<Seq<char>>::empty());
    assert(join_lines(Seq::<Seq<char>>::empty()) == Seq::<char>::empty());
    assert(join_lines(seq![l]) =~= l + seq!['\n']);
}

/// After dropping the lines `p`, no line is `p`.
proof fn lemma_without_line_lacks(text: Seq<char>, p: Seq<char>)
    ensures
        !has_line(without_line(text, p), p),
{
    if has_line(text, p) {
        let kept = lines(text).filter(|l: Seq<char>| trim(l) != p);
        assert forall|i: int| 0 <= i < kept.len() implies !(#[trigger] kept[i]).contains('\n')
            && trim(kept[i]) != p by {
            lemma_lines_plain(text);
            kept_in_lines(text, p, i);
        }
        lemma_lines_join_any(kept);
        let ls = lines(join_lines(kept));
        assert forall|i: int| 0 <= i < ls.len() implies trim(#[trigger] ls[i]) != p by {
            lemma_trim_strip_cr(kept[i]);
        }
    }
}

/// The lines of `text`, each trimmed.
pub open spec fn trimmed_lines(text: Seq<char>) -> Seq<Seq<char>> {
    lines(text).map_values(|l: Seq<char>| trim(l))
}

/// Dropping a personal ignore line `p` from a text keeps every other line:
/// the lines of the result, trimmed, are those of the text, trimmed, in
/// order, with only the ones equal to `p` taken out. So a line that reads
/// otherwise (also one that merely starts with `p`) is still there, and no
/// line reads `p` any more.
pub proof fn lemma_without_line_keeps_others(text: Seq<char>, p: Seq<char>)
    ensures
        trimmed_lines(without_line(text, p)) == trimmed_lines(text).filter(
            |q: Seq<char>| q != p,
        ),
        forall|q: Seq<char>|
            q != p ==> (#[trigger] trimmed_lines(without_line(text, p)).contains(q)
                <==> trimmed_lines(text).contains(q)),
        !trimmed_lines(without_line(text, p)).contains(p),
{
    broadcast use vstd::seq_lib::group_filter_ensures;

    let ls = lines(text);
    lemma_trim_filter_commute(ls, p);
    if has_line(text, p) {
        let kept = ls.filter(|l: Seq<char>| trim(l) != p);
        assert forall|i: int| 0 <= i < kept.len() implies !(#[trigger] kept[i]).contains('\n') by {
            lemma_lines_plain(text);
            kept_in_lines(text, p, i);
        }
        lemma_lines_join_any(kept);
        let back = kept.map_values(|l: Seq<char>| strip_cr(l));
        assert(lines(without_line(text, p)) == back);
        let bt = back.map_values(|l: Seq<char>| trim(l));
        let kt = kept.map_values(|l: Seq<char>| trim(l));
        assert forall|i: int| 0 <= i < kept.len() implies #[trigger] bt[i] == kt[i] by {
            lemma_trim_strip_cr(kept[i]);
        }
        assert(bt =~= kt);
    } else {
        assert forall|i: int| 0 <= i < ls.len() implies (|l: Seq<char>| trim(l) != p)(#[trigger] ls[i]) by {
            if trim(ls[i]) == p {
                assert(has_line(text, p));
            }
        }
        lemma_filter_keeps_all(ls, |l: Seq<char>| trim(l) != p);
    }
    let out = trimmed_lines(without_line(text, p));
    let tl = trimmed_lines(text);
    assert forall|q: Seq<char>| q != p implies (#[trigger] out.contains(q) <==> tl.contains(q)) by {
        if tl.contains(q) {
            let i = choose|i: int| 0 <= i < tl.len() && tl[i] == q;
            tl.lemma_filter_contains(|x: Seq<char>| x != p, i);
        }
        if out.contains(q) {
            tl.lemma_filter_contains_rev(|x: Seq<char>| x != p, q);
        }
    }
    if out.contains(p) {
        tl.lemma_filter_contains_rev(|x: Seq<char>| x != p, p);
    }
}

/// Filtering lines by their trimmed text and then trimming them is
/// trimming them and then filtering the trimmed texts.
proof fn lemma_trim_filter_commute(ls: Seq<Seq<char>>, p: Seq<char>)
    ensures
        ls.filter(|l: Seq<char>| trim(l) != p).map_values(|l: Seq<char>| trim(l)) == ls.map_values(
            |l: Seq<char>| trim(l),
        ).filter(|q: Seq<char>| q != p),
    decreases ls.len(),
{
    reveal(Seq::filter);
    let f = |l: Seq<char>| trim(l) != p;
    let g = |l: Seq<char>| trim(l);
    let h = |q: Seq<char>| q != p;
    if ls.len() == 0 {
        assert(ls.filter(f).map_values(g) =~= Seq::<Seq<char>>::empty());
        assert(ls.map_values(g) =~= Seq::<Seq<char>>::empty());
    } else {
        lemma_trim_filter_commute(ls.drop_last(), p);
        let m = ls.map_values(g);
        assert(m.drop_last() =~= ls.drop_last().map_values(g));
        assert(m.last() == trim(ls.last()));
        let sub = ls.drop_last().filter(f);
        if f(ls.last()) {
            assert(sub.push(ls.last()).map_values(g) =~= sub.map_values(g).push(trim(ls.last())));
        }
    }
}

/// Filtering by a test that every item passes keeps them all.
proof fn lemma_filter_keeps_all(s: Seq<Seq<char>>, f: spec_fn(Seq<char>) -> bool)
    requires
        forall|i: int| 0 <= i < s.len() ==> f(#[trigger] s[i]),
    ensures
        s.filter(f) == s,
    decreases s.len(),
{
    reveal(Seq::filter);
    if s.len() > 0 {
        assert forall|i: int| 0 <= i < s.drop_last().len() implies f(#[trigger] s.drop_last()[i]) by {
            assert(s.drop_last()[i] == s[i]);
        }
        lemma_filter_keeps_all(s.drop_last(), f);
        assert(f(s[s.len() - 1]));
        assert(s.drop_last().push(s.last()) =~= s);
    }
}

/// Joining lines without line feeds and splitting them again gives them
/// back, each without one trailing carriage return.
proof fn lemma_lines_join_any(ls: Seq<Seq<char>>)
    requires
        forall|i: int| 0 <= i < ls.len() ==> !(#[trigger] ls[i]).contains('\n'),
    ensures
        lines(join_lines(ls)) == ls.map_values(|l: Seq<char>| strip_cr(l)),
    decreases ls.len(),
{
    if ls.len() == 0 {
        assert(lines(seq![]) =~= seq![]);
        assert(ls.map_values(|l: Seq<char>| strip_cr(l)) =~= seq![]);
    } else {
        let l = ls[0];
        let first = l + seq!['\n'];
        let rest = ls.drop_first();
        lemma_lines_join_any(rest);
        assert forall|j: int| 0 <= j < l.len() implies first[j] != '\n' by {
            assert(first[j] == l[j]);
            assert(l.contains(l[j]));
        }
        lemma_line_end_unique(first, 0, l.len() as int);
        assert(first.subrange(0, l.len() as int) =~= l);
        assert(lines_from(first, l.len() + 1int) =~= seq![]);
        assert(lines(first) =~= seq![strip_cr(l)]);
        assert(join_lines(ls) =~= first + join_lines(rest));
        lemma_lines_concat(first, join_lines(rest));
        assert(lines(join_lines(ls)) =~= ls.map_values(|l: Seq<char>| strip_cr(l)));
    }
}

/// Dropping a trailing carriage return does not change the trimmed text.
proof fn lemma_trim_strip_cr(l: Seq<char>)
    ensures
        trim(strip_cr(l)) == trim(l),
{
    if l.len() > 0 && l.last() == '\r' {
        assert(l =~= l.drop_last().push('\r'));
        lemma_trim_push_ws(l.drop_last(), '\r');
    }
}

/// Trimming ignores one more trailing whitespace character.
proof fn lemma_trim_push_ws(s: Seq<char>, c: char)
    requires
        is_ws(c),
    ensures
        trim(s.push(c)) == trim(s),
    decreases s.len(),
{
    if s.len() == 0 {
        assert(s.push(c) =~= seq![c]);
        assert(seq![c].drop_first() =~= Seq::<char>::empty());
        assert(trim_start(seq![c]) == trim_start(Seq::<char>::empty()));
        assert(trim_start(Seq::<char>::empty()) =~= Seq::<char>::empty());
        assert(trim_end(Seq::<char>::empty()) =~= Seq::<char>::empty());
    } else if is_ws(s[0]) {
        assert(s.push(c)[0] == s[0]);
        assert(s.push(c).drop_first() =~= s.drop_first().push(c));
        lemma_trim_push_ws(s.drop_first(), c);
    } else {
        assert(s.push(c)[0] == s[0]);
        assert(trim_start(s.push(c)) == s.push(c));
        assert(s.push(c).drop_last() =~= s);
        assert(trim_end(s.push(c)) == trim_end(s));
    }
}

/// Each kept line is a line of the text and is not `p`.
proof fn kept_in_lines(text: Seq<char>, p: Seq<char>, i: int)
    requires
        0 <= i < lines(text).filter(|l: Seq<char>| trim(l) != p).len(),
    ensures
        lines(text).contains(lines(text).filter(|l: Seq<char>| trim(l) != p)[i]),
        trim(lines(text).filter(|l: Seq<char>| trim(l) != p)[i]) != p,
{
    broadcast use vstd::seq_lib::group_filter_ensures;

    let kept = lines(text).filter(|l: Seq<char>| trim(l) != p);
    assert(kept.contains(kept[i]));
    lines(text).lemma_filter_contains_rev(|l: Seq<char>| trim(l) != p, kept[i]);
}

/// The lines of any text hold no line feed.
proof fn lemma_lines_plain(text: Seq<char>)
    ensures
        forall|l: Seq<char>| lines(text).contains(l) ==> !l.contains('\n'),
{
    lemma_lines_from_plain(text, 0);
}

proof fn lemma_lines_from_plain(s: Seq<char>, p: int)
    requires
        0 <= p,
    ensures
        forall|l: Seq<char>| lines_from(s, p).contains(l) ==> !l.contains('\n'),
    decreases s.len() - p,
{
    if p < s.len() {
        let k = line_end(s, p);
        lemma_line_end_bounds(s, p);
        if k < s.len() {
            lemma_lines_from_plain(s, k + 1);
        }
        let first = if k >= s.len() {
            s.subrange(p, s.len() as int)
        } else {
            strip_cr(s.subrange(p, k))
        };
        assert(!first.contains('\n')) by {
            if first.contains('\n') {
                let j = choose|j: int| 0 <= j < first.len() && first[j] == '\n';
                assert(s[p + j] == '\n');
            }
        }
        assert forall|l: Seq<char>| lines_from(s, p).contains(l) implies !l.contains('\n') by {
            let j = choose|j: int| 0 <= j < lines_from(s, p).len() && lines_from(s, p)[j] == l;
            if j > 0 {
                assert(lines_from(s, k + 1)[j - 1] == l);
            }
        }
    }
}

} // verus!
