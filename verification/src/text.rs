//! Character-level text model: whitespace, trimming, and the splitting of a
//! text into lines and the joining of lines back into a text.
use vstd::prelude::*;

verus! {

/// `String::push` appends one character to the end of the string.
pub assume_specification[ String::push ](s: &mut String, ch: char)
    ensures
        final(s)@ == old(s)@.push(ch),
;

// ---------------------------------------------------------------------------
// Whitespace and trimming
// ---------------------------------------------------------------------------

/// Unicode `White_Space`, the set of characters that `str::trim` removes.
pub open spec fn is_ws(c: char) -> bool {
    ||| ('\u{9}' <= c && c <= '\u{d}')
    ||| c == ' '
    ||| c == '\u{85}'
    ||| c == '\u{a0}'
    ||| c == '\u{1680}'
    ||| ('\u{2000}' <= c && c <= '\u{200a}')
    ||| c == '\u{2028}'
    ||| c == '\u{2029}'
    ||| c == '\u{202f}'
    ||| c == '\u{205f}'
    ||| c == '\u{3000}'
}

/// Whether `c` is a whitespace character (see [`is_ws`]).
pub fn is_whitespace(c: char) -> (b: bool)
    ensures
        b == is_ws(c),
{
    ('\u{9}' <= c && c <= '\u{d}') || c == ' ' || c == '\u{85}' || c == '\u{a0}' || c
        == '\u{1680}' || ('\u{2000}' <= c && c <= '\u{200a}') || c == '\u{2028}' || c
        == '\u{2029}' || c == '\u{202f}' || c == '\u{205f}' || c == '\u{3000}'
}

/// `s` without its leading whitespace.
pub open spec fn trim_start(s: Seq<char>) -> Seq<char>
    decreases s.len(),
{
    if s.len() > 0 && is_ws(s[0]) {
        trim_start(s.drop_first())
    } else {
        s
    }
}

/// `s` without its trailing whitespace.
pub open spec fn trim_end(s: Seq<char>) -> Seq<char>
    decreases s.len(),
{
    if s.len() > 0 && is_ws(s.last()) {
        trim_end(s.drop_last())
    } else {
        s
    }
}

/// `s` without leading and trailing whitespace, as `str::trim` gives it.
pub open spec fn trim(s: Seq<char>) -> Seq<char> {
    trim_end(trim_start(s))
}

/// Dropping leading whitespace from `s[lo..hi]` one character at a time.
proof fn lemma_trim_start_step(s: Seq<char>, lo: int, hi: int)
    requires
        0 <= lo < hi <= s.len(),
        is_ws(s[lo]),
    ensures
        trim_start(s.subrange(lo, hi)) == trim_start(s.subrange(lo + 1, hi)),
{
    assert(s.subrange(lo, hi).drop_first() =~= s.subrange(lo + 1, hi));
}

/// Dropping trailing whitespace from `s[lo..hi]` one character at a time.
proof fn lemma_trim_end_step(s: Seq<char>, lo: int, hi: int)
    requires
        0 <= lo < hi <= s.len(),
        is_ws(s[hi - 1]),
    ensures
        trim_end(s.subrange(lo, hi)) == trim_end(s.subrange(lo, hi - 1)),
{
    assert(s.subrange(lo, hi).drop_last() =~= s.subrange(lo, hi - 1));
}

/// The bounds of `trim(cs[lo..hi])` inside `cs`.
pub fn trim_bounds(cs: &Vec<char>, lo: usize, hi: usize) -> (r: (usize, usize))
    requires
        lo <= hi <= cs.len(),
    ensures
        lo <= r.0 <= r.1 <= hi,
        cs@.subrange(r.0 as int, r.1 as int) == trim(cs@.subrange(lo as int, hi as int)),
{
    let mut a = lo;
    while a < hi && is_whitespace(cs[a])
        invariant
            lo <= a <= hi <= cs.len(),
            trim_start(cs@.subrange(lo as int, hi as int)) == trim_start(
                cs@.subrange(a as int, hi as int),
            ),
        decreases hi - a,
    {
        proof {
            lemma_trim_start_step(cs@, a as int, hi as int);
        }
        a = a + 1;
    }
    assert(trim_start(cs@.subrange(a as int, hi as int)) == cs@.subrange(a as int, hi as int));
    let mut b = hi;
    while b > a && is_whitespace(cs[b - 1])
        invariant
            lo <= a <= b <= hi <= cs.len(),
            trim_end(cs@.subrange(a as int, hi as int)) == trim_end(
                cs@.subrange(a as int, b as int),
            ),
        decreases b - a,
    {
        proof {
            lemma_trim_end_step(cs@, a as int, b as int);
        }
        b = b - 1;
    }
    (a, b)
}

/// `trim_start(s)` is a suffix of `s`, and strictly shorter when `s` starts
/// with whitespace.
pub proof fn lemma_trim_start_suffix(s: Seq<char>)
    ensures
        trim_start(s).len() <= s.len(),
        trim_start(s) == s.skip(s.len() - trim_start(s).len()),
        s.len() > 0 && is_ws(s[0]) ==> trim_start(s).len() < s.len(),
        trim_start(s).len() > 0 ==> !is_ws(trim_start(s)[0]),
    decreases s.len(),
{
    if s.len() > 0 && is_ws(s[0]) {
        lemma_trim_start_suffix(s.drop_first());
        assert(s.drop_first().skip(s.drop_first().len() - trim_start(s).len()) =~= s.skip(
            s.len() - trim_start(s).len(),
        ));
    } else {
        assert(s.skip(0) =~= s);
    }
}

/// `trim_end(s)` is a prefix of `s`, and strictly shorter when `s` ends with
/// whitespace.
pub proof fn lemma_trim_end_prefix(s: Seq<char>)
    ensures
        trim_end(s).len() <= s.len(),
        trim_end(s) == s.take(trim_end(s).len() as int),
        s.len() > 0 && is_ws(s.last()) ==> trim_end(s).len() < s.len(),
        trim_end(s).len() > 0 ==> !is_ws(trim_end(s).last()),
    decreases s.len(),
{
    if s.len() > 0 && is_ws(s.last()) {
        lemma_trim_end_prefix(s.drop_last());
        assert(s.drop_last().take(trim_end(s).len() as int) =~= s.take(trim_end(s).len() as int));
    } else {
        assert(s.take(s.len() as int) =~= s);
    }
}

/// A text equal to its trimmed self has no whitespace at either end.
pub proof fn lemma_trimmed_ends(s: Seq<char>)
    requires
        trim(s) == s,
        s.len() > 0,
    ensures
        !is_ws(s[0]),
        !is_ws(s.last()),
{
    lemma_trim_start_suffix(s);
    lemma_trim_end_prefix(trim_start(s));
    if trim_start(s).len() < s.len() {
        assert(false);
    }
    assert(trim_start(s) =~= s);
}

/// A text with no whitespace at either end is its own trimmed self.
pub proof fn lemma_trim_of_trimmed(s: Seq<char>)
    requires
        s.len() > 0 ==> !is_ws(s[0]) && !is_ws(s.last()),
    ensures
        trim(s) == s,
{
}

/// Trimming a text that starts with whitespace.
pub proof fn lemma_trim_drop_ws(s: Seq<char>)
    requires
        s.len() > 0,
        is_ws(s[0]),
    ensures
        trim(s) == trim(s.drop_first()),
{
}

// ---------------------------------------------------------------------------
// Lines
// ---------------------------------------------------------------------------

/// The index of the first `'\n'` in `s` at or after `i`, or `s.len()`.
pub open spec fn line_end(s: Seq<char>, i: int) -> int
    decreases s.len() - i,
{
    if i < 0 || i >= s.len() || s[i] == '\n' {
        if i < 0 {
            0
        } else if i > s.len() {
            s.len() as int
        } else {
            i
        }
    } else {
        line_end(s, i + 1)
    }
}

/// `l` without one trailing carriage return.
pub open spec fn strip_cr(l: Seq<char>) -> Seq<char> {
    if l.len() > 0 && l.last() == '\r' {
        l.drop_last()
    } else {
        l
    }
}

/// The lines of `s` from position `p` on, as `str::lines` yields them: split
/// at `'\n'`, a `'\r'` right before a `'\n'` dropped, and no empty line after
/// a final `'\n'`.
pub open spec fn lines_from(s: Seq<char>, p: int) -> Seq<Seq<char>>
    decreases s.len() - p,
{
    if p < 0 || p >= s.len() {
        seq![]
    } else {
        let k = line_end(s, p);
        proof {
            lemma_line_end_bounds(s, p);
        }
        if k >= s.len() {
            seq![s.subrange(p, s.len() as int)]
        } else {
            seq![strip_cr(s.subrange(p, k))] + lines_from(s, k + 1)
        }
    }
}

/// The lines of `s` (see [`lines_from`]).
pub open spec fn lines(s: Seq<char>) -> Seq<Seq<char>> {
    lines_from(s, 0)
}

/// Each line followed by a `'\n'`, all concatenated.
pub open spec fn join_lines(ls: Seq<Seq<char>>) -> Seq<char>
    decreases ls.len(),
{
    if ls.len() == 0 {
        seq![]
    } else {
        ls[0] + seq!['\n'] + join_lines(ls.drop_first())
    }
}

/// The text is empty or ends with a line feed.
pub open spec fn ends_with_newline_or_empty(s: Seq<char>) -> bool {
    s.len() == 0 || s.last() == '\n'
}

/// A line that `lines` gives back unchanged: no line feed inside, no
/// carriage return at its end.
pub open spec fn is_plain_line(l: Seq<char>) -> bool {
    &&& !l.contains('\n')
    &&& (l.len() == 0 || l.last() != '\r')
}

pub proof fn lemma_line_end_bounds(s: Seq<char>, i: int)
    requires
        0 <= i <= s.len(),
    ensures
        i <= line_end(s, i) <= s.len(),
        line_end(s, i) < s.len() ==> s[line_end(s, i)] == '\n',
        forall|j: int| i <= j < line_end(s, i) ==> s[j] != '\n',
    decreases s.len() - i,
{
    if i < s.len() && s[i] != '\n' {
        lemma_line_end_bounds(s, i + 1);
    }
}

/// `line_end` is determined by the characters up to and including the first
/// line feed.
pub proof fn lemma_line_end_unique(s: Seq<char>, i: int, k: int)
    requires
        0 <= i <= k <= s.len(),
        k < s.len() ==> s[k] == '\n',
        forall|j: int| i <= j < k ==> s[j] != '\n',
    ensures
        line_end(s, i) == k,
    decreases k - i,
{
    if i < k {
        lemma_line_end_unique(s, i + 1, k);
    }
}

/// Lines of a text placed after `a` are the lines of the text itself.
proof fn lemma_lines_shift(a: Seq<char>, b: Seq<char>, q: int)
    requires
        0 <= q <= b.len(),
    ensures
        lines_from(a + b, a.len() + q) == lines_from(b, q),
    decreases b.len() - q,
{
    let s = a + b;
    if q < b.len() {
        let k = line_end(b, q);
        lemma_line_end_bounds(b, q);
        assert forall|j: int| a.len() + q <= j < a.len() + k implies s[j] != '\n' by {
            assert(s[j] == b[j - a.len()]);
        }
        lemma_line_end_unique(s, a.len() + q, a.len() + k);
        assert(s.subrange(a.len() + q, a.len() + k) =~= b.subrange(q, k));
        if k < b.len() {
            lemma_lines_shift(a, b, k + 1);
        } else {
            assert(s.subrange(a.len() + q, s.len() as int) =~= b.subrange(q, b.len() as int));
        }
    }
}

/// The lines of `a + b` are those of `a` then those of `b`, when `a` ends
/// with a line feed.
proof fn lemma_lines_concat_from(a: Seq<char>, b: Seq<char>, p: int)
    requires
        a.len() > 0,
        a.last() == '\n',
        0 <= p <= a.len(),
    ensures
        lines_from(a + b, p) == lines_from(a, p) + lines_from(b, 0),
    decreases a.len() - p,
{
    let s = a + b;
    if p == a.len() {
        lemma_lines_shift(a, b, 0);
        assert(lines_from(a, p) =~= seq![]);
        assert(lines_from(a, p) + lines_from(b, 0) =~= lines_from(b, 0));
    } else {
        let k = line_end(a, p);
        lemma_line_end_bounds(a, p);
        lemma_line_end_bounds(s, p);
        if k == a.len() {
            assert(a[a.len() - 1] == '\n');
            assert(false);
        }
        assert forall|j: int| p <= j < k implies s[j] != '\n' by {
            assert(s[j] == a[j]);
        }
        lemma_line_end_unique(s, p, k);
        assert(s.subrange(p, k) =~= a.subrange(p, k));
        lemma_lines_concat_from(a, b, k + 1);
        assert(lines_from(a, p) == seq![strip_cr(a.subrange(p, k))] + lines_from(a, k + 1));
        assert(lines_from(s, p) == seq![strip_cr(s.subrange(p, k))] + lines_from(s, k + 1));
        assert(lines_from(s, p) =~= lines_from(a, p) + lines_from(b, 0));
    }
}

/// The lines of `a + b` are those of `a` then those of `b`, when `a` is empty
/// or ends with a line feed.
pub proof fn lemma_lines_concat(a: Seq<char>, b: Seq<char>)
    requires
        ends_with_newline_or_empty(a),
    ensures
        lines(a + b) == lines(a) + lines(b),
{
    if a.len() == 0 {
        assert(a + b =~= b);
        assert(lines(a) =~= seq![]);
        assert(lines(a) + lines(b) =~= lines(b));
    } else {
        lemma_lines_concat_from(a, b, 0);
    }
}

/// The lines of one plain line followed by a line feed.
proof fn lemma_lines_single(l: Seq<char>)
    requires
        is_plain_line(l),
    ensures
        lines(l + seq!['\n']) == seq![l],
{
    let s = l + seq!['\n'];
    assert forall|j: int| 0 <= j < l.len() implies s[j] != '\n' by {
        assert(s[j] == l[j]);
        assert(l.contains(l[j]));
    }
    lemma_line_end_unique(s, 0, l.len() as int);
    assert(s.subrange(0, l.len() as int) =~= l);
    assert(lines_from(s, l.len() + 1int) =~= seq![]);
    assert(lines(s) =~= seq![l]);
}

/// Joining plain lines and splitting them again gives them back.
pub proof fn lemma_lines_join(ls: Seq<Seq<char>>)
    requires
        forall|i: int| 0 <= i < ls.len() ==> is_plain_line(#[trigger] ls[i]),
    ensures
        lines(join_lines(ls)) == ls,
        ends_with_newline_or_empty(join_lines(ls)),
    decreases ls.len(),
{
    if ls.len() == 0 {
        assert(lines(seq![]) =~= seq![]);
    } else {
        let first = ls[0] + seq!['\n'];
        let rest = ls.drop_first();
        lemma_lines_join(rest);
        lemma_lines_single(ls[0]);
        assert(join_lines(ls) =~= first + join_lines(rest));
        lemma_lines_concat(first, join_lines(rest));
        assert(lines(join_lines(ls)) =~= ls);
    }
}

// ---------------------------------------------------------------------------
// Executable helpers
// ---------------------------------------------------------------------------

/// The characters of `s`, in order.
pub fn chars_of(s: &str) -> (out: Vec<char>)
    ensures
        out@ == s@,
{
    let mut out: Vec<char> = Vec::new();
    let mut it = s.chars();
    proof {
        broadcast use vstd::string::group_string_axioms;
    }
    loop
        invariant
            vstd::std_specs::iter::IteratorSpec::obeys_prophetic_iter_laws(&it),
            out@ + vstd::std_specs::iter::IteratorSpec::remaining(&it) == s@,
            vstd::std_specs::iter::IteratorSpec::decrease(&it) is Some,
        ensures
            out@ == s@,
        decreases vstd::std_specs::iter::IteratorSpec::decrease(&it)->0,
    {
        match it.next() {
            Some(c) => {
                out.push(c);
            },
            None => {
                break ;
            },
        }
    }
    out
}

/// The string made of `cs[lo..hi]`.
pub fn string_of(cs: &Vec<char>, lo: usize, hi: usize) -> (out: String)
    requires
        lo <= hi <= cs.len(),
    ensures
        out@ == cs@.subrange(lo as int, hi as int),
{
    let mut out = String::new();
    let mut i = lo;
    while i < hi
        invariant
            lo <= i <= hi <= cs.len(),
            out@ == cs@.subrange(lo as int, i as int),
        decreases hi - i,
    {
        out.push(cs[i]);
        assert(cs@.subrange(lo as int, i + 1) =~= cs@.subrange(lo as int, i as int).push(cs@[i as int]));
        i = i + 1;
    }
    out
}

/// Appends `s` to `out`.
pub fn push_str(out: &mut String, s: &str)
    ensures
        final(out)@ == old(out)@ + s@,
{
    let cs = chars_of(s);
    let mut i: usize = 0;
    while i < cs.len()
        invariant
            i <= cs.len(),
            cs@ == s@,
            out@ == old(out)@ + cs@.subrange(0, i as int),
        decreases cs.len() - i,
    {
        out.push(cs[i]);
        assert(cs@.subrange(0, i + 1) =~= cs@.subrange(0, i as int).push(cs@[i as int]));
        i = i + 1;
    }
    assert(cs@.subrange(0, cs.len() as int) =~= cs@);
}

/// Whether `cs[lo..hi]` equals `pat`.
pub fn range_eq(cs: &Vec<char>, lo: usize, hi: usize, pat: &Vec<char>) -> (b: bool)
    requires
        lo <= hi <= cs.len(),
    ensures
        b == (cs@.subrange(lo as int, hi as int) == pat@),
{
    if hi - lo != pat.len() {
        return false;
    }
    let mut i: usize = 0;
    while i < pat.len()
        invariant
            i <= pat.len(),
            hi - lo == pat.len(),
            lo <= hi <= cs.len(),
            forall|j: int| 0 <= j < i ==> cs@[lo + j] == pat@[j],
        decreases pat.len() - i,
    {
        if cs[lo + i] != pat[i] {
            assert(cs@.subrange(lo as int, hi as int)[i as int] != pat@[i as int]);
            return false;
        }
        i = i + 1;
    }
    assert(cs@.subrange(lo as int, hi as int) =~= pat@);
    true
}

/// The spans `(start, end)` of the lines of `cs`, so that `cs[start..end]`
/// is each line of [`lines`].
pub fn line_spans(cs: &Vec<char>) -> (spans: Vec<(usize, usize)>)
    ensures
        spans.len() == lines(cs@).len(),
        forall|i: int| 0 <= i < spans.len() ==> (#[trigger] spans[i]).0 <= spans[i].1 <= cs.len(),
        forall|i: int|
            0 <= i < spans.len() ==> {
                &&& spans[i].0 <= spans[i].1 <= cs.len()
                &&& #[trigger] cs@.subrange(spans[i].0 as int, spans[i].1 as int) == lines(
                    cs@,
                )[i]
            },
        forall|i: int| 0 <= i < spans.len() ==> (#[trigger] spans[i]).0 == line_start(cs@, i as nat),
{
    let mut spans: Vec<(usize, usize)> = Vec::new();
    let mut p: usize = 0;
    while p < cs.len()
        invariant
            p <= cs.len(),
            p == line_start(cs@, spans.len() as nat),
            forall|i: int|
                0 <= i < spans.len() ==> (#[trigger] spans[i]).0 == line_start(cs@, i as nat),
            lines(cs@) == spans@.map_values(
                |sp: (usize, usize)| cs@.subrange(sp.0 as int, sp.1 as int),
            ) + lines_from(cs@, p as int),
            forall|i: int| 0 <= i < spans.len() ==> (#[trigger] spans[i]).0 <= spans[i].1 <= cs.len(),
        decreases cs.len() - p,
    {
        let mut k = p;
        while k < cs.len() && cs[k] != '\n'
            invariant
                p <= k <= cs.len(),
                line_end(cs@, p as int) == line_end(cs@, k as int),
            decreases cs.len() - k,
        {
            k = k + 1;
        }
        let ghost old_spans = spans@;
        if k >= cs.len() {
            spans.push((p, k));
            proof {
                assert(lines_from(cs@, p as int) == seq![cs@.subrange(p as int, cs.len() as int)]);
                assert(lines_from(cs@, k as int) =~= seq![]);
            }
            p = k;
        } else {
            let e = if k > p && cs[k - 1] == '\r' {
                k - 1
            } else {
                k
            };
            proof {
                let l = cs@.subrange(p as int, k as int);
                if k > p && cs@[k - 1] == '\r' {
                    assert(strip_cr(l) =~= cs@.subrange(p as int, e as int));
                } else {
                    assert(strip_cr(l) =~= cs@.subrange(p as int, e as int));
                }
            }
            spans.push((p, e));
            p = k + 1;
        }
        proof {
            assert(spans@.map_values(|sp: (usize, usize)| cs@.subrange(sp.0 as int, sp.1 as int))
                =~= old_spans.map_values(
                |sp: (usize, usize)| cs@.subrange(sp.0 as int, sp.1 as int),
            ).push(cs@.subrange(spans@.last().0 as int, spans@.last().1 as int)));
        }
    }
    proof {
        assert(lines_from(cs@, p as int) =~= seq![]);
        assert(lines(cs@) =~= spans@.map_values(
            |sp: (usize, usize)| cs@.subrange(sp.0 as int, sp.1 as int),
        ));
        assert forall|i: int| 0 <= i < spans.len() implies #[trigger] cs@.subrange(
            spans[i].0 as int,
            spans[i].1 as int,
        ) == lines(cs@)[i] by {
            assert(lines(cs@)[i] == spans@.map_values(
                |sp: (usize, usize)| cs@.subrange(sp.0 as int, sp.1 as int),
            )[i]);
        }
    }
    spans
}

} // verus!

verus! {

/// A control character that `{:?}` writes as a `\u{..}` escape: those
/// below a space other than NUL, tab, line feed and carriage return, and
/// those from DEL to U+009F.
pub open spec fn is_escaped_control(c: char) -> bool {
    ||| ('\u{1}' <= c && c <= '\u{1f}' && c != '\t' && c != '\n' && c != '\r')
    ||| ('\u{7f}' <= c && c <= '\u{9f}')
}

/// The lower-case hexadecimal digit for `d`, below 16.
pub open spec fn hex_digit(d: int) -> char {
    if d < 10 {
        (48 + d) as char
    } else {
        (87 + d) as char
    }
}

/// The lower-case hexadecimal digits of `n`, below 256, without leading
/// zeros.
pub open spec fn hex_digits(n: int) -> Seq<char> {
    if n < 16 {
        seq![hex_digit(n)]
    } else {
        seq![hex_digit(n / 16), hex_digit(n % 16)]
    }
}

/// How `{:?}` writes the character `c` inside a quoted string: a backslash
/// escape for the quote, the backslash, line feed, carriage return, tab
/// and NUL; `\u{..}` with the code in hexadecimal for the other control
/// characters; the character itself otherwise.
pub open spec fn debug_escape(c: char) -> Seq<char> {
    if c == '"' {
        seq!['\\', '"']
    } else if c == '\\' {
        seq!['\\', '\\']
    } else if c == '\n' {
        seq!['\\', 'n']
    } else if c == '\r' {
        seq!['\\', 'r']
    } else if c == '\t' {
        seq!['\\', 't']
    } else if c == '\0' {
        seq!['\\', '0']
    } else if is_escaped_control(c) {
        seq!['\\', 'u', '{'] + hex_digits(c as int) + seq!['}']
    } else {
        seq![c]
    }
}

/// The hexadecimal digit for `d` (see [`hex_digit`]).
fn hex_digit_char(d: u32) -> (c: char)
    requires
        d < 16,
    ensures
        c == hex_digit(d as int),
{
    if d < 10 {
        ((48 + d) as u8) as char
    } else {
        ((87 + d) as u8) as char
    }
}

/// Each character of `s` escaped (see [`debug_escape`]).
pub open spec fn debug_escaped(s: Seq<char>) -> Seq<char>
    decreases s.len(),
{
    if s.len() == 0 {
        seq![]
    } else {
        debug_escaped(s.drop_last()) + debug_escape(s.last())
    }
}

/// `s` between double quotes, escaped (see [`debug_escape`]).
pub open spec fn debug_quoted(s: Seq<char>) -> Seq<char> {
    seq!['"'] + debug_escaped(s) + seq!['"']
}

/// Appends `s` quoted and escaped (see [`debug_quoted`]).
pub fn push_debug_quoted(out: &mut String, s: &str)
    ensures
        final(out)@ == old(out)@ + debug_quoted(s@),
{
    let cs = chars_of(s);
    out.push('"');
    let ghost start = out@;
    let mut i: usize = 0;
    while i < cs.len()
        invariant
            i <= cs.len(),
            cs@ == s@,
            start == old(out)@.push('"'),
            out@ == start + debug_escaped(cs@.take(i as int)),
        decreases cs.len() - i,
    {
        let c = cs[i];
        let ghost before = out@;
        if c == '"' {
            out.push('\\');
            out.push('"');
        } else if c == '\\' {
            out.push('\\');
            out.push('\\');
        } else if c == '\n' {
            out.push('\\');
            out.push('n');
        } else if c == '\r' {
            out.push('\\');
            out.push('r');
        } else if c == '\t' {
            out.push('\\');
            out.push('t');
        } else if c == '\0' {
            out.push('\\');
            out.push('0');
        } else if ('\u{1}' <= c && c <= '\u{1f}') || ('\u{7f}' <= c && c <= '\u{9f}') {
            let n = c as u32;
            out.push('\\');
            out.push('u');
            out.push('{');
            if n >= 16 {
                out.push(hex_digit_char(n / 16));
            }
            out.push(hex_digit_char(n % 16));
            out.push('}');
        } else {
            out.push(c);
        }
        proof {
            assert(cs@.take(i + 1).drop_last() =~= cs@.take(i as int));
            assert(cs@.take(i + 1).last() == c);
            assert(out@ =~= before + debug_escape(c));
        }
        i = i + 1;
    }
    assert(cs@.take(cs.len() as int) =~= cs@);
    out.push('"');
    assert(out@ =~= old(out)@ + debug_quoted(s@));
}

} // verus!

verus! {

/// Where the line after the one starting at `p` starts: just past its line
/// feed, or the end of `s` when it has none.
pub open spec fn next_line_start(s: Seq<char>, p: int) -> int {
    if line_end(s, p) < s.len() {
        line_end(s, p) + 1
    } else {
        s.len() as int
    }
}

/// Where line `k` of `s` starts (the end of `s` past its last line).
pub open spec fn line_start(s: Seq<char>, k: nat) -> int
    decreases k,
{
    if k == 0 {
        0
    } else {
        next_line_start(s, line_start(s, (k - 1) as nat))
    }
}

/// Line starts lie within the text.
pub proof fn lemma_line_start_bounds(s: Seq<char>, k: nat)
    ensures
        0 <= line_start(s, k) <= s.len(),
    decreases k,
{
    if k > 0 {
        lemma_line_start_bounds(s, (k - 1) as nat);
        lemma_line_end_bounds(s, line_start(s, (k - 1) as nat));
    }
}

/// The lines from the start of line `k` on are the lines of `s` after the
/// first `k`.
pub proof fn lemma_lines_from_start(s: Seq<char>, k: nat)
    requires
        k <= lines(s).len(),
    ensures
        lines_from(s, line_start(s, k)) == lines(s).skip(k as int),
    decreases k,
{
    if k == 0 {
        assert(lines(s).skip(0) =~= lines(s));
    } else {
        let k1 = (k - 1) as nat;
        lemma_lines_from_start(s, k1);
        lemma_line_start_bounds(s, k1);
        let q = line_start(s, k1);
        assert(lines(s).skip(k1 as int).len() > 0);
        if q >= s.len() {
            assert(lines_from(s, q) =~= seq![]);
        }
        lemma_line_end_bounds(s, q);
        let e = line_end(s, q);
        if e >= s.len() {
            assert(lines_from(s, s.len() as int) =~= seq![]);
            assert(lines(s).skip(k as int) =~= seq![]);
        } else {
            assert(lines_from(s, q) == seq![strip_cr(s.subrange(q, e))] + lines_from(s, e + 1));
            assert(lines(s).skip(k as int) =~= lines(s).skip(k1 as int).drop_first());
            assert(lines_from(s, e + 1) =~= (seq![strip_cr(s.subrange(q, e))] + lines_from(
                s,
                e + 1,
            )).drop_first());
        }
    }
}

/// A line that starts within the text, before its last line ends, is there.
pub proof fn lemma_line_start_inside(s: Seq<char>, k: nat)
    requires
        k < lines(s).len(),
    ensures
        line_start(s, k) < s.len(),
        line_start(s, k) > 0 ==> s[line_start(s, k) - 1] == '\n',
        lines(s)[k as int] == if line_end(s, line_start(s, k)) < s.len() {
            strip_cr(s.subrange(line_start(s, k), line_end(s, line_start(s, k))))
        } else {
            s.subrange(line_start(s, k), s.len() as int)
        },
{
    lemma_lines_from_start(s, k);
    lemma_line_start_bounds(s, k);
    let q = line_start(s, k);
    if q >= s.len() {
        assert(lines_from(s, q) =~= seq![]);
        assert(lines(s).skip(k as int).len() > 0);
    }
    lemma_line_end_bounds(s, q);
    assert(lines(s)[k as int] == lines(s).skip(k as int)[0]);
    if k > 0 {
        let k1 = (k - 1) as nat;
        lemma_line_start_bounds(s, k1);
        lemma_line_end_bounds(s, line_start(s, k1));
    }
}

/// The start of line `lines(s).len()` is the end of the text.
pub proof fn lemma_line_start_end(s: Seq<char>)
    ensures
        line_start(s, lines(s).len()) == s.len(),
{
    lemma_lines_from_start(s, lines(s).len());
    lemma_line_start_bounds(s, lines(s).len());
    let q = line_start(s, lines(s).len());
    if q < s.len() {
        lemma_line_end_bounds(s, q);
        assert(lines_from(s, q).len() > 0);
        assert(lines(s).skip(lines(s).len() as int) =~= seq![]);
    }
}

/// The text before line `k` holds exactly the first `k` lines and ends
/// with a line feed or is empty.
pub proof fn lemma_lines_take_start(s: Seq<char>, k: nat)
    requires
        k < lines(s).len(),
    ensures
        lines(s.take(line_start(s, k))) == lines(s).take(k as int),
        ends_with_newline_or_empty(s.take(line_start(s, k))),
{
    lemma_line_start_inside(s, k);
    lemma_line_start_bounds(s, k);
    let p = line_start(s, k);
    let a = s.take(p);
    let rest = s.skip(p);
    assert(a + rest =~= s);
    if p > 0 {
        assert(a.last() == s[p - 1]);
    }
    lemma_lines_concat(a, rest);
    lemma_lines_shift(a, rest, 0);
    lemma_lines_from_start(s, k);
    assert(lines_from(rest, 0) == lines(rest));
    assert(lines(s) == lines(a) + lines(s).skip(k as int));
    assert(lines(a).len() == k);
    assert(lines(a) =~= lines(s).take(k as int)) by {
        assert forall|i: int| 0 <= i < k implies lines(a)[i] == lines(s).take(k as int)[i] by {
            assert(lines(s)[i] == (lines(a) + lines(s).skip(k as int))[i]);
        }
    }
}

/// Line starts in `a + b`, up to the lines of `a`, are those in `a` when `a`
/// ends with a line feed; past the lines of `a` comes its end.
pub proof fn lemma_line_start_prefix(a: Seq<char>, b: Seq<char>, k: nat)
    requires
        ends_with_newline_or_empty(a),
        k <= lines(a).len(),
    ensures
        line_start(a + b, k) == line_start(a, k),
    decreases k,
{
    if k > 0 {
        let k1 = (k - 1) as nat;
        lemma_line_start_prefix(a, b, k1);
        lemma_line_start_inside(a, k1);
        lemma_line_start_bounds(a, k1);
        let q = line_start(a, k1);
        lemma_line_end_bounds(a, q);
        let e = line_end(a, q);
        if e >= a.len() {
            assert(a[a.len() - 1] == '\n');
            assert(false);
        }
        let s = a + b;
        assert forall|j: int| q <= j < e implies s[j] != '\n' by {
            assert(s[j] == a[j]);
        }
        lemma_line_end_unique(s, q, e);
    }
}

} // verus!
