//! What the `info` command reports about a repository.
use vstd::prelude::*;
use crate::base_repository::{BaseModel, BaseRepository};
use crate::exclude::string_of_str;
use crate::strlist::views;
use crate::text::push_str;

verus! {

/// The decimal digit for `d` (`0..=9`).
pub open spec fn digit_char(d: nat) -> char {
    if d == 0 {
        '0'
    } else if d == 1 {
        '1'
    } else if d == 2 {
        '2'
    } else if d == 3 {
        '3'
    } else if d == 4 {
        '4'
    } else if d == 5 {
        '5'
    } else if d == 6 {
        '6'
    } else if d == 7 {
        '7'
    } else if d == 8 {
        '8'
    } else {
        '9'
    }
}

/// The decimal representation of `n`, without leading zeros.
pub open spec fn decimal(n: nat) -> Seq<char>
    decreases n,
{
    if n < 10 {
        seq![digit_char(n)]
    } else {
        decimal(n / 10).push(digit_char(n % 10))
    }
}

fn digit(d: usize) -> (c: char)
    requires
        d < 10,
    ensures
        c == digit_char(d as nat),
{
    match d {
        0 => '0',
        1 => '1',
        2 => '2',
        3 => '3',
        4 => '4',
        5 => '5',
        6 => '6',
        7 => '7',
        8 => '8',
        _ => '9',
    }
}

/// The decimal representation of `n` (see [`decimal`]).
pub fn decimal_string(n: usize) -> (s: String)
    ensures
        s@ == decimal(n as nat),
    decreases n,
{
    if n < 10 {
        let mut s = String::new();
        s.push(digit(n));
        assert(s@ =~= seq![digit_char(n as nat)]);
        s
    } else {
        let mut s = decimal_string(n / 10);
        s.push(digit(n % 10));
        s
    }
}

/// Each item on a line of its own, indented by two spaces.
pub open spec fn indented(items: Seq<Seq<char>>) -> Seq<char>
    decreases items.len(),
{
    if items.len() == 0 {
        seq![]
    } else {
        indented(items.drop_last()) + "  "@ + items.last() + seq!['\n']
    }
}

/// A titled list: `title (count):` and then the items, indented.
pub open spec fn section(title: Seq<char>, items: Seq<Seq<char>>) -> Seq<char> {
    title + " ("@ + decimal(items.len()) + "):\n"@ + indented(items)
}

/// The human-readable report of `m`: only a message when the repository is
/// not initialized, otherwise its root, its exclude patterns, its tracked
/// files and its ignore patterns.
pub open spec fn info_report(m: BaseModel) -> Seq<char> {
    if !m.config.exists {
        "repository "@ + m.root + " is not initialized; run init first\n"@
    } else {
        "repository: "@ + m.root + seq!['\n'] + section("exclude patterns"@, m.exclude.patterns)
            + section("tracked files"@, m.config.managed_files) + section(
            "ignore patterns"@,
            m.overlay.config.ignore_patterns,
        )
    }
}

/// The data the `info` command reports, for machine-readable output.
pub struct InfoData {
    pub path: String,
    pub initialized: bool,
    pub exclude_patterns: Vec<String>,
    pub tracked_files: Vec<String>,
    pub ignore_patterns: Vec<String>,
}

fn push_section(out: &mut String, title: &str, items: &Vec<String>)
    ensures
        final(out)@ == old(out)@ + section(title@, views(items@)),
{
    push_str(out, title);
    push_str(out, " (");
    let n = decimal_string(items.len());
    push_str(out, n.as_str());
    push_str(out, "):\n");
    let ghost start = out@;
    let mut i: usize = 0;
    while i < items.len()
        invariant
            i <= items.len(),
            out@ == start + indented(views(items@).take(i as int)),
        decreases items.len() - i,
    {
        push_str(out, "  ");
        push_str(out, items[i].as_str());
        out.push('\n');
        proof {
            assert(views(items@).take(i + 1).drop_last() =~= views(items@).take(i as int));
            assert(views(items@).take(i + 1).last() == items@[i as int]@);
            assert(out@ =~= start + indented(views(items@).take(i + 1)));
        }
        i = i + 1;
    }
    assert(views(items@).take(items.len() as int) =~= views(items@));
    assert(out@ =~= old(out)@ + section(title@, views(items@)));
}

impl BaseRepository {
    /// The data the `info` command reports: the root, whether the repository
    /// is initialized, and, when it is, its exclude patterns, tracked files
    /// and ignore patterns (all empty otherwise).
    pub fn info(&self) -> (d: InfoData)
        ensures
            d.path@ == self@.root,
            d.initialized == self@.config.exists,
            views(d.exclude_patterns@) == (if self@.config.exists {
                self@.exclude.patterns
            } else {
                seq![]
            }),
            views(d.tracked_files@) == (if self@.config.exists {
                self@.config.managed_files
            } else {
                seq![]
            }),
            views(d.ignore_patterns@) == (if self@.config.exists {
                self@.overlay.config.ignore_patterns
            } else {
                seq![]
            }),
    {
        let initialized = self.is_initialized();
        if initialized {
            InfoData {
                path: string_of_str(self.root()),
                initialized,
                exclude_patterns: self.list_patterns().clone(),
                tracked_files: self.tracked_files().clone(),
                ignore_patterns: self.list_ignore_patterns().clone(),
            }
        } else {
            let d = InfoData {
                path: string_of_str(self.root()),
                initialized,
                exclude_patterns: Vec::new(),
                tracked_files: Vec::new(),
                ignore_patterns: Vec::new(),
            };
            assert(views(d.exclude_patterns@) =~= seq![]);
            assert(views(d.tracked_files@) =~= seq![]);
            assert(views(d.ignore_patterns@) =~= seq![]);
            d
        }
    }

    /// The human-readable report of the `info` command (see
    /// [`info_report`]).
    pub fn info_text(&self) -> (s: String)
        ensures
            s@ == info_report(self@),
    {
        if !self.is_initialized() {
            let mut out = string_of_str("repository ");
            push_str(&mut out, self.root());
            push_str(&mut out, " is not initialized; run init first\n");
            return out;
        }
        let mut out = string_of_str("repository: ");
        push_str(&mut out, self.root());
        out.push('\n');
        push_section(&mut out, "exclude patterns", self.list_patterns());
        push_section(&mut out, "tracked files", self.tracked_files());
        push_section(&mut out, "ignore patterns", self.list_ignore_patterns());
        out
    }
}

} // verus!
