//! The process table of the machine: reading the lines in which `ps`
//! reports a parent and a process each.

use crate::error::{plain, Error, InnerError, InnerErrorView};
use crate::text::{chars_of, parse_u32, parsed_u32, string_of};
use vstd::prelude::*;

verus! {

/// Which processes to take from the table: the children of `ppid`, or
/// all where none is given.
#[derive(Clone, Copy, Debug, PartialEq, Eq)]
pub struct PsArgs {
    pub ppid: Option<u32>,
}

/// One line of the table: a process and its parent.
#[derive(Clone, Copy, Debug, PartialEq, Eq)]
pub struct PsOutput {
    pub ppid: u32,
    pub pid: u32,
}

/// Whether a character has the property White_Space of Unicode: the
/// controls from tab to carriage return, the space, next line, the
/// no-break space, the Ogham space mark, the spaces from en quad to hair
/// space, the line and the paragraph separator, the narrow no-break space,
/// the medium mathematical space and the ideographic space.
pub open spec fn is_white_space(c: char) -> bool {
    ('\u{9}' <= c && c <= '\u{d}') || c == ' ' || c == '\u{85}' || c == '\u{a0}' || c
        == '\u{1680}' || ('\u{2000}' <= c && c <= '\u{200a}') || c == '\u{2028}' || c
        == '\u{2029}' || c == '\u{202f}' || c == '\u{205f}' || c == '\u{3000}'
}

/// `char::is_whitespace` tells whether the character has the property
/// White_Space.
pub assume_specification[ char::is_whitespace ](c: char) -> (r: bool)
    ensures
        r == is_white_space(c),
;

/// How many white space characters stand in a row from `i` on.
pub open spec fn space_run(s: Seq<char>, i: int) -> nat
    decreases s.len() - i,
{
    if 0 <= i < s.len() && is_white_space(s[i]) {
        1 + space_run(s, i + 1)
    } else {
        0
    }
}

/// How many characters that are no white space stand in a row from `i`
/// on.
pub open spec fn word_run(s: Seq<char>, i: int) -> nat
    decreases s.len() - i,
{
    if 0 <= i < s.len() && !is_white_space(s[i]) {
        1 + word_run(s, i + 1)
    } else {
        0
    }
}

/// Where the first word at or after `i` starts.
pub open spec fn word_start(s: Seq<char>, i: int) -> int {
    i + space_run(s, i)
}

/// Where the word that starts at `i` ends.
pub open spec fn word_end(s: Seq<char>, i: int) -> int {
    i + word_run(s, i)
}

/// What a line of the table holds: its first two words, read as the
/// parent and the process. A word that is missing is the error `Parse`,
/// one that is no number the error `ParseInt` with the word.
pub open spec fn parsed_line(s: Seq<char>) -> Result<(u32, u32), InnerErrorView> {
    let a = word_start(s, 0);
    let b = word_end(s, a);
    let c = word_start(s, b);
    let d = word_end(s, c);
    if a >= s.len() {
        Err(InnerErrorView::Parse("Missing ppid part from ps output"@))
    } else if parsed_u32(s.subrange(a, b)) is None {
        Err(InnerErrorView::ParseInt(s.subrange(a, b)))
    } else if c >= s.len() {
        Err(InnerErrorView::Parse("Missing pid part from ps output"@))
    } else if parsed_u32(s.subrange(c, d)) is None {
        Err(InnerErrorView::ParseInt(s.subrange(c, d)))
    } else {
        Ok((parsed_u32(s.subrange(a, b))->0, parsed_u32(s.subrange(c, d))->0))
    }
}

/// The processes that the first `n` lines report and that `ppid` admits,
/// each once, in the order of the lines; or the error of the first line
/// that cannot be read.
pub open spec fn reported(lines: Seq<Seq<char>>, ppid: Option<u32>, n: int) -> Result<
    Seq<u32>,
    InnerErrorView,
>
    decreases n,
{
    if n <= 0 || n > lines.len() {
        Ok(Seq::empty())
    } else {
        match reported(lines, ppid, n - 1) {
            Err(e) => Err(e),
            Ok(pids) => match parsed_line(lines[n - 1]) {
                Err(e) => Err(e),
                Ok(line) => if (ppid matches Some(p) && line.0 != p) || pids.contains(line.1) {
                    Ok(pids)
                } else {
                    Ok(pids.push(line.1))
                },
            },
        }
    }
}

fn skip_spaces(s: &Vec<char>, i: usize) -> (r: usize)
    requires
        i <= s.len(),
    ensures
        r == word_start(s@, i as int),
        i <= r <= s.len(),
{
    let mut k: usize = i;
    while k < s.len() && s[k].is_whitespace()
        invariant
            i <= k <= s.len(),
            word_start(s@, i as int) == word_start(s@, k as int),
        decreases s.len() - k,
    {
        k += 1;
    }
    k
}

fn skip_word(s: &Vec<char>, i: usize) -> (r: usize)
    requires
        i <= s.len(),
    ensures
        r == word_end(s@, i as int),
        i <= r <= s.len(),
{
    let mut k: usize = i;
    while k < s.len() && !s[k].is_whitespace()
        invariant
            i <= k <= s.len(),
            word_end(s@, i as int) == word_end(s@, k as int),
        decreases s.len() - k,
    {
        k += 1;
    }
    k
}

/// Whether `pid` is among `pids`.
fn holds(pids: &Vec<u32>, pid: u32) -> (r: bool)
    ensures
        r == pids@.contains(pid),
{
    let mut i: usize = 0;
    while i < pids.len()
        invariant
            0 <= i <= pids.len(),
            forall|j: int| 0 <= j < i ==> pids@[j] != pid,
        decreases pids.len() - i,
    {
        if pids[i] == pid {
            return true;
        }
        i += 1;
    }
    false
}

impl PsOutput {
    /// Reads a line of the table.
    pub fn from_str(s: &str) -> (r: Result<PsOutput, Error>)
        ensures
            match parsed_line(s@) {
                Ok(line) => r is Ok && r->Ok_0.ppid == line.0 && r->Ok_0.pid == line.1,
                Err(e) => r is Err && r->Err_0@ == plain(e),
            },
    {
        let cs = chars_of(s);
        let a = skip_spaces(&cs, 0);
        let b = skip_word(&cs, a);
        let c = skip_spaces(&cs, b);
        let d = skip_word(&cs, c);
        if a >= cs.len() {
            return Err(
                Error::new(InnerError::Parse("Missing ppid part from ps output".to_owned())),
            );
        }
        let first = string_of(&cs, a, b);
        let ppid = match parse_u32(first.as_str()) {
            Some(v) => v,
            None => {
                return Err(Error::new(InnerError::ParseInt(first)));
            },
        };
        if c >= cs.len() {
            return Err(Error::new(InnerError::Parse("Missing pid part from ps output".to_owned())));
        }
        let second = string_of(&cs, c, d);
        let pid = match parse_u32(second.as_str()) {
            Some(v) => v,
            None => {
                return Err(Error::new(InnerError::ParseInt(second)));
            },
        };
        Ok(PsOutput { ppid, pid })
    }
}

/// The processes that the lines of the table report: the children of
/// `args.ppid`, or all where no parent is given; each once.
pub fn ps(args: PsArgs, lines: &Vec<String>) -> (r: Result<Vec<u32>, Error>)
    ensures
        match reported(crate::text::strs(lines@), args.ppid, lines@.len() as int) {
            Ok(pids) => r is Ok && r->Ok_0@ == pids,
            Err(e) => r is Err && r->Err_0@ == plain(e),
        },
{
    let ghost all = crate::text::strs(lines@);
    let mut pids: Vec<u32> = Vec::new();
    let n = lines.len();
    let mut i: usize = 0;
    while i < n
        invariant
            n == lines.len(),
            all == crate::text::strs(lines@),
            0 <= i <= n,
            reported(all, args.ppid, i as int) == Ok::<Seq<u32>, InnerErrorView>(pids@),
        decreases n - i,
    {
        assert(all[i as int] == lines@[i as int]@);
        let line = match PsOutput::from_str(lines[i].as_str()) {
            Ok(line) => line,
            Err(e) => {
                proof {
                    lemma_reported_error(all, args.ppid, i as int + 1, n as int);
                }
                return Err(e);
            },
        };
        let wanted = match args.ppid {
            Some(p) => line.ppid == p,
            None => true,
        };
        if wanted && !holds(&pids, line.pid) {
            pids.push(line.pid);
        }
        i += 1;
    }
    Ok(pids)
}

/// An error among the first lines is the error of the whole table.
proof fn lemma_reported_error(lines: Seq<Seq<char>>, ppid: Option<u32>, n: int, m: int)
    requires
        0 <= n <= m <= lines.len(),
        reported(lines, ppid, n) is Err,
    ensures
        reported(lines, ppid, m) == reported(lines, ppid, n),
    decreases m - n,
{
    if n < m {
        lemma_reported_error(lines, ppid, n, m - 1);
    }
}

} // verus!
