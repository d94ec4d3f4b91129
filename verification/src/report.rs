//! Where in a source text an error stands, and how it is shown.

use crate::text::{
    chars_of, dec, group_glue, lemma_offset_monotone, lemma_offset_total, offset, owned, push_dec,
    width, width_of,
};
use crate::typeck::Diag;
use vstd::prelude::*;

verus! {

/// A place in a text: its line and column, both from 1 on, and the line's text.
/// The column counts bytes.
#[derive(Debug, Clone, PartialEq, Eq)]
pub struct Located {
    pub line: usize,
    pub column: usize,
    pub text: String,
}

/// How many characters start before byte `at`, from character `i` on.
pub open spec fn reached(s: Seq<char>, at: int, i: int) -> int
    decreases s.len() - i,
{
    if 0 <= i < s.len() && offset(s, i) < at {
        reached(s, at, i + 1)
    } else {
        i
    }
}

/// How many of the first `n` characters end a line.
pub open spec fn newlines(s: Seq<char>, n: int) -> nat
    decreases n,
{
    if n <= 0 {
        0
    } else {
        newlines(s, n - 1) + (if s[n - 1] == '\n' {
            1nat
        } else {
            0nat
        })
    }
}

/// Where the line of character `n` starts: behind the last end of a line
/// before it.
pub open spec fn line_start(s: Seq<char>, n: int) -> int
    decreases n,
{
    if n <= 0 {
        0
    } else if s[n - 1] == '\n' {
        n
    } else {
        line_start(s, n - 1)
    }
}

/// Where the line ends that character `i` is on.
pub open spec fn line_end(s: Seq<char>, i: int) -> int
    decreases s.len() - i,
{
    if 0 <= i < s.len() && s[i] != '\n' {
        line_end(s, i + 1)
    } else {
        i
    }
}

/// The line that starts at character `start`, without what ends it: a line feed
/// and a carriage return before it.
pub open spec fn line_text(s: Seq<char>, start: int) -> Seq<char> {
    let end = line_end(s, start);
    if end < s.len() && end > start && s[end - 1] == '\r' {
        s.subrange(start, end - 1)
    } else {
        s.subrange(start, end)
    }
}

/// The line of byte `at` of a text.
pub open spec fn line_of(s: Seq<char>, at: int) -> nat {
    newlines(s, reached(s, at, 0)) + 1
}

/// Where the line of byte `at` starts.
pub open spec fn start_of(s: Seq<char>, at: int) -> int {
    line_start(s, reached(s, at, 0))
}

/// The column of byte `at` of a text.
pub open spec fn column_of(s: Seq<char>, at: int) -> int {
    at - offset(s, start_of(s, at)) + 1
}

/// That many spaces.
pub open spec fn spaces(n: nat) -> Seq<char> {
    Seq::new(n, |i: int| ' ')
}

/// How an error at byte `at` is shown: the place, the message, the line, and a
/// mark below it.
pub open spec fn report_text(
    path: Seq<char>,
    s: Seq<char>,
    at: int,
    message: Seq<char>,
) -> Seq<char> {
    let column = column_of(s, at);
    path + ":"@ + dec(line_of(s, at)) + ":"@ + dec(column as nat) + ": error: "@ + message
        + "\n    "@ + line_text(s, start_of(s, at)) + "\n    "@ + spaces((column - 1) as nat)
        + "^\n"@
}

/// Find the place of byte `at` of a text. A position past the end is on the
/// last line.
pub fn locate(src: &str, at: usize) -> (r: Located)
    requires
        at < usize::MAX,
    ensures
        r.line == line_of(src@, at as int),
        r.column == column_of(src@, at as int),
        r.column >= 1,
        r.text@ == line_text(src@, start_of(src@, at as int)),
{
    let chars = chars_of(src);
    let ghost s = src@;
    let bytes: &[u8] = src.as_bytes();
    let total: usize = bytes.len();
    proof {
        lemma_offset_total(s);
        lemma_offset_monotone(s, 0, s.len() as int);
    }
    let mut i: usize = 0;
    let mut pos: usize = 0;
    let mut line: usize = 1;
    let mut start: usize = 0;
    let mut start_pos: usize = 0;
    while i < chars.len() && pos < at
        invariant
            chars@ == s,
            0 <= i <= s.len(),
            s.len() <= total,
            total == offset(s, s.len() as int),
            at < usize::MAX,
            pos == offset(s, i as int),
            reached(s, at as int, 0) == reached(s, at as int, i as int),
            line == newlines(s, i as int) + 1,
            line <= i + 1,
            start == line_start(s, i as int),
            start <= i,
            start_pos == offset(s, start as int),
            start_pos <= at,
        decreases chars@.len() - i,
    {
        let c = chars[i];
        proof {
            lemma_offset_monotone(s, i as int, s.len() as int);
            lemma_offset_monotone(s, i + 1, s.len() as int);
        }
        pos = pos + width_of(c);
        i += 1;
        if c == '\n' {
            proof {
                assert(width('\n') == 1);
            }
            line += 1;
            start = i;
            start_pos = pos;
        }
    }
    let mut end: usize = start;
    while end < chars.len() && chars[end] != '\n'
        invariant
            chars@ == s,
            start <= end <= s.len(),
            line_end(s, start as int) == line_end(s, end as int),
        decreases chars@.len() - end,
    {
        end += 1;
    }
    let stop: usize = if end < chars.len() && end > start && chars[end - 1] == '\r' {
        end - 1
    } else {
        end
    };
    let mut text = String::new();
    let mut k: usize = start;
    while k < stop
        invariant
            chars@ == s,
            start <= k <= stop <= s.len(),
            text@ == s.subrange(start as int, k as int),
        decreases stop - k,
    {
        text.push(chars[k]);
        assert(s.subrange(start as int, k as int).push(s[k as int]) =~= s.subrange(
            start as int,
            k + 1,
        ));
        k += 1;
    }
    Located { line, column: at - start_pos + 1, text }
}

/// `path:line:col: error: message`, the offending line and a mark below it.
pub fn report(path: &str, src: &str, at: usize, message: &str) -> (r: String)
    requires
        at < usize::MAX,
    ensures
        r@ == report_text(path@, src@, at as int, message@),
{
    let l = locate(src, at);
    let mut out = owned(path);
    out.append(":");
    push_dec(&mut out, l.line as u64);
    out.append(":");
    push_dec(&mut out, l.column as u64);
    out.append(": error: ");
    out.append(message);
    out.append("\n    ");
    out.append(&l.text);
    out.append("\n    ");
    let ghost before = out@;
    let mut i: usize = 1;
    proof {
        assert(before + spaces(0) =~= before);
    }
    while i < l.column
        invariant
            1 <= i <= l.column,
            out@ == before + spaces((i - 1) as nat),
        decreases l.column - i,
    {
        out.push(' ');
        assert((before + spaces((i - 1) as nat)).push(' ') =~= before + spaces(i as nat));
        i += 1;
    }
    out.append("^\n");
    out
}

/// What is shown of a help.
pub open spec fn help_text(help: Option<Seq<char>>) -> Seq<char> {
    match help {
        Some(h) => "    help: "@ + h + "\n"@,
        None => Seq::empty(),
    }
}

/// A diagnostic of the type checker, with its help if it has one.
pub fn report_diag(path: &str, src: &str, d: &Diag) -> (r: String)
    requires
        d.span.start < usize::MAX,
    ensures
        r@ == report_text(path@, src@, d.span.start as int, d.message@) + help_text(d@.help),
{
    let mut out = report(path, src, d.span.start, d.message.as_str());
    if let Some(h) = &d.help {
        out.append("    help: ");
        out.append(h);
        out.append("\n");
    }
    proof {
        broadcast use group_glue;

    }
    out
}

} // verus!
