//! Lines and columns, by the lines of a text.

use crate::report::{
    column_of, line_end, line_of, line_start, line_text, newlines, reached, report_text, spaces,
    start_of,
};
use crate::text::{dec, lemma_offset_monotone, lemma_offset_total, offset};
use vstd::prelude::*;
use vstd::utf8::encode_utf8;

verus! {

/// How many line feeds a text has.
pub open spec fn feeds(s: Seq<char>) -> nat {
    s.filter(|c: char| c == '\n').len()
}

/// A text with a line in it: what stands before the line, the line and what
/// follows.
pub open spec fn is_line(before: Seq<char>, line: Seq<char>, after: Seq<char>) -> bool {
    &&& before.len() == 0 || before.last() == '\n'
    &&& after.len() == 0 || after[0] == '\n'
    &&& forall|i: int| 0 <= i < line.len() ==> #[trigger] line[i] != '\n'
}

proof fn lemma_feeds(s: Seq<char>)
    ensures
        newlines(s, s.len() as int) == feeds(s),
    decreases s.len(),
{
    reveal(Seq::filter);
    if s.len() > 0 {
        lemma_feeds(s.drop_last());
        lemma_newlines_prefix(s, s.drop_last(), s.len() - 1);
    }
}

proof fn lemma_newlines_prefix(s: Seq<char>, t: Seq<char>, n: int)
    requires
        0 <= n <= s.len(),
        n <= t.len(),
        forall|i: int| 0 <= i < n ==> #[trigger] s[i] == t[i],
    ensures
        newlines(s, n) == newlines(t, n),
    decreases n,
{
    if n > 0 {
        lemma_newlines_prefix(s, t, n - 1);
        assert(s[n - 1] == t[n - 1]);
    }
}

proof fn lemma_offset_prefix(s: Seq<char>, t: Seq<char>, n: int)
    requires
        0 <= n <= s.len(),
        n <= t.len(),
        forall|i: int| 0 <= i < n ==> #[trigger] s[i] == t[i],
    ensures
        offset(s, n) == offset(t, n),
    decreases n,
{
    if n > 0 {
        lemma_offset_prefix(s, t, n - 1);
        assert(s[n - 1] == t[n - 1]);
    }
}

proof fn lemma_reached(s: Seq<char>, at: int, i: int, low: int, high: int)
    requires
        0 <= i <= low <= high <= s.len(),
        offset(s, low) <= at <= offset(s, high),
    ensures
        low <= reached(s, at, i) <= high,
    decreases s.len() - i,
{
    if i < s.len() {
        if i < low {
            lemma_offset_monotone(s, i, low);
            lemma_reached(s, at, i + 1, low, high);
        } else if i < high {
            if offset(s, i) < at {
                lemma_reached_from(s, at, i + 1, high);
            }
        }
    }
}

proof fn lemma_reached_from(s: Seq<char>, at: int, i: int, high: int)
    requires
        0 <= i <= high <= s.len(),
        at <= offset(s, high),
    ensures
        i <= reached(s, at, i) <= high,
    decreases high - i,
{
    if i < high {
        if offset(s, i) < at {
            lemma_reached_from(s, at, i + 1, high);
        }
    }
}

proof fn lemma_line_start(s: Seq<char>, b: int, n: int)
    requires
        0 <= b <= n <= s.len(),
        b == 0 || s[b - 1] == '\n',
        forall|i: int| b <= i < n ==> #[trigger] s[i] != '\n',
    ensures
        line_start(s, n) == b,
        newlines(s, n) == newlines(s, b),
    decreases n,
{
    if n > b {
        lemma_line_start(s, b, n - 1);
    }
}

proof fn lemma_line_end(s: Seq<char>, i: int, e: int)
    requires
        0 <= i <= e <= s.len(),
        e == s.len() || s[e] == '\n',
        forall|j: int| i <= j < e ==> #[trigger] s[j] != '\n',
    ensures
        line_end(s, i) == e,
    decreases e - i,
{
    if i < e {
        lemma_line_end(s, i + 1, e);
    }
}

/// A byte of a line, or the end of it, is on that line: its number is one more
/// than the line feeds before it, the column counts the bytes from the start of
/// the line, from 1 on, and the line that is shown is the line, without a carriage
/// return that ends it.
pub proof fn lemma_bytes_are_on_their_lines(
    before: Seq<char>,
    line: Seq<char>,
    after: Seq<char>,
    at: int,
)
    requires
        is_line(before, line, after),
        encode_utf8(before).len() <= at <= encode_utf8(before).len() + encode_utf8(line).len(),
    ensures
        ({
            let s = before + line + after;
            &&& line_of(s, at) == feeds(before) + 1
            &&& column_of(s, at) == at - encode_utf8(before).len() + 1
            &&& line_text(s, start_of(s, at)) == if after.len() > 0 && line.len() > 0
                && line.last() == '\r' {
                line.drop_last()
            } else {
                line
            }
        }),
{
    let s = before + line + after;
    let b = before.len() as int;
    let e = b + line.len();
    let first = before + line;
    assert forall|i: int| 0 <= i < b implies #[trigger] s[i] == before[i] by {}
    assert forall|i: int| 0 <= i < e implies #[trigger] s[i] == first[i] by {}
    lemma_offset_total(before);
    lemma_offset_prefix(s, before, b);
    lemma_offset_total(first);
    lemma_offset_prefix(s, first, e);
    lemma_concat_bytes(before, line);
    lemma_reached(s, at, 0, b, e);
    let r = reached(s, at, 0);
    assert forall|i: int| b <= i < e implies #[trigger] s[i] != '\n' by {
        assert(s[i] == line[i - b]);
    }
    lemma_line_start(s, b, r);
    lemma_newlines_prefix(s, before, b);
    lemma_feeds(before);
    lemma_line_end(s, b, e);
    assert(s.subrange(b, e) =~= line);
    if line.len() > 0 {
        assert(s[e - 1] == line.last());
        assert(s.subrange(b, e - 1) =~= line.drop_last());
    }
}

/// A report names the line and the column, shows the line, and marks the byte below
/// it: as far from the margin as the byte is from the start of the line.
pub proof fn lemma_reports_mark_the_byte(
    path: Seq<char>,
    before: Seq<char>,
    line: Seq<char>,
    after: Seq<char>,
    k: nat,
    message: Seq<char>,
)
    requires
        is_line(before, line, after),
        k <= encode_utf8(line).len(),
        after.len() > 0 && line.len() > 0 ==> line.last() != '\r',
    ensures
        report_text(
            path,
            before + line + after,
            (encode_utf8(before).len() + k) as int,
            message,
        ) == path + ":"@ + dec(feeds(before) + 1) + ":"@ + dec(k + 1) + ": error: "@ + message
            + "\n    "@ + line + "\n    "@ + Seq::new(k, |i: int| ' ') + "^\n"@,
{
    let at = encode_utf8(before).len() + k;
    lemma_bytes_are_on_their_lines(before, line, after, at as int);
    assert(spaces(k) =~= Seq::new(k, |i: int| ' '));
}

/// The bytes of two texts are those of the one and then those of the other.
proof fn lemma_concat_bytes(a: Seq<char>, b: Seq<char>)
    ensures
        encode_utf8(a + b).len() == encode_utf8(a).len() + encode_utf8(b).len(),
{
    let s = a + b;
    let n = a.len() as int;
    lemma_offset_total(s);
    lemma_offset_total(a);
    lemma_offset_total(b);
    assert forall|i: int| 0 <= i < n implies #[trigger] s[i] == a[i] by {}
    lemma_offset_prefix(s, a, n);
    lemma_offset_suffix(a, b, b.len() as int);
}

proof fn lemma_offset_suffix(a: Seq<char>, b: Seq<char>, n: int)
    requires
        0 <= n <= b.len(),
    ensures
        offset(a + b, a.len() + n) == offset(a + b, a.len() as int) + offset(b, n),
    decreases n,
{
    if n > 0 {
        lemma_offset_suffix(a, b, n - 1);
        assert((a + b)[a.len() + n - 1] == b[n - 1]);
    }
}

} // verus!
