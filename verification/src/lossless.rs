//! Nothing is lost in lexing: each token's text is that token and nothing else,
//! and what stands between the tokens is white space and comments.

use crate::lexer::{
    comment_end, lemma_comment_end, lemma_run_end, lemma_scan, lemma_step_moves, lex_from, pair_at,
    radix_at, run_end, scan, simple_escape, span_of, step, tokens_of, Class, Scan, Step,
};
use crate::relex::{fx, lemma_end, lemma_skip, lemma_token, lexes};
use crate::token::{Kind, Tok, TokenKind};
use vstd::prelude::*;

verus! {

// --------------------------------------------------------- a text that is cut

proof fn lemma_cut_run(src: Seq<char>, i: int, e: int, p: int, class: Class)
    requires
        0 <= i <= p <= e <= src.len(),
        run_end(src, p, class) <= e,
    ensures
        run_end(src.subrange(i, e), p - i, class) == run_end(src, p, class) - i,
    decreases e - p,
{
    let t = src.subrange(i, e);
    lemma_run_end(src, p, class);
    if p < e {
        assert(t[p - i] == src[p]);
        if crate::lexer::in_class(class, src[p]) {
            lemma_cut_run(src, i, e, p + 1, class);
        }
    }
}

proof fn lemma_cut_comment(src: Seq<char>, i: int, e: int, p: int, depth: nat)
    requires
        0 <= i <= p <= e <= src.len(),
        comment_end(src, p, depth) matches Some(j) && j <= e,
    ensures
        comment_end(src.subrange(i, e), p - i, depth) == Some(
            comment_end(src, p, depth)->0 - i,
        ),
    decreases e - p,
{
    let t = src.subrange(i, e);
    if depth > 0 {
        if pair_at(src, p, '/', '*') {
            lemma_comment_end(src, p + 2, depth + 1);
            assert(t[p - i] == src[p] && t[p - i + 1] == src[p + 1]);
            lemma_cut_comment(src, i, e, p + 2, depth + 1);
        } else if pair_at(src, p, '*', '/') {
            lemma_comment_end(src, p + 2, (depth - 1) as nat);
            assert(t[p - i] == src[p] && t[p - i + 1] == src[p + 1]);
            lemma_cut_comment(src, i, e, p + 2, (depth - 1) as nat);
        } else {
            lemma_comment_end(src, p + 1, depth);
            assert(t[p - i] == src[p]);
            if p + 1 < e {
                assert(t[p - i + 1] == src[p + 1]);
            }
            lemma_cut_comment(src, i, e, p + 1, depth);
        }
    }
}

proof fn lemma_cut_scan(src: Seq<char>, i: int, e: int, open: int, p: int, value: Seq<char>)
    requires
        0 <= i <= p <= e <= src.len(),
        scan(src, open, p, value) matches Scan::Done(_, j) && j <= e,
    ensures
        scan(src.subrange(i, e), open - i, p - i, value) == Scan::Done(
            scan(src, open, p, value)->Done_0,
            scan(src, open, p, value)->Done_1 - i,
        ),
    decreases e - p,
{
    let t = src.subrange(i, e);
    lemma_scan(src, open, p, value);
    assert(t[p - i] == src[p]);
    if src[p] == '"' {
    } else if src[p] != '\\' {
        lemma_scan(src, open, p + 1, value.push(src[p]));
        lemma_cut_scan(src, i, e, open, p + 1, value.push(src[p]));
    } else if src[p + 1] == 'x' {
        let c = (crate::lexer::digit_value(src[p + 2]) * 16 + crate::lexer::digit_value(
            src[p + 3],
        )) as char;
        lemma_scan(src, open, p + 4, value.push(c));
        assert(t[p - i + 1] == src[p + 1] && t[p - i + 2] == src[p + 2] && t[p - i + 3] == src[p
            + 3]);
        lemma_cut_scan(src, i, e, open, p + 4, value.push(c));
    } else {
        let c = simple_escape(src[p + 1])->0;
        lemma_scan(src, open, p + 2, value.push(c));
        assert(t[p - i + 1] == src[p + 1]);
        lemma_cut_scan(src, i, e, open, p + 2, value.push(c));
    }
}

/// A step that ends before `e` does not see what stands behind.
proof fn lemma_cut_step(src: Seq<char>, i: int, e: int)
    requires
        0 <= i < src.len(),
        i < e <= src.len(),
    ensures
        step(src, i) matches Step::Skip(j) ==> (j <= e ==> step(src.subrange(i, e), 0)
            == Step::Skip(j - i)),
        step(src, i) matches Step::Token(k, j) ==> (j <= e ==> step(src.subrange(i, e), 0)
            == Step::Token(k, j - i)),
{
    let t = src.subrange(i, e);
    lemma_step_moves(src, i);
    assert(t[0] == src[i]);
    if i + 1 < e {
        assert(t[1] == src[i + 1]);
    }
    if crate::lexer::is_space(src[i]) {
    } else if pair_at(src, i, '/', '/') {
        lemma_run_end(src, i, Class::Line);
        lemma_run_end(src, i + 1, Class::Line);
        if run_end(src, i, Class::Line) <= e {
            lemma_cut_run(src, i, e, i, Class::Line);
        }
    } else if pair_at(src, i, '/', '*') {
        lemma_comment_end(src, i + 2, 1);
        if comment_end(src, i + 2, 1) matches Some(j) && j <= e {
            lemma_cut_comment(src, i, e, i + 2, 1);
        }
    } else if crate::lexer::is_word_start(src[i]) {
        let j = run_end(src, i, Class::Word);
        if j <= e {
            lemma_cut_run(src, i, e, i, Class::Word);
            assert(t.subrange(0, j - i) =~= src.subrange(i, j));
        }
    } else if crate::lexer::is_dec_digit(src[i]) {
        lemma_cut_number(src, i, e);
    } else if src[i] == '"' {
        lemma_scan(src, i, i + 1, Seq::empty());
        if scan(src, i, i + 1, Seq::empty()) matches Scan::Done(_, j) && j <= e {
            lemma_cut_scan(src, i, e, i, i + 1, Seq::empty());
        }
    }
}

proof fn lemma_cut_number(src: Seq<char>, i: int, e: int)
    requires
        0 <= i < src.len(),
        i < e <= src.len(),
        crate::lexer::is_dec_digit(src[i]),
    ensures
        crate::lexer::number_step(src, i) matches Step::Token(k, j) ==> (j <= e
            ==> crate::lexer::number_step(src.subrange(i, e), 0) == Step::Token(k, j - i)),
{
    let t = src.subrange(i, e);
    let radix = radix_at(src, i);
    let start = if radix == 10 {
        i
    } else {
        i + 2
    };
    let j = run_end(src, start, Class::Digits(radix));
    lemma_run_end(src, start, Class::Digits(radix));
    assert(t[0] == src[i]);
    if i + 1 < e {
        assert(t[1] == src[i + 1]);
    }
    if j <= e && crate::lexer::number_step(src, i) is Token {
        assert(crate::lexer::has_digit(src.subrange(start, j)));
        assert(start < j);
        lemma_cut_run(src, i, e, start, Class::Digits(radix));
        assert(t.subrange(start - i, j - i) =~= src.subrange(start, j));
        if radix == 10 && i + 1 == e {
            assert(radix_at(t, 0) == 10);
        }
    }
}

// -------------------------------------------------------- tokens and the gaps

/// From `p` to `a` there is nothing but white space and comments.
spec fn skips(src: Seq<char>, p: int, a: int) -> bool
    decreases a - p,
{
    p == a || (step(src, p) matches Step::Skip(j) && p < j <= a && skips(src, j, a))
}

proof fn lemma_skips_on(src: Seq<char>, p: int, a: int, b: int)
    requires
        skips(src, p, a),
        step(src, a) == Step::Skip(b),
        p <= a < b,
    ensures
        skips(src, p, b),
    decreases a - p,
{
    if p != a {
        lemma_skips_on(src, step(src, p)->Skip_0, a, b);
    } else {
        assert(skips(src, b, b));
    }
}

proof fn lemma_gap(src: Seq<char>, p: int, a: int)
    requires
        0 <= p <= a <= src.len(),
        skips(src, p, a),
    ensures
        lexes(src.subrange(p, a)) == Some(fx(TokenKind::Eof)),
    decreases a - p,
{
    let t = src.subrange(p, a);
    if p == a {
        assert(t =~= Seq::empty());
        lemma_end();
    } else {
        let j = step(src, p)->Skip_0;
        lemma_gap(src, j, a);
        lemma_cut_step(src, p, a);
        assert(t =~= src.subrange(p, j) + src.subrange(j, a));
        lemma_skip(src.subrange(p, j), src.subrange(j, a));
    }
}

proof fn lemma_alone(src: Seq<char>, i: int, j: int, k: Kind)
    requires
        0 <= i < j <= src.len(),
        step(src, i) == Step::Token(k, j),
    ensures
        lexes(src.subrange(i, j)) == Some(seq![k] + fx(TokenKind::Eof)),
{
    let t = src.subrange(i, j);
    lemma_cut_step(src, i, j);
    assert(t + Seq::<char>::empty() =~= t);
    lemma_token(t, Seq::empty(), k);
    lemma_end();
}

/// Where the tokens of a text stand from position `i` on, the end of input
/// among them.
pub open spec fn places(src: Seq<char>, i: int) -> Seq<(int, int)>
    decreases src.len() - i,
{
    if i >= src.len() {
        seq![(src.len() as int, src.len() as int)]
    } else {
        match step(src, i) {
            Step::Skip(j) => if i < j <= src.len() {
                places(src, j)
            } else {
                Seq::empty()
            },
            Step::Token(_, j) => if i < j <= src.len() {
                seq![(i, j)] + places(src, j)
            } else {
                Seq::empty()
            },
            Step::Fail(..) => Seq::empty(),
        }
    }
}

/// Where the text in front of place number `n` starts: behind the place before.
pub open spec fn gap_start(from: int, at: Seq<(int, int)>, n: int) -> int {
    if n <= 0 {
        from
    } else {
        at[n - 1].1
    }
}

/// The tokens stand at their places, each lexes alone to itself, and what is
/// in front of each lexes to nothing.
pub open spec fn lossless(
    src: Seq<char>,
    from: int,
    tokens: Seq<Tok>,
    at: Seq<(int, int)>,
) -> bool {
    &&& tokens.len() == at.len()
    &&& forall|n: int|
        0 <= n < at.len() ==> {
            let t = tokens[n];
            let (start, end) = #[trigger] at[n];
            &&& gap_start(from, at, n) <= start <= end <= src.len()
            &&& t.span == span_of(src, start, end)
            &&& lexes(src.subrange(gap_start(from, at, n), start)) == Some(fx(TokenKind::Eof))
            &&& n < at.len() - 1 ==> lexes(src.subrange(start, end)) == Some(
                seq![t.kind] + fx(TokenKind::Eof),
            )
        }
}

proof fn lemma_lossless_from(src: Seq<char>, from: int, i: int)
    requires
        0 <= from <= i <= src.len(),
        skips(src, from, i),
        lex_from(src, i) is Ok,
    ensures
        lossless(src, from, lex_from(src, i)->Ok_0, places(src, i)),
        places(src, i).len() > 0,
    decreases src.len() - i,
{
    let tokens = lex_from(src, i)->Ok_0;
    let at = places(src, i);
    if i >= src.len() {
        lemma_gap(src, from, i);
    } else {
        lemma_step_moves(src, i);
        match step(src, i) {
            Step::Skip(j) => {
                lemma_skips_on(src, from, i, j);
                lemma_lossless_from(src, from, j);
            },
            Step::Token(k, j) => {
                assert(skips(src, j, j));
                lemma_lossless_from(src, j, j);
                lemma_gap(src, from, i);
                lemma_alone(src, i, j, k);
                let rest = lex_from(src, j)->Ok_0;
                let later = places(src, j);
                let first = Tok { kind: k, span: span_of(src, i, j) };
                assert(tokens == seq![first] + rest);
                assert(at == seq![(i, j)] + later);
                assert forall|n: int| 0 <= n < at.len() implies {
                    let t = tokens[n];
                    let (start, end) = #[trigger] at[n];
                    &&& gap_start(from, at, n) <= start <= end <= src.len()
                    &&& t.span == span_of(src, start, end)
                    &&& lexes(src.subrange(gap_start(from, at, n), start)) == Some(
                        fx(TokenKind::Eof),
                    )
                    &&& n < at.len() - 1 ==> lexes(src.subrange(start, end)) == Some(
                        seq![t.kind] + fx(TokenKind::Eof),
                    )
                } by {
                    if n > 0 {
                        assert(at[n] == later[n - 1]);
                        assert(tokens[n] == rest[n - 1]);
                        assert(gap_start(from, at, n) == gap_start(j, later, n - 1)) by {
                            if n > 1 {
                                assert(at[n - 1] == later[n - 2]);
                            }
                        }
                    } else {
                        assert(at[0] == (i, j));
                        assert(tokens[0] == first);
                    }
                }
            },
            Step::Fail(..) => {},
        }
    }
}

/// Only white space and comments are skipped, and nothing is lost: each token's
/// text lexes alone to that token, and the text before the first token, between
/// two tokens and behind the last one lexes to nothing.
pub proof fn lemma_nothing_is_lost(src: Seq<char>)
    ensures
        tokens_of(src) matches Ok(tokens) ==> lossless(src, 0, tokens, places(src, 0)),
{
    if tokens_of(src) is Ok {
        assert(skips(src, 0, 0));
        lemma_lossless_from(src, 0, 0);
    }
}

} // verus!
