//! What lexing printed text gives: rules for gluing texts together.
//!
//! `lexes(s)` is the list of token kinds of a text. The rules here say what it
//! is for a token in front of some text, so that the kinds of a printed tree
//! can be read off piece by piece.

use crate::lexer::{
    comment_end, digit_value, has_digit, in_class, is_dec_digit, is_hex, is_space, is_word_start,
    keyword_of, lemma_run_end, lemma_step_moves, lex_from, numeral, number_step, pair_at, prefixed,
    punct_one, punct_two, radix_at, run_end, scan, simple_escape, span_of, step, tokens_of,
    word_kind, Class, Scan, Step,
};
use crate::pretty::{escaped, escaped_char, str_text};
use crate::text::{dec, digit_char, hex_padded};
use crate::token::{Kind, LexError, Tok, TokenKind};
use vstd::prelude::*;

verus! {

/// The kinds of a list of tokens.
pub open spec fn kinds(t: Seq<Tok>) -> Seq<Kind> {
    t.map_values(|t: Tok| t.kind)
}

/// The kinds of a lexing result, if it is one.
pub open spec fn kinds_of(r: Result<Seq<Tok>, LexError>) -> Option<Seq<Kind>> {
    match r {
        Ok(t) => Some(kinds(t)),
        Err(_) => None,
    }
}

/// The token kinds of a text, if it lexes.
pub open spec fn lexes(s: Seq<char>) -> Option<Seq<Kind>> {
    kinds_of(tokens_of(s))
}

/// `k` and then what `rest` holds.
pub open spec fn cons(k: Seq<Kind>, rest: Option<Seq<Kind>>) -> Option<Seq<Kind>> {
    match rest {
        Some(r) => Some(k + r),
        None => None,
    }
}

/// One keyword or piece of punctuation.
pub open spec fn fx(k: TokenKind) -> Seq<Kind> {
    seq![Kind::Fixed(k)]
}

pub proof fn lemma_cons(a: Seq<Kind>, b: Seq<Kind>, rest: Option<Seq<Kind>>)
    ensures
        cons(a, cons(b, rest)) == cons(a + b, rest),
{
    if let Some(r) = rest {
        assert(a + (b + r) =~= (a + b) + r);
    }
}

/// Putting kinds one behind the other, in whatever order.
pub broadcast proof fn lemma_kinds_glue(a: Seq<Kind>, b: Seq<Kind>, c: Seq<Kind>)
    ensures
        #[trigger] ((a + b) + c) == a + (b + c),
{
    assert(((a + b) + c) =~= a + (b + c));
}

pub broadcast proof fn lemma_kinds_nothing(a: Seq<Kind>)
    ensures
        #[trigger] (a + Seq::<Kind>::empty()) == a,
{
    assert((a + Seq::<Kind>::empty()) =~= a);
}

pub broadcast proof fn lemma_kinds_onto_nothing(a: Seq<Kind>)
    ensures
        #[trigger] (Seq::<Kind>::empty() + a) == a,
{
    assert((Seq::<Kind>::empty() + a) =~= a);
}

pub broadcast group group_kinds {
    lemma_kinds_glue,
    lemma_kinds_nothing,
    lemma_kinds_onto_nothing,
}

// ------------------------------------------------- lexing behind other text

proof fn lemma_run_end_behind(a: Seq<char>, b: Seq<char>, i: int, class: Class)
    requires
        0 <= i <= b.len(),
    ensures
        run_end(a + b, a.len() + i, class) == a.len() + run_end(b, i, class),
    decreases b.len() - i,
{
    if i < b.len() {
        assert((a + b)[a.len() + i] == b[i]);
        if in_class(class, b[i]) {
            lemma_run_end_behind(a, b, i + 1, class);
        }
    }
}

proof fn lemma_pair_behind(a: Seq<char>, b: Seq<char>, i: int, c: char, d: char)
    requires
        0 <= i <= b.len(),
    ensures
        pair_at(a + b, a.len() + i, c, d) == pair_at(b, i, c, d),
{
    if i + 1 < b.len() {
        assert((a + b)[a.len() + i] == b[i]);
        assert((a + b)[a.len() + i + 1] == b[i + 1]);
    }
}

/// A position that moved along with its text.
spec fn later(o: Option<int>, n: int) -> Option<int> {
    match o {
        Some(j) => Some(n + j),
        None => None,
    }
}

proof fn lemma_comment_end_behind(a: Seq<char>, b: Seq<char>, i: int, depth: nat)
    requires
        0 <= i <= b.len(),
    ensures
        comment_end(a + b, a.len() + i, depth) == later(
            comment_end(b, i, depth),
            a.len() as int,
        ),
    decreases b.len() - i,
{
    lemma_pair_behind(a, b, i, '/', '*');
    lemma_pair_behind(a, b, i, '*', '/');
    if depth > 0 && i < b.len() {
        if pair_at(b, i, '/', '*') {
            lemma_comment_end_behind(a, b, i + 2, depth + 1);
        } else if pair_at(b, i, '*', '/') {
            lemma_comment_end_behind(a, b, i + 2, (depth - 1) as nat);
        } else {
            lemma_comment_end_behind(a, b, i + 1, depth);
        }
    }
}

proof fn lemma_scan_behind(a: Seq<char>, b: Seq<char>, open: int, i: int, value: Seq<char>)
    requires
        0 <= i <= b.len(),
    ensures
        match (scan(a + b, a.len() + open, a.len() + i, value), scan(b, open, i, value)) {
            (Scan::Done(v, j), Scan::Done(w, k)) => v == w && j == a.len() + k,
            (Scan::Fail(..), Scan::Fail(..)) => true,
            _ => false,
        },
    decreases b.len() - i,
{
    let n = a.len();
    let s = a + b;
    if i < b.len() {
        assert(s[n + i] == b[i]);
        if i + 1 < b.len() {
            assert(s[n + i + 1] == b[i + 1]);
        }
        if i + 3 < b.len() {
            assert(s[n + i + 2] == b[i + 2]);
            assert(s[n + i + 3] == b[i + 3]);
        }
        if b[i] == '"' {
        } else if b[i] != '\\' {
            lemma_scan_behind(a, b, open, i + 1, value.push(b[i]));
        } else if i + 1 >= b.len() {
        } else if b[i + 1] == 'x' {
            if i + 3 < b.len() && is_hex(b[i + 2]) && is_hex(b[i + 3]) {
                let c = (digit_value(b[i + 2]) * 16 + digit_value(b[i + 3])) as char;
                lemma_scan_behind(a, b, open, i + 4, value.push(c));
            }
        } else if simple_escape(b[i + 1]) is Some {
            lemma_scan_behind(a, b, open, i + 2, value.push(simple_escape(b[i + 1])->0));
        }
    }
}

/// Two steps that do the same, one `n` characters further on.
spec fn same_step(x: Step, y: Step, n: int) -> bool {
    match (x, y) {
        (Step::Skip(i), Step::Skip(j)) => i == n + j,
        (Step::Token(k, i), Step::Token(l, j)) => k == l && i == n + j,
        (Step::Fail(..), Step::Fail(..)) => true,
        _ => false,
    }
}

proof fn lemma_number_behind(a: Seq<char>, b: Seq<char>, i: int)
    requires
        0 <= i < b.len(),
    ensures
        same_step(number_step(a + b, a.len() + i), number_step(b, i), a.len() as int),
{
    lemma_pair_behind(a, b, i, '0', 'x');
    lemma_pair_behind(a, b, i, '0', 'b');
    lemma_pair_behind(a, b, i, '0', 'o');
    let radix = radix_at(b, i);
    let start = if radix == 10 {
        i
    } else {
        i + 2
    };
    lemma_run_end_behind(a, b, start, Class::Digits(radix));
    lemma_run_end(b, start, Class::Digits(radix));
    let end = run_end(b, start, Class::Digits(radix));
    assert((a + b).subrange(a.len() + start, a.len() + end) =~= b.subrange(start, end));
}

/// What stands at a position does not depend on what stands before it.
proof fn lemma_step_behind(a: Seq<char>, b: Seq<char>, i: int)
    requires
        0 <= i < b.len(),
    ensures
        same_step(step(a + b, a.len() + i), step(b, i), a.len() as int),
{
    let n = a.len();
    let s = a + b;
    assert(s[n + i] == b[i]);
    lemma_pair_behind(a, b, i, '/', '/');
    lemma_pair_behind(a, b, i, '/', '*');
    lemma_run_end_behind(a, b, i, Class::Line);
    lemma_run_end_behind(a, b, i, Class::Word);
    lemma_run_end(b, i, Class::Word);
    let end = run_end(b, i, Class::Word);
    assert(s.subrange(n + i, n + end) =~= b.subrange(i, end));
    if pair_at(b, i, '/', '*') {
        lemma_comment_end_behind(a, b, i + 2, 1);
    }
    lemma_number_behind(a, b, i);
    lemma_scan_behind(a, b, i, i + 1, Seq::empty());
    if i + 1 < b.len() {
        assert(s[n + i + 1] == b[i + 1]);
    }
}

/// The kinds of a text do not depend on what stands before it.
proof fn lemma_lex_behind(a: Seq<char>, b: Seq<char>, i: int)
    requires
        0 <= i <= b.len(),
    ensures
        kinds_of(lex_from(a + b, a.len() + i)) == kinds_of(lex_from(b, i)),
    decreases b.len() - i,
{
    let n = a.len();
    let s = a + b;
    if i < b.len() {
        lemma_step_behind(a, b, i);
        lemma_step_moves(b, i);
        lemma_step_moves(s, n + i);
        match step(b, i) {
            Step::Skip(j) => lemma_lex_behind(a, b, j),
            Step::Token(k, j) => {
                lemma_lex_behind(a, b, j);
                let t = Tok { kind: k, span: span_of(b, i, j) };
                let u = Tok { kind: k, span: span_of(s, n + i, n + j) };
                lemma_kinds_prefixed(t, lex_from(b, j));
                lemma_kinds_prefixed(u, lex_from(s, n + j));
            },
            Step::Fail(..) => {},
        }
    } else {
        assert(kinds(
            seq![Tok { kind: Kind::Fixed(TokenKind::Eof), span: span_of(b, i, i) }],
        ) =~= fx(TokenKind::Eof));
        assert(kinds(
            seq![Tok { kind: Kind::Fixed(TokenKind::Eof), span: span_of(s, n + i, n + i) }],
        ) =~= fx(TokenKind::Eof));
    }
}

proof fn lemma_kinds_prefixed(t: Tok, r: Result<Seq<Tok>, LexError>)
    ensures
        kinds_of(prefixed(seq![t], r)) == cons(seq![t.kind], kinds_of(r)),
{
    if let Ok(rest) = r {
        assert(kinds(seq![t] + rest) =~= seq![t.kind] + kinds(rest));
    }
}

// --------------------------------------------------------- one token at a time

/// A token in front of some text.
pub proof fn lemma_token(t: Seq<char>, rest: Seq<char>, k: Kind)
    requires
        t.len() > 0,
        step(t + rest, 0) == Step::Token(k, t.len() as int),
    ensures
        lexes(t + rest) == cons(seq![k], lexes(rest)),
{
    let s = t + rest;
    lemma_lex_behind(t, rest, 0);
    let tok = Tok { kind: k, span: span_of(s, 0, t.len() as int) };
    lemma_kinds_prefixed(tok, lex_from(s, t.len() as int));
}

/// White space in front of some text.
pub proof fn lemma_skip(t: Seq<char>, rest: Seq<char>)
    requires
        t.len() > 0,
        step(t + rest, 0) == Step::Skip(t.len() as int),
    ensures
        lexes(t + rest) == lexes(rest),
{
    lemma_lex_behind(t, rest, 0);
}

pub proof fn lemma_space(c: char, rest: Seq<char>)
    requires
        is_space(c),
    ensures
        lexes(seq![c] + rest) == lexes(rest),
{
    assert((seq![c] + rest)[0] == c);
    lemma_skip(seq![c], rest);
}

/// Nothing but white space.
pub open spec fn blank(s: Seq<char>) -> bool {
    forall|i: int| 0 <= i < s.len() ==> is_space(#[trigger] s[i])
}

pub proof fn lemma_blank(s: Seq<char>, rest: Seq<char>)
    requires
        blank(s),
    ensures
        lexes(s + rest) == lexes(rest),
    decreases s.len(),
{
    if s.len() > 0 {
        let c = s[0];
        let t = s.drop_first();
        assert forall|i: int| 0 <= i < t.len() implies is_space(#[trigger] t[i]) by {
            assert(t[i] == s[i + 1]);
        }
        lemma_blank(t, rest);
        assert(is_space(s[0]));
        lemma_space(c, t + rest);
        assert(s + rest =~= seq![c] + (t + rest));
    } else {
        assert(s + rest =~= rest);
    }
}

/// The text behind a word or a number: it does not go on.
pub open spec fn boundary(rest: Seq<char>) -> bool {
    rest.len() == 0 || !in_class(Class::Word, rest[0])
}

pub proof fn lemma_punct(c: char, k: TokenKind, rest: Seq<char>)
    requires
        punct_one(c) == Some(k),
        rest.len() > 0 ==> punct_two(c, rest[0]) is None,
        c == '/' && rest.len() > 0 ==> rest[0] != '/' && rest[0] != '*',
    ensures
        lexes(seq![c] + rest) == cons(fx(k), lexes(rest)),
{
    let s = seq![c] + rest;
    assert(s[0] == c);
    if rest.len() > 0 {
        assert(s[1] == rest[0]);
    }
    lemma_token(seq![c], rest, Kind::Fixed(k));
}

pub proof fn lemma_punct_pair(c: char, d: char, k: TokenKind, rest: Seq<char>)
    requires
        punct_two(c, d) == Some(k),
    ensures
        lexes(seq![c, d] + rest) == cons(fx(k), lexes(rest)),
{
    let s = seq![c, d] + rest;
    assert(s[0] == c);
    assert(s[1] == d);
    lemma_token(seq![c, d], rest, Kind::Fixed(k));
}

proof fn lemma_run_end_is(s: Seq<char>, i: int, j: int, class: Class)
    requires
        0 <= i <= j <= s.len(),
        forall|k: int| i <= k < j ==> in_class(class, #[trigger] s[k]),
        j < s.len() ==> !in_class(class, s[j]),
    ensures
        run_end(s, i, class) == j,
    decreases j - i,
{
    if i < j {
        lemma_run_end_is(s, i + 1, j, class);
    }
}

/// A word: a letter or `_`, and then letters, digits and `_`.
pub open spec fn is_word(w: Seq<char>) -> bool {
    &&& w.len() > 0
    &&& is_word_start(w[0])
    &&& forall|i: int| 0 <= i < w.len() ==> in_class(Class::Word, #[trigger] w[i])
}

/// A word that is not a keyword.
pub open spec fn is_name(w: Seq<char>) -> bool {
    is_word(w) && keyword_of(w) is None
}

pub proof fn lemma_word(w: Seq<char>, rest: Seq<char>)
    requires
        is_word(w),
        boundary(rest),
    ensures
        lexes(w + rest) == cons(seq![word_kind(w)], lexes(rest)),
{
    let s = w + rest;
    assert(s[0] == w[0]);
    assert forall|k: int| 0 <= k < w.len() implies in_class(Class::Word, #[trigger] s[k]) by {
        assert(s[k] == w[k]);
    }
    if rest.len() > 0 {
        assert(s[w.len() as int] == rest[0]);
    }
    lemma_run_end_is(s, 0, w.len() as int, Class::Word);
    assert(s.subrange(0, w.len() as int) =~= w);
    lemma_token(w, rest, word_kind(w));
}

pub proof fn lemma_name(w: Seq<char>, rest: Seq<char>)
    requires
        is_name(w),
        boundary(rest),
    ensures
        lexes(w + rest) == cons(seq![Kind::Ident(w)], lexes(rest)),
{
    lemma_word(w, rest);
}

// ----------------------------------------------------------------- numbers

/// Decimal digits say what they were made from.
pub proof fn lemma_dec(n: nat)
    ensures
        dec(n).len() > 0,
        forall|i: int| 0 <= i < dec(n).len() ==> is_dec_digit(#[trigger] dec(n)[i]),
        numeral(dec(n), 10) == n,
        has_digit(dec(n)),
        n > 0 ==> dec(n)[0] != '0',
        n == 0 ==> dec(n).len() == 1,
    decreases n,
{
    let d = digit_char((n % 10) as int);
    assert(digit_value(d) == n % 10);
    assert(d != '_');
    if n < 10 {
        assert(n % 10 == n);
        let s = dec(n);
        assert(s =~= seq![d]);
        assert(s.drop_last() =~= Seq::empty());
        assert(numeral(s.drop_last(), 10) == 0);
    } else {
        lemma_dec(n / 10);
        let s = dec(n);
        assert(s =~= dec(n / 10).push(d));
        assert(s.drop_last() =~= dec(n / 10));
        assert(s.last() == d);
        assert(numeral(s, 10) == numeral(dec(n / 10), 10) * 10 + n % 10);
        assert forall|i: int| 0 <= i < s.len() implies is_dec_digit(#[trigger] s[i]) by {
            if i < s.len() - 1 {
                assert(s[i] == dec(n / 10)[i]);
            }
        }
        assert(s[0] == dec(n / 10)[0]);
    }
}

pub proof fn lemma_int(n: u64, rest: Seq<char>)
    requires
        boundary(rest),
    ensures
        lexes(dec(n as nat) + rest) == cons(seq![Kind::Int(n)], lexes(rest)),
{
    let d = dec(n as nat);
    let s = d + rest;
    let len = d.len() as int;
    lemma_dec(n as nat);
    assert(s[0] == d[0]);
    assert(is_dec_digit(d[0]));
    if rest.len() > 0 {
        assert(s[len] == rest[0]);
    }
    if n == 0 {
        assert(d.len() == 1);
    }
    assert(radix_at(s, 0) == 10) by {
        if d.len() > 1 {
            assert(n > 0);
            assert(s[0] != '0');
        }
    }
    assert forall|k: int| 0 <= k < len implies in_class(Class::Digits(10), #[trigger] s[k]) by {
        assert(s[k] == d[k]);
        assert(is_dec_digit(d[k]));
    }
    lemma_run_end_is(s, 0, len, Class::Digits(10));
    assert(s.subrange(0, len) =~= d);
    lemma_token(d, rest, Kind::Int(n));
}

// ----------------------------------------------------------------- strings

/// Reading an escaped text from position `p` on gives the text back.
proof fn lemma_scan_escaped(
    src: Seq<char>,
    open: int,
    p: int,
    s: Seq<char>,
    k: int,
    rest: Seq<char>,
)
    requires
        0 <= k <= s.len(),
        0 <= p <= src.len(),
        src.skip(p) == escaped(s, k) + (seq!['"'] + rest),
    ensures
        scan(src, open, p, s.take(k)) == Scan::Done(
            s,
            p + escaped(s, k).len() + 1,
        ),
    decreases s.len() - k,
{
    let here = src.skip(p);
    assert(here.len() == src.len() - p);
    if k == s.len() {
        assert(escaped(s, k) =~= Seq::empty());
        assert(here =~= seq!['"'] + rest);
        assert(src[p] == here[0]);
        assert(s.take(k) =~= s);
    } else {
        let c = s[k];
        let e = escaped_char(c);
        let more = escaped(s, k + 1) + (seq!['"'] + rest);
        assert(here =~= e + more);
        lemma_escaped_char(c);
        let n = e.len() as int;
        assert(src.skip(p + n) =~= more) by {
            assert(here.skip(n) =~= more);
            assert(here.skip(n) =~= src.skip(p + n));
        }
        lemma_scan_escaped(src, open, p + n, s, k + 1, rest);
        assert(s.take(k).push(c) =~= s.take(k + 1));
        assert(forall|i: int| 0 <= i < n ==> src[p + i] == #[trigger] e[i]) by {
            assert forall|i: int| 0 <= i < n implies src[p + i] == #[trigger] e[i] by {
                assert(here[i] == (e + more)[i]);
            }
        }
        assert(src[p] == e[0]);
        if n > 1 {
            assert(src[p + 1] == e[1]);
        }
        if n > 2 {
            assert(src[p + 2] == e[2]);
            assert(src[p + 3] == e[3]);
        }
        assert(escaped(s, k).len() == n + escaped(s, k + 1).len());
    }
}

/// What an escaped character looks like.
proof fn lemma_escaped_char(c: char)
    ensures
        ({
            let e = escaped_char(c);
            ||| e.len() == 1 && e[0] == c && c != '"' && c != '\\'
            ||| e.len() == 2 && e[0] == '\\' && e[1] != 'x' && simple_escape(e[1]) == Some(c)
            ||| {
                &&& e.len() == 4
                &&& e[0] == '\\'
                &&& e[1] == 'x'
                &&& is_hex(e[2])
                &&& is_hex(e[3])
                &&& (digit_value(e[2]) * 16 + digit_value(e[3])) as char == c
            }
        }),
{
    reveal_strlit("\\n");
    reveal_strlit("\\t");
    reveal_strlit("\\r");
    reveal_strlit("\\\\");
    reveal_strlit("\\\"");
    reveal_strlit("\\0");
    reveal_strlit("\\x");
    if c != '\n' && c != '\t' && c != '\r' && c != '\\' && c != '"' && c != '\0' && (c as u32)
        < 0x20 {
        let n = (c as u32) as nat;
        reveal_with_fuel(hex_padded, 3);
        let h = hex_padded(n, 2);
        assert(h =~= seq![digit_char((n / 16 % 16) as int), digit_char((n % 16) as int)]);
        assert(digit_value(digit_char((n / 16 % 16) as int)) == n / 16 % 16);
        assert(digit_value(digit_char((n % 16) as int)) == n % 16);
        assert(n / 16 % 16 * 16 + n % 16 == n);
    }
}

proof fn lemma_str_step(s: Seq<char>, rest: Seq<char>)
    ensures
        step(str_text(s) + rest, 0) == Step::Token(Kind::Str(s), str_text(s).len() as int),
        str_text(s).len() >= 2,
{
    let t = str_text(s);
    let src = t + rest;
    assert(src[0] == '"');
    assert(src.skip(1) =~= escaped(s, 0) + (seq!['"'] + rest));
    assert(s.take(0) =~= Seq::empty());
    lemma_scan_escaped(src, 0, 1, s, 0, rest);
    assert(t.len() == escaped(s, 0).len() + 2);
}

pub proof fn lemma_str(s: Seq<char>, rest: Seq<char>)
    ensures
        lexes(str_text(s) + rest) == cons(seq![Kind::Str(s)], lexes(rest)),
{
    lemma_str_step(s, rest);
    lemma_token(str_text(s), rest, Kind::Str(s));
}

/// Nothing left to lex.
pub proof fn lemma_end()
    ensures
        lexes(Seq::empty()) == Some(fx(TokenKind::Eof)),
{
    let s = Seq::<char>::empty();
    assert(kinds(
        seq![Tok { kind: Kind::Fixed(TokenKind::Eof), span: span_of(s, 0, 0) }],
    ) =~= fx(TokenKind::Eof));
}

/// The text lexes to one string of the given value, as a token that covers all
/// of it.
pub open spec fn is_literal_of(w: Seq<char>, s: Seq<char>) -> bool {
    let n = w.len() as int;
    tokens_of(w) == Ok::<Seq<Tok>, LexError>(
        seq![
            Tok { kind: Kind::Str(s), span: span_of(w, 0, n) },
            Tok { kind: Kind::Fixed(TokenKind::Eof), span: span_of(w, n, n) },
        ],
    )
}

/// The printed form of any text lexes back to exactly that text, as one token
/// that covers all of it.
pub proof fn lemma_str_literal_lexes_back(s: Seq<char>)
    ensures
        is_literal_of(str_text(s), s),
{
    let w = str_text(s);
    let n = w.len() as int;
    lemma_str_step(s, Seq::empty());
    assert(w + Seq::<char>::empty() =~= w);
    reveal_with_fuel(lex_from, 2);
    assert(tokens_of(w)->Ok_0 =~= seq![
        Tok { kind: Kind::Str(s), span: span_of(w, 0, n) },
        Tok { kind: Kind::Fixed(TokenKind::Eof), span: span_of(w, n, n) },
    ]);
}

} // verus!
