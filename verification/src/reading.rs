//! Literals as they are written, and that they are read as what they say.

use crate::lexer::{
    comment_end, digit_value, has_digit, in_class, is_dec_digit, number_step, numeral, pair_at,
    radix_at, run_end, scan, step, string_step, Class, Scan, Step,
};
use crate::text::{dec, digit_char, hex, hex_padded};
use crate::token::Kind;
use vstd::prelude::*;

verus! {

// -------------------------------------------------------------------- numbers

/// The digits, in the order of what they count for.
pub open spec fn digits() -> Seq<char> {
    seq!['0', '1', '2', '3', '4', '5', '6', '7', '8', '9', 'a', 'b', 'c', 'd', 'e', 'f']
}

/// The same, with letters in upper case.
pub open spec fn upper_digits() -> Seq<char> {
    seq!['0', '1', '2', '3', '4', '5', '6', '7', '8', '9', 'A', 'B', 'C', 'D', 'E', 'F']
}

/// What a number in some radix starts with.
pub open spec fn radix_mark(radix: int) -> Seq<char> {
    if radix == 16 {
        seq!['0', 'x']
    } else if radix == 2 {
        seq!['0', 'b']
    } else if radix == 8 {
        seq!['0', 'o']
    } else {
        Seq::empty()
    }
}

/// A written digit: which one, whether in upper case, and whether `_` follows.
pub struct Digit {
    pub worth: int,
    pub upper: bool,
    pub spaced: bool,
}

pub open spec fn digit_text(d: Digit) -> Seq<char> {
    let c = if d.upper {
        upper_digits()[d.worth]
    } else {
        digits()[d.worth]
    };
    if d.spaced {
        seq![c, '_']
    } else {
        seq![c]
    }
}

/// Digits one behind the other.
pub open spec fn number_text(list: Seq<Digit>) -> Seq<char>
    decreases list.len(),
{
    if list.len() == 0 {
        Seq::empty()
    } else {
        number_text(list.drop_last()) + digit_text(list.last())
    }
}

/// The number that digits are.
pub open spec fn number_worth(list: Seq<Digit>, radix: int) -> int
    decreases list.len(),
{
    if list.len() == 0 {
        0
    } else {
        number_worth(list.drop_last(), radix) * radix + list.last().worth
    }
}

pub open spec fn all_digits(list: Seq<Digit>, radix: int) -> bool {
    forall|i: int| 0 <= i < list.len() ==> 0 <= (#[trigger] list[i]).worth < radix
}

proof fn lemma_digit_chars(d: int)
    requires
        0 <= d < 16,
    ensures
        digit_value(digits()[d]) == d,
        digit_value(upper_digits()[d]) == d,
        digits()[d] != '_',
        upper_digits()[d] != '_',
        digit_char(d) == digits()[d],
{
    let a = digits();
    let b = upper_digits();
    if d < 8 {
        if d < 4 {
            assert(d == 0 || d == 1 || d == 2 || d == 3);
        } else {
            assert(d == 4 || d == 5 || d == 6 || d == 7);
        }
    } else {
        if d < 12 {
            assert(d == 8 || d == 9 || d == 10 || d == 11);
        } else {
            assert(d == 12 || d == 13 || d == 14 || d == 15);
        }
    }
}

proof fn lemma_numeral(list: Seq<Digit>, radix: int)
    requires
        all_digits(list, radix),
        2 <= radix <= 16,
    ensures
        numeral(number_text(list), radix) == number_worth(list, radix),
        list.len() > 0 ==> has_digit(number_text(list)),
        forall|i: int|
            0 <= i < number_text(list).len() ==> in_class(
                Class::Digits(radix as u32),
                #[trigger] number_text(list)[i],
            ),
    decreases list.len(),
{
    if list.len() > 0 {
        let rest = list.drop_last();
        let d = list.last();
        let t = number_text(rest);
        let s = number_text(list);
        assert(list[list.len() - 1] == d);
        assert forall|i: int| 0 <= i < rest.len() implies 0 <= (#[trigger] rest[i]).worth
            < radix by {
            assert(list[i] == rest[i]);
        }
        lemma_numeral(rest, radix);
        lemma_digit_chars(d.worth);
        let c = digit_text(d)[0];
        let u = t.push(c);
        assert(u.drop_last() =~= t);
        assert(numeral(u, radix) == number_worth(list, radix));
        assert(has_digit(u));
        if d.spaced {
            assert(s.drop_last() =~= u);
        } else {
            assert(s =~= u);
        }
        assert forall|i: int| 0 <= i < s.len() implies in_class(
            Class::Digits(radix as u32),
            #[trigger] s[i],
        ) by {
            if i < t.len() {
                assert(s[i] == t[i]);
            }
        }
    }
}

proof fn lemma_run(src: Seq<char>, i: int, end: int, class: Class)
    requires
        0 <= i <= end <= src.len(),
        forall|j: int| i <= j < end ==> in_class(class, #[trigger] src[j]),
        end == src.len() || !in_class(class, src[end]),
    ensures
        run_end(src, i, class) == end,
    decreases end - i,
{
    if i < end {
        assert(in_class(class, src[i]));
        lemma_run(src, i + 1, end, class);
    }
}

/// What a number in radix 10 can start with, so that it is none in another.
pub open spec fn no_mark(s: Seq<char>) -> bool {
    s.len() < 2 || s[0] != '0' || (s[1] != 'x' && s[1] != 'b' && s[1] != 'o')
}

/// A number is read as what its digits say, in radix 2, 8, 10 or 16 by its mark;
/// letters count in either case, and `_` only separates.
pub proof fn lemma_numbers_are_read(
    before: Seq<char>,
    list: Seq<Digit>,
    after: Seq<char>,
    radix: int,
)
    requires
        radix == 2 || radix == 8 || radix == 10 || radix == 16,
        list.len() > 0,
        all_digits(list, radix),
        number_worth(list, radix) <= u64::MAX,
        after.len() == 0 || !in_class(Class::Digits(radix as u32), after[0]),
        radix == 10 ==> no_mark(number_text(list) + after),
    ensures
        ({
            let text = radix_mark(radix) + number_text(list);
            let src = before + text + after;
            step(src, before.len() as int) == Step::Token(
                Kind::Int(number_worth(list, radix) as u64),
                (before.len() + text.len()) as int,
            )
        }),
{
    let mark = radix_mark(radix);
    let t = number_text(list);
    let text = mark + t;
    let src = before + text + after;
    let i = before.len() as int;
    let start = i + mark.len();
    let end = i + text.len();
    lemma_numeral(list, radix);
    lemma_first_digit(list, radix);
    assert(src[i] == text[0]);
    assert forall|j: int| start <= j < end implies in_class(
        Class::Digits(radix as u32),
        #[trigger] src[j],
    ) by {
        assert(src[j] == t[j - start]);
    }
    if after.len() > 0 {
        assert(src[end] == after[0]);
    }
    lemma_run(src, start, end, Class::Digits(radix as u32));
    assert(src.subrange(start, end) =~= t);
    if radix == 10 {
        assert(src[i] == t[0]);
        let s = t + after;
        if i + 1 < src.len() {
            assert(src[i + 1] == s[1]);
            assert(s[0] == src[i]);
        }
        assert(radix_at(src, i) == 10);
    } else {
        assert(src[i] == '0');
        assert(src[i + 1] == mark[1]);
        assert(radix_at(src, i) == radix);
    }
    assert(is_dec_digit(src[i]));
    assert(step(src, i) == number_step(src, i));
}

proof fn lemma_first_digit(list: Seq<Digit>, radix: int)
    requires
        list.len() > 0,
        all_digits(list, radix),
        2 <= radix <= 16,
    ensures
        number_text(list).len() > 0,
        number_text(list)[0] == digit_text(list[0])[0],
        radix <= 10 ==> is_dec_digit(number_text(list)[0]),
    decreases list.len(),
{
    let rest = list.drop_last();
    if rest.len() > 0 {
        assert forall|i: int| 0 <= i < rest.len() implies 0 <= (#[trigger] rest[i]).worth
            < radix by {
            assert(list[i] == rest[i]);
        }
        lemma_first_digit(rest, radix);
        assert(rest[0] == list[0]);
    } else {
        assert(number_text(rest) =~= Seq::empty());
        assert(list[0] == list.last());
        assert(number_text(list) =~= digit_text(list[0]));
        lemma_digit_chars(list[0].worth);
    }
}

/// The value of digits, the highest first.
pub open spec fn positional(s: Seq<char>, radix: int) -> int
    decreases s.len(),
{
    if s.len() == 0 {
        0
    } else {
        positional(s.drop_last(), radix) * radix + digits().index_of(s.last())
    }
}

proof fn lemma_index(d: int)
    requires
        0 <= d < 16,
    ensures
        digits().index_of(digits()[d]) == d,
{
    let i = digits().index_of(digits()[d]);
    assert(digits().contains(digits()[d]));
    lemma_digit_chars(d);
    lemma_digit_chars(i);
}

/// Decimal and hexadecimal numbers are written with the digits that make them up,
/// and without a leading zero.
pub proof fn lemma_numbers_are_written(n: nat)
    ensures
        positional(dec(n), 10) == n,
        positional(hex(n), 16) == n,
        n > 0 ==> dec(n)[0] != '0' && hex(n)[0] != '0',
        dec(n).len() > 0,
        hex(n).len() > 0,
    decreases n,
{
    if n < 10 {
        lemma_one_digit(n, 10);
        assert(dec(n) =~= seq![digits()[n as int]]);
    } else {
        lemma_numbers_are_written(n / 10);
        let d = (n % 10) as int;
        lemma_digit_chars(d);
        lemma_index(d);
        assert(dec(n).drop_last() =~= dec(n / 10));
        assert(dec(n)[0] == dec(n / 10)[0]);
    }
    if n < 16 {
        lemma_one_digit(n, 16);
        assert(hex(n) =~= seq![digits()[n as int]]);
    } else {
        lemma_numbers_are_written(n / 16);
        let d = (n % 16) as int;
        lemma_digit_chars(d);
        lemma_index(d);
        assert(hex(n).drop_last() =~= hex(n / 16));
        assert(hex(n)[0] == hex(n / 16)[0]);
    }
}

proof fn lemma_one_digit(n: nat, radix: int)
    requires
        n < 16,
    ensures
        positional(seq![digits()[n as int]], radix) == n,
        digit_char(n as int) == digits()[n as int],
        n > 0 ==> digits()[n as int] != '0',
{
    lemma_digit_chars(n as int);
    lemma_index(n as int);
    let s = seq![digits()[n as int]];
    assert(s.drop_last() =~= Seq::empty());
    reveal_with_fuel(positional, 2);
    lemma_digit_chars(0);
}

/// A padded hexadecimal number has the width that is asked for, and is the number
/// as far as it fits.
pub proof fn lemma_padded_numbers_are_written(n: nat, width: nat)
    ensures
        hex_padded(n, width).len() == width,
        positional(hex_padded(n, width), 16) == n as int
            % vstd::arithmetic::power::pow(16, width),
    decreases width,
{
    let p = vstd::arithmetic::power::pow(16, width);
    vstd::arithmetic::power::lemma_pow0(16);
    if width == 0 {
        assert(p == 1);
    } else {
        let less = (width - 1) as nat;
        let q = vstd::arithmetic::power::pow(16, less);
        lemma_padded_numbers_are_written(n / 16, less);
        let d = (n % 16) as int;
        lemma_digit_chars(d);
        lemma_index(d);
        assert(hex_padded(n, width).drop_last() =~= hex_padded(n / 16, less));
        vstd::arithmetic::power::lemma_pow_positive(16, less);
        reveal(vstd::arithmetic::power::pow);
        assert(p == 16 * q);
        vstd::arithmetic::div_mod::lemma_mod_breakdown(n as int, 16, q);
    }
}

// --------------------------------------------------------------------- strings

/// A character as a string literal can write it.
pub enum Piece {
    /// As it is.
    Plain(char),
    /// A line feed, `\n`.
    Feed,
    /// A tab, `\t`.
    Tab,
    /// A carriage return, `\r`.
    Return,
    /// A backslash, `\\`.
    Backslash,
    /// A quote, `\"`.
    Quote,
    /// A zero, `\0`.
    Zero,
    /// By its number, `\xHH`; either digit may be in upper case.
    Hex(Digit, Digit),
}

/// What a piece stands for.
pub open spec fn piece_char(p: Piece) -> char {
    match p {
        Piece::Plain(c) => c,
        Piece::Feed => '\n',
        Piece::Tab => '\t',
        Piece::Return => '\r',
        Piece::Backslash => '\\',
        Piece::Quote => '"',
        Piece::Zero => '\0',
        Piece::Hex(a, b) => (a.worth * 16 + b.worth) as char,
    }
}

pub open spec fn piece_text(p: Piece) -> Seq<char> {
    match p {
        Piece::Plain(c) => seq![c],
        Piece::Feed => seq!['\\', 'n'],
        Piece::Tab => seq!['\\', 't'],
        Piece::Return => seq!['\\', 'r'],
        Piece::Backslash => seq!['\\', '\\'],
        Piece::Quote => seq!['\\', '"'],
        Piece::Zero => seq!['\\', '0'],
        Piece::Hex(a, b) => seq!['\\', 'x'] + digit_text(a) + digit_text(b),
    }
}

pub open spec fn piece_fits(p: Piece) -> bool {
    match p {
        Piece::Plain(c) => c != '"' && c != '\\',
        Piece::Hex(a, b) => 0 <= a.worth < 16 && 0 <= b.worth < 16 && !a.spaced && !b.spaced,
        _ => true,
    }
}

/// Pieces one behind the other.
pub open spec fn pieces_text(list: Seq<Piece>) -> Seq<char>
    decreases list.len(),
{
    if list.len() == 0 {
        Seq::empty()
    } else {
        piece_text(list[0]) + pieces_text(list.drop_first())
    }
}

/// The parts of a text that stands somewhere stand one behind the other.
proof fn lemma_parts(src: Seq<char>, i: int, a: Seq<char>, b: Seq<char>)
    requires
        0 <= i,
        i + (a + b).len() <= src.len(),
        src.subrange(i, i + (a + b).len()) == a + b,
    ensures
        src.subrange(i, i + a.len()) == a,
        src.subrange(i + a.len(), i + a.len() + b.len()) == b,
{
    let all = src.subrange(i, i + (a + b).len());
    assert(src.subrange(i, i + a.len()) =~= all.subrange(0, a.len() as int));
    assert(all.subrange(0, a.len() as int) =~= a);
    assert(src.subrange(i + a.len(), i + a.len() + b.len()) =~= all.subrange(
        a.len() as int,
        (a.len() + b.len()) as int,
    ));
    assert(all.subrange(a.len() as int, (a.len() + b.len()) as int) =~= b);
}

proof fn lemma_scan(
    src: Seq<char>,
    open: int,
    i: int,
    value: Seq<char>,
    list: Seq<Piece>,
)
    requires
        0 <= i,
        forall|j: int| 0 <= j < list.len() ==> piece_fits(#[trigger] list[j]),
        i + pieces_text(list).len() < src.len(),
        src.subrange(i, i + pieces_text(list).len()) == pieces_text(list),
        src[i + pieces_text(list).len()] == '"',
    ensures
        scan(src, open, i, value) == Scan::Done(
            value + list.map_values(|p: Piece| piece_char(p)),
            i + pieces_text(list).len() + 1,
        ),
    decreases list.len(),
{
    let all = pieces_text(list);
    if list.len() == 0 {
        assert(value + list.map_values(|p: Piece| piece_char(p)) =~= value);
    } else {
        let p = list[0];
        let rest = list.drop_first();
        let t = piece_text(p);
        let more = pieces_text(rest);
        assert(all == t + more);
        assert(piece_fits(p));
        assert forall|j: int| 0 <= j < t.len() implies src[i + j] == #[trigger] t[j] by {
            assert(src.subrange(i, i + all.len())[j] == src[i + j]);
        }
        lemma_parts(src, i, t, more);
        assert forall|j: int| 0 <= j < rest.len() implies piece_fits(#[trigger] rest[j]) by {
            assert(list[j + 1] == rest[j]);
        }
        lemma_scan(src, open, i + t.len(), value.push(piece_char(p)), rest);
        assert(value.push(piece_char(p)) + rest.map_values(|p: Piece| piece_char(p)) =~= value
            + list.map_values(|p: Piece| piece_char(p)));
        lemma_scan_piece(src, open, i, value, p);
    }
}

proof fn lemma_scan_piece(src: Seq<char>, open: int, i: int, value: Seq<char>, p: Piece)
    requires
        0 <= i,
        piece_fits(p),
        i + piece_text(p).len() < src.len(),
        forall|j: int| 0 <= j < piece_text(p).len() ==> src[i + j] == #[trigger] piece_text(p)[j],
    ensures
        scan(src, open, i, value) == scan(
            src,
            open,
            i + piece_text(p).len(),
            value.push(piece_char(p)),
        ),
{
    let t = piece_text(p);
    assert(src[i + 0] == t[0]);
    if t.len() > 1 {
        assert(src[i + 1] == t[1]);
    }
    if let Piece::Hex(a, b) = p {
        lemma_digit_chars(a.worth);
        lemma_digit_chars(b.worth);
        assert(src[i + 2] == t[2]);
        assert(src[i + 3] == t[3]);
        assert(t[2] == digit_text(a)[0]);
        assert(t[3] == digit_text(b)[0]);
    }
}

/// A string is read as what its pieces stand for.
pub proof fn lemma_strings_are_read(before: Seq<char>, list: Seq<Piece>, after: Seq<char>)
    requires
        forall|j: int| 0 <= j < list.len() ==> piece_fits(#[trigger] list[j]),
    ensures
        ({
            let text = seq!['"'] + pieces_text(list) + seq!['"'];
            let src = before + text + after;
            step(src, before.len() as int) == Step::Token(
                Kind::Str(list.map_values(|p: Piece| piece_char(p))),
                (before.len() + text.len()) as int,
            )
        }),
{
    let t = pieces_text(list);
    let text = seq!['"'] + t + seq!['"'];
    let src = before + text + after;
    let i = before.len() as int;
    assert(src[i] == text[0]);
    assert(src[i] == '"');
    assert(src.subrange(i + 1, i + 1 + t.len()) =~= t);
    assert(src[i + 1 + t.len()] == text[(1 + t.len()) as int]);
    lemma_scan(src, i, i + 1, Seq::empty(), list);
    assert(Seq::<char>::empty() + list.map_values(|p: Piece| piece_char(p)) =~= list.map_values(
        |p: Piece| piece_char(p),
    ));
    assert(step(src, i) == string_step(src, i));
}

// -------------------------------------------------------------------- comments

/// A comment between `/*` and `*/`: text, and comments in it.
pub enum Remark {
    Text(Seq<char>),
    Inner(Seq<Remark>),
}

/// A text that neither opens nor closes a comment, whatever follows.
pub open spec fn harmless(s: Seq<char>) -> bool {
    forall|i: int| 0 <= i < s.len() ==> #[trigger] s[i] != '/' && s[i] != '*'
}

pub open spec fn remark_text(r: Remark) -> Seq<char>
    decreases r, 0int,
{
    match r {
        Remark::Text(s) => s,
        Remark::Inner(list) => seq!['/', '*'] + remarks_text(list, 0) + seq!['*', '/'],
    }
}

pub open spec fn remarks_text(list: Seq<Remark>, i: int) -> Seq<char>
    decreases list, list.len() - i,
{
    if 0 <= i < list.len() {
        remark_text(list[i]) + remarks_text(list, i + 1)
    } else {
        Seq::empty()
    }
}

pub open spec fn remark_fits(r: Remark) -> bool
    decreases r,
{
    match r {
        Remark::Text(s) => harmless(s),
        Remark::Inner(list) => forall|i: int|
            0 <= i < list.len() ==> remark_fits(#[trigger] list[i]),
    }
}

proof fn lemma_harmless(src: Seq<char>, i: int, n: int, depth: nat)
    requires
        depth > 0,
        0 <= i,
        0 <= n,
        i + n <= src.len(),
        forall|j: int| i <= j < i + n ==> #[trigger] src[j] != '/' && src[j] != '*',
    ensures
        comment_end(src, i, depth) == comment_end(src, i + n, depth),
    decreases n,
{
    if n > 0 {
        assert(src[i] != '/' && src[i] != '*');
        lemma_harmless(src, i + 1, n - 1, depth);
    }
}

/// Passing over a remark leaves the nesting as it was.
proof fn lemma_remark(src: Seq<char>, i: int, depth: nat, r: Remark)
    requires
        depth > 0,
        0 <= i,
        remark_fits(r),
        i + remark_text(r).len() <= src.len(),
        src.subrange(i, i + remark_text(r).len()) == remark_text(r),
    ensures
        comment_end(src, i, depth) == comment_end(src, i + remark_text(r).len(), depth),
    decreases r, 0int,
{
    let t = remark_text(r);
    assert forall|j: int| 0 <= j < t.len() implies src[i + j] == #[trigger] t[j] by {
        assert(src.subrange(i, i + t.len())[j] == src[i + j]);
    }
    match r {
        Remark::Text(s) => {
            assert forall|j: int| i <= j < i + s.len() implies #[trigger] src[j] != '/' && src[j]
                != '*' by {
                assert(src[i + (j - i)] == s[j - i]);
            }
            lemma_harmless(src, i, s.len() as int, depth);
        },
        Remark::Inner(list) => {
            let inner = remarks_text(list, 0);
            assert(t == seq!['/', '*'] + inner + seq!['*', '/']);
            assert(src[i + 0] == t[0] && src[i + 1] == t[1]);
            assert(pair_at(src, i, '/', '*'));
            let a = i + 2;
            let b = a + inner.len();
            let opening = seq!['/', '*'];
            let closing = seq!['*', '/'];
            assert(t =~= opening + (inner + closing));
            lemma_parts(src, i, opening, inner + closing);
            lemma_parts(src, a, inner, closing);
            lemma_remarks(src, a, depth + 1, list, 0);
            assert(src[i + (2 + inner.len())] == t[(2 + inner.len()) as int]);
            assert(src[i + (3 + inner.len())] == t[(3 + inner.len()) as int]);
            assert(pair_at(src, b, '*', '/'));
            assert(!pair_at(src, b, '/', '*'));
        },
    }
}

proof fn lemma_remarks(src: Seq<char>, i: int, depth: nat, list: Seq<Remark>, n: int)
    requires
        depth > 0,
        0 <= i,
        0 <= n,
        forall|j: int| 0 <= j < list.len() ==> remark_fits(#[trigger] list[j]),
        i + remarks_text(list, n).len() <= src.len(),
        src.subrange(i, i + remarks_text(list, n).len()) == remarks_text(list, n),
    ensures
        comment_end(src, i, depth) == comment_end(src, i + remarks_text(list, n).len(), depth),
    decreases list, list.len() - n,
{
    if n < list.len() {
        let t = remark_text(list[n]);
        let more = remarks_text(list, n + 1);
        let all = remarks_text(list, n);
        assert(all == t + more);
        assert(remark_fits(list[n]));
        lemma_parts(src, i, t, more);
        lemma_remark(src, i, depth, list[n]);
        lemma_remarks(src, i + t.len(), depth, list, n + 1);
    }
}

/// A comment is passed over whole, with the comments in it.
pub proof fn lemma_comments_are_skipped(before: Seq<char>, list: Seq<Remark>, after: Seq<char>)
    requires
        forall|j: int| 0 <= j < list.len() ==> remark_fits(#[trigger] list[j]),
    ensures
        ({
            let text = remark_text(Remark::Inner(list));
            step(before + text + after, before.len() as int) == Step::Skip(
                (before.len() + text.len()) as int,
            )
        }),
{
    let inner = remarks_text(list, 0);
    let text = remark_text(Remark::Inner(list));
    let src = before + text + after;
    let i = before.len() as int;
    assert(text == seq!['/', '*'] + inner + seq!['*', '/']);
    assert(src[i] == text[0] && src[i + 1] == text[1]);
    let a = i + 2;
    let b = a + inner.len();
    assert(src.subrange(a, b) =~= inner);
    lemma_remarks(src, a, 1, list, 0);
    assert(src[b] == text[(2 + inner.len()) as int]);
    assert(src[b + 1] == text[(3 + inner.len()) as int]);
    assert(pair_at(src, b, '*', '/'));
    assert(!pair_at(src, b, '/', '*'));
    assert(comment_end(src, b, 1) == comment_end(src, b + 2, 0));
    assert(comment_end(src, b + 2, 0) == Some(b + 2));
}

} // verus!
