//! Source text to tokens.
//!
//! The rules come first, as functions from the text and a position in it to
//! what stands there. The lexer itself follows: it walks the text left to
//! right, never looks more than two characters ahead, and never backtracks.
//!
//! Positions inside the lexer count characters; spans count bytes. All of
//! honey's tokens are ASCII, so a wider character shows up only inside string
//! literals and comments, and as an `UnexpectedChar` error.

use crate::text::{
    chars_of, lemma_offset_monotone, lemma_offset_total, offset, same, width, width_of,
};
use crate::token::{toks, Kind, LexError, LexErrorKind, Span, Tok, Token, TokenKind};
use vstd::prelude::*;

verus! {

// ------------------------------------------------------ character classes

pub open spec fn is_space(c: char) -> bool {
    c == ' ' || c == '\t' || c == '\n' || c == '\r'
}

/// A letter or `_`: what a word starts with.
pub open spec fn is_word_start(c: char) -> bool {
    ||| 'a' as u32 <= c as u32 <= 'z' as u32
    ||| 'A' as u32 <= c as u32 <= 'Z' as u32
    ||| c == '_'
}

pub open spec fn is_dec_digit(c: char) -> bool {
    '0' as u32 <= c as u32 <= '9' as u32
}

/// What a digit counts for, in any radix up to 16; 99 for anything else.
pub open spec fn digit_value(c: char) -> int {
    if '0' as u32 <= c as u32 <= '9' as u32 {
        c as u32 - '0' as u32
    } else if 'a' as u32 <= c as u32 <= 'f' as u32 {
        c as u32 - 'a' as u32 + 10
    } else if 'A' as u32 <= c as u32 <= 'F' as u32 {
        c as u32 - 'A' as u32 + 10
    } else {
        99
    }
}

/// The runs of characters that the lexer takes in one go.
#[derive(Debug, Clone, Copy, PartialEq, Eq, Structural)]
pub enum Class {
    /// Letters, digits and `_`.
    Word,
    /// Digits of a radix, and `_`.
    Digits(u32),
    /// Anything up to the end of the line.
    Line,
}

pub open spec fn in_class(class: Class, c: char) -> bool {
    match class {
        Class::Word => is_word_start(c) || is_dec_digit(c),
        Class::Digits(radix) => c == '_' || digit_value(c) < radix,
        Class::Line => c != '\n',
    }
}

/// Where the run of `class` that starts at `i` ends.
pub open spec fn run_end(src: Seq<char>, i: int, class: Class) -> int
    decreases src.len() - i,
{
    if i < src.len() && in_class(class, src[i]) {
        run_end(src, i + 1, class)
    } else {
        i
    }
}

// ------------------------------------------------------------- the rules

/// The keyword table. A word that is not in it is an identifier.
pub open spec fn keyword_of(word: Seq<char>) -> Option<TokenKind> {
    if word == "probe"@ {
        Some(TokenKind::Probe)
    } else if word == "map"@ {
        Some(TokenKind::MapKw)
    } else if word == "event"@ {
        Some(TokenKind::Event)
    } else if word == "const"@ {
        Some(TokenKind::Const)
    } else if word == "let"@ {
        Some(TokenKind::Let)
    } else if word == "mut"@ {
        Some(TokenKind::Mut)
    } else if word == "if"@ {
        Some(TokenKind::If)
    } else if word == "else"@ {
        Some(TokenKind::Else)
    } else if word == "for"@ {
        Some(TokenKind::For)
    } else if word == "in"@ {
        Some(TokenKind::In)
    } else if word == "emit"@ {
        Some(TokenKind::Emit)
    } else if word == "return"@ {
        Some(TokenKind::Return)
    } else if word == "true"@ {
        Some(TokenKind::True)
    } else if word == "false"@ {
        Some(TokenKind::False)
    } else if word == "as"@ {
        Some(TokenKind::As)
    } else if word == "fn"@ {
        Some(TokenKind::Fn)
    } else if word == "struct"@ {
        Some(TokenKind::Struct)
    } else if word == "match"@ {
        Some(TokenKind::Match)
    } else if word == "while"@ {
        Some(TokenKind::While)
    } else if word == "break"@ {
        Some(TokenKind::Break)
    } else if word == "continue"@ {
        Some(TokenKind::Continue)
    } else {
        None
    }
}

/// The token that a whole word is.
pub open spec fn word_kind(word: Seq<char>) -> Kind {
    match keyword_of(word) {
        Some(k) => Kind::Fixed(k),
        None => Kind::Ident(word),
    }
}

/// Tokens of one character.
pub open spec fn punct_one(c: char) -> Option<TokenKind> {
    if c == '(' {
        Some(TokenKind::LParen)
    } else if c == ')' {
        Some(TokenKind::RParen)
    } else if c == '{' {
        Some(TokenKind::LBrace)
    } else if c == '}' {
        Some(TokenKind::RBrace)
    } else if c == '[' {
        Some(TokenKind::LBracket)
    } else if c == ']' {
        Some(TokenKind::RBracket)
    } else if c == ',' {
        Some(TokenKind::Comma)
    } else if c == ';' {
        Some(TokenKind::Semi)
    } else if c == ':' {
        Some(TokenKind::Colon)
    } else if c == '.' {
        Some(TokenKind::Dot)
    } else if c == '=' {
        Some(TokenKind::Eq)
    } else if c == '!' {
        Some(TokenKind::Bang)
    } else if c == '<' {
        Some(TokenKind::Lt)
    } else if c == '>' {
        Some(TokenKind::Gt)
    } else if c == '+' {
        Some(TokenKind::Plus)
    } else if c == '-' {
        Some(TokenKind::Minus)
    } else if c == '*' {
        Some(TokenKind::Star)
    } else if c == '/' {
        Some(TokenKind::Slash)
    } else if c == '%' {
        Some(TokenKind::Percent)
    } else if c == '&' {
        Some(TokenKind::Amp)
    } else if c == '|' {
        Some(TokenKind::Pipe)
    } else if c == '^' {
        Some(TokenKind::Caret)
    } else if c == '~' {
        Some(TokenKind::Tilde)
    } else {
        None
    }
}

/// Tokens of two characters.
pub open spec fn punct_two(c: char, d: char) -> Option<TokenKind> {
    if c == ':' && d == ':' {
        Some(TokenKind::ColonColon)
    } else if c == '.' && d == '.' {
        Some(TokenKind::DotDot)
    } else if c == '-' && d == '>' {
        Some(TokenKind::Arrow)
    } else if c == '=' && d == '=' {
        Some(TokenKind::EqEq)
    } else if c == '!' && d == '=' {
        Some(TokenKind::BangEq)
    } else if c == '<' && d == '=' {
        Some(TokenKind::LtEq)
    } else if c == '<' && d == '<' {
        Some(TokenKind::Shl)
    } else if c == '>' && d == '=' {
        Some(TokenKind::GtEq)
    } else if c == '>' && d == '>' {
        Some(TokenKind::Shr)
    } else if c == '&' && d == '&' {
        Some(TokenKind::AmpAmp)
    } else if c == '|' && d == '|' {
        Some(TokenKind::PipePipe)
    } else {
        None
    }
}

/// Whether `c` and `d` stand at `i` and behind it.
pub open spec fn pair_at(src: Seq<char>, i: int, c: char, d: char) -> bool {
    i + 1 < src.len() && src[i] == c && src[i + 1] == d
}

/// The end of a block comment, from inside it at nesting `depth`, if it has
/// one.
pub open spec fn comment_end(src: Seq<char>, i: int, depth: nat) -> Option<int>
    decreases src.len() - i,
{
    if depth == 0 {
        Some(i)
    } else if i >= src.len() {
        None
    } else if pair_at(src, i, '/', '*') {
        comment_end(src, i + 2, depth + 1)
    } else if pair_at(src, i, '*', '/') {
        comment_end(src, i + 2, (depth - 1) as nat)
    } else {
        comment_end(src, i + 1, depth)
    }
}

/// The number that a run of digits denotes; `_` only separates.
pub open spec fn numeral(s: Seq<char>, radix: int) -> int
    decreases s.len(),
{
    if s.len() == 0 {
        0
    } else if s.last() == '_' {
        numeral(s.drop_last(), radix)
    } else {
        numeral(s.drop_last(), radix) * radix + digit_value(s.last())
    }
}

/// Whether a run of digits holds anything but separators.
pub open spec fn has_digit(s: Seq<char>) -> bool
    decreases s.len(),
{
    s.len() > 0 && (s.last() != '_' || has_digit(s.drop_last()))
}

/// The radix of the integer literal at `i`.
pub open spec fn radix_at(src: Seq<char>, i: int) -> u32 {
    if pair_at(src, i, '0', 'x') {
        16
    } else if pair_at(src, i, '0', 'b') {
        2
    } else if pair_at(src, i, '0', 'o') {
        8
    } else {
        10
    }
}

/// The character that an escape of one letter stands for.
pub open spec fn simple_escape(c: char) -> Option<char> {
    if c == 'n' {
        Some('\n')
    } else if c == 't' {
        Some('\t')
    } else if c == 'r' {
        Some('\r')
    } else if c == '\\' {
        Some('\\')
    } else if c == '"' {
        Some('"')
    } else if c == '0' {
        Some('\0')
    } else {
        None
    }
}

pub open spec fn is_hex(c: char) -> bool {
    digit_value(c) < 16
}

/// What reading a string literal to its end gives.
pub enum Scan {
    /// The decoded text, and the position past the closing quote.
    Done(Seq<char>, int),
    /// What is wrong, and from where to where.
    Fail(LexErrorKind, int, int),
}

/// Read the string literal that opened at `open`, from `i` on, behind the
/// text decoded so far.
pub open spec fn scan(src: Seq<char>, open: int, i: int, value: Seq<char>) -> Scan
    decreases src.len() - i,
{
    if i >= src.len() {
        Scan::Fail(LexErrorKind::UnterminatedString, open, src.len() as int)
    } else if src[i] == '"' {
        Scan::Done(value, i + 1)
    } else if src[i] != '\\' {
        scan(src, open, i + 1, value.push(src[i]))
    } else if i + 1 >= src.len() {
        Scan::Fail(LexErrorKind::InvalidEscape, i, src.len() as int)
    } else if src[i + 1] == 'x' {
        if i + 3 < src.len() && is_hex(src[i + 2]) && is_hex(src[i + 3]) {
            let c = (digit_value(src[i + 2]) * 16 + digit_value(src[i + 3])) as char;
            scan(src, open, i + 4, value.push(c))
        } else {
            Scan::Fail(LexErrorKind::InvalidEscape, i, i + 2)
        }
    } else {
        match simple_escape(src[i + 1]) {
            Some(c) => scan(src, open, i + 2, value.push(c)),
            None => Scan::Fail(LexErrorKind::InvalidEscape, i, i + 2),
        }
    }
}

/// What stands at one position of the text.
pub enum Step {
    /// White space or a comment, up to the given position.
    Skip(int),
    /// A token, up to the given position.
    Token(Kind, int),
    /// An error, from one position to another.
    Fail(LexErrorKind, int, int),
}

/// The integer literal at `i`.
pub open spec fn number_step(src: Seq<char>, i: int) -> Step {
    let radix = radix_at(src, i);
    let start = if radix == 10 { i } else { i + 2 };
    let end = run_end(src, start, Class::Digits(radix));
    let digits = src.subrange(start, end);
    let value = numeral(digits, radix as int);
    if has_digit(digits) && value <= u64::MAX {
        Step::Token(Kind::Int(value as u64), end)
    } else {
        Step::Fail(LexErrorKind::IntegerOverflow, i, end)
    }
}

/// The string literal at `i`.
pub open spec fn string_step(src: Seq<char>, i: int) -> Step {
    match scan(src, i, i + 1, Seq::empty()) {
        Scan::Done(value, end) => Step::Token(Kind::Str(value), end),
        Scan::Fail(kind, from, to) => Step::Fail(kind, from, to),
    }
}

/// The punctuation at `i`: the longest match wins.
pub open spec fn punct_step(src: Seq<char>, i: int) -> Step {
    if i + 1 < src.len() && punct_two(src[i], src[i + 1]) is Some {
        Step::Token(Kind::Fixed(punct_two(src[i], src[i + 1])->0), i + 2)
    } else {
        match punct_one(src[i]) {
            Some(k) => Step::Token(Kind::Fixed(k), i + 1),
            None => Step::Fail(LexErrorKind::UnexpectedChar(src[i]), i, i + 1),
        }
    }
}

/// What stands at `i`.
pub open spec fn step(src: Seq<char>, i: int) -> Step {
    if is_space(src[i]) {
        Step::Skip(i + 1)
    } else if pair_at(src, i, '/', '/') {
        Step::Skip(run_end(src, i, Class::Line))
    } else if pair_at(src, i, '/', '*') {
        match comment_end(src, i + 2, 1) {
            Some(end) => Step::Skip(end),
            None => Step::Fail(LexErrorKind::UnterminatedComment, i, src.len() as int),
        }
    } else if is_word_start(src[i]) {
        let end = run_end(src, i, Class::Word);
        Step::Token(word_kind(src.subrange(i, end)), end)
    } else if is_dec_digit(src[i]) {
        number_step(src, i)
    } else if src[i] == '"' {
        string_step(src, i)
    } else {
        punct_step(src, i)
    }
}

/// The bytes from character `i` to character `j`.
pub open spec fn span_of(src: Seq<char>, i: int, j: int) -> Span {
    Span { start: offset(src, i) as usize, end: offset(src, j) as usize }
}

/// `first` and then what `rest` holds, unless `rest` is an error.
pub open spec fn prefixed(first: Seq<Tok>, rest: Result<Seq<Tok>, LexError>) -> Result<
    Seq<Tok>,
    LexError,
> {
    match rest {
        Ok(r) => Ok(first + r),
        Err(e) => Err(e),
    }
}

/// The tokens from position `i` to the end of the text, or the first error.
pub open spec fn lex_from(src: Seq<char>, i: int) -> Result<Seq<Tok>, LexError>
    decreases src.len() - i,
{
    if i >= src.len() {
        let end = src.len() as int;
        Ok(seq![Tok { kind: Kind::Fixed(TokenKind::Eof), span: span_of(src, end, end) }])
    } else {
        match step(src, i) {
            Step::Fail(kind, from, to) => Err(LexError { kind, span: span_of(src, from, to) }),
            Step::Skip(j) => if i < j <= src.len() {
                lex_from(src, j)
            } else {
                arbitrary()
            },
            Step::Token(kind, j) => if i < j <= src.len() {
                prefixed(seq![Tok { kind, span: span_of(src, i, j) }], lex_from(src, j))
            } else {
                arbitrary()
            },
        }
    }
}

/// The tokens of a text, or the first error in it.
pub open spec fn tokens_of(src: Seq<char>) -> Result<Seq<Tok>, LexError> {
    lex_from(src, 0)
}

// ------------------------------------------------- how far the rules reach

pub proof fn lemma_run_end(src: Seq<char>, i: int, class: Class)
    requires
        0 <= i <= src.len(),
    ensures
        i <= run_end(src, i, class) <= src.len(),
        i < src.len() && in_class(class, src[i]) ==> i < run_end(src, i, class),
        forall|k: int| i <= k < run_end(src, i, class) ==> in_class(class, #[trigger] src[k]),
    decreases src.len() - i,
{
    if i < src.len() && in_class(class, src[i]) {
        lemma_run_end(src, i + 1, class);
    }
}

pub proof fn lemma_comment_end(src: Seq<char>, i: int, depth: nat)
    requires
        0 <= i <= src.len(),
    ensures
        comment_end(src, i, depth) matches Some(j) ==> i <= j <= src.len(),
    decreases src.len() - i,
{
    if depth > 0 && i < src.len() {
        if pair_at(src, i, '/', '*') {
            lemma_comment_end(src, i + 2, depth + 1);
        } else if pair_at(src, i, '*', '/') {
            lemma_comment_end(src, i + 2, (depth - 1) as nat);
        } else {
            lemma_comment_end(src, i + 1, depth);
        }
    }
}

pub proof fn lemma_scan(src: Seq<char>, open: int, i: int, value: Seq<char>)
    requires
        0 <= i <= src.len(),
    ensures
        scan(src, open, i, value) matches Scan::Done(_, j) ==> i < j <= src.len(),
    decreases src.len() - i,
{
    if i < src.len() {
        if src[i] == '"' {
        } else if src[i] != '\\' {
            lemma_scan(src, open, i + 1, value.push(src[i]));
        } else if i + 1 >= src.len() {
        } else if src[i + 1] == 'x' {
            if i + 3 < src.len() {
                let c = (digit_value(src[i + 2]) * 16 + digit_value(src[i + 3])) as char;
                lemma_scan(src, open, i + 4, value.push(c));
            }
        } else if simple_escape(src[i + 1]) is Some {
            lemma_scan(src, open, i + 2, value.push(simple_escape(src[i + 1])->0));
        }
    }
}

/// Every step moves forward and stays inside the text.
pub proof fn lemma_step_moves(src: Seq<char>, i: int)
    requires
        0 <= i < src.len(),
    ensures
        step(src, i) matches Step::Skip(j) ==> i < j <= src.len(),
        step(src, i) matches Step::Token(_, j) ==> i < j <= src.len(),
{
    lemma_run_end(src, i, Class::Line);
    lemma_run_end(src, i, Class::Word);
    if pair_at(src, i, '/', '*') {
        lemma_comment_end(src, i + 2, 1);
    }
    lemma_scan(src, i, i + 1, Seq::empty());
    let radix = radix_at(src, i);
    lemma_run_end(src, if radix == 10 { i } else { i + 2 }, Class::Digits(radix));
}

// ----------------------------------------------- what every result is like

/// A stream of tokens that ends in `Eof` and has no other: every token before
/// it covers at least a byte, and a `>>` covers two.
pub open spec fn sound(tokens: Seq<Tok>) -> bool {
    &&& tokens.len() > 0
    &&& forall|i: int|
        0 <= i < tokens.len() ==> {
            let t = #[trigger] tokens[i];
            if i == tokens.len() - 1 {
                t.kind == Kind::Fixed(TokenKind::Eof)
            } else {
                &&& t.kind != Kind::Fixed(TokenKind::Eof)
                &&& t.span.start < t.span.end
                &&& t.kind == Kind::Fixed(TokenKind::Shr) ==> t.span.start + 2 <= t.span.end
            }
        }
}

/// A step never gives the end of input, and gives `>>` only for two
/// characters.
proof fn lemma_step_kind(src: Seq<char>, i: int)
    requires
        0 <= i < src.len(),
    ensures
        step(src, i) matches Step::Token(kind, j) ==> {
            &&& kind != Kind::Fixed(TokenKind::Eof)
            &&& kind == Kind::Fixed(TokenKind::Shr) ==> j == i + 2
        },
{
}

proof fn lemma_lex_from_sound(src: Seq<char>, i: int)
    requires
        0 <= i <= src.len(),
        offset(src, src.len() as int) <= usize::MAX,
    ensures
        lex_from(src, i) matches Ok(tokens) ==> sound(tokens),
    decreases src.len() - i,
{
    if i < src.len() {
        lemma_step_moves(src, i);
        lemma_step_kind(src, i);
        match step(src, i) {
            Step::Skip(j) => lemma_lex_from_sound(src, j),
            Step::Token(kind, j) => {
                lemma_lex_from_sound(src, j);
                lemma_offset_monotone(src, i, j);
                lemma_offset_monotone(src, j, src.len() as int);
                if let Ok(rest) = lex_from(src, j) {
                    let first = Tok { kind, span: span_of(src, i, j) };
                    let all = seq![first] + rest;
                    assert forall|k: int| 0 <= k < all.len() implies {
                        let t = #[trigger] all[k];
                        if k == all.len() - 1 {
                            t.kind == Kind::Fixed(TokenKind::Eof)
                        } else {
                            &&& t.kind != Kind::Fixed(TokenKind::Eof)
                            &&& t.span.start < t.span.end
                            &&& t.kind == Kind::Fixed(TokenKind::Shr) ==> t.span.start + 2
                                <= t.span.end
                        }
                    } by {
                        if k > 0 {
                            assert(all[k] == rest[k - 1]);
                        }
                    }
                }
            },
            Step::Fail(..) => {},
        }
    }
}

/// The tokens of a text whose byte positions fit are a sound stream.
pub proof fn lemma_tokens_sound(src: Seq<char>)
    requires
        offset(src, src.len() as int) <= usize::MAX,
    ensures
        tokens_of(src) matches Ok(tokens) ==> sound(tokens),
{
    lemma_lex_from_sound(src, 0);
}

// ------------------------------------------------------------- the lexer

/// Tokenize `src`. On success the tokens end with `Eof`; on failure the first
/// error is returned.
pub fn lex(src: &str) -> (r: Result<Vec<Token>, LexError>)
    ensures
        match r {
            Ok(tokens) => tokens_of(src@) == Ok::<Seq<Tok>, LexError>(toks(tokens@)),
            Err(e) => tokens_of(src@) == Err::<Seq<Tok>, LexError>(e),
        },
        offset(src@, src@.len() as int) <= usize::MAX,
{
    let bytes: &[u8] = src.as_bytes();
    let total: usize = bytes.len();
    let chars = chars_of(src);
    proof {
        lemma_offset_total(src@);
    }
    let mut lexer = Lexer { chars, at: 0, pos: 0, tokens: Vec::new() };
    match lexer.run(total) {
        Ok(()) => Ok(lexer.tokens),
        Err(e) => Err(e),
    }
}

/// The lexer's whole state: the text, how far it has been read in characters
/// and in bytes, and the tokens so far.
struct Lexer {
    chars: Vec<char>,
    at: usize,
    pos: usize,
    tokens: Vec<Token>,
}

impl Lexer {
    /// The byte position is that of the next character, and every byte
    /// position in the text fits.
    spec fn wf(self) -> bool {
        &&& self.at <= self.chars@.len()
        &&& self.pos == offset(self.chars@, self.at as int)
        &&& offset(self.chars@, self.chars@.len() as int) <= usize::MAX
    }

    /// Nothing but the position differs.
    spec fn moved(self, from: Self) -> bool {
        &&& self.wf()
        &&& self.chars == from.chars
        &&& self.tokens == from.tokens
        &&& from.at <= self.at
    }

    // ------------------------------------------------------------ cursor

    /// The next unread character, without consuming it.
    fn peek(&self) -> (r: Option<char>)
        requires
            self.wf(),
        ensures
            r == (if self.at < self.chars@.len() {
                Some(self.chars@[self.at as int])
            } else {
                None
            }),
    {
        if self.at < self.chars.len() {
            Some(self.chars[self.at])
        } else {
            None
        }
    }

    /// The character after `peek()`, without consuming anything.
    fn peek_second(&self) -> (r: Option<char>)
        requires
            self.wf(),
        ensures
            r == (if self.at + 1 < self.chars@.len() {
                Some(self.chars@[self.at + 1])
            } else {
                None
            }),
    {
        if self.at < self.chars.len() && self.chars.len() - self.at > 1 {
            Some(self.chars[self.at + 1])
        } else {
            None
        }
    }

    /// Whether the next two characters are `c` and `d`.
    fn at_pair(&self, c: char, d: char) -> (r: bool)
        requires
            self.wf(),
        ensures
            r == pair_at(self.chars@, self.at as int, c, d),
    {
        match (self.peek(), self.peek_second()) {
            (Some(x), Some(y)) => x == c && y == d,
            _ => false,
        }
    }

    /// Consume and return the next character. Advances by its byte width.
    fn bump(&mut self) -> (r: Option<char>)
        requires
            old(self).wf(),
        ensures
            final(self).moved(*old(self)),
            r == (if old(self).at < old(self).chars@.len() {
                Some(old(self).chars@[old(self).at as int])
            } else {
                None
            }),
            final(self).at == (if old(self).at < old(self).chars@.len() {
                old(self).at + 1
            } else {
                old(self).at as int
            }),
    {
        if self.at < self.chars.len() {
            let c = self.chars[self.at];
            proof {
                let len = self.chars@.len() as int;
                lemma_offset_monotone(self.chars@, self.at + 1, len);
                assert(offset(self.chars@, self.at + 1) == self.pos + width(c));
            }
            self.pos = self.pos + width_of(c);
            self.at = self.at + 1;
            Some(c)
        } else {
            None
        }
    }

    /// Keep consuming while the characters are of `class`.
    fn bump_while(&mut self, class: Class)
        requires
            old(self).wf(),
        ensures
            final(self).moved(*old(self)),
            final(self).at == run_end(old(self).chars@, old(self).at as int, class),
    {
        let ghost before = *self;
        while self.at < self.chars.len() && class_holds(class, self.chars[self.at])
            invariant
                self.moved(before),
                run_end(before.chars@, self.at as int, class) == run_end(
                    before.chars@,
                    before.at as int,
                    class,
                ),
            decreases self.chars@.len() - self.at,
        {
            let _ = self.bump();
        }
    }

    // ------------------------------------------------------------ output

    /// The characters from `from` to the cursor.
    fn text_from(&self, from: usize) -> (r: String)
        requires
            self.wf(),
            from <= self.at,
        ensures
            r@ == self.chars@.subrange(from as int, self.at as int),
    {
        let mut s = String::new();
        let mut i: usize = from;
        while i < self.at
            invariant
                from <= i <= self.at <= self.chars@.len(),
                s@ == self.chars@.subrange(from as int, i as int),
            decreases self.at - i,
        {
            s.push(self.chars[i]);
            i += 1;
        }
        s
    }

    /// Record a token that started at byte `start` and ends at the cursor.
    fn push(&mut self, kind: TokenKind, start: usize, Ghost(from): Ghost<int>)
        requires
            old(self).wf(),
            0 <= from <= old(self).at,
            start == offset(old(self).chars@, from),
        ensures
            final(self).wf(),
            final(self).chars == old(self).chars,
            final(self).at == old(self).at,
            toks(final(self).tokens@) == toks(old(self).tokens@).push(
                Tok { kind: kind@, span: span_of(old(self).chars@, from, old(self).at as int) },
            ),
    {
        let t = Token { kind, span: Span::new(start, self.pos) };
        self.tokens.push(t);
        assert(toks(self.tokens@) =~= toks(old(self).tokens@).push(t@));
    }

    /// Build an error whose span runs from `start` to the cursor.
    fn error(&self, kind: LexErrorKind, start: usize) -> (r: LexError)
        ensures
            r == (LexError { kind, span: Span { start, end: self.pos } }),
    {
        LexError { kind, span: Span::new(start, self.pos) }
    }

    // --------------------------------------------------------- main loop

    /// What one step has to do to the state: `from` is where it began.
    spec fn did_step(self, from: Self, r: Result<(), LexError>) -> bool {
        let src = from.chars@;
        let i = from.at as int;
        match step(src, i) {
            Step::Skip(j) => r is Ok && self.moved(from) && self.at == j,
            Step::Token(kind, j) => {
                &&& r is Ok
                &&& self.wf()
                &&& self.chars == from.chars
                &&& self.at == j
                &&& toks(self.tokens@) == toks(from.tokens@).push(
                    Tok { kind, span: span_of(src, i, j) },
                )
            },
            Step::Fail(kind, a, b) => r == Err::<(), LexError>(
                LexError { kind, span: span_of(src, a, b) },
            ),
        }
    }

    /// Take every step up to the end of the text.
    fn run(&mut self, total: usize) -> (r: Result<(), LexError>)
        requires
            old(self).wf(),
            old(self).at == 0,
            old(self).tokens@.len() == 0,
            total == offset(old(self).chars@, old(self).chars@.len() as int),
        ensures
            match r {
                Ok(()) => tokens_of(old(self).chars@) == Ok::<Seq<Tok>, LexError>(
                    toks(final(self).tokens@),
                ),
                Err(e) => tokens_of(old(self).chars@) == Err::<Seq<Tok>, LexError>(e),
            },
    {
        let ghost src = self.chars@;
        proof {
            assert(toks(self.tokens@) + Seq::<Tok>::empty() =~= Seq::empty());
            match lex_from(src, 0) {
                Ok(m) => assert(toks(self.tokens@) + m =~= m),
                Err(_) => {},
            }
        }
        while self.at < self.chars.len()
            invariant
                self.wf(),
                self.chars@ == src,
                src == old(self).chars@,
                lex_from(src, 0) == prefixed(
                    toks(self.tokens@),
                    lex_from(src, self.at as int),
                ),
            decreases self.chars@.len() - self.at,
        {
            let ghost before = *self;
            proof {
                lemma_step_moves(src, self.at as int);
            }
            let r = self.take_step();
            match r {
                Ok(()) => {
                    proof {
                        if let Step::Token(kind, j) = step(src, before.at as int) {
                            let t = Tok { kind, span: span_of(src, before.at as int, j) };
                            match lex_from(src, j) {
                                Ok(rest) => {
                                    assert(toks(before.tokens@) + (seq![t] + rest) =~= toks(
                                        before.tokens@,
                                    ).push(t) + rest);
                                },
                                Err(_) => {},
                            }
                        }
                    }
                },
                Err(e) => {
                    return Err(e);
                },
            }
        }
        let ghost before = toks(self.tokens@);
        let t = Token { kind: TokenKind::Eof, span: Span::new(total, total) };
        self.tokens.push(t);
        assert(toks(self.tokens@) =~= before + seq![t@]);
        Ok(())
    }

    /// Read what stands at the cursor.
    fn take_step(&mut self) -> (r: Result<(), LexError>)
        requires
            old(self).wf(),
            old(self).at < old(self).chars@.len(),
        ensures
            final(self).did_step(*old(self), r),
    {
        let c = self.chars[self.at];
        if space(c) {
            let _ = self.bump();
            Ok(())
        } else if self.at_pair('/', '/') {
            self.skip_line_comment();
            Ok(())
        } else if self.at_pair('/', '*') {
            self.skip_block_comment()
        } else if word_start(c) {
            self.lex_ident_or_keyword();
            Ok(())
        } else if dec_digit(c) {
            self.lex_number()
        } else if c == '"' {
            self.lex_string()
        } else {
            self.lex_punctuation()
        }
    }

    // ---------------------------------------------------------- comments

    /// Everything up to the end of the line. The newline itself is left for
    /// the next step.
    fn skip_line_comment(&mut self)
        requires
            old(self).wf(),
        ensures
            final(self).moved(*old(self)),
            final(self).at == run_end(old(self).chars@, old(self).at as int, Class::Line),
    {
        self.bump_while(Class::Line);
    }

    /// `/* ... */`, nesting allowed.
    fn skip_block_comment(&mut self) -> (r: Result<(), LexError>)
        requires
            old(self).wf(),
            pair_at(old(self).chars@, old(self).at as int, '/', '*'),
            !is_space('/'),
        ensures
            final(self).did_step(*old(self), r),
    {
        let ghost src = self.chars@;
        let ghost from = self.at as int;
        let ghost before = *self;
        let start: usize = self.pos;
        let _ = self.bump();
        let _ = self.bump();
        let mut depth: usize = 1;
        while depth > 0
            invariant
                self.moved(before),
                before == *old(self),
                self.chars@ == src,
                start == offset(src, from),
                from == before.at,
                src == before.chars@,
                from + 2 <= self.at,
                depth <= self.at,
                pair_at(src, from, '/', '*'),
                comment_end(src, from + 2, 1) == comment_end(src, self.at as int, depth as nat),
            decreases src.len() - self.at, depth,
        {
            if self.at >= self.chars.len() {
                return Err(self.error(LexErrorKind::UnterminatedComment, start));
            }
            if self.at_pair('/', '*') {
                let _ = self.bump();
                let _ = self.bump();
                depth += 1;
            } else if self.at_pair('*', '/') {
                let _ = self.bump();
                let _ = self.bump();
                depth -= 1;
            } else {
                let _ = self.bump();
            }
        }
        Ok(())
    }

    // ------------------------------------------------ identifiers/keywords

    fn lex_ident_or_keyword(&mut self)
        requires
            old(self).wf(),
            old(self).at < old(self).chars@.len(),
            is_word_start(old(self).chars@[old(self).at as int]),
        ensures
            final(self).did_step(*old(self), Ok(())),
    {
        let ghost from = self.at as int;
        let from_at: usize = self.at;
        let start: usize = self.pos;
        proof {
            lemma_run_end(self.chars@, from, Class::Word);
        }
        self.bump_while(Class::Word);
        let word = self.text_from(from_at);
        match keyword(word.as_str()) {
            Some(kind) => self.push(kind, start, Ghost(from)),
            None => self.push(TokenKind::Ident(word), start, Ghost(from)),
        }
    }

    // ----------------------------------------------------------- numbers

    fn lex_number(&mut self) -> (r: Result<(), LexError>)
        requires
            old(self).wf(),
            old(self).at < old(self).chars@.len(),
            is_dec_digit(old(self).chars@[old(self).at as int]),
        ensures
            final(self).did_step(*old(self), r),
    {
        let ghost from = self.at as int;
        let start: usize = self.pos;
        // An optional 0x / 0b / 0o prefix picks the radix.
        let radix: u32 = if self.at_pair('0', 'x') {
            16
        } else if self.at_pair('0', 'b') {
            2
        } else if self.at_pair('0', 'o') {
            8
        } else {
            10
        };
        if radix != 10 {
            let _ = self.bump();
            let _ = self.bump();
        }
        let digits_at: usize = self.at;
        proof {
            lemma_run_end(self.chars@, digits_at as int, Class::Digits(radix));
        }
        self.bump_while(Class::Digits(radix));
        match value_of(&self.chars, digits_at, self.at, radix) {
            Some(value) => {
                self.push(TokenKind::Int(value), start, Ghost(from));
                Ok(())
            },
            None => Err(self.error(LexErrorKind::IntegerOverflow, start)),
        }
    }

    // ----------------------------------------------------------- strings

    /// `"..."` with escapes decoded.
    fn lex_string(&mut self) -> (r: Result<(), LexError>)
        requires
            old(self).wf(),
            old(self).at < old(self).chars@.len(),
            old(self).chars@[old(self).at as int] == '"',
        ensures
            final(self).did_step(*old(self), r),
    {
        let ghost src = self.chars@;
        let ghost from = self.at as int;
        let ghost before = *self;
        let start: usize = self.pos;
        let _ = self.bump();
        let mut value = String::new();
        while self.at < self.chars.len() && self.chars[self.at] != '"'
            invariant
                self.moved(before),
                before == *old(self),
                self.chars@ == src,
                before.chars@ == src,
                from == before.at,
                from < src.len(),
                src[from] == '"',
                start == offset(src, from),
                scan(src, from, from + 1, Seq::empty()) == scan(
                    src,
                    from,
                    self.at as int,
                    value@,
                ),
            decreases src.len() - self.at,
        {
            let c = self.chars[self.at];
            if c == '\\' {
                match self.lex_escape() {
                    Ok(decoded) => {
                        value.push(decoded);
                    },
                    Err(e) => {
                        return Err(e);
                    },
                }
            } else {
                let _ = self.bump();
                value.push(c);
            }
        }
        if self.at >= self.chars.len() {
            return Err(self.error(LexErrorKind::UnterminatedString, start));
        }
        let _ = self.bump();
        self.push(TokenKind::Str(value), start, Ghost(from));
        Ok(())
    }

    /// The escape at the cursor: the character it stands for, or an error over
    /// the backslash and the character behind it.
    fn lex_escape(&mut self) -> (r: Result<char, LexError>)
        requires
            old(self).wf(),
            old(self).at < old(self).chars@.len(),
            old(self).chars@[old(self).at as int] == '\\',
        ensures
            match r {
                Ok(c) => {
                    &&& final(self).moved(*old(self))
                    &&& old(self).at < final(self).at
                    &&& forall|open: int, value: Seq<char>|
                        #![trigger scan(old(self).chars@, open, old(self).at as int, value)]
                        scan(old(self).chars@, open, old(self).at as int, value) == scan(
                            old(self).chars@,
                            open,
                            final(self).at as int,
                            value.push(c),
                        )
                },
                Err(e) => exists|to: int|
                    {
                        &&& e == (LexError {
                            kind: LexErrorKind::InvalidEscape,
                            span: span_of(old(self).chars@, old(self).at as int, to),
                        })
                        &&& forall|open: int, value: Seq<char>|
                            #![trigger scan(old(self).chars@, open, old(self).at as int, value)]
                            scan(old(self).chars@, open, old(self).at as int, value)
                                == Scan::Fail(LexErrorKind::InvalidEscape, old(self).at as int, to)
                    },
            },
    {
        let ghost src = self.chars@;
        let ghost from = self.at as int;
        let start: usize = self.pos;
        let _ = self.bump();
        match self.bump() {
            None => {
                assert(span_of(src, from, src.len() as int).start == start);
                Err(self.error(LexErrorKind::InvalidEscape, start))
            },
            Some('x') => {
                let end: usize = self.pos;
                let ghost to = from + 2;
                match self.lex_hex_escape() {
                    Some(c) => Ok(c),
                    None => {
                        assert(span_of(src, from, to).start == start);
                        Err(LexError { kind: LexErrorKind::InvalidEscape, span: Span::new(start, end) })
                    },
                }
            },
            Some(c) => match unescape(c) {
                Some(d) => Ok(d),
                None => {
                    assert(span_of(src, from, from + 2).start == start);
                    Err(self.error(LexErrorKind::InvalidEscape, start))
                },
            },
        }
    }

    /// The `NN` part of `\xNN`, already past the `x`.
    fn lex_hex_escape(&mut self) -> (r: Option<char>)
        requires
            old(self).wf(),
        ensures
            ({
                let src = old(self).chars@;
                let i = old(self).at as int;
                let good = i + 1 < src.len() && is_hex(src[i]) && is_hex(src[i + 1]);
                match r {
                    Some(c) => {
                        &&& good
                        &&& c == (digit_value(src[i]) * 16 + digit_value(src[i + 1])) as char
                        &&& final(self).moved(*old(self))
                        &&& final(self).at == i + 2
                    },
                    None => !good,
                }
            }),
    {
        let hi = self.bump();
        let lo = self.bump();
        match (hi, lo) {
            (Some(h), Some(l)) => {
                let a: u8 = hex_value(h);
                let b: u8 = hex_value(l);
                if a < 16 && b < 16 {
                    let n: u8 = a * 16 + b;
                    Some(n as char)
                } else {
                    None
                }
            },
            _ => None,
        }
    }

    // ------------------------------------------------------- punctuation

    /// Everything that isn't white space, a word, a number, or a string.
    /// Longest match wins: `==` before `=`, `..` before `.`, and so on.
    fn lex_punctuation(&mut self) -> (r: Result<(), LexError>)
        requires
            old(self).wf(),
            old(self).at < old(self).chars@.len(),
            !is_space(old(self).chars@[old(self).at as int]),
            !pair_at(old(self).chars@, old(self).at as int, '/', '/'),
            !pair_at(old(self).chars@, old(self).at as int, '/', '*'),
            !is_word_start(old(self).chars@[old(self).at as int]),
            !is_dec_digit(old(self).chars@[old(self).at as int]),
            old(self).chars@[old(self).at as int] != '"',
        ensures
            final(self).did_step(*old(self), r),
    {
        let ghost from = self.at as int;
        let start: usize = self.pos;
        let c = self.chars[self.at];
        let two = match self.peek_second() {
            Some(d) => two_char_token(c, d),
            None => None,
        };
        let _ = self.bump();
        match two {
            Some(kind) => {
                let _ = self.bump();
                self.push(kind, start, Ghost(from));
                Ok(())
            },
            None => match one_char_token(c) {
                Some(kind) => {
                    self.push(kind, start, Ghost(from));
                    Ok(())
                },
                None => Err(self.error(LexErrorKind::UnexpectedChar(c), start)),
            },
        }
    }
}

/// The value of the digits between two positions, if there is a digit and the
/// value fits in 64 bits.
fn value_of(chars: &Vec<char>, from: usize, to: usize, radix: u32) -> (r: Option<u64>)
    requires
        from <= to <= chars@.len(),
        radix == 2 || radix == 8 || radix == 10 || radix == 16,
        forall|k: int| from <= k < to ==> in_class(Class::Digits(radix), #[trigger] chars@[k]),
    ensures
        ({
            let digits = chars@.subrange(from as int, to as int);
            let value = numeral(digits, radix as int);
            match r {
                Some(v) => has_digit(digits) && value <= u64::MAX && v == value,
                None => !(has_digit(digits) && value <= u64::MAX),
            }
        }),
{
    let mut any = false;
    let mut over = false;
    let mut value: u64 = 0;
    let mut i: usize = from;
    while i < to
        invariant
            from <= i <= to <= chars@.len(),
            radix == 2 || radix == 8 || radix == 10 || radix == 16,
            forall|k: int| from <= k < to ==> in_class(Class::Digits(radix), #[trigger] chars@[k]),
            any == has_digit(chars@.subrange(from as int, i as int)),
            0 <= numeral(chars@.subrange(from as int, i as int), radix as int),
            over == (numeral(chars@.subrange(from as int, i as int), radix as int) > u64::MAX),
            !over ==> value == numeral(chars@.subrange(from as int, i as int), radix as int),
        decreases to - i,
    {
        let c = chars[i];
        let ghost sofar = chars@.subrange(from as int, i as int);
        let ghost next = chars@.subrange(from as int, i + 1);
        proof {
            assert(next.drop_last() =~= sofar);
            assert(next.last() == c);
            assert(in_class(Class::Digits(radix), chars@[i as int]));
        }
        if c != '_' {
            let d: u8 = hex_value(c);
            let ghost n = numeral(sofar, radix as int);
            proof {
                assert(0 <= d < radix);
                assert(n * radix >= n) by (nonlinear_arith)
                    requires
                        n >= 0,
                        radix >= 2,
                ;
                assert(n <= u64::MAX ==> n * radix <= u64::MAX * 16) by (nonlinear_arith)
                    requires
                        n >= 0,
                        2 <= radix <= 16,
                ;
            }
            if !over {
                let v: u128 = (value as u128) * (radix as u128) + (d as u128);
                if v > u64::MAX as u128 {
                    over = true;
                } else {
                    value = v as u64;
                }
            }
            any = true;
        }
        i += 1;
    }
    if any && !over {
        Some(value)
    } else {
        None
    }
}

// -------------------------------------------------- the rules, executable

fn space(c: char) -> (r: bool)
    ensures
        r == is_space(c),
{
    c == ' ' || c == '\t' || c == '\n' || c == '\r'
}

fn word_start(c: char) -> (r: bool)
    ensures
        r == is_word_start(c),
{
    ('a' <= c && c <= 'z') || ('A' <= c && c <= 'Z') || c == '_'
}

fn dec_digit(c: char) -> (r: bool)
    ensures
        r == is_dec_digit(c),
{
    '0' <= c && c <= '9'
}

/// What a digit counts for; 99 for anything else.
fn hex_value(c: char) -> (r: u8)
    ensures
        r == digit_value(c),
{
    if '0' <= c && c <= '9' {
        (c as u32 - '0' as u32) as u8
    } else if 'a' <= c && c <= 'f' {
        (c as u32 - 'a' as u32 + 10) as u8
    } else if 'A' <= c && c <= 'F' {
        (c as u32 - 'A' as u32 + 10) as u8
    } else {
        99
    }
}

fn class_holds(class: Class, c: char) -> (r: bool)
    ensures
        r == in_class(class, c),
{
    match class {
        Class::Word => word_start(c) || dec_digit(c),
        Class::Digits(radix) => c == '_' || (hex_value(c) as u32) < radix,
        Class::Line => c != '\n',
    }
}

fn unescape(c: char) -> (r: Option<char>)
    ensures
        r == simple_escape(c),
{
    match c {
        'n' => Some('\n'),
        't' => Some('\t'),
        'r' => Some('\r'),
        '\\' => Some('\\'),
        '"' => Some('"'),
        '0' => Some('\0'),
        _ => None,
    }
}

/// The keyword table. Anything not listed here is an identifier.
fn keyword(word: &str) -> (r: Option<TokenKind>)
    ensures
        r == keyword_of(word@),
{
    if same(word, "probe") {
        Some(TokenKind::Probe)
    } else if same(word, "map") {
        Some(TokenKind::MapKw)
    } else if same(word, "event") {
        Some(TokenKind::Event)
    } else if same(word, "const") {
        Some(TokenKind::Const)
    } else if same(word, "let") {
        Some(TokenKind::Let)
    } else if same(word, "mut") {
        Some(TokenKind::Mut)
    } else if same(word, "if") {
        Some(TokenKind::If)
    } else if same(word, "else") {
        Some(TokenKind::Else)
    } else if same(word, "for") {
        Some(TokenKind::For)
    } else if same(word, "in") {
        Some(TokenKind::In)
    } else if same(word, "emit") {
        Some(TokenKind::Emit)
    } else if same(word, "return") {
        Some(TokenKind::Return)
    } else if same(word, "true") {
        Some(TokenKind::True)
    } else if same(word, "false") {
        Some(TokenKind::False)
    } else if same(word, "as") {
        Some(TokenKind::As)
    } else if same(word, "fn") {
        Some(TokenKind::Fn)
    } else if same(word, "struct") {
        Some(TokenKind::Struct)
    } else if same(word, "match") {
        Some(TokenKind::Match)
    } else if same(word, "while") {
        Some(TokenKind::While)
    } else if same(word, "break") {
        Some(TokenKind::Break)
    } else if same(word, "continue") {
        Some(TokenKind::Continue)
    } else {
        None
    }
}

fn one_char_token(c: char) -> (r: Option<TokenKind>)
    ensures
        r == punct_one(c),
{
    if c == '(' {
        Some(TokenKind::LParen)
    } else if c == ')' {
        Some(TokenKind::RParen)
    } else if c == '{' {
        Some(TokenKind::LBrace)
    } else if c == '}' {
        Some(TokenKind::RBrace)
    } else if c == '[' {
        Some(TokenKind::LBracket)
    } else if c == ']' {
        Some(TokenKind::RBracket)
    } else if c == ',' {
        Some(TokenKind::Comma)
    } else if c == ';' {
        Some(TokenKind::Semi)
    } else if c == ':' {
        Some(TokenKind::Colon)
    } else if c == '.' {
        Some(TokenKind::Dot)
    } else if c == '=' {
        Some(TokenKind::Eq)
    } else if c == '!' {
        Some(TokenKind::Bang)
    } else if c == '<' {
        Some(TokenKind::Lt)
    } else if c == '>' {
        Some(TokenKind::Gt)
    } else if c == '+' {
        Some(TokenKind::Plus)
    } else if c == '-' {
        Some(TokenKind::Minus)
    } else if c == '*' {
        Some(TokenKind::Star)
    } else if c == '/' {
        Some(TokenKind::Slash)
    } else if c == '%' {
        Some(TokenKind::Percent)
    } else if c == '&' {
        Some(TokenKind::Amp)
    } else if c == '|' {
        Some(TokenKind::Pipe)
    } else if c == '^' {
        Some(TokenKind::Caret)
    } else if c == '~' {
        Some(TokenKind::Tilde)
    } else {
        None
    }
}

fn two_char_token(c: char, d: char) -> (r: Option<TokenKind>)
    ensures
        r == punct_two(c, d),
{
    if c == ':' && d == ':' {
        Some(TokenKind::ColonColon)
    } else if c == '.' && d == '.' {
        Some(TokenKind::DotDot)
    } else if c == '-' && d == '>' {
        Some(TokenKind::Arrow)
    } else if c == '=' && d == '=' {
        Some(TokenKind::EqEq)
    } else if c == '!' && d == '=' {
        Some(TokenKind::BangEq)
    } else if c == '<' && d == '=' {
        Some(TokenKind::LtEq)
    } else if c == '<' && d == '<' {
        Some(TokenKind::Shl)
    } else if c == '>' && d == '=' {
        Some(TokenKind::GtEq)
    } else if c == '>' && d == '>' {
        Some(TokenKind::Shr)
    } else if c == '&' && d == '&' {
        Some(TokenKind::AmpAmp)
    } else if c == '|' && d == '|' {
        Some(TokenKind::PipePipe)
    } else {
        None
    }
}

} // verus!
