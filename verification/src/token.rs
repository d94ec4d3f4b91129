//! The token vocabulary of honey: what the lexer hands to the parser.

use crate::text::same;
use vstd::prelude::*;

verus! {

/// A half-open byte range `[start, end)` into the source text.
///
/// Byte offsets, not character offsets: `"é"` is one character but two bytes,
/// and the span of that string literal is `0..4`.
#[derive(Debug, Clone, Copy, PartialEq, Eq, Hash, Structural)]
pub struct Span {
    pub start: usize,
    pub end: usize,
}

impl Span {
    pub fn new(start: usize, end: usize) -> (r: Self)
        ensures
            r == (Span { start, end }),
    {
        Span { start, end }
    }
}

/// One lexical token: what it is, and where in the source it came from.
#[derive(Debug, Clone, PartialEq, Eq)]
pub struct Token {
    pub kind: TokenKind,
    pub span: Span,
}

/// Every kind of token honey has.
#[derive(Debug, Clone, PartialEq, Eq, Hash)]
pub enum TokenKind {
    // ---- literals & names ------------------------------------------------
    /// `foo`, `_x`, `sys_enter_execve`. Never a keyword.
    Ident(String),
    /// `42`, `0xFF`, `0b1010`, `0o755`, `1_000_000`. Always fits in u64.
    Int(u64),
    /// `"..."` with escapes already decoded.
    Str(String),

    // ---- keywords --------------------------------------------------------
    Probe,
    MapKw,
    Event,
    Const,
    Let,
    Mut,
    If,
    Else,
    For,
    In,
    Emit,
    Return,
    True,
    False,
    As,

    // ---- reserved keywords: lexed as keywords so they can never be names
    Fn,
    Struct,
    Match,
    While,
    Break,
    Continue,

    // ---- punctuation -----------------------------------------------------
    /// `(`
    LParen,
    /// `)`
    RParen,
    /// `{`
    LBrace,
    /// `}`
    RBrace,
    /// `[`
    LBracket,
    /// `]`
    RBracket,
    /// `,`
    Comma,
    /// `;`
    Semi,
    /// `:`
    Colon,
    /// `::`
    ColonColon,
    /// `.`
    Dot,
    /// `..`
    DotDot,
    /// `->`
    Arrow,
    /// `=`
    Eq,
    /// `==`
    EqEq,
    /// `!`
    Bang,
    /// `!=`
    BangEq,
    /// `<`
    Lt,
    /// `<=`
    LtEq,
    /// `>`
    Gt,
    /// `>=`
    GtEq,
    /// `+`
    Plus,
    /// `-`
    Minus,
    /// `*`
    Star,
    /// `/`
    Slash,
    /// `%`
    Percent,
    /// `&`
    Amp,
    /// `&&`
    AmpAmp,
    /// `|`
    Pipe,
    /// `||`
    PipePipe,
    /// `^`
    Caret,
    /// `~`
    Tilde,
    /// `<<`
    Shl,
    /// `>>`
    Shr,

    /// End of input. Always the last token; its span is `len..len`.
    Eof,
}

/// Why lexing failed. `span` points at the offending text.
#[derive(Debug, Clone, Copy, PartialEq, Eq, Structural)]
pub struct LexError {
    pub kind: LexErrorKind,
    pub span: Span,
}

#[derive(Debug, Clone, Copy, PartialEq, Eq, Structural)]
pub enum LexErrorKind {
    /// A character that cannot start any token (`@`, `$`, `é`, ...).
    /// Span covers that one character (which may be more than one byte).
    UnexpectedChar(char),
    /// A `"` with no closing `"` before end of input.
    /// Span runs from the opening quote to end of input.
    UnterminatedString,
    /// A `/*` with no matching `*/` before end of input.
    /// Span runs from the `/*` to end of input.
    UnterminatedComment,
    /// A backslash followed by something that is not a known escape.
    /// Span covers the backslash and the character after it.
    InvalidEscape,
    /// An integer literal whose value does not fit in u64.
    /// Span covers the whole literal.
    IntegerOverflow,
}

// ---------------------------------------------------------------- models

/// What a token kind stands for: its text where it carries one, or the fixed
/// kind itself.
pub enum Kind {
    Ident(Seq<char>),
    Int(u64),
    Str(Seq<char>),
    /// A keyword, a piece of punctuation, or the end of input.
    Fixed(TokenKind),
}

/// A token as a value: its kind and its span.
pub struct Tok {
    pub kind: Kind,
    pub span: Span,
}

impl View for TokenKind {
    type V = Kind;

    open spec fn view(&self) -> Kind {
        match *self {
            TokenKind::Ident(s) => Kind::Ident(s@),
            TokenKind::Int(n) => Kind::Int(n),
            TokenKind::Str(s) => Kind::Str(s@),
            k => Kind::Fixed(k),
        }
    }
}

impl View for Token {
    type V = Tok;

    open spec fn view(&self) -> Tok {
        Tok { kind: self.kind@, span: self.span }
    }
}

/// The models of a run of tokens.
pub open spec fn toks(tokens: Seq<Token>) -> Seq<Tok> {
    tokens.map_values(|t: Token| t@)
}

impl TokenKind {
    /// Whether two kinds are the same, text included.
    pub fn same_as(&self, other: &TokenKind) -> (r: bool)
        ensures
            r == (self@ == other@),
    {
        match (self, other) {
            (TokenKind::Ident(a), TokenKind::Ident(b)) => same(a, b),
            (TokenKind::Int(a), TokenKind::Int(b)) => *a == *b,
            (TokenKind::Str(a), TokenKind::Str(b)) => same(a, b),
            (TokenKind::Probe, TokenKind::Probe) => true,
            (TokenKind::MapKw, TokenKind::MapKw) => true,
            (TokenKind::Event, TokenKind::Event) => true,
            (TokenKind::Const, TokenKind::Const) => true,
            (TokenKind::Let, TokenKind::Let) => true,
            (TokenKind::Mut, TokenKind::Mut) => true,
            (TokenKind::If, TokenKind::If) => true,
            (TokenKind::Else, TokenKind::Else) => true,
            (TokenKind::For, TokenKind::For) => true,
            (TokenKind::In, TokenKind::In) => true,
            (TokenKind::Emit, TokenKind::Emit) => true,
            (TokenKind::Return, TokenKind::Return) => true,
            (TokenKind::True, TokenKind::True) => true,
            (TokenKind::False, TokenKind::False) => true,
            (TokenKind::As, TokenKind::As) => true,
            (TokenKind::Fn, TokenKind::Fn) => true,
            (TokenKind::Struct, TokenKind::Struct) => true,
            (TokenKind::Match, TokenKind::Match) => true,
            (TokenKind::While, TokenKind::While) => true,
            (TokenKind::Break, TokenKind::Break) => true,
            (TokenKind::Continue, TokenKind::Continue) => true,
            (TokenKind::LParen, TokenKind::LParen) => true,
            (TokenKind::RParen, TokenKind::RParen) => true,
            (TokenKind::LBrace, TokenKind::LBrace) => true,
            (TokenKind::RBrace, TokenKind::RBrace) => true,
            (TokenKind::LBracket, TokenKind::LBracket) => true,
            (TokenKind::RBracket, TokenKind::RBracket) => true,
            (TokenKind::Comma, TokenKind::Comma) => true,
            (TokenKind::Semi, TokenKind::Semi) => true,
            (TokenKind::Colon, TokenKind::Colon) => true,
            (TokenKind::ColonColon, TokenKind::ColonColon) => true,
            (TokenKind::Dot, TokenKind::Dot) => true,
            (TokenKind::DotDot, TokenKind::DotDot) => true,
            (TokenKind::Arrow, TokenKind::Arrow) => true,
            (TokenKind::Eq, TokenKind::Eq) => true,
            (TokenKind::EqEq, TokenKind::EqEq) => true,
            (TokenKind::Bang, TokenKind::Bang) => true,
            (TokenKind::BangEq, TokenKind::BangEq) => true,
            (TokenKind::Lt, TokenKind::Lt) => true,
            (TokenKind::LtEq, TokenKind::LtEq) => true,
            (TokenKind::Gt, TokenKind::Gt) => true,
            (TokenKind::GtEq, TokenKind::GtEq) => true,
            (TokenKind::Plus, TokenKind::Plus) => true,
            (TokenKind::Minus, TokenKind::Minus) => true,
            (TokenKind::Star, TokenKind::Star) => true,
            (TokenKind::Slash, TokenKind::Slash) => true,
            (TokenKind::Percent, TokenKind::Percent) => true,
            (TokenKind::Amp, TokenKind::Amp) => true,
            (TokenKind::AmpAmp, TokenKind::AmpAmp) => true,
            (TokenKind::Pipe, TokenKind::Pipe) => true,
            (TokenKind::PipePipe, TokenKind::PipePipe) => true,
            (TokenKind::Caret, TokenKind::Caret) => true,
            (TokenKind::Tilde, TokenKind::Tilde) => true,
            (TokenKind::Shl, TokenKind::Shl) => true,
            (TokenKind::Shr, TokenKind::Shr) => true,
            (TokenKind::Eof, TokenKind::Eof) => true,
            _ => false,
        }
    }
}

} // verus!
