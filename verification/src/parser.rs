//! Tokens to a syntax tree.
//!
//! A hand-written recursive-descent parser: one function per rule of
//! `grammar`, plus precedence climbing for binary expressions. It looks at
//! most one token ahead and never backtracks.
//!
//! The lexer emits `>>` as a single token, so where a type like
//! `hash<u32, str<16>>` is closed, `expect_gt` takes the token apart.

use crate::ast::{
    emit_fields, exprs, fields, items, lemma_exprs_push, lemma_stmts_push, lemma_type_args_push,
    stmts, strings, type_args, types, BinaryOp, Block, Cond, ConstDecl, EventDecl, Expr, ExprKind,
    Field, Ident, Item, MapDecl, Pattern, ProbeDecl, Program, Stmt, StmtKind, Type, TypeArg,
    UnaryOp,
};
use crate::grammar;
use crate::grammar::{Fault, Input, Parsed};
use crate::lexer;
use crate::text::{debug_char, debug_of_char, debug_of_str, owned, push_dec};
use crate::token::{toks, Kind, LexError, LexErrorKind, Span, Tok, Token, TokenKind};
use crate::tree;
use vstd::prelude::*;

verus! {

/// Anything that can go wrong turning text into a syntax tree.
#[derive(Debug, Clone, PartialEq, Eq)]
pub enum Error {
    Lex(LexError),
    Parse(ParseError),
}

#[derive(Debug, Clone, PartialEq, Eq)]
pub struct ParseError {
    pub message: String,
    pub span: Span,
}

/// What an error stands for.
pub enum Failure {
    Lex(LexError),
    Parse(Fault),
}

impl View for ParseError {
    type V = Fault;

    open spec fn view(&self) -> Fault {
        Fault { message: self.message@, span: self.span }
    }
}

impl View for Error {
    type V = Failure;

    open spec fn view(&self) -> Failure {
        match *self {
            Error::Lex(e) => Failure::Lex(e),
            Error::Parse(e) => Failure::Parse(e@),
        }
    }
}

/// Where a failure is.
pub open spec fn failure_span(f: Failure) -> Span {
    match f {
        Failure::Lex(e) => e.span,
        Failure::Parse(e) => e.span,
    }
}

/// What the error over an unexpected character says, once the character is
/// shown as text.
pub open spec fn unexpected_char_message(shown: Seq<char>) -> Seq<char> {
    "UnexpectedChar("@ + shown + ")"@
}

/// What a failure says: a syntax error its message, a lexical error the name
/// of its kind.
pub open spec fn failure_message(f: Failure) -> Seq<char> {
    match f {
        Failure::Lex(e) => match e.kind {
            LexErrorKind::UnexpectedChar(c) => unexpected_char_message(debug_char(c)),
            LexErrorKind::UnterminatedString => "UnterminatedString"@,
            LexErrorKind::UnterminatedComment => "UnterminatedComment"@,
            LexErrorKind::InvalidEscape => "InvalidEscape"@,
            LexErrorKind::IntegerOverflow => "IntegerOverflow"@,
        },
        Failure::Parse(e) => e.message,
    }
}

impl Error {
    pub fn span(&self) -> (r: Span)
        ensures
            r == failure_span(self@),
    {
        match self {
            Error::Lex(e) => e.span,
            Error::Parse(e) => e.span,
        }
    }

    pub fn message(&self) -> (r: String)
        ensures
            r@ == failure_message(self@),
    {
        match self {
            Error::Lex(e) => match e.kind {
                LexErrorKind::UnexpectedChar(c) => {
                    let shown = debug_of_char(c);
                    unexpected_char(&shown)
                },
                LexErrorKind::UnterminatedString => owned("UnterminatedString"),
                LexErrorKind::UnterminatedComment => owned("UnterminatedComment"),
                LexErrorKind::InvalidEscape => owned("InvalidEscape"),
                LexErrorKind::IntegerOverflow => owned("IntegerOverflow"),
            },
            Error::Parse(e) => e.message.clone(),
        }
    }
}

/// The message over an unexpected character that is shown as `shown`.
pub fn unexpected_char(shown: &str) -> (r: String)
    ensures
        r@ == unexpected_char_message(shown@),
{
    let mut s = owned("UnexpectedChar(");
    s.append(shown);
    s.append(")");
    s
}

impl From<LexError> for Error {
    fn from(e: LexError) -> (r: Self) {
        Error::Lex(e)
    }
}

impl vstd::std_specs::convert::FromSpecImpl<LexError> for Error {
    open spec fn obeys_from_spec() -> bool {
        true
    }

    open spec fn from_spec(e: LexError) -> Self {
        Error::Lex(e)
    }
}

impl From<ParseError> for Error {
    fn from(e: ParseError) -> (r: Self) {
        Error::Parse(e)
    }
}

impl vstd::std_specs::convert::FromSpecImpl<ParseError> for Error {
    open spec fn obeys_from_spec() -> bool {
        true
    }

    open spec fn from_spec(e: ParseError) -> Self {
        Error::Parse(e)
    }
}

/// Where parsing starts.
pub open spec fn start(tokens: Seq<Tok>) -> Input {
    Input { rest: tokens, prev: 0 }
}

/// The program that a text holds, or what is wrong with it.
pub open spec fn program_of(src: Seq<char>) -> Result<tree::Program, Failure> {
    match lexer::tokens_of(src) {
        Err(e) => Err(Failure::Lex(e)),
        Ok(tokens) => match grammar::program(start(tokens)) {
            Err(e) => Err(Failure::Parse(e)),
            Ok((p, _)) => Ok(p),
        },
    }
}

/// The single expression that a text holds, or what is wrong with it.
pub open spec fn expr_of(src: Seq<char>) -> Result<tree::Expr, Failure> {
    match lexer::tokens_of(src) {
        Err(e) => Err(Failure::Lex(e)),
        Ok(tokens) => match grammar::expr(start(tokens)) {
            Err(e) => Err(Failure::Parse(e)),
            Ok((e, s)) => match grammar::expect(s, TokenKind::Eof, "end of input"@) {
                Err(e) => Err(Failure::Parse(e)),
                Ok(_) => Ok(e),
            },
        },
    }
}

/// Lex and parse a whole program.
pub fn parse(src: &str) -> (r: Result<Program, Error>)
    ensures
        match r {
            Ok(p) => program_of(src@) == Ok::<tree::Program, Failure>(p@),
            Err(e) => program_of(src@) == Err::<tree::Program, Failure>(e@),
        },
{
    match lexer::lex(src) {
        Err(e) => Err(Error::from(e)),
        Ok(tokens) => {
            proof {
                lexer::lemma_tokens_sound(src@);
            }
            let mut p = Parser { tokens, pos: 0 };
            assert(p.tokens@.skip(0) =~= p.tokens@);
            match p.program() {
                Ok(program) => Ok(program),
                Err(e) => Err(Error::from(e)),
            }
        },
    }
}

/// Lex and parse a single expression.
pub fn parse_expr(src: &str) -> (r: Result<Expr, Error>)
    ensures
        match r {
            Ok(e) => expr_of(src@) == Ok::<tree::Expr, Failure>(e@),
            Err(e) => expr_of(src@) == Err::<tree::Expr, Failure>(e@),
        },
{
    match lexer::lex(src) {
        Err(e) => Err(Error::from(e)),
        Ok(tokens) => {
            proof {
                lexer::lemma_tokens_sound(src@);
            }
            let mut p = Parser { tokens, pos: 0 };
            assert(p.tokens@.skip(0) =~= p.tokens@);
            match p.expr() {
                Ok(e) => match p.expect(TokenKind::Eof, "end of input") {
                    Ok(_) => Ok(e),
                    Err(e) => Err(Error::from(e)),
                },
                Err(e) => Err(Error::from(e)),
            }
        },
    }
}

type PResult<T> = Result<T, ParseError>;

struct Parser {
    tokens: Vec<Token>,
    pos: usize,
}

/// What a rule did: its result and the tokens left are those of the grammar,
/// and it took at least one token.
spec fn parsed<T: View>(r: PResult<T>, p: Parser, s: Input, m: Parsed<T::V>) -> bool {
    match (r, m) {
        (Ok(t), Ok((v, s1))) => {
            &&& t@ == v
            &&& p.wf()
            &&& p.input() == s1
            &&& s1.rest.len() < s.rest.len()
        },
        (Err(e), Err(f)) => e@ == f,
        _ => false,
    }
}

impl Parser {
    /// The tokens that are left, as the grammar sees them.
    spec fn input(self) -> Input {
        Input {
            rest: toks(self.tokens@.skip(self.pos as int)),
            prev: if self.pos == 0 {
                0
            } else {
                self.tokens@[self.pos - 1].span.end
            },
        }
    }

    /// The cursor is on a token, and the stream ends in `Eof`.
    spec fn wf(self) -> bool {
        &&& self.pos < self.tokens@.len()
        &&& lexer::sound(toks(self.tokens@))
    }

    // ------------------------------------------------------------ cursor

    fn peek(&self) -> (r: &TokenKind)
        requires
            self.wf(),
        ensures
            r@ == grammar::kind_at(self.input()),
            self.input().rest.len() > 0,
    {
        &self.tokens[self.pos].kind
    }

    fn peek_span(&self) -> (r: Span)
        requires
            self.wf(),
        ensures
            r == grammar::span_at(self.input()),
            self.input().rest.len() > 0,
            grammar::kind_at(self.input()) != Kind::Fixed(TokenKind::Eof) ==> r.start < r.end,
            grammar::kind_at(self.input()) == Kind::Fixed(TokenKind::Shr) ==> r.start + 2 <= r.end,
    {
        assert(toks(self.tokens@)[self.pos as int] == self.tokens@[self.pos as int]@);
        self.tokens[self.pos].span
    }

    /// Byte just past the previous token; used to close spans.
    fn prev_end(&self) -> (r: usize)
        requires
            self.wf(),
        ensures
            r == self.input().prev,
    {
        if self.pos == 0 {
            0
        } else {
            self.tokens[self.pos - 1].span.end
        }
    }

    /// Take the next token, unless it is the end of the input; gives its span.
    fn advance(&mut self) -> (r: Span)
        requires
            old(self).wf(),
        ensures
            final(self).wf(),
            final(self).input() == grammar::advance(old(self).input()),
            r == grammar::span_at(old(self).input()),
            grammar::kind_at(old(self).input()) != Kind::Fixed(TokenKind::Eof)
                ==> final(self).input().rest.len() < old(self).input().rest.len(),
            final(self).input().rest.len() <= old(self).input().rest.len(),
            grammar::kind_at(old(self).input()) != Kind::Fixed(TokenKind::Eof) ==> r.start < r.end,
    {
        let span = self.peek_span();
        let eof = match &self.tokens[self.pos].kind {
            TokenKind::Eof => true,
            _ => false,
        };
        let ghost before = self.input();
        if !eof {
            proof {
                let all = toks(self.tokens@);
                assert(all[self.pos as int].kind != Kind::Fixed(TokenKind::Eof));
                assert(self.pos < self.tokens.len() - 1);
                assert(self.tokens@.skip(self.pos + 1) =~= self.tokens@.skip(
                    self.pos as int,
                ).drop_first());
                assert(toks(self.tokens@.skip(self.pos + 1)) =~= before.rest.drop_first());
            }
            self.pos = self.pos + 1;
        }
        span
    }

    fn at(&self, kind: &TokenKind) -> (r: bool)
        requires
            self.wf(),
        ensures
            r == (grammar::kind_at(self.input()) == kind@),
    {
        self.peek().same_as(kind)
    }

    fn eat(&mut self, kind: &TokenKind) -> (r: bool)
        requires
            old(self).wf(),
        ensures
            final(self).wf(),
            r == (grammar::kind_at(old(self).input()) == kind@),
            final(self).input() == (if r {
                grammar::advance(old(self).input())
            } else {
                old(self).input()
            }),
            final(self).input().rest.len() <= old(self).input().rest.len(),
    {
        if self.at(kind) {
            let _ = self.advance();
            true
        } else {
            false
        }
    }

    /// The error that the next token is not what was expected.
    fn unexpected(&self, expected: &str) -> (r: ParseError)
        requires
            self.wf(),
        ensures
            r@ == grammar::unexpected(self.input(), expected@),
    {
        let mut message = owned("expected ");
        message.append(expected);
        message.append(", found ");
        let found = describe(self.peek());
        message.append(&found);
        ParseError { message, span: self.peek_span() }
    }

    /// Take the given token; gives its span.
    fn expect(&mut self, kind: TokenKind, what: &str) -> (r: PResult<Span>)
        requires
            old(self).wf(),
            kind@ == Kind::Fixed(kind),
        ensures
            match (r, grammar::expect(old(self).input(), kind, what@)) {
                (Ok(span), Ok((v, s))) => {
                    &&& span == v
                    &&& final(self).wf()
                    &&& final(self).input() == s
                    &&& kind != TokenKind::Eof ==> {
                        &&& s.rest.len() < old(self).input().rest.len()
                        &&& span.start < span.end
                    }
                },
                (Err(e), Err(f)) => e@ == f,
                _ => false,
            },
    {
        if self.at(&kind) {
            Ok(self.advance())
        } else {
            Err(self.unexpected(what))
        }
    }

    fn expect_ident(&mut self, what: &str) -> (r: PResult<Ident>)
        requires
            old(self).wf(),
        ensures
            parsed(
                r,
                *final(self),
                old(self).input(),
                grammar::expect_ident(old(self).input(), what@),
            ),
    {
        match self.peek() {
            TokenKind::Ident(name) => {
                let name = name.clone();
                let span = self.advance();
                Ok(Ident { name, span })
            },
            _ => Err(self.unexpected(what)),
        }
    }

    fn expect_int(&mut self, what: &str) -> (r: PResult<u64>)
        requires
            old(self).wf(),
        ensures
            match (r, grammar::expect_int(old(self).input(), what@)) {
                (Ok(n), Ok((v, s))) => {
                    &&& n == v
                    &&& final(self).wf()
                    &&& final(self).input() == s
                    &&& s.rest.len() < old(self).input().rest.len()
                },
                (Err(e), Err(f)) => e@ == f,
                _ => false,
            },
    {
        match self.peek() {
            TokenKind::Int(n) => {
                let n: u64 = *n;
                let _ = self.advance();
                Ok(n)
            },
            _ => Err(self.unexpected(what)),
        }
    }

    fn expect_str(&mut self, what: &str) -> (r: PResult<String>)
        requires
            old(self).wf(),
        ensures
            parsed(
                r,
                *final(self),
                old(self).input(),
                grammar::expect_str(old(self).input(), what@),
            ),
    {
        match self.peek() {
            TokenKind::Str(s) => {
                let s = s.clone();
                let _ = self.advance();
                Ok(s)
            },
            _ => Err(self.unexpected(what)),
        }
    }

    /// Consume a `>`. If the next token is `>>`, consume only its first half
    /// and leave a `>` behind for the next caller.
    fn expect_gt(&mut self) -> (r: PResult<()>)
        requires
            old(self).wf(),
        ensures
            match (r, grammar::expect_gt(old(self).input())) {
                (Ok(_), Ok((_, s))) => {
                    &&& final(self).wf()
                    &&& final(self).input() == s
                    &&& s.rest.len() <= old(self).input().rest.len()
                },
                (Err(e), Err(f)) => e@ == f,
                _ => false,
            },
    {
        let kind = self.peek();
        if kind.same_as(&TokenKind::Gt) {
            let _ = self.advance();
            Ok(())
        } else if kind.same_as(&TokenKind::Shr) {
            let span = self.peek_span();
            let half = Token { kind: TokenKind::Gt, span: Span::new(span.start + 1, span.end) };
            let ghost before = *self;
            self.tokens.set(self.pos, half);
            proof {
                let at = before.pos as int;
                let all = toks(before.tokens@);
                assert(all[at] == before.tokens@[at]@);
                assert(toks(self.tokens@) =~= all.update(at, half@));
                assert forall|i: int| 0 <= i < all.len() && i != at implies #[trigger] toks(
                    self.tokens@,
                )[i] == all[i] by {}
                assert(self.tokens@.skip(at) =~= before.tokens@.skip(at).update(0, half));
                assert(toks(self.tokens@.skip(at)) =~= before.input().rest.update(0, half@));
            }
            Ok(())
        } else {
            Err(self.unexpected("`>`"))
        }
    }

    // ------------------------------------------------------------- items

    fn program(&mut self) -> (r: PResult<Program>)
        requires
            old(self).wf(),
        ensures
            match (r, grammar::program(old(self).input())) {
                (Ok(p), Ok((v, _))) => p@ == v,
                (Err(e), Err(f)) => e@ == f,
                _ => false,
            },
    {
        let mut list: Vec<Item> = Vec::new();
        assert(items(list@) =~= Seq::empty());
        while !self.at(&TokenKind::Eof)
            invariant
                self.wf(),
                grammar::items(old(self).input(), Seq::empty()) == grammar::items(
                    self.input(),
                    items(list@),
                ),
            decreases self.input().rest.len(),
        {
            let item = self.item()?;
            assert(items(list@.push(item)) =~= items(list@).push(item@));
            list.push(item);
        }
        Ok(Program { items: list })
    }

    fn item(&mut self) -> (r: PResult<Item>)
        requires
            old(self).wf(),
        ensures
            parsed(r, *final(self), old(self).input(), grammar::item(old(self).input())),
    {
        match self.peek() {
            TokenKind::Const => Ok(Item::Const(self.const_decl()?)),
            TokenKind::MapKw => Ok(Item::MapDecl(self.map_decl()?)),
            TokenKind::Event => Ok(Item::Event(self.event_decl()?)),
            TokenKind::Probe => Ok(Item::Probe(self.probe_decl()?)),
            _ => Err(self.unexpected("an item (`const`, `map`, `event`, or `probe`)")),
        }
    }

    fn const_decl(&mut self) -> (r: PResult<ConstDecl>)
        requires
            old(self).wf(),
        ensures
            parsed(r, *final(self), old(self).input(), grammar::const_decl(old(self).input())),
    {
        let start: usize = self.expect(TokenKind::Const, "`const`")?.start;
        let name = self.expect_ident("constant name")?;
        let _ = self.expect(TokenKind::Colon, "`:`")?;
        let ty = self.ty()?;
        let _ = self.expect(TokenKind::Eq, "`=`")?;
        let value = self.expr()?;
        let _ = self.expect(TokenKind::Semi, "`;`")?;
        Ok(ConstDecl { name, ty, value, span: Span::new(start, self.prev_end()) })
    }

    fn map_decl(&mut self) -> (r: PResult<MapDecl>)
        requires
            old(self).wf(),
        ensures
            parsed(r, *final(self), old(self).input(), grammar::map_decl(old(self).input())),
    {
        let start: usize = self.expect(TokenKind::MapKw, "`map`")?.start;
        let name = self.expect_ident("map name")?;
        let _ = self.expect(TokenKind::Colon, "`:`")?;
        let kind = self.expect_ident("map kind (`hash` or `array`)")?;
        let _ = self.expect(TokenKind::Lt, "`<`")?;
        let args = self.map_args()?;
        let _ = self.expect_gt()?;
        let _ = self.expect(TokenKind::LBracket, "`[`")?;
        let capacity: u64 = self.expect_int("map capacity")?;
        let _ = self.expect(TokenKind::RBracket, "`]`")?;
        let _ = self.expect(TokenKind::Semi, "`;`")?;
        Ok(MapDecl { name, kind, args, capacity, span: Span::new(start, self.prev_end()) })
    }

    /// The types between the angle brackets of a map.
    fn map_args(&mut self) -> (r: PResult<Vec<Type>>)
        requires
            old(self).wf(),
        ensures
            match (r, grammar::map_args(old(self).input(), Seq::empty())) {
                (Ok(v), Ok((m, s))) => {
                    &&& types(v@) == m
                    &&& final(self).wf()
                    &&& final(self).input() == s
                    &&& s.rest.len() < old(self).input().rest.len()
                },
                (Err(e), Err(f)) => e@ == f,
                _ => false,
            },
    {
        let mut args: Vec<Type> = Vec::new();
        assert(types(args@) =~= Seq::empty());
        let mut more = true;
        while more
            invariant
                self.wf(),
                self.input().rest.len() <= old(self).input().rest.len(),
                more ==> grammar::map_args(old(self).input(), Seq::empty()) == grammar::map_args(
                    self.input(),
                    types(args@),
                ),
                !more ==> grammar::map_args(old(self).input(), Seq::empty()) == Ok::<
                    (Seq<tree::Type>, Input),
                    Fault,
                >((types(args@), self.input())),
                !more ==> self.input().rest.len() < old(self).input().rest.len(),
            decreases self.input().rest.len(), if more { 1int } else { 0int },
        {
            let t = self.ty()?;
            assert(types(args@.push(t)) =~= types(args@).push(t@));
            args.push(t);
            more = self.eat(&TokenKind::Comma);
        }
        Ok(args)
    }

    fn event_decl(&mut self) -> (r: PResult<EventDecl>)
        requires
            old(self).wf(),
        ensures
            parsed(r, *final(self), old(self).input(), grammar::event_decl(old(self).input())),
    {
        let start: usize = self.expect(TokenKind::Event, "`event`")?.start;
        let name = self.expect_ident("event name")?;
        let _ = self.expect(TokenKind::LBrace, "`{`")?;
        let list = self.event_fields()?;
        let _ = self.expect(TokenKind::RBrace, "`}` or `,`")?;
        Ok(EventDecl { name, fields: list, span: Span::new(start, self.prev_end()) })
    }

    /// The fields between the braces of an event.
    fn event_fields(&mut self) -> (r: PResult<Vec<Field>>)
        requires
            old(self).wf(),
        ensures
            match (r, grammar::event_fields(old(self).input(), Seq::empty())) {
                (Ok(v), Ok((m, s))) => {
                    &&& fields(v@) == m
                    &&& final(self).wf()
                    &&& final(self).input() == s
                    &&& s.rest.len() <= old(self).input().rest.len()
                },
                (Err(e), Err(f)) => e@ == f,
                _ => false,
            },
    {
        let mut list: Vec<Field> = Vec::new();
        assert(fields(list@) =~= Seq::empty());
        let mut more = true;
        while more && !self.at(&TokenKind::RBrace)
            invariant
                self.wf(),
                self.input().rest.len() <= old(self).input().rest.len(),
                more ==> grammar::event_fields(old(self).input(), Seq::empty())
                    == grammar::event_fields(self.input(), fields(list@)),
                !more ==> grammar::event_fields(old(self).input(), Seq::empty()) == Ok::<
                    (Seq<tree::Field>, Input),
                    Fault,
                >((fields(list@), self.input())),
            decreases self.input().rest.len(), if more { 1int } else { 0int },
        {
            let name = self.expect_ident("field name")?;
            let _ = self.expect(TokenKind::Colon, "`:`")?;
            let ty = self.ty()?;
            let span = Span::new(name.span.start, self.prev_end());
            let f = Field { name, ty, span };
            assert(fields(list@.push(f)) =~= fields(list@).push(f@));
            list.push(f);
            more = self.eat(&TokenKind::Comma);
        }
        Ok(list)
    }

    fn probe_decl(&mut self) -> (r: PResult<ProbeDecl>)
        requires
            old(self).wf(),
        ensures
            parsed(r, *final(self), old(self).input(), grammar::probe_decl(old(self).input())),
    {
        let start: usize = self.expect(TokenKind::Probe, "`probe`")?.start;
        let kind = self.expect_ident("probe kind (e.g. `tracepoint`)")?;
        let _ = self.expect(TokenKind::LParen, "`(`")?;
        let args = self.probe_args()?;
        let _ = self.expect(TokenKind::RParen, "`)`")?;
        let body = self.block()?;
        Ok(ProbeDecl { kind, args, body, span: Span::new(start, self.prev_end()) })
    }

    /// The strings between the parentheses of a probe.
    fn probe_args(&mut self) -> (r: PResult<Vec<String>>)
        requires
            old(self).wf(),
        ensures
            match (r, grammar::probe_args(old(self).input(), Seq::empty())) {
                (Ok(v), Ok((m, s))) => {
                    &&& strings(v@) == m
                    &&& final(self).wf()
                    &&& final(self).input() == s
                    &&& s.rest.len() < old(self).input().rest.len()
                },
                (Err(e), Err(f)) => e@ == f,
                _ => false,
            },
    {
        let mut args: Vec<String> = Vec::new();
        assert(strings(args@) =~= Seq::empty());
        let mut more = true;
        while more
            invariant
                self.wf(),
                self.input().rest.len() <= old(self).input().rest.len(),
                more ==> grammar::probe_args(old(self).input(), Seq::empty())
                    == grammar::probe_args(self.input(), strings(args@)),
                !more ==> grammar::probe_args(old(self).input(), Seq::empty()) == Ok::<
                    (Seq<Seq<char>>, Input),
                    Fault,
                >((strings(args@), self.input())),
                !more ==> self.input().rest.len() < old(self).input().rest.len(),
            decreases self.input().rest.len(), if more { 1int } else { 0int },
        {
            let a = self.expect_str("a string argument")?;
            assert(strings(args@.push(a)) =~= strings(args@).push(a@));
            args.push(a);
            more = self.eat(&TokenKind::Comma);
        }
        Ok(args)
    }

    // ------------------------------------------------------------- types

    fn ty(&mut self) -> (r: PResult<Type>)
        requires
            old(self).wf(),
        ensures
            parsed(r, *final(self), old(self).input(), grammar::ty(old(self).input())),
        decreases old(self).input().rest.len(), 0nat,
    {
        let name = self.expect_ident("a type")?;
        let start: usize = name.span.start;
        let mut args: Vec<TypeArg> = Vec::new();
        if self.eat(&TokenKind::Lt) {
            args = self.ty_args()?;
            let _ = self.expect_gt()?;
        }
        Ok(Type { name, args, span: Span::new(start, self.prev_end()) })
    }

    /// The arguments between the angle brackets of a type.
    fn ty_args(&mut self) -> (r: PResult<Vec<TypeArg>>)
        requires
            old(self).wf(),
        ensures
            match (r, grammar::ty_args(old(self).input(), Seq::empty())) {
                (Ok(v), Ok((m, s))) => {
                    &&& type_args(v@) == m
                    &&& final(self).wf()
                    &&& final(self).input() == s
                    &&& s.rest.len() < old(self).input().rest.len()
                },
                (Err(e), Err(f)) => e@ == f,
                _ => false,
            },
        decreases old(self).input().rest.len(), 2nat,
    {
        let mut args: Vec<TypeArg> = Vec::new();
        let mut more = true;
        while more
            invariant
                self.wf(),
                self.input().rest.len() <= old(self).input().rest.len(),
                more ==> grammar::ty_args(old(self).input(), Seq::empty()) == grammar::ty_args(
                    self.input(),
                    type_args(args@),
                ),
                !more ==> grammar::ty_args(old(self).input(), Seq::empty()) == Ok::<
                    (Seq<tree::TypeArg>, Input),
                    Fault,
                >((type_args(args@), self.input())),
                !more ==> self.input().rest.len() < old(self).input().rest.len(),
            decreases self.input().rest.len(), if more { 1int } else { 0int },
        {
            let a = self.ty_arg()?;
            proof {
                lemma_type_args_push(args@, a);
            }
            args.push(a);
            more = self.eat(&TokenKind::Comma);
        }
        Ok(args)
    }

    /// One argument of a type.
    fn ty_arg(&mut self) -> (r: PResult<TypeArg>)
        requires
            old(self).wf(),
        ensures
            parsed(r, *final(self), old(self).input(), grammar::ty_arg(old(self).input())),
        decreases old(self).input().rest.len(), 1nat,
    {
        match self.peek() {
            TokenKind::Int(_) => {
                let n: u64 = self.expect_int("integer")?;
                Ok(TypeArg::Int(n))
            },
            _ => {
                let t = self.ty()?;
                Ok(TypeArg::Type(t))
            },
        }
    }

    // -------------------------------------------------------- statements

    fn block(&mut self) -> (r: PResult<Block>)
        requires
            old(self).wf(),
        ensures
            parsed(r, *final(self), old(self).input(), grammar::block(old(self).input())),
        decreases old(self).input().rest.len(), 0nat,
    {
        let open = self.expect(TokenKind::LBrace, "`{`")?;
        let start: usize = open.start;
        let ghost from = self.input();
        let mut list: Vec<Stmt> = Vec::new();
        while !self.at(&TokenKind::RBrace)
            invariant
                self.wf(),
                start < open.end,
                start == open.start,
                self.input().rest.len() <= from.rest.len(),
                from.rest.len() < old(self).input().rest.len(),
                grammar::expect(old(self).input(), TokenKind::LBrace, "`{`"@) == Ok::<
                    (Span, Input),
                    Fault,
                >((open, from)),
                grammar::block_stmts(from, start, Seq::empty()) == grammar::block_stmts(
                    self.input(),
                    start,
                    stmts(list@),
                ),
            decreases self.input().rest.len(),
        {
            if self.at(&TokenKind::Eof) {
                return Err(
                    ParseError {
                        message: owned("unclosed block: expected `}`"),
                        span: Span::new(start, start + 1),
                    },
                );
            }
            let s = self.stmt()?;
            proof {
                lemma_stmts_push(list@, s);
            }
            list.push(s);
        }
        let _ = self.expect(TokenKind::RBrace, "`}`")?;
        Ok(Block { stmts: list, span: Span::new(start, self.prev_end()) })
    }

    fn stmt(&mut self) -> (r: PResult<Stmt>)
        requires
            old(self).wf(),
        ensures
            parsed(r, *final(self), old(self).input(), grammar::stmt(old(self).input())),
        decreases old(self).input().rest.len(), 2nat,
    {
        let start: usize = self.peek_span().start;
        let kind = self.stmt_kind()?;
        Ok(Stmt { kind, span: Span::new(start, self.prev_end()) })
    }

    fn stmt_kind(&mut self) -> (r: PResult<StmtKind>)
        requires
            old(self).wf(),
        ensures
            parsed(r, *final(self), old(self).input(), grammar::stmt_kind(old(self).input())),
        decreases old(self).input().rest.len(), 1nat,
    {
        match self.peek() {
            TokenKind::Let => self.let_stmt(),
            TokenKind::If => self.if_stmt(),
            TokenKind::For => self.for_stmt(),
            TokenKind::Emit => self.emit_stmt(),
            TokenKind::Return => self.return_stmt(),
            TokenKind::While => Err(
                ParseError {
                    message: owned(
                        "`while` is not allowed: loops must have a constant bound, use `for i in a..b`",
                    ),
                    span: self.peek_span(),
                },
            ),
            _ => self.expr_or_assign_stmt(),
        }
    }

    fn let_stmt(&mut self) -> (r: PResult<StmtKind>)
        requires
            old(self).wf(),
        ensures
            parsed(r, *final(self), old(self).input(), grammar::let_stmt(old(self).input())),
    {
        let _ = self.expect(TokenKind::Let, "`let`")?;
        let mutable = self.eat(&TokenKind::Mut);
        let name = self.expect_ident("variable name")?;
        let ty = if self.eat(&TokenKind::Colon) {
            Some(self.ty()?)
        } else {
            None
        };
        let _ = self.expect(TokenKind::Eq, "`=`")?;
        let value = self.expr()?;
        let _ = self.expect(TokenKind::Semi, "`;`")?;
        Ok(StmtKind::Let { mutable, name, ty, value })
    }

    fn if_stmt(&mut self) -> (r: PResult<StmtKind>)
        requires
            old(self).wf(),
        ensures
            parsed(r, *final(self), old(self).input(), grammar::if_stmt(old(self).input())),
        decreases old(self).input().rest.len(), 0nat,
    {
        let _ = self.expect(TokenKind::If, "`if`")?;
        let cond = self.cond()?;
        let body = self.block()?;
        let otherwise = if self.eat(&TokenKind::Else) {
            Some(self.else_block()?)
        } else {
            None
        };
        Ok(StmtKind::If { cond, body, otherwise })
    }

    /// The condition of an `if`.
    fn cond(&mut self) -> (r: PResult<Cond>)
        requires
            old(self).wf(),
        ensures
            parsed(r, *final(self), old(self).input(), grammar::cond(old(self).input())),
    {
        if self.eat(&TokenKind::Let) {
            let pattern = self.pattern()?;
            let _ = self.expect(TokenKind::Eq, "`=`")?;
            let value = self.expr()?;
            Ok(Cond::Let { pattern, value })
        } else {
            let e = self.expr()?;
            Ok(Cond::Expr(e))
        }
    }

    /// What stands behind an `else`: `else if ...` becomes a block holding one
    /// `if`.
    fn else_block(&mut self) -> (r: PResult<Block>)
        requires
            old(self).wf(),
        ensures
            parsed(r, *final(self), old(self).input(), grammar::else_block(old(self).input())),
        decreases old(self).input().rest.len(), 2nat,
    {
        if self.at(&TokenKind::If) {
            let start: usize = self.peek_span().start;
            let kind = self.if_stmt()?;
            let span = Span::new(start, self.prev_end());
            let mut list: Vec<Stmt> = Vec::new();
            let s = Stmt { kind, span };
            proof {
                lemma_stmts_push(list@, s);
                assert(stmts(list@.push(s)) =~= seq![s@]);
            }
            list.push(s);
            Ok(Block { stmts: list, span })
        } else {
            self.block()
        }
    }

    fn pattern(&mut self) -> (r: PResult<Pattern>)
        requires
            old(self).wf(),
        ensures
            parsed(r, *final(self), old(self).input(), grammar::pattern(old(self).input())),
    {
        let name = self.expect_ident("a pattern (`Some(x)` or `None`)")?;
        let start: usize = name.span.start;
        let binding = if self.eat(&TokenKind::LParen) {
            let b = self.expect_ident("binding name")?;
            let _ = self.expect(TokenKind::RParen, "`)`")?;
            Some(b)
        } else {
            None
        };
        Ok(Pattern { name, binding, span: Span::new(start, self.prev_end()) })
    }

    fn for_stmt(&mut self) -> (r: PResult<StmtKind>)
        requires
            old(self).wf(),
        ensures
            parsed(r, *final(self), old(self).input(), grammar::for_stmt(old(self).input())),
        decreases old(self).input().rest.len(), 0nat,
    {
        let _ = self.expect(TokenKind::For, "`for`")?;
        let var = self.expect_ident("loop variable")?;
        let _ = self.expect(TokenKind::In, "`in`")?;
        let start = self.expr()?;
        let _ = self.expect(TokenKind::DotDot, "`..`")?;
        let end = self.expr()?;
        let body = self.block()?;
        Ok(StmtKind::For { var, start, end, body })
    }

    fn emit_stmt(&mut self) -> (r: PResult<StmtKind>)
        requires
            old(self).wf(),
        ensures
            parsed(r, *final(self), old(self).input(), grammar::emit_stmt(old(self).input())),
    {
        let _ = self.expect(TokenKind::Emit, "`emit`")?;
        let event = self.expect_ident("event name")?;
        let _ = self.expect(TokenKind::LBrace, "`{`")?;
        let list = self.emit_fields()?;
        let _ = self.expect(TokenKind::RBrace, "`}` or `,`")?;
        let _ = self.expect(TokenKind::Semi, "`;`")?;
        Ok(StmtKind::Emit { event, fields: list })
    }

    /// The fields between the braces of an `emit`.
    fn emit_fields(&mut self) -> (r: PResult<Vec<(Ident, Expr)>>)
        requires
            old(self).wf(),
        ensures
            match (r, grammar::emit_fields(old(self).input(), Seq::empty())) {
                (Ok(v), Ok((m, s))) => {
                    &&& emit_fields(v@) == m
                    &&& final(self).wf()
                    &&& final(self).input() == s
                    &&& s.rest.len() <= old(self).input().rest.len()
                },
                (Err(e), Err(f)) => e@ == f,
                _ => false,
            },
    {
        let mut list: Vec<(Ident, Expr)> = Vec::new();
        assert(emit_fields(list@) =~= Seq::empty());
        let mut more = true;
        while more && !self.at(&TokenKind::RBrace)
            invariant
                self.wf(),
                self.input().rest.len() <= old(self).input().rest.len(),
                more ==> grammar::emit_fields(old(self).input(), Seq::empty())
                    == grammar::emit_fields(self.input(), emit_fields(list@)),
                !more ==> grammar::emit_fields(old(self).input(), Seq::empty()) == Ok::<
                    (Seq<(tree::Ident, tree::Expr)>, Input),
                    Fault,
                >((emit_fields(list@), self.input())),
            decreases self.input().rest.len(), if more { 1int } else { 0int },
        {
            let name = self.expect_ident("field name")?;
            let _ = self.expect(TokenKind::Colon, "`:`")?;
            let value = self.expr()?;
            let f = (name, value);
            assert(emit_fields(list@.push(f)) =~= emit_fields(list@).push((f.0@, f.1@)));
            list.push(f);
            more = self.eat(&TokenKind::Comma);
        }
        Ok(list)
    }

    fn return_stmt(&mut self) -> (r: PResult<StmtKind>)
        requires
            old(self).wf(),
        ensures
            parsed(r, *final(self), old(self).input(), grammar::return_stmt(old(self).input())),
    {
        let _ = self.expect(TokenKind::Return, "`return`")?;
        let value = if self.at(&TokenKind::Semi) {
            None
        } else {
            Some(self.expr()?)
        };
        let _ = self.expect(TokenKind::Semi, "`;`")?;
        Ok(StmtKind::Return(value))
    }

    fn expr_or_assign_stmt(&mut self) -> (r: PResult<StmtKind>)
        requires
            old(self).wf(),
        ensures
            parsed(
                r,
                *final(self),
                old(self).input(),
                grammar::expr_or_assign_stmt(old(self).input()),
            ),
    {
        let e = self.expr()?;
        if self.eat(&TokenKind::Eq) {
            if !is_place(&e) {
                return Err(
                    ParseError {
                        message: owned(
                            "invalid assignment target: expected a name, `*name`, or `view.field`",
                        ),
                        span: e.span,
                    },
                );
            }
            let value = self.expr()?;
            let _ = self.expect(TokenKind::Semi, "`;`")?;
            return Ok(StmtKind::Assign { target: e, value });
        }
        let _ = self.expect(TokenKind::Semi, "`;`")?;
        Ok(StmtKind::Expr(e))
    }

    // ------------------------------------------------------- expressions

    fn expr(&mut self) -> (r: PResult<Expr>)
        requires
            old(self).wf(),
        ensures
            parsed(r, *final(self), old(self).input(), grammar::expr(old(self).input())),
        decreases old(self).input().rest.len(), 6nat,
    {
        self.binary(0)
    }

    /// Precedence climbing. `min_bp` is the lowest binding power at which an
    /// operator is still consumed.
    fn binary(&mut self, min_bp: u8) -> (r: PResult<Expr>)
        requires
            old(self).wf(),
        ensures
            parsed(
                r,
                *final(self),
                old(self).input(),
                grammar::binary(old(self).input(), min_bp as int),
            ),
        decreases old(self).input().rest.len(), 5nat,
    {
        let mut lhs = self.cast()?;
        let mut more = true;
        while more
            invariant
                self.wf(),
                self.input().rest.len() < old(self).input().rest.len(),
                more ==> grammar::binary(old(self).input(), min_bp as int)
                    == grammar::binary_rest(self.input(), lhs@, min_bp as int),
                !more ==> grammar::binary(old(self).input(), min_bp as int) == Ok::<
                    (tree::Expr, Input),
                    Fault,
                >((lhs@, self.input())),
            decreases self.input().rest.len(), if more { 1int } else { 0int },
        {
            match binary_op(self.peek()) {
                Some((op, bp)) if bp >= min_bp => {
                    let _ = self.advance();
                    // Left-associative: the right operand binds strictly tighter.
                    let rhs = self.binary(bp + 1)?;
                    let span = Span::new(lhs.span.start, rhs.span.end);
                    let kind = ExprKind::Binary { op, lhs: Box::new(lhs), rhs: Box::new(rhs) };
                    lhs = Expr { kind, span };
                },
                _ => {
                    more = false;
                },
            }
        }
        Ok(lhs)
    }

    fn cast(&mut self) -> (r: PResult<Expr>)
        requires
            old(self).wf(),
        ensures
            parsed(r, *final(self), old(self).input(), grammar::cast(old(self).input())),
        decreases old(self).input().rest.len(), 4nat,
    {
        let mut e = self.unary()?;
        while self.at(&TokenKind::As)
            invariant
                self.wf(),
                self.input().rest.len() < old(self).input().rest.len(),
                grammar::cast(old(self).input()) == grammar::cast_rest(self.input(), e@),
            decreases self.input().rest.len(),
        {
            let _ = self.advance();
            let ty = self.ty()?;
            let span = Span::new(e.span.start, ty.span.end);
            e = Expr { kind: ExprKind::Cast { expr: Box::new(e), ty }, span };
        }
        Ok(e)
    }

    fn unary(&mut self) -> (r: PResult<Expr>)
        requires
            old(self).wf(),
        ensures
            parsed(r, *final(self), old(self).input(), grammar::unary(old(self).input())),
        decreases old(self).input().rest.len(), 3nat,
    {
        let op = match self.peek() {
            TokenKind::Bang => UnaryOp::Not,
            TokenKind::Minus => UnaryOp::Neg,
            TokenKind::Tilde => UnaryOp::BitNot,
            TokenKind::Star => UnaryOp::Deref,
            _ => {
                return self.postfix();
            },
        };
        let start: usize = self.advance().start;
        let operand = self.unary()?;
        let span = Span::new(start, operand.span.end);
        Ok(Expr { kind: ExprKind::Unary { op, expr: Box::new(operand) }, span })
    }

    fn postfix(&mut self) -> (r: PResult<Expr>)
        requires
            old(self).wf(),
        ensures
            parsed(r, *final(self), old(self).input(), grammar::postfix(old(self).input())),
        decreases old(self).input().rest.len(), 2nat,
    {
        let mut e = self.primary()?;
        let mut more = true;
        while more
            invariant
                self.wf(),
                self.input().rest.len() < old(self).input().rest.len(),
                more ==> grammar::postfix(old(self).input()) == grammar::postfix_rest(
                    self.input(),
                    e@,
                ),
                !more ==> grammar::postfix(old(self).input()) == Ok::<
                    (tree::Expr, Input),
                    Fault,
                >((e@, self.input())),
            decreases self.input().rest.len(), if more { 1int } else { 0int },
        {
            match self.peek() {
                TokenKind::LParen => {
                    let args = self.args()?;
                    let span = Span::new(e.span.start, self.prev_end());
                    e = Expr { kind: ExprKind::Call { callee: Box::new(e), args }, span };
                },
                TokenKind::Dot => {
                    let start: usize = e.span.start;
                    let _ = self.advance();
                    let name = self.expect_ident("field or method name")?;
                    let kind = if self.at(&TokenKind::LParen) {
                        let args = self.args()?;
                        ExprKind::MethodCall { receiver: Box::new(e), method: name, args }
                    } else {
                        ExprKind::Field { expr: Box::new(e), field: name }
                    };
                    e = Expr { kind, span: Span::new(start, self.prev_end()) };
                },
                TokenKind::LBracket => {
                    let _ = self.advance();
                    let index = self.expr()?;
                    let _ = self.expect(TokenKind::RBracket, "`]`")?;
                    let span = Span::new(e.span.start, self.prev_end());
                    let kind = ExprKind::Index { expr: Box::new(e), index: Box::new(index) };
                    e = Expr { kind, span };
                },
                _ => {
                    more = false;
                },
            }
        }
        Ok(e)
    }

    fn args(&mut self) -> (r: PResult<Vec<Expr>>)
        requires
            old(self).wf(),
        ensures
            match (r, grammar::args(old(self).input())) {
                (Ok(v), Ok((m, s))) => {
                    &&& exprs(v@) == m
                    &&& final(self).wf()
                    &&& final(self).input() == s
                    &&& s.rest.len() < old(self).input().rest.len()
                },
                (Err(e), Err(f)) => e@ == f,
                _ => false,
            },
        decreases old(self).input().rest.len(), 0nat,
    {
        let open = self.expect(TokenKind::LParen, "`(`")?;
        let ghost from = self.input();
        let mut list: Vec<Expr> = Vec::new();
        let mut more = true;
        while more && !self.at(&TokenKind::RParen)
            invariant
                self.wf(),
                self.input().rest.len() <= from.rest.len(),
                from.rest.len() < old(self).input().rest.len(),
                grammar::expect(old(self).input(), TokenKind::LParen, "`(`"@) == Ok::<
                    (Span, Input),
                    Fault,
                >((open, from)),
                more ==> grammar::args_list(from, Seq::empty()) == grammar::args_list(
                    self.input(),
                    exprs(list@),
                ),
                !more ==> grammar::args_list(from, Seq::empty()) == Ok::<
                    (Seq<tree::Expr>, Input),
                    Fault,
                >((exprs(list@), self.input())),
            decreases self.input().rest.len(), if more { 1int } else { 0int },
        {
            let e = self.expr()?;
            proof {
                lemma_exprs_push(list@, e);
            }
            list.push(e);
            more = self.eat(&TokenKind::Comma);
        }
        let _ = self.expect(TokenKind::RParen, "`)` or `,`")?;
        Ok(list)
    }

    fn primary(&mut self) -> (r: PResult<Expr>)
        requires
            old(self).wf(),
        ensures
            parsed(r, *final(self), old(self).input(), grammar::primary(old(self).input())),
        decreases old(self).input().rest.len(), 0nat,
    {
        let span = self.peek_span();
        let kind = match self.peek() {
            TokenKind::Int(n) => ExprKind::Int(*n),
            TokenKind::Str(s) => ExprKind::Str(s.clone()),
            TokenKind::True => ExprKind::Bool(true),
            TokenKind::False => ExprKind::Bool(false),
            TokenKind::Ident(name) => ExprKind::Ident(name.clone()),
            TokenKind::LParen => {
                let _ = self.advance();
                let inner = self.expr()?;
                let _ = self.expect(TokenKind::RParen, "`)`")?;
                // Keep the inner node; parentheses only affect grouping.
                return Ok(
                    Expr { kind: inner.kind, span: Span::new(span.start, self.prev_end()) },
                );
            },
            _ => {
                return Err(self.unexpected("an expression"));
            },
        };
        let _ = self.advance();
        Ok(Expr { kind, span })
    }
}

/// Binary operators and their binding power (higher binds tighter).
fn binary_op(kind: &TokenKind) -> (r: Option<(BinaryOp, u8)>)
    ensures
        match r {
            Some((op, bp)) => grammar::binary_op(kind@) == Some((op, bp as int)) && bp <= 10,
            None => grammar::binary_op(kind@) is None,
        },
{
    match kind {
        TokenKind::PipePipe => Some((BinaryOp::Or, 1)),
        TokenKind::AmpAmp => Some((BinaryOp::And, 2)),
        TokenKind::EqEq => Some((BinaryOp::Eq, 3)),
        TokenKind::BangEq => Some((BinaryOp::Ne, 3)),
        TokenKind::Lt => Some((BinaryOp::Lt, 4)),
        TokenKind::LtEq => Some((BinaryOp::Le, 4)),
        TokenKind::Gt => Some((BinaryOp::Gt, 4)),
        TokenKind::GtEq => Some((BinaryOp::Ge, 4)),
        TokenKind::Pipe => Some((BinaryOp::BitOr, 5)),
        TokenKind::Caret => Some((BinaryOp::BitXor, 6)),
        TokenKind::Amp => Some((BinaryOp::BitAnd, 7)),
        TokenKind::Shl => Some((BinaryOp::Shl, 8)),
        TokenKind::Shr => Some((BinaryOp::Shr, 8)),
        TokenKind::Plus => Some((BinaryOp::Add, 9)),
        TokenKind::Minus => Some((BinaryOp::Sub, 9)),
        TokenKind::Star => Some((BinaryOp::Mul, 10)),
        TokenKind::Slash => Some((BinaryOp::Div, 10)),
        TokenKind::Percent => Some((BinaryOp::Rem, 10)),
        _ => None,
    }
}

/// Can this expression be assigned to?
fn is_place(e: &Expr) -> (r: bool)
    ensures
        r == grammar::is_place(e@),
{
    proof {
        reveal_with_fuel(Expr::model, 3);
        reveal_with_fuel(ExprKind::model, 3);
    }
    match &e.kind {
        ExprKind::Ident(_) => true,
        ExprKind::Unary { op, expr } => match op {
            UnaryOp::Deref => matches!(expr.kind, ExprKind::Ident(_)),
            _ => false,
        },
        // The type checker decides whether the view is writable.
        ExprKind::Field { expr, .. } => matches!(
            expr.kind,
            ExprKind::Ident(_) | ExprKind::Field { .. }
        ),
        _ => false,
    }
}

/// Human-readable name of a token for error messages.
fn describe(kind: &TokenKind) -> (r: String)
    ensures
        r@ == grammar::describe(kind@),
{
    match kind {
        TokenKind::Ident(name) => {
            let mut s = owned("identifier `");
            s.append(name);
            s.append("`");
            s
        },
        TokenKind::Int(n) => {
            let mut s = owned("integer `");
            push_dec(&mut s, *n);
            s.append("`");
            s
        },
        TokenKind::Str(text) => {
            let shown = debug_of_str(text);
            described_string(&shown)
        },
        other => owned(fixed_text(other)),
    }
}

/// The name of a string token that is shown as `shown`.
pub fn described_string(shown: &str) -> (r: String)
    ensures
        r@ == "string "@ + shown@,
{
    let mut s = owned("string ");
    s.append(shown);
    s
}

/// The name of a keyword or of a piece of punctuation.
fn fixed_text(kind: &TokenKind) -> (r: &'static str)
    requires
        kind@ is Fixed,
    ensures
        r@ == grammar::fixed_text(*kind),
{
    match kind {
        TokenKind::Probe => "`probe`",
        TokenKind::MapKw => "`map`",
        TokenKind::Event => "`event`",
        TokenKind::Const => "`const`",
        TokenKind::Let => "`let`",
        TokenKind::Mut => "`mut`",
        TokenKind::If => "`if`",
        TokenKind::Else => "`else`",
        TokenKind::For => "`for`",
        TokenKind::In => "`in`",
        TokenKind::Emit => "`emit`",
        TokenKind::Return => "`return`",
        TokenKind::True => "`true`",
        TokenKind::False => "`false`",
        TokenKind::As => "`as`",
        TokenKind::Fn => "`fn`",
        TokenKind::Struct => "`struct`",
        TokenKind::Match => "`match`",
        TokenKind::While => "`while`",
        TokenKind::Break => "`break`",
        TokenKind::Continue => "`continue`",
        TokenKind::LParen => "`(`",
        TokenKind::RParen => "`)`",
        TokenKind::LBrace => "`{`",
        TokenKind::RBrace => "`}`",
        TokenKind::LBracket => "`[`",
        TokenKind::RBracket => "`]`",
        TokenKind::Comma => "`,`",
        TokenKind::Semi => "`;`",
        TokenKind::Colon => "`:`",
        TokenKind::ColonColon => "`::`",
        TokenKind::Dot => "`.`",
        TokenKind::DotDot => "`..`",
        TokenKind::Arrow => "`->`",
        TokenKind::Eq => "`=`",
        TokenKind::EqEq => "`==`",
        TokenKind::Bang => "`!`",
        TokenKind::BangEq => "`!=`",
        TokenKind::Lt => "`<`",
        TokenKind::LtEq => "`<=`",
        TokenKind::Gt => "`>`",
        TokenKind::GtEq => "`>=`",
        TokenKind::Plus => "`+`",
        TokenKind::Minus => "`-`",
        TokenKind::Star => "`*`",
        TokenKind::Slash => "`/`",
        TokenKind::Percent => "`%`",
        TokenKind::Amp => "`&`",
        TokenKind::AmpAmp => "`&&`",
        TokenKind::Pipe => "`|`",
        TokenKind::PipePipe => "`||`",
        TokenKind::Caret => "`^`",
        TokenKind::Tilde => "`~`",
        TokenKind::Shl => "`<<`",
        TokenKind::Shr => "`>>`",
        TokenKind::Eof => "end of input",
        _ => "",
    }
}

} // verus!
