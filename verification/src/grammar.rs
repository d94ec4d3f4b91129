//! The grammar of honey, as functions from the tokens that are left to what
//! they parse to and the tokens left behind it.
//!
//! One function per rule, in the order of the rules. A rule that repeats
//! takes what it has read so far as its last argument.

use crate::ast::{BinaryOp, UnaryOp};
use crate::text::{dec, debug_str};
use crate::token::{Kind, Span, Tok, TokenKind};
use crate::tree;
use vstd::prelude::*;

verus! {

/// The tokens that are left, and the byte just past the last one taken.
pub struct Input {
    pub rest: Seq<Tok>,
    pub prev: usize,
}

/// A syntax error: what to say, and where.
pub struct Fault {
    pub message: Seq<char>,
    pub span: Span,
}

/// What a rule parses to, and what is left behind it.
pub type Parsed<T> = Result<(T, Input), Fault>;

/// The kind of the next token.
pub open spec fn kind_at(s: Input) -> Kind {
    if s.rest.len() == 0 {
        Kind::Fixed(TokenKind::Eof)
    } else {
        s.rest[0].kind
    }
}

/// The span of the next token.
pub open spec fn span_at(s: Input) -> Span {
    s.rest[0].span
}

/// Whether the next token is the given keyword or punctuation.
pub open spec fn is_at(s: Input, k: TokenKind) -> bool {
    kind_at(s) == Kind::Fixed(k)
}

/// Take the next token. The end of the input is never taken.
pub open spec fn advance(s: Input) -> Input {
    if s.rest.len() == 0 || is_at(s, TokenKind::Eof) {
        s
    } else {
        Input { rest: s.rest.drop_first(), prev: s.rest[0].span.end }
    }
}

/// How a keyword or a piece of punctuation is named in a message.
pub open spec fn fixed_text(k: TokenKind) -> Seq<char> {
    match k {
        TokenKind::Probe => "`probe`"@,
        TokenKind::MapKw => "`map`"@,
        TokenKind::Event => "`event`"@,
        TokenKind::Const => "`const`"@,
        TokenKind::Let => "`let`"@,
        TokenKind::Mut => "`mut`"@,
        TokenKind::If => "`if`"@,
        TokenKind::Else => "`else`"@,
        TokenKind::For => "`for`"@,
        TokenKind::In => "`in`"@,
        TokenKind::Emit => "`emit`"@,
        TokenKind::Return => "`return`"@,
        TokenKind::True => "`true`"@,
        TokenKind::False => "`false`"@,
        TokenKind::As => "`as`"@,
        TokenKind::Fn => "`fn`"@,
        TokenKind::Struct => "`struct`"@,
        TokenKind::Match => "`match`"@,
        TokenKind::While => "`while`"@,
        TokenKind::Break => "`break`"@,
        TokenKind::Continue => "`continue`"@,
        TokenKind::LParen => "`(`"@,
        TokenKind::RParen => "`)`"@,
        TokenKind::LBrace => "`{`"@,
        TokenKind::RBrace => "`}`"@,
        TokenKind::LBracket => "`[`"@,
        TokenKind::RBracket => "`]`"@,
        TokenKind::Comma => "`,`"@,
        TokenKind::Semi => "`;`"@,
        TokenKind::Colon => "`:`"@,
        TokenKind::ColonColon => "`::`"@,
        TokenKind::Dot => "`.`"@,
        TokenKind::DotDot => "`..`"@,
        TokenKind::Arrow => "`->`"@,
        TokenKind::Eq => "`=`"@,
        TokenKind::EqEq => "`==`"@,
        TokenKind::Bang => "`!`"@,
        TokenKind::BangEq => "`!=`"@,
        TokenKind::Lt => "`<`"@,
        TokenKind::LtEq => "`<=`"@,
        TokenKind::Gt => "`>`"@,
        TokenKind::GtEq => "`>=`"@,
        TokenKind::Plus => "`+`"@,
        TokenKind::Minus => "`-`"@,
        TokenKind::Star => "`*`"@,
        TokenKind::Slash => "`/`"@,
        TokenKind::Percent => "`%`"@,
        TokenKind::Amp => "`&`"@,
        TokenKind::AmpAmp => "`&&`"@,
        TokenKind::Pipe => "`|`"@,
        TokenKind::PipePipe => "`||`"@,
        TokenKind::Caret => "`^`"@,
        TokenKind::Tilde => "`~`"@,
        TokenKind::Shl => "`<<`"@,
        TokenKind::Shr => "`>>`"@,
        TokenKind::Eof => "end of input"@,
        _ => Seq::empty(),
    }
}

/// How a token is named in a message.
pub open spec fn describe(k: Kind) -> Seq<char> {
    match k {
        Kind::Ident(name) => "identifier `"@ + name + "`"@,
        Kind::Int(n) => "integer `"@ + dec(n as nat) + "`"@,
        Kind::Str(text) => "string "@ + debug_str(text),
        Kind::Fixed(k) => fixed_text(k),
    }
}

/// The next token is not what the rule needs.
pub open spec fn unexpected(s: Input, expected: Seq<char>) -> Fault {
    Fault {
        message: "expected "@ + expected + ", found "@ + describe(kind_at(s)),
        span: span_at(s),
    }
}

/// A rule that would not move forward. No rule gets here.
pub open spec fn stuck<T>() -> Parsed<T> {
    Err(Fault { message: Seq::empty(), span: Span { start: 0, end: 0 } })
}

/// Take the given token; gives its span.
pub open spec fn expect(s: Input, k: TokenKind, what: Seq<char>) -> Parsed<Span> {
    if is_at(s, k) {
        Ok((span_at(s), advance(s)))
    } else {
        Err(unexpected(s, what))
    }
}

/// Take a name.
pub open spec fn expect_ident(s: Input, what: Seq<char>) -> Parsed<tree::Ident> {
    match kind_at(s) {
        Kind::Ident(name) => Ok((tree::Ident { name, span: span_at(s) }, advance(s))),
        _ => Err(unexpected(s, what)),
    }
}

/// Take an integer.
pub open spec fn expect_int(s: Input, what: Seq<char>) -> Parsed<u64> {
    match kind_at(s) {
        Kind::Int(n) => Ok((n, advance(s))),
        _ => Err(unexpected(s, what)),
    }
}

/// Take a string.
pub open spec fn expect_str(s: Input, what: Seq<char>) -> Parsed<Seq<char>> {
    match kind_at(s) {
        Kind::Str(text) => Ok((text, advance(s))),
        _ => Err(unexpected(s, what)),
    }
}

/// Take a `>`. Of a `>>` only the first half is taken, and a `>` is left.
pub open spec fn expect_gt(s: Input) -> Parsed<()> {
    if is_at(s, TokenKind::Gt) {
        Ok(((), advance(s)))
    } else if is_at(s, TokenKind::Shr) {
        let half = Tok {
            kind: Kind::Fixed(TokenKind::Gt),
            span: Span { start: (span_at(s).start + 1) as usize, end: span_at(s).end },
        };
        Ok(((), Input { rest: s.rest.update(0, half), prev: s.prev }))
    } else {
        Err(unexpected(s, "`>`"@))
    }
}

/// The operator that a token is, and how tightly it binds.
pub open spec fn binary_op(k: Kind) -> Option<(BinaryOp, int)> {
    match k {
        Kind::Fixed(k) => match k {
            TokenKind::PipePipe => Some((BinaryOp::Or, 1)),
            TokenKind::AmpAmp => Some((BinaryOp::And, 2)),
            TokenKind::EqEq => Some((BinaryOp::Eq, 3)),
            TokenKind::BangEq => Some((BinaryOp::Ne, 3)),
            TokenKind::Lt => Some((BinaryOp::Lt, 4)),
            TokenKind::LtEq => Some((BinaryOp::Le, 4)),
            TokenKind::Gt => Some((BinaryOp::Gt, 4)),
            TokenKind::GtEq => Some((BinaryOp::Ge, 4)),
            TokenKind::Pipe => Some((BinaryOp::BitOr, 5)),
            TokenKind::Caret => Some((BinaryOp::BitXor, 6)),
            TokenKind::Amp => Some((BinaryOp::BitAnd, 7)),
            TokenKind::Shl => Some((BinaryOp::Shl, 8)),
            TokenKind::Shr => Some((BinaryOp::Shr, 8)),
            TokenKind::Plus => Some((BinaryOp::Add, 9)),
            TokenKind::Minus => Some((BinaryOp::Sub, 9)),
            TokenKind::Star => Some((BinaryOp::Mul, 10)),
            TokenKind::Slash => Some((BinaryOp::Div, 10)),
            TokenKind::Percent => Some((BinaryOp::Rem, 10)),
            _ => None,
        },
        _ => None,
    }
}

/// The prefix operator that a token is.
pub open spec fn unary_op(k: Kind) -> Option<UnaryOp> {
    match k {
        Kind::Fixed(k) => match k {
            TokenKind::Bang => Some(UnaryOp::Not),
            TokenKind::Minus => Some(UnaryOp::Neg),
            TokenKind::Tilde => Some(UnaryOp::BitNot),
            TokenKind::Star => Some(UnaryOp::Deref),
            _ => None,
        },
        _ => None,
    }
}

/// The expression that a single token is.
pub open spec fn atom(k: Kind) -> Option<tree::ExprKind> {
    match k {
        Kind::Int(n) => Some(tree::ExprKind::Int(n)),
        Kind::Str(text) => Some(tree::ExprKind::Str(text)),
        Kind::Ident(name) => Some(tree::ExprKind::Ident(name)),
        Kind::Fixed(k) => match k {
            TokenKind::True => Some(tree::ExprKind::Bool(true)),
            TokenKind::False => Some(tree::ExprKind::Bool(false)),
            _ => None,
        },
    }
}

/// Whether an expression can be assigned to: a name, `*name`, or a field of a
/// name or of a field.
pub open spec fn is_place(e: tree::Expr) -> bool {
    match e.kind {
        tree::ExprKind::Ident(_) => true,
        tree::ExprKind::Unary { op: UnaryOp::Deref, expr } => expr.kind is Ident,
        tree::ExprKind::Field { expr, .. } => expr.kind is Ident || expr.kind is Field,
        _ => false,
    }
}

// --------------------------------------------------------------------- items

/// Every item up to the end of the input, behind those read so far.
pub open spec fn items(s: Input, done: Seq<tree::Item>) -> Parsed<Seq<tree::Item>>
    decreases s.rest.len(),
{
    if is_at(s, TokenKind::Eof) {
        Ok((done, s))
    } else {
        match item(s) {
            Err(e) => Err(e),
            Ok((i, s1)) => if s1.rest.len() >= s.rest.len() {
                stuck()
            } else {
                items(s1, done.push(i))
            },
        }
    }
}

/// `{ item }`, up to the end of the input.
pub open spec fn program(s: Input) -> Parsed<tree::Program> {
    match items(s, Seq::empty()) {
        Err(e) => Err(e),
        Ok((list, s1)) => Ok((tree::Program { items: list }, s1)),
    }
}

/// One item; its first token says which.
pub open spec fn item(s: Input) -> Parsed<tree::Item> {
    if is_at(s, TokenKind::Const) {
        match const_decl(s) {
            Err(e) => Err(e),
            Ok((d, s1)) => Ok((tree::Item::Const(d), s1)),
        }
    } else {
        if is_at(s, TokenKind::MapKw) {
            match map_decl(s) {
                Err(e) => Err(e),
                Ok((d, s1)) => Ok((tree::Item::MapDecl(d), s1)),
            }
        } else {
            if is_at(s, TokenKind::Event) {
                match event_decl(s) {
                    Err(e) => Err(e),
                    Ok((d, s1)) => Ok((tree::Item::Event(d), s1)),
                }
            } else {
                if is_at(s, TokenKind::Probe) {
                    match probe_decl(s) {
                        Err(e) => Err(e),
                        Ok((d, s1)) => Ok((tree::Item::Probe(d), s1)),
                    }
                } else {
                    Err(unexpected(s, "an item (`const`, `map`, `event`, or `probe`)"@))
                }
            }
        }
    }
}

/// `const NAME : type = expr ;`
pub open spec fn const_decl(s: Input) -> Parsed<tree::ConstDecl> {
    match expect(s, TokenKind::Const, "`const`"@) {
        Err(e) => Err(e),
        Ok((at, s1)) => match expect_ident(s1, "constant name"@) {
            Err(e) => Err(e),
            Ok((name, s2)) => match expect(s2, TokenKind::Colon, "`:`"@) {
                Err(e) => Err(e),
                Ok((_c, s3)) => match ty(s3) {
                    Err(e) => Err(e),
                    Ok((t, s4)) => match expect(s4, TokenKind::Eq, "`=`"@) {
                        Err(e) => Err(e),
                        Ok((_e, s5)) => match expr(s5) {
                            Err(e) => Err(e),
                            Ok((value, s6)) => match expect(s6, TokenKind::Semi, "`;`"@) {
                                Err(e) => Err(e),
                                Ok((_s, s7)) => Ok((tree::ConstDecl { name, ty: t, value, span: Span { start: at.start, end: s7.prev } }, s7)),
                            },
                        },
                    },
                },
            },
        },
    }
}

/// `type { , type }`, behind the types read so far.
pub open spec fn map_args(s: Input, done: Seq<tree::Type>) -> Parsed<Seq<tree::Type>>
    decreases s.rest.len(),
{
    match ty(s) {
        Err(e) => Err(e),
        Ok((t, s1)) => if s1.rest.len() >= s.rest.len() {
            stuck()
        } else {
            if is_at(s1, TokenKind::Comma) {
                map_args(advance(s1), done.push(t))
            } else {
                Ok((done.push(t), s1))
            }
        },
    }
}

/// `map NAME : kind < type { , type } > [ INT ] ;`
pub open spec fn map_decl(s: Input) -> Parsed<tree::MapDecl> {
    match expect(s, TokenKind::MapKw, "`map`"@) {
        Err(e) => Err(e),
        Ok((at, s1)) => match expect_ident(s1, "map name"@) {
            Err(e) => Err(e),
            Ok((name, s2)) => match expect(s2, TokenKind::Colon, "`:`"@) {
                Err(e) => Err(e),
                Ok((_c, s3)) => match expect_ident(s3, "map kind (`hash` or `array`)"@) {
                    Err(e) => Err(e),
                    Ok((kind, s4)) => match expect(s4, TokenKind::Lt, "`<`"@) {
                        Err(e) => Err(e),
                        Ok((_l, s5)) => match map_args(s5, Seq::empty()) {
                            Err(e) => Err(e),
                            Ok((args, s6)) => match expect_gt(s6) {
                                Err(e) => Err(e),
                                Ok((_g, s7)) => match expect(s7, TokenKind::LBracket, "`[`"@) {
                                    Err(e) => Err(e),
                                    Ok((_b, s8)) => match expect_int(s8, "map capacity"@) {
                                        Err(e) => Err(e),
                                        Ok((capacity, s9)) => match expect(s9, TokenKind::RBracket, "`]`"@) {
                                            Err(e) => Err(e),
                                            Ok((_r, s10)) => match expect(s10, TokenKind::Semi, "`;`"@) {
                                                Err(e) => Err(e),
                                                Ok((_s, s11)) => Ok((tree::MapDecl { name, kind, args, capacity, span: Span { start: at.start, end: s11.prev } }, s11)),
                                            },
                                        },
                                    },
                                },
                            },
                        },
                    },
                },
            },
        },
    }
}

/// `[ NAME : type { , NAME : type } [ , ] ]`, behind the fields read so far.
pub open spec fn event_fields(s: Input, done: Seq<tree::Field>) -> Parsed<Seq<tree::Field>>
    decreases s.rest.len(),
{
    if is_at(s, TokenKind::RBrace) {
        Ok((done, s))
    } else {
        match expect_ident(s, "field name"@) {
            Err(e) => Err(e),
            Ok((name, s1)) => match expect(s1, TokenKind::Colon, "`:`"@) {
                Err(e) => Err(e),
                Ok((_c, s2)) => match ty(s2) {
                    Err(e) => Err(e),
                    Ok((t, s3)) => if s3.rest.len() >= s.rest.len() {
                        stuck()
                    } else {
                        let f = tree::Field { name, ty: t, span: Span { start: name.span.start, end: s3.prev } };
                        if is_at(s3, TokenKind::Comma) {
                            event_fields(advance(s3), done.push(f))
                        } else {
                            Ok((done.push(f), s3))
                        }
                    },
                },
            },
        }
    }
}

/// `event NAME { fields }`
pub open spec fn event_decl(s: Input) -> Parsed<tree::EventDecl> {
    match expect(s, TokenKind::Event, "`event`"@) {
        Err(e) => Err(e),
        Ok((at, s1)) => match expect_ident(s1, "event name"@) {
            Err(e) => Err(e),
            Ok((name, s2)) => match expect(s2, TokenKind::LBrace, "`{`"@) {
                Err(e) => Err(e),
                Ok((_b, s3)) => match event_fields(s3, Seq::empty()) {
                    Err(e) => Err(e),
                    Ok((list, s4)) => match expect(s4, TokenKind::RBrace, "`}` or `,`"@) {
                        Err(e) => Err(e),
                        Ok((_e, s5)) => Ok((tree::EventDecl { name, fields: list, span: Span { start: at.start, end: s5.prev } }, s5)),
                    },
                },
            },
        },
    }
}

/// `STRING { , STRING }`, behind the strings read so far.
pub open spec fn probe_args(s: Input, done: Seq<Seq<char>>) -> Parsed<Seq<Seq<char>>>
    decreases s.rest.len(),
{
    match expect_str(s, "a string argument"@) {
        Err(e) => Err(e),
        Ok((a, s1)) => if s1.rest.len() >= s.rest.len() {
            stuck()
        } else {
            if is_at(s1, TokenKind::Comma) {
                probe_args(advance(s1), done.push(a))
            } else {
                Ok((done.push(a), s1))
            }
        },
    }
}

/// `probe kind ( STRING { , STRING } ) block`
pub open spec fn probe_decl(s: Input) -> Parsed<tree::ProbeDecl> {
    match expect(s, TokenKind::Probe, "`probe`"@) {
        Err(e) => Err(e),
        Ok((at, s1)) => match expect_ident(s1, "probe kind (e.g. `tracepoint`)"@) {
            Err(e) => Err(e),
            Ok((kind, s2)) => match expect(s2, TokenKind::LParen, "`(`"@) {
                Err(e) => Err(e),
                Ok((_l, s3)) => match probe_args(s3, Seq::empty()) {
                    Err(e) => Err(e),
                    Ok((args, s4)) => match expect(s4, TokenKind::RParen, "`)`"@) {
                        Err(e) => Err(e),
                        Ok((_r, s5)) => match block(s5) {
                            Err(e) => Err(e),
                            Ok((body, s6)) => Ok((tree::ProbeDecl { kind, args, body, span: Span { start: at.start, end: s6.prev } }, s6)),
                        },
                    },
                },
            },
        },
    }
}

// --------------------------------------------------------------------- types

/// One argument of a type: an integer or a type.
pub open spec fn ty_arg(s: Input) -> Parsed<tree::TypeArg>
    decreases s.rest.len(), 1nat,
{
    if kind_at(s) is Int {
        match expect_int(s, "integer"@) {
            Err(e) => Err(e),
            Ok((n, s1)) => Ok((tree::TypeArg::Int(n), s1)),
        }
    } else {
        match ty(s) {
            Err(e) => Err(e),
            Ok((t, s1)) => Ok((tree::TypeArg::Type(t), s1)),
        }
    }
}

/// `arg { , arg }`, behind the arguments read so far.
pub open spec fn ty_args(s: Input, done: Seq<tree::TypeArg>) -> Parsed<Seq<tree::TypeArg>>
    decreases s.rest.len(), 2nat,
{
    match ty_arg(s) {
        Err(e) => Err(e),
        Ok((a, s1)) => if s1.rest.len() >= s.rest.len() {
            stuck()
        } else {
            if is_at(s1, TokenKind::Comma) {
                ty_args(advance(s1), done.push(a))
            } else {
                Ok((done.push(a), s1))
            }
        },
    }
}

/// `NAME [ < arg { , arg } > ]`
pub open spec fn ty(s: Input) -> Parsed<tree::Type>
    decreases s.rest.len(), 0nat,
{
    match expect_ident(s, "a type"@) {
        Err(e) => Err(e),
        Ok((name, s1)) => if is_at(s1, TokenKind::Lt) {
            match ty_args(advance(s1), Seq::empty()) {
                Err(e) => Err(e),
                Ok((args, s2)) => match expect_gt(s2) {
                    Err(e) => Err(e),
                    Ok((_g, s3)) => Ok((tree::Type { name, args, span: Span { start: name.span.start, end: s3.prev } }, s3)),
                },
            }
        } else {
            Ok((tree::Type { name, args: Seq::empty(), span: Span { start: name.span.start, end: s1.prev } }, s1))
        },
    }
}

// ---------------------------------------------------------------- statements

/// `{ stmt }` up to a `}`, behind the statements read so far. `open` is where the
/// block was opened.
pub open spec fn block_stmts(s: Input, open: usize, done: Seq<tree::Stmt>) -> Parsed<Seq<tree::Stmt>>
    decreases s.rest.len(), 3nat,
{
    if is_at(s, TokenKind::RBrace) {
        Ok((done, s))
    } else {
        if is_at(s, TokenKind::Eof) {
            Err(Fault { message: "unclosed block: expected `}`"@, span: Span { start: open, end: (open + 1) as usize } })
        } else {
            match stmt(s) {
                Err(e) => Err(e),
                Ok((x, s1)) => if s1.rest.len() >= s.rest.len() {
                    stuck()
                } else {
                    block_stmts(s1, open, done.push(x))
                },
            }
        }
    }
}

/// `{ { stmt } }`
pub open spec fn block(s: Input) -> Parsed<tree::Block>
    decreases s.rest.len(), 0nat,
{
    match expect(s, TokenKind::LBrace, "`{`"@) {
        Err(e) => Err(e),
        Ok((at, s1)) => match block_stmts(s1, at.start, Seq::empty()) {
            Err(e) => Err(e),
            Ok((list, s2)) => match expect(s2, TokenKind::RBrace, "`}`"@) {
                Err(e) => Err(e),
                Ok((_e, s3)) => Ok((tree::Block { stmts: list, span: Span { start: at.start, end: s3.prev } }, s3)),
            },
        },
    }
}

/// One statement; its first token says which.
pub open spec fn stmt_kind(s: Input) -> Parsed<tree::StmtKind>
    decreases s.rest.len(), 1nat,
{
    if is_at(s, TokenKind::Let) {
        let_stmt(s)
    } else {
        if is_at(s, TokenKind::If) {
            if_stmt(s)
        } else {
            if is_at(s, TokenKind::For) {
                for_stmt(s)
            } else {
                if is_at(s, TokenKind::Emit) {
                    emit_stmt(s)
                } else {
                    if is_at(s, TokenKind::Return) {
                        return_stmt(s)
                    } else {
                        if is_at(s, TokenKind::While) {
                            Err(Fault {
                            message: "`while` is not allowed: loops must have a constant bound, use `for i in a..b`"@,
                            span: span_at(s),
                        })
                        } else {
                            expr_or_assign_stmt(s)
                        }
                    }
                }
            }
        }
    }
}

/// One statement and its span.
pub open spec fn stmt(s: Input) -> Parsed<tree::Stmt>
    decreases s.rest.len(), 2nat,
{
    match stmt_kind(s) {
        Err(e) => Err(e),
        Ok((kind, s1)) => Ok((tree::Stmt { kind, span: Span { start: span_at(s).start, end: s1.prev } }, s1)),
    }
}

/// `: type`, if there is one.
pub open spec fn annotation(s: Input) -> Parsed<Option<tree::Type>> {
    if is_at(s, TokenKind::Colon) {
        match ty(advance(s)) {
            Err(e) => Err(e),
            Ok((t, s1)) => Ok((Some(t), s1)),
        }
    } else {
        Ok((None, s))
    }
}

/// `let [ mut ] NAME [ : type ] = expr ;`
pub open spec fn let_stmt(s: Input) -> Parsed<tree::StmtKind> {
    match expect(s, TokenKind::Let, "`let`"@) {
        Err(e) => Err(e),
        Ok((_l, s1)) => {
            let mutable = is_at(s1, TokenKind::Mut);
            let s2 = if mutable { advance(s1) } else { s1 };
            match expect_ident(s2, "variable name"@) {
                Err(e) => Err(e),
                Ok((name, s3)) => match annotation(s3) {
                    Err(e) => Err(e),
                    Ok((t, s4)) => match expect(s4, TokenKind::Eq, "`=`"@) {
                        Err(e) => Err(e),
                        Ok((_e, s5)) => match expr(s5) {
                            Err(e) => Err(e),
                            Ok((value, s6)) => match expect(s6, TokenKind::Semi, "`;`"@) {
                                Err(e) => Err(e),
                                Ok((_s, s7)) => Ok((tree::StmtKind::Let { mutable, name, ty: t, value }, s7)),
                            },
                        },
                    },
                },
            }
        },
    }
}

/// `NAME [ ( NAME ) ]`
pub open spec fn pattern(s: Input) -> Parsed<tree::Pattern> {
    match expect_ident(s, "a pattern (`Some(x)` or `None`)"@) {
        Err(e) => Err(e),
        Ok((name, s1)) => if is_at(s1, TokenKind::LParen) {
            match expect_ident(advance(s1), "binding name"@) {
                Err(e) => Err(e),
                Ok((b, s2)) => match expect(s2, TokenKind::RParen, "`)`"@) {
                    Err(e) => Err(e),
                    Ok((_r, s3)) => Ok((tree::Pattern { name, binding: Some(b), span: Span { start: name.span.start, end: s3.prev } }, s3)),
                },
            }
        } else {
            Ok((tree::Pattern { name, binding: None, span: Span { start: name.span.start, end: s1.prev } }, s1))
        },
    }
}

/// The condition of an `if`: `let pattern = expr` or `expr`.
pub open spec fn cond(s: Input) -> Parsed<tree::Cond> {
    if is_at(s, TokenKind::Let) {
        match pattern(advance(s)) {
            Err(e) => Err(e),
            Ok((p, s1)) => match expect(s1, TokenKind::Eq, "`=`"@) {
                Err(e) => Err(e),
                Ok((_e, s2)) => match expr(s2) {
                    Err(e) => Err(e),
                    Ok((value, s3)) => Ok((tree::Cond::Let { pattern: p, value }, s3)),
                },
            },
        }
    } else {
        match expr(s) {
            Err(e) => Err(e),
            Ok((e, s1)) => Ok((tree::Cond::Expr(e), s1)),
        }
    }
}

/// What stands behind an `else`: a block, or an `if` that becomes a block of its own.
pub open spec fn else_block(s: Input) -> Parsed<tree::Block>
    decreases s.rest.len(), 2nat,
{
    if is_at(s, TokenKind::If) {
        match if_stmt(s) {
            Err(e) => Err(e),
            Ok((kind, s1)) => {
                let span = Span { start: span_at(s).start, end: s1.prev };
                Ok((tree::Block { stmts: seq![tree::Stmt { kind, span }], span }, s1))
            },
        }
    } else {
        block(s)
    }
}

/// `if cond block [ else block ]`
pub open spec fn if_stmt(s: Input) -> Parsed<tree::StmtKind>
    decreases s.rest.len(), 0nat,
{
    match expect(s, TokenKind::If, "`if`"@) {
        Err(e) => Err(e),
        Ok((_i, s1)) => match cond(s1) {
            Err(e) => Err(e),
            Ok((c, s2)) => if s2.rest.len() >= s.rest.len() {
                stuck()
            } else {
                match block(s2) {
                    Err(e) => Err(e),
                    Ok((body, s3)) => if s3.rest.len() >= s.rest.len() {
                        stuck()
                    } else {
                        if is_at(s3, TokenKind::Else) {
                            match else_block(advance(s3)) {
                                Err(e) => Err(e),
                                Ok((b, s4)) => Ok((tree::StmtKind::If { cond: c, body, otherwise: Some(b) }, s4)),
                            }
                        } else {
                            Ok((tree::StmtKind::If { cond: c, body, otherwise: None }, s3))
                        }
                    },
                }
            },
        },
    }
}

/// `for NAME in expr .. expr block`
pub open spec fn for_stmt(s: Input) -> Parsed<tree::StmtKind>
    decreases s.rest.len(), 0nat,
{
    match expect(s, TokenKind::For, "`for`"@) {
        Err(e) => Err(e),
        Ok((_f, s1)) => match expect_ident(s1, "loop variable"@) {
            Err(e) => Err(e),
            Ok((var, s2)) => match expect(s2, TokenKind::In, "`in`"@) {
                Err(e) => Err(e),
                Ok((_i, s3)) => match expr(s3) {
                    Err(e) => Err(e),
                    Ok((start, s4)) => match expect(s4, TokenKind::DotDot, "`..`"@) {
                        Err(e) => Err(e),
                        Ok((_d, s5)) => match expr(s5) {
                            Err(e) => Err(e),
                            Ok((end, s6)) => if s6.rest.len() >= s.rest.len() {
                                stuck()
                            } else {
                                match block(s6) {
                                    Err(e) => Err(e),
                                    Ok((body, s7)) => Ok((tree::StmtKind::For { var, start, end, body }, s7)),
                                }
                            },
                        },
                    },
                },
            },
        },
    }
}

/// `[ NAME : expr { , NAME : expr } [ , ] ]`, behind the fields read so far.
pub open spec fn emit_fields(s: Input, done: Seq<(tree::Ident, tree::Expr)>) -> Parsed<Seq<(tree::Ident, tree::Expr)>>
    decreases s.rest.len(),
{
    if is_at(s, TokenKind::RBrace) {
        Ok((done, s))
    } else {
        match expect_ident(s, "field name"@) {
            Err(e) => Err(e),
            Ok((name, s1)) => match expect(s1, TokenKind::Colon, "`:`"@) {
                Err(e) => Err(e),
                Ok((_c, s2)) => match expr(s2) {
                    Err(e) => Err(e),
                    Ok((value, s3)) => if s3.rest.len() >= s.rest.len() {
                        stuck()
                    } else {
                        if is_at(s3, TokenKind::Comma) {
                            emit_fields(advance(s3), done.push((name, value)))
                        } else {
                            Ok((done.push((name, value)), s3))
                        }
                    },
                },
            },
        }
    }
}

/// `emit NAME { fields } ;`
pub open spec fn emit_stmt(s: Input) -> Parsed<tree::StmtKind> {
    match expect(s, TokenKind::Emit, "`emit`"@) {
        Err(e) => Err(e),
        Ok((_e, s1)) => match expect_ident(s1, "event name"@) {
            Err(e) => Err(e),
            Ok((event, s2)) => match expect(s2, TokenKind::LBrace, "`{`"@) {
                Err(e) => Err(e),
                Ok((_b, s3)) => match emit_fields(s3, Seq::empty()) {
                    Err(e) => Err(e),
                    Ok((list, s4)) => match expect(s4, TokenKind::RBrace, "`}` or `,`"@) {
                        Err(e) => Err(e),
                        Ok((_r, s5)) => match expect(s5, TokenKind::Semi, "`;`"@) {
                            Err(e) => Err(e),
                            Ok((_s, s6)) => Ok((tree::StmtKind::Emit { event, fields: list }, s6)),
                        },
                    },
                },
            },
        },
    }
}

/// `return [ expr ] ;`
pub open spec fn return_stmt(s: Input) -> Parsed<tree::StmtKind> {
    match expect(s, TokenKind::Return, "`return`"@) {
        Err(e) => Err(e),
        Ok((_r, s1)) => if is_at(s1, TokenKind::Semi) {
            Ok((tree::StmtKind::Return(None), advance(s1)))
        } else {
            match expr(s1) {
                Err(e) => Err(e),
                Ok((value, s2)) => match expect(s2, TokenKind::Semi, "`;`"@) {
                    Err(e) => Err(e),
                    Ok((_s, s3)) => Ok((tree::StmtKind::Return(Some(value)), s3)),
                },
            }
        },
    }
}

/// `expr ;` or `place = expr ;`
pub open spec fn expr_or_assign_stmt(s: Input) -> Parsed<tree::StmtKind> {
    match expr(s) {
        Err(e) => Err(e),
        Ok((e, s1)) => if is_at(s1, TokenKind::Eq) {
            if !is_place(e) {
                Err(Fault {
                        message: "invalid assignment target: expected a name, `*name`, or `view.field`"@,
                        span: e.span,
                    })
            } else {
                match expr(advance(s1)) {
                    Err(e) => Err(e),
                    Ok((value, s2)) => match expect(s2, TokenKind::Semi, "`;`"@) {
                        Err(e) => Err(e),
                        Ok((_s, s3)) => Ok((tree::StmtKind::Assign { target: e, value }, s3)),
                    },
                }
            }
        } else {
            match expect(s1, TokenKind::Semi, "`;`"@) {
                Err(e) => Err(e),
                Ok((_s, s2)) => Ok((tree::StmtKind::Expr(e), s2)),
            }
        },
    }
}

// --------------------------------------------------------------- expressions

/// An expression of any precedence.
pub open spec fn expr(s: Input) -> Parsed<tree::Expr>
    decreases s.rest.len(), 6nat,
{
    binary(s, 0)
}

/// Operands joined by operators that bind at least as tightly as `min_bp`.
pub open spec fn binary(s: Input, min_bp: int) -> Parsed<tree::Expr>
    decreases s.rest.len(), 5nat,
{
    match cast(s) {
        Err(e) => Err(e),
        Ok((lhs, s1)) => if s1.rest.len() >= s.rest.len() {
            stuck()
        } else {
            binary_rest(s1, lhs, min_bp)
        },
    }
}

/// The operators behind `lhs`. Left-associative: a right operand binds strictly
/// tighter.
pub open spec fn binary_rest(s: Input, lhs: tree::Expr, min_bp: int) -> Parsed<tree::Expr>
    decreases s.rest.len(), 1nat,
{
    match binary_op(kind_at(s)) {
        Some((op, bp)) => if bp < min_bp {
            Ok((lhs, s))
        } else {
            match binary(advance(s), bp + 1) {
                Err(e) => Err(e),
                Ok((rhs, s1)) => if s1.rest.len() >= s.rest.len() {
                    stuck()
                } else {
                    let span = Span { start: lhs.span.start, end: rhs.span.end };
                    binary_rest(
                        s1,
                        tree::Expr {
                            kind: tree::ExprKind::Binary { op, lhs: Box::new(lhs), rhs: Box::new(rhs) },
                            span,
                        },
                        min_bp,
                    )
                },
            }
        },
        None => Ok((lhs, s)),
    }
}

/// `unary { as type }`
pub open spec fn cast(s: Input) -> Parsed<tree::Expr>
    decreases s.rest.len(), 4nat,
{
    match unary(s) {
        Err(e) => Err(e),
        Ok((e, s1)) => cast_rest(s1, e),
    }
}

/// The casts behind `e`.
pub open spec fn cast_rest(s: Input, e: tree::Expr) -> Parsed<tree::Expr>
    decreases s.rest.len(),
{
    if is_at(s, TokenKind::As) {
        match ty(advance(s)) {
            Err(e) => Err(e),
            Ok((t, s1)) => if s1.rest.len() >= s.rest.len() {
                stuck()
            } else {
                let span = Span { start: e.span.start, end: t.span.end };
                cast_rest(
                    s1,
                    tree::Expr { kind: tree::ExprKind::Cast { expr: Box::new(e), ty: t }, span },
                )
            },
        }
    } else {
        Ok((e, s))
    }
}

/// `{ operator } postfix`
pub open spec fn unary(s: Input) -> Parsed<tree::Expr>
    decreases s.rest.len(), 3nat,
{
    match unary_op(kind_at(s)) {
        Some(op) => match unary(advance(s)) {
            Err(e) => Err(e),
            Ok((e, s1)) => {
                let span = Span { start: span_at(s).start, end: e.span.end };
                Ok((tree::Expr { kind: tree::ExprKind::Unary { op, expr: Box::new(e) }, span }, s1))
            },
        },
        None => postfix(s),
    }
}

/// A primary expression with calls, fields and indexes behind it.
pub open spec fn postfix(s: Input) -> Parsed<tree::Expr>
    decreases s.rest.len(), 2nat,
{
    match primary(s) {
        Err(e) => Err(e),
        Ok((e, s1)) => if s1.rest.len() >= s.rest.len() {
            stuck()
        } else {
            postfix_rest(s1, e)
        },
    }
}

/// The calls, fields and indexes behind `e`.
pub open spec fn postfix_rest(s: Input, e: tree::Expr) -> Parsed<tree::Expr>
    decreases s.rest.len(), 1nat,
{
    if is_at(s, TokenKind::LParen) {
        match args(s) {
            Err(e) => Err(e),
            Ok((list, s1)) => if s1.rest.len() >= s.rest.len() {
                stuck()
            } else {
                let span = Span { start: e.span.start, end: s1.prev };
                postfix_rest(
                    s1,
                    tree::Expr { kind: tree::ExprKind::Call { callee: Box::new(e), args: list }, span },
                )
            },
        }
    } else {
        if is_at(s, TokenKind::Dot) {
            match expect_ident(advance(s), "field or method name"@) {
                Err(e) => Err(e),
                Ok((name, s1)) => if is_at(s1, TokenKind::LParen) {
                    match args(s1) {
                        Err(e) => Err(e),
                        Ok((list, s2)) => if s2.rest.len() >= s.rest.len() {
                            stuck()
                        } else {
                            let span = Span { start: e.span.start, end: s2.prev };
                            let kind = tree::ExprKind::MethodCall { receiver: Box::new(e), method: name, args: list };
                            postfix_rest(s2, tree::Expr { kind, span })
                        },
                    }
                } else {
                    let span = Span { start: e.span.start, end: s1.prev };
                    postfix_rest(
                        s1,
                        tree::Expr { kind: tree::ExprKind::Field { expr: Box::new(e), field: name }, span },
                    )
                },
            }
        } else {
            if is_at(s, TokenKind::LBracket) {
                match expr(advance(s)) {
                    Err(e) => Err(e),
                    Ok((index, s1)) => match expect(s1, TokenKind::RBracket, "`]`"@) {
                        Err(e) => Err(e),
                        Ok((_r, s2)) => if s2.rest.len() >= s.rest.len() {
                            stuck()
                        } else {
                            let span = Span { start: e.span.start, end: s2.prev };
                            let kind = tree::ExprKind::Index { expr: Box::new(e), index: Box::new(index) };
                            postfix_rest(s2, tree::Expr { kind, span })
                        },
                    },
                }
            } else {
                Ok((e, s))
            }
        }
    }
}

/// `[ expr { , expr } [ , ] ]` up to a `)`, behind the arguments read so far.
pub open spec fn args_list(s: Input, done: Seq<tree::Expr>) -> Parsed<Seq<tree::Expr>>
    decreases s.rest.len(), 7nat,
{
    if is_at(s, TokenKind::RParen) {
        Ok((done, s))
    } else {
        match expr(s) {
            Err(e) => Err(e),
            Ok((e, s1)) => if s1.rest.len() >= s.rest.len() {
                stuck()
            } else {
                if is_at(s1, TokenKind::Comma) {
                    args_list(advance(s1), done.push(e))
                } else {
                    Ok((done.push(e), s1))
                }
            },
        }
    }
}

/// `( arguments )`
pub open spec fn args(s: Input) -> Parsed<Seq<tree::Expr>>
    decreases s.rest.len(), 0nat,
{
    match expect(s, TokenKind::LParen, "`(`"@) {
        Err(e) => Err(e),
        Ok((_l, s1)) => match args_list(s1, Seq::empty()) {
            Err(e) => Err(e),
            Ok((list, s2)) => match expect(s2, TokenKind::RParen, "`)` or `,`"@) {
                Err(e) => Err(e),
                Ok((_r, s3)) => Ok((list, s3)),
            },
        },
    }
}

/// A literal, a name, or an expression in parentheses.
pub open spec fn primary(s: Input) -> Parsed<tree::Expr>
    decreases s.rest.len(), 0nat,
{
    match atom(kind_at(s)) {
        Some(kind) => Ok((tree::Expr { kind, span: span_at(s) }, advance(s))),
        None => if is_at(s, TokenKind::LParen) {
            match expr(advance(s)) {
                Err(e) => Err(e),
                Ok((inner, s1)) => match expect(s1, TokenKind::RParen, "`)`"@) {
                    Err(e) => Err(e),
                    Ok((_r, s2)) => Ok((tree::Expr { kind: inner.kind, span: Span { start: span_at(s).start, end: s2.prev } }, s2)),
                },
            }
        } else {
            Err(unexpected(s, "an expression"@))
        },
    }
}

} // verus!
