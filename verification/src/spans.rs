//! Where in the text each part of a program stands.

use crate::grammar::{
    advance, args, atom, binary, binary_op, binary_rest, block, cast, cast_rest, expect,
    expect_ident, expr, is_at, item, kind_at, pattern, postfix, postfix_rest, primary, span_at,
    stmt, ty, unary, unary_op, Input,
};
use crate::token::{Kind, Span, TokenKind};
use crate::tree;
use vstd::prelude::*;

verus! {

/// From the start of the next token of `s` to the end of the last one before `t`.
pub open spec fn covers(span: Span, s: Input, t: Input) -> bool {
    span.start == span_at(s).start && span.end == t.prev
}

/// A type covers its tokens.
pub proof fn lemma_types_cover_their_tokens(s: Input)
    ensures
        ty(s) matches Ok((t, s1)) ==> covers(t.span, s, s1),
{
}

/// An expression covers its tokens, parentheses round it included.
pub proof fn lemma_expressions_cover_their_tokens(s: Input)
    ensures
        expr(s) matches Ok((e, s1)) ==> covers(e.span, s, s1),
    decreases s.rest.len(), 6nat,
{
    lemma_binary(s, 0);
}

proof fn lemma_binary(s: Input, min: int)
    ensures
        binary(s, min) matches Ok((e, s1)) ==> covers(e.span, s, s1),
    decreases s.rest.len(), 5nat,
{
    lemma_cast(s);
    if let Ok((lhs, s1)) = cast(s) {
        if s1.rest.len() < s.rest.len() {
            lemma_binary_rest(s1, lhs, min);
        }
    }
}

proof fn lemma_binary_rest(s: Input, lhs: tree::Expr, min: int)
    requires
        lhs.span.end == s.prev,
    ensures
        binary_rest(s, lhs, min) matches Ok((e, s1)) ==> e.span.start == lhs.span.start
            && e.span.end == s1.prev,
    decreases s.rest.len(), 1nat,
{
    if let Some((op, bp)) = binary_op(kind_at(s)) {
        if bp >= min {
            lemma_binary(advance(s), bp + 1);
            if let Ok((rhs, s1)) = binary(advance(s), bp + 1) {
                if s1.rest.len() < s.rest.len() {
                    let e = tree::Expr {
                        kind: tree::ExprKind::Binary {
                            op,
                            lhs: Box::new(lhs),
                            rhs: Box::new(rhs),
                        },
                        span: Span { start: lhs.span.start, end: rhs.span.end },
                    };
                    lemma_binary_rest(s1, e, min);
                }
            }
        }
    }
}

proof fn lemma_cast(s: Input)
    ensures
        cast(s) matches Ok((e, s1)) ==> covers(e.span, s, s1),
    decreases s.rest.len(), 4nat,
{
    lemma_unary(s);
    if let Ok((e, s1)) = unary(s) {
        lemma_cast_rest(s1, e);
    }
}

proof fn lemma_cast_rest(s: Input, e: tree::Expr)
    requires
        e.span.end == s.prev,
    ensures
        cast_rest(s, e) matches Ok((r, s1)) ==> r.span.start == e.span.start && r.span.end
            == s1.prev,
    decreases s.rest.len(),
{
    if is_at(s, TokenKind::As) {
        lemma_types_cover_their_tokens(advance(s));
        if let Ok((t, s1)) = ty(advance(s)) {
            if s1.rest.len() < s.rest.len() {
                let r = tree::Expr {
                    kind: tree::ExprKind::Cast { expr: Box::new(e), ty: t },
                    span: Span { start: e.span.start, end: t.span.end },
                };
                lemma_cast_rest(s1, r);
            }
        }
    }
}

proof fn lemma_unary(s: Input)
    ensures
        unary(s) matches Ok((e, s1)) ==> covers(e.span, s, s1),
    decreases s.rest.len(), 3nat,
{
    match unary_op(kind_at(s)) {
        Some(op) => {
            assert(advance(s).rest.len() < s.rest.len());
            lemma_unary(advance(s));
        },
        None => lemma_postfix(s),
    }
}

proof fn lemma_postfix(s: Input)
    ensures
        postfix(s) matches Ok((e, s1)) ==> covers(e.span, s, s1),
    decreases s.rest.len(), 2nat,
{
    lemma_primary(s);
    if let Ok((e, s1)) = primary(s) {
        if s1.rest.len() < s.rest.len() {
            lemma_postfix_rest(s1, e);
        }
    }
}

proof fn lemma_postfix_rest(s: Input, e: tree::Expr)
    requires
        e.span.end == s.prev,
    ensures
        postfix_rest(s, e) matches Ok((r, s1)) ==> r.span.start == e.span.start && r.span.end
            == s1.prev,
    decreases s.rest.len(), 1nat,
{
    if is_at(s, TokenKind::LParen) {
        if let Ok((list, s1)) = args(s) {
            if s1.rest.len() < s.rest.len() {
                let r = tree::Expr {
                    kind: tree::ExprKind::Call { callee: Box::new(e), args: list },
                    span: Span { start: e.span.start, end: s1.prev },
                };
                lemma_postfix_rest(s1, r);
            }
        }
    } else if is_at(s, TokenKind::Dot) {
        if let Ok((name, s1)) = expect_ident(advance(s), "field or method name"@) {
            if is_at(s1, TokenKind::LParen) {
                if let Ok((list, s2)) = args(s1) {
                    if s2.rest.len() < s.rest.len() {
                        let r = tree::Expr {
                            kind: tree::ExprKind::MethodCall {
                                receiver: Box::new(e),
                                method: name,
                                args: list,
                            },
                            span: Span { start: e.span.start, end: s2.prev },
                        };
                        lemma_postfix_rest(s2, r);
                    }
                }
            } else {
                let r = tree::Expr {
                    kind: tree::ExprKind::Field { expr: Box::new(e), field: name },
                    span: Span { start: e.span.start, end: s1.prev },
                };
                lemma_postfix_rest(s1, r);
            }
        }
    } else if is_at(s, TokenKind::LBracket) {
        if let Ok((index, s1)) = expr(advance(s)) {
            if let Ok((_r, s2)) = expect(s1, TokenKind::RBracket, "`]`"@) {
                if s2.rest.len() < s.rest.len() {
                    let r = tree::Expr {
                        kind: tree::ExprKind::Index {
                            expr: Box::new(e),
                            index: Box::new(index),
                        },
                        span: Span { start: e.span.start, end: s2.prev },
                    };
                    lemma_postfix_rest(s2, r);
                }
            }
        }
    }
}

proof fn lemma_primary(s: Input)
    ensures
        primary(s) matches Ok((e, s1)) ==> covers(e.span, s, s1),
    decreases s.rest.len(), 0nat,
{
    if let Some(kind) = atom(kind_at(s)) {
        assert(s.rest.len() > 0);
        assert(advance(s).prev == span_at(s).end);
    }
}

/// A statement covers its tokens.
pub proof fn lemma_statements_cover_their_tokens(s: Input)
    ensures
        stmt(s) matches Ok((x, s1)) ==> covers(x.span, s, s1),
{
}

/// A block covers its tokens, from its opening brace to its closing one.
pub proof fn lemma_blocks_cover_their_tokens(s: Input)
    ensures
        block(s) matches Ok((b, s1)) ==> covers(b.span, s, s1) && is_at(s, TokenKind::LBrace),
{
}

/// Where an item stands.
pub open spec fn item_span(i: tree::Item) -> Span {
    match i {
        tree::Item::Const(d) => d.span,
        tree::Item::MapDecl(d) => d.span,
        tree::Item::Event(d) => d.span,
        tree::Item::Probe(d) => d.span,
    }
}

/// An item covers its tokens, and its name is the second of them.
pub proof fn lemma_items_cover_their_tokens(s: Input)
    ensures
        item(s) matches Ok((i, s1)) ==> covers(item_span(i), s, s1) && match i {
            tree::Item::Const(d) => is_name(d.name, advance(s)),
            tree::Item::MapDecl(d) => is_name(d.name, advance(s)),
            tree::Item::Event(d) => is_name(d.name, advance(s)),
            tree::Item::Probe(d) => is_name(d.kind, advance(s)),
        },
{
}

/// The name at the next token of `s`.
pub open spec fn is_name(n: tree::Ident, s: Input) -> bool {
    kind_at(s) == Kind::Ident(n.name) && n.span == span_at(s)
}

/// The condition's pattern covers its tokens, from its name on.
pub proof fn lemma_patterns_cover_their_tokens(s: Input)
    ensures
        pattern(s) matches Ok((p, s1)) ==> covers(p.span, s, s1) && is_name(p.name, s),
{
}

/// Taking a token leaves the others, and remembers where it ended; the last one, the end of
/// the input, stays.
pub proof fn lemma_tokens_are_taken_in_turn(s: Input)
    requires
        s.rest.len() > 0,
    ensures
        !is_at(s, TokenKind::Eof) ==> s.rest == seq![s.rest[0]] + advance(s).rest
            && advance(s).prev == span_at(s).end,
        is_at(s, TokenKind::Eof) ==> advance(s) == s,
{
    assert(s.rest =~= seq![s.rest[0]] + s.rest.drop_first());
}

} // verus!
