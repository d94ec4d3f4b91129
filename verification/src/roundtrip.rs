//! Printing and parsing undo each other.
//!
//! A program that parsed prints as text that parses again, to the same program
//! but for the spans; so parsing and printing once more changes nothing.

use crate::ast::{binary_symbol, BinaryOp};
use crate::grammar::{
    advance, annotation, args, args_list, atom, binary, binary_op, binary_rest, block, block_stmts,
    cast, cast_rest, cond, const_decl, else_block, emit_fields, emit_stmt, event_decl, event_fields,
    expect, expect_gt, expect_ident, expect_str, expr, expr_or_assign_stmt, for_stmt, if_stmt,
    is_at, item, items, kind_at, let_stmt, map_args, map_decl, pattern, postfix, postfix_rest,
    primary, probe_args, probe_decl, return_stmt, stmt, stmt_kind, ty, ty_arg, ty_args, unary,
    unary_op, Input,
};
use crate::lexer::{
    in_class, lemma_run_end, lemma_step_moves, lex_from, run_end, span_of, step, tokens_of, Class,
    Step,
};
use crate::parser::{expr_of, program_of, start};
use crate::pretty::{
    block_text, callee_text, cond_text, emit_fields_text, event_fields_text, expr_text, exprs_text,
    item_text, items_text, program_text, stmt_kind_text, stmt_text, stmts_text, type_arg_text,
    type_args_text, type_text, types_text,
};
use crate::printed::{
    between, lemma_lex_between, lemma_lex_lone_expr, lemma_lex_program, printable, printable_block,
    printable_cond, printable_emit_field, printable_expr, printable_field, printable_item,
    printable_pattern, printable_stmt, printable_stmt_kind, printable_type, printable_type_arg,
};
use crate::relex::{fx, is_name};
use crate::reparse::{
    ks, lemma_binary, lemma_expr, lemma_program, same_block, same_cond, same_emit_field, same_expr,
    same_field, same_item, same_program, same_stmt, same_stmt_kind, same_type, same_type_arg,
};
use crate::token::{Kind, LexError, Span, Tok, TokenKind};
use crate::tree;
use vstd::prelude::*;

verus! {

// ------------------------------------- the text does not depend on the spans

proof fn lemma_type_text(a: tree::Type, b: tree::Type)
    requires
        same_type(a, b),
    ensures
        type_text(a) == type_text(b),
    decreases a, 0int,
{
    lemma_type_args_text(a.args, b.args, 0);
}

proof fn lemma_type_args_text(a: Seq<tree::TypeArg>, b: Seq<tree::TypeArg>, i: int)
    requires
        a.len() == b.len(),
        forall|i: int| 0 <= i < a.len() ==> same_type_arg(#[trigger] a[i], b[i]),
        0 <= i <= a.len(),
    ensures
        type_args_text(a, i) == type_args_text(b, i),
    decreases a, a.len() - i,
{
    if i < a.len() {
        lemma_type_args_text(a, b, i + 1);
        assert(same_type_arg(a[i], b[i]));
        match (a[i], b[i]) {
            (tree::TypeArg::Type(x), tree::TypeArg::Type(y)) => lemma_type_text(x, y),
            _ => {},
        }
        assert(type_arg_text(a[i]) == type_arg_text(b[i]));
    }
}

proof fn lemma_expr_text(a: tree::Expr, b: tree::Expr)
    requires
        same_expr(a, b),
    ensures
        expr_text(a) == expr_text(b),
    decreases a, 0int,
{
    match (a.kind, b.kind) {
        (tree::ExprKind::Unary { expr: x, .. }, tree::ExprKind::Unary { expr: y, .. }) => {
            lemma_expr_text(*x, *y);
        },
        (
            tree::ExprKind::Binary { lhs, rhs, .. },
            tree::ExprKind::Binary { lhs: lhs2, rhs: rhs2, .. },
        ) => {
            lemma_expr_text(*lhs, *lhs2);
            lemma_expr_text(*rhs, *rhs2);
        },
        (
            tree::ExprKind::Cast { expr: x, ty: t },
            tree::ExprKind::Cast { expr: y, ty: t2 },
        ) => {
            lemma_expr_text(*x, *y);
            lemma_type_text(t, t2);
        },
        (
            tree::ExprKind::Call { callee, args: l },
            tree::ExprKind::Call { callee: callee2, args: l2 },
        ) => {
            lemma_callee_text(*callee, *callee2);
            lemma_exprs_text(l, l2, 0);
        },
        (
            tree::ExprKind::MethodCall { receiver, method, args: l },
            tree::ExprKind::MethodCall { receiver: receiver2, method: method2, args: l2 },
        ) => {
            lemma_expr_text(*receiver, *receiver2);
            lemma_exprs_text(l, l2, 0);
        },
        (tree::ExprKind::Field { expr: x, .. }, tree::ExprKind::Field { expr: y, .. }) => {
            lemma_expr_text(*x, *y);
        },
        (
            tree::ExprKind::Index { expr: x, index: i },
            tree::ExprKind::Index { expr: y, index: j },
        ) => {
            lemma_expr_text(*x, *y);
            lemma_expr_text(*i, *j);
        },
        _ => {},
    }
}

proof fn lemma_callee_text(a: tree::Expr, b: tree::Expr)
    requires
        same_expr(a, b),
    ensures
        callee_text(a) == callee_text(b),
    decreases a, 1int,
{
    lemma_expr_text(a, b);
}

proof fn lemma_exprs_text(a: Seq<tree::Expr>, b: Seq<tree::Expr>, i: int)
    requires
        a.len() == b.len(),
        forall|i: int| 0 <= i < a.len() ==> same_expr(#[trigger] a[i], b[i]),
        0 <= i <= a.len(),
    ensures
        exprs_text(a, i) == exprs_text(b, i),
    decreases a, a.len() - i,
{
    if i < a.len() {
        lemma_exprs_text(a, b, i + 1);
        lemma_expr_text(a[i], b[i]);
    }
}

proof fn lemma_emit_fields_text(
    a: Seq<(tree::Ident, tree::Expr)>,
    b: Seq<(tree::Ident, tree::Expr)>,
    i: int,
)
    requires
        a.len() == b.len(),
        forall|i: int| 0 <= i < a.len() ==> same_emit_field(#[trigger] a[i], b[i]),
        0 <= i <= a.len(),
    ensures
        emit_fields_text(a, i) == emit_fields_text(b, i),
    decreases a.len() - i,
{
    if i < a.len() {
        lemma_emit_fields_text(a, b, i + 1);
        assert(same_emit_field(a[i], b[i]));
        lemma_expr_text(a[i].1, b[i].1);
    }
}

proof fn lemma_cond_text(a: tree::Cond, b: tree::Cond)
    requires
        same_cond(a, b),
    ensures
        cond_text(a) == cond_text(b),
{
    match (a, b) {
        (tree::Cond::Expr(x), tree::Cond::Expr(y)) => lemma_expr_text(x, y),
        (tree::Cond::Let { value: x, .. }, tree::Cond::Let { value: y, .. }) => {
            lemma_expr_text(x, y)
        },
        _ => {},
    }
}

proof fn lemma_block_text(a: tree::Block, b: tree::Block, ind: Seq<char>)
    requires
        same_block(a, b),
    ensures
        block_text(a, ind) == block_text(b, ind),
    decreases a, 0int,
{
    lemma_stmts_text(a.stmts, b.stmts, 0, ind + "    "@);
}

proof fn lemma_stmts_text(a: Seq<tree::Stmt>, b: Seq<tree::Stmt>, i: int, ind: Seq<char>)
    requires
        a.len() == b.len(),
        forall|i: int| 0 <= i < a.len() ==> same_stmt(#[trigger] a[i], b[i]),
        0 <= i <= a.len(),
    ensures
        stmts_text(a, i, ind) == stmts_text(b, i, ind),
    decreases a, a.len() - i,
{
    if i < a.len() {
        lemma_stmts_text(a, b, i + 1, ind);
        assert(same_stmt(a[i], b[i]));
        lemma_stmt_kind_text(a[i].kind, b[i].kind, ind);
        assert(stmt_text(a[i], ind) == stmt_text(b[i], ind));
    }
}

proof fn lemma_stmt_kind_text(a: tree::StmtKind, b: tree::StmtKind, ind: Seq<char>)
    requires
        same_stmt_kind(a, b),
    ensures
        stmt_kind_text(a, ind) == stmt_kind_text(b, ind),
    decreases a, 0int,
{
    match (a, b) {
        (
            tree::StmtKind::Let { ty: t, value: x, .. },
            tree::StmtKind::Let { ty: t2, value: y, .. },
        ) => {
            if let Some(u) = t {
                lemma_type_text(u, t2->0);
            }
            lemma_expr_text(x, y);
        },
        (
            tree::StmtKind::Assign { target, value },
            tree::StmtKind::Assign { target: target2, value: value2 },
        ) => {
            lemma_expr_text(target, target2);
            lemma_expr_text(value, value2);
        },
        (
            tree::StmtKind::If { cond: c, body, otherwise },
            tree::StmtKind::If { cond: c2, body: body2, otherwise: otherwise2 },
        ) => {
            lemma_cond_text(c, c2);
            lemma_block_text(body, body2, ind);
            if let Some(x) = otherwise {
                lemma_block_text(x, otherwise2->0, ind);
            }
        },
        (
            tree::StmtKind::For { start: x, end: y, body, .. },
            tree::StmtKind::For { start: x2, end: y2, body: body2, .. },
        ) => {
            lemma_expr_text(x, x2);
            lemma_expr_text(y, y2);
            lemma_block_text(body, body2, ind);
        },
        (tree::StmtKind::Emit { fields, .. }, tree::StmtKind::Emit { fields: fields2, .. }) => {
            lemma_emit_fields_text(fields, fields2, 0);
        },
        (tree::StmtKind::Return(x), tree::StmtKind::Return(y)) => {
            if let Some(v) = x {
                lemma_expr_text(v, y->0);
            }
        },
        (tree::StmtKind::Expr(x), tree::StmtKind::Expr(y)) => lemma_expr_text(x, y),
        _ => {},
    }
}

proof fn lemma_types_text(a: Seq<tree::Type>, b: Seq<tree::Type>, i: int)
    requires
        a.len() == b.len(),
        forall|i: int| 0 <= i < a.len() ==> same_type(#[trigger] a[i], b[i]),
        0 <= i <= a.len(),
    ensures
        types_text(a, i) == types_text(b, i),
    decreases a.len() - i,
{
    if i < a.len() {
        lemma_types_text(a, b, i + 1);
        lemma_type_text(a[i], b[i]);
    }
}

proof fn lemma_event_fields_text(a: Seq<tree::Field>, b: Seq<tree::Field>, i: int)
    requires
        a.len() == b.len(),
        forall|i: int| 0 <= i < a.len() ==> same_field(#[trigger] a[i], b[i]),
        0 <= i <= a.len(),
    ensures
        event_fields_text(a, i) == event_fields_text(b, i),
    decreases a.len() - i,
{
    if i < a.len() {
        lemma_event_fields_text(a, b, i + 1);
        assert(same_field(a[i], b[i]));
        lemma_type_text(a[i].ty, b[i].ty);
    }
}

proof fn lemma_item_text(a: tree::Item, b: tree::Item)
    requires
        same_item(a, b),
    ensures
        item_text(a) == item_text(b),
{
    match (a, b) {
        (tree::Item::Const(x), tree::Item::Const(y)) => {
            lemma_type_text(x.ty, y.ty);
            lemma_expr_text(x.value, y.value);
        },
        (tree::Item::MapDecl(x), tree::Item::MapDecl(y)) => {
            lemma_types_text(x.args, y.args, 0);
        },
        (tree::Item::Event(x), tree::Item::Event(y)) => {
            lemma_event_fields_text(x.fields, y.fields, 0);
        },
        (tree::Item::Probe(x), tree::Item::Probe(y)) => {
            lemma_block_text(x.body, y.body, Seq::empty());
        },
        _ => {},
    }
}

proof fn lemma_items_text(a: Seq<tree::Item>, b: Seq<tree::Item>, i: int)
    requires
        a.len() == b.len(),
        forall|i: int| 0 <= i < a.len() ==> same_item(#[trigger] a[i], b[i]),
        0 <= i <= a.len(),
    ensures
        items_text(a, i) == items_text(b, i),
    decreases a.len() - i,
{
    if i < a.len() {
        lemma_items_text(a, b, i + 1);
        lemma_item_text(a[i], b[i]);
    }
}

// --------------------------------------------- what was parsed is printable

/// Every identifier among the tokens is a name.
spec fn named(s: Input) -> bool {
    forall|i: int| 0 <= i < s.rest.len() ==> named_token(#[trigger] s.rest[i])
}

spec fn named_token(t: Tok) -> bool {
    t.kind matches Kind::Ident(w) ==> is_name(w)
}

broadcast proof fn lemma_named_advance(s: Input)
    requires
        named(s),
    ensures
        named(#[trigger] advance(s)),
{
    let t = advance(s);
    assert forall|i: int| 0 <= i < t.rest.len() implies named_token(#[trigger] t.rest[i]) by {
        if !(s.rest.len() == 0 || is_at(s, TokenKind::Eof)) {
            assert(t.rest[i] == s.rest[i + 1]);
        }
    }
}

broadcast proof fn lemma_named_ident(s: Input, what: Seq<char>)
    requires
        named(s),
    ensures
        (#[trigger] expect_ident(s, what)) matches Ok((x, after)) ==> is_name(x.name) && named(after),
{
    lemma_named_advance(s);
    if s.rest.len() > 0 {
        assert(named_token(s.rest[0]));
    }
}

broadcast proof fn lemma_named_expect(s: Input, k: TokenKind, what: Seq<char>)
    requires
        named(s),
    ensures
        (#[trigger] expect(s, k, what)) matches Ok((x, after)) ==> named(after),
{
    lemma_named_advance(s);
}

broadcast proof fn lemma_named_gt(s: Input)
    requires
        named(s),
    ensures
        (#[trigger] expect_gt(s)) matches Ok((x, after)) ==> named(after),
{
    lemma_named_advance(s);
}

broadcast group group_named {
    lemma_named_advance,
    lemma_named_ident,
    lemma_named_expect,
    lemma_named_gt,
}

proof fn lemma_named_ty(s: Input)
    requires
        named(s),
    ensures
        ty(s) matches Ok((t, after)) ==> printable_type(t) && named(after),
    decreases s.rest.len(), 0nat,
{
    broadcast use group_named;

    if let Ok((name, s1)) = expect_ident(s, "a type"@) {
        if is_at(s1, TokenKind::Lt) {
            lemma_named_ty_args(advance(s1), Seq::empty());
        }
    }
}

proof fn lemma_named_ty_arg(s: Input)
    requires
        named(s),
    ensures
        ty_arg(s) matches Ok((a, after)) ==> printable_type_arg(a) && named(after),
    decreases s.rest.len(), 1nat,
{
    broadcast use group_named;

    if !(kind_at(s) is Int) {
        lemma_named_ty(s);
    }
}

proof fn lemma_named_ty_args(s: Input, done: Seq<tree::TypeArg>)
    requires
        named(s),
        forall|i: int| 0 <= i < done.len() ==> printable_type_arg(#[trigger] done[i]),
    ensures
        ty_args(s, done) matches Ok((l, after)) ==> {
            &&& named(after)
            &&& forall|i: int| 0 <= i < l.len() ==> printable_type_arg(#[trigger] l[i])
        },
    decreases s.rest.len(), 2nat,
{
    broadcast use group_named;

    lemma_named_ty_arg(s);
    if let Ok((a, s1)) = ty_arg(s) {
        if s1.rest.len() < s.rest.len() && is_at(s1, TokenKind::Comma) {
            lemma_named_ty_args(advance(s1), done.push(a));
        }
    }
}

proof fn lemma_named_expr(s: Input)
    requires
        named(s),
    ensures
        expr(s) matches Ok((e, after)) ==> printable_expr(e) && named(after),
    decreases s.rest.len(), 6nat,
{
    lemma_named_binary(s, 0);
}

proof fn lemma_named_binary(s: Input, min_bp: int)
    requires
        named(s),
    ensures
        binary(s, min_bp) matches Ok((e, after)) ==> printable_expr(e) && named(after),
    decreases s.rest.len(), 5nat,
{
    lemma_named_cast(s);
    if let Ok((lhs, s1)) = cast(s) {
        if s1.rest.len() < s.rest.len() {
            lemma_named_binary_rest(s1, lhs, min_bp);
        }
    }
}

proof fn lemma_named_binary_rest(s: Input, lhs: tree::Expr, min_bp: int)
    requires
        named(s),
        printable_expr(lhs),
    ensures
        binary_rest(s, lhs, min_bp) matches Ok((e, after)) ==> printable_expr(e) && named(after),
    decreases s.rest.len(), 1nat,
{
    broadcast use group_named;

    if let Some((op, bp)) = binary_op(kind_at(s)) {
        if bp >= min_bp {
            lemma_named_binary(advance(s), bp + 1);
            if let Ok((rhs, s1)) = binary(advance(s), bp + 1) {
                if s1.rest.len() < s.rest.len() {
                    let e = tree::Expr {
                        kind: tree::ExprKind::Binary { op, lhs: Box::new(lhs), rhs: Box::new(rhs) },
                        span: Span { start: lhs.span.start, end: rhs.span.end },
                    };
                    assert(printable_expr(e));
                    lemma_named_binary_rest(s1, e, min_bp);
                }
            }
        }
    }
}

proof fn lemma_named_cast(s: Input)
    requires
        named(s),
    ensures
        cast(s) matches Ok((e, after)) ==> printable_expr(e) && named(after),
    decreases s.rest.len(), 4nat,
{
    lemma_named_unary(s);
    if let Ok((e, s1)) = unary(s) {
        lemma_named_cast_rest(s1, e);
    }
}

proof fn lemma_named_cast_rest(s: Input, e: tree::Expr)
    requires
        named(s),
        printable_expr(e),
    ensures
        cast_rest(s, e) matches Ok((x, after)) ==> printable_expr(x) && named(after),
    decreases s.rest.len(),
{
    broadcast use group_named;

    if is_at(s, TokenKind::As) {
        lemma_named_ty(advance(s));
        if let Ok((t, s1)) = ty(advance(s)) {
            if s1.rest.len() < s.rest.len() {
                let x = tree::Expr {
                    kind: tree::ExprKind::Cast { expr: Box::new(e), ty: t },
                    span: Span { start: e.span.start, end: t.span.end },
                };
                assert(printable_expr(x));
                lemma_named_cast_rest(s1, x);
            }
        }
    }
}

proof fn lemma_named_unary(s: Input)
    requires
        named(s),
    ensures
        unary(s) matches Ok((e, after)) ==> printable_expr(e) && named(after),
    decreases s.rest.len(), 3nat,
{
    broadcast use group_named;

    if unary_op(kind_at(s)) is Some {
        lemma_named_unary(advance(s));
    } else {
        lemma_named_postfix(s);
    }
}

proof fn lemma_named_postfix(s: Input)
    requires
        named(s),
    ensures
        postfix(s) matches Ok((e, after)) ==> printable_expr(e) && named(after),
    decreases s.rest.len(), 2nat,
{
    lemma_named_primary(s);
    if let Ok((e, s1)) = primary(s) {
        if s1.rest.len() < s.rest.len() {
            lemma_named_postfix_rest(s1, e);
        }
    }
}

proof fn lemma_named_postfix_rest(s: Input, e: tree::Expr)
    requires
        named(s),
        printable_expr(e),
    ensures
        postfix_rest(s, e) matches Ok((x, after)) ==> printable_expr(x) && named(after),
    decreases s.rest.len(), 1nat,
{
    broadcast use group_named;

    if is_at(s, TokenKind::LParen) {
        lemma_named_args(s);
        if let Ok((list, s1)) = args(s) {
            if s1.rest.len() < s.rest.len() {
                let x = tree::Expr {
                    kind: tree::ExprKind::Call { callee: Box::new(e), args: list },
                    span: Span { start: e.span.start, end: s1.prev },
                };
                assert(printable_expr(x));
                lemma_named_postfix_rest(s1, x);
            }
        }
    } else if is_at(s, TokenKind::Dot) {
        if let Ok((name, s1)) = expect_ident(advance(s), "field or method name"@) {
            if is_at(s1, TokenKind::LParen) {
                lemma_named_args(s1);
                if let Ok((list, s2)) = args(s1) {
                    if s2.rest.len() < s.rest.len() {
                        let x = tree::Expr {
                            kind: tree::ExprKind::MethodCall {
                                receiver: Box::new(e),
                                method: name,
                                args: list,
                            },
                            span: Span { start: e.span.start, end: s2.prev },
                        };
                        assert(printable_expr(x));
                        lemma_named_postfix_rest(s2, x);
                    }
                }
            } else {
                let x = tree::Expr {
                    kind: tree::ExprKind::Field { expr: Box::new(e), field: name },
                    span: Span { start: e.span.start, end: s1.prev },
                };
                assert(printable_expr(x));
                lemma_named_postfix_rest(s1, x);
            }
        }
    } else if is_at(s, TokenKind::LBracket) {
        lemma_named_expr(advance(s));
        if let Ok((index, s1)) = expr(advance(s)) {
            if let Ok((r, s2)) = expect(s1, TokenKind::RBracket, "`]`"@) {
                if s2.rest.len() < s.rest.len() {
                    let x = tree::Expr {
                        kind: tree::ExprKind::Index { expr: Box::new(e), index: Box::new(index) },
                        span: Span { start: e.span.start, end: s2.prev },
                    };
                    assert(printable_expr(x));
                    lemma_named_postfix_rest(s2, x);
                }
            }
        }
    }
}

proof fn lemma_named_args_list(s: Input, done: Seq<tree::Expr>)
    requires
        named(s),
        forall|i: int| 0 <= i < done.len() ==> printable_expr(#[trigger] done[i]),
    ensures
        args_list(s, done) matches Ok((l, after)) ==> {
            &&& named(after)
            &&& forall|i: int| 0 <= i < l.len() ==> printable_expr(#[trigger] l[i])
        },
    decreases s.rest.len(), 7nat,
{
    broadcast use group_named;

    if !is_at(s, TokenKind::RParen) {
        lemma_named_expr(s);
        if let Ok((e, s1)) = expr(s) {
            if s1.rest.len() < s.rest.len() && is_at(s1, TokenKind::Comma) {
                lemma_named_args_list(advance(s1), done.push(e));
            }
        }
    }
}

proof fn lemma_named_args(s: Input)
    requires
        named(s),
    ensures
        args(s) matches Ok((l, after)) ==> {
            &&& named(after)
            &&& forall|i: int| 0 <= i < l.len() ==> printable_expr(#[trigger] l[i])
        },
    decreases s.rest.len(), 0nat,
{
    broadcast use group_named;

    if let Ok((p, s1)) = expect(s, TokenKind::LParen, "`(`"@) {
        lemma_named_args_list(s1, Seq::empty());
    }
}

proof fn lemma_named_primary(s: Input)
    requires
        named(s),
    ensures
        primary(s) matches Ok((e, after)) ==> printable_expr(e) && named(after),
    decreases s.rest.len(), 0nat,
{
    broadcast use group_named;

    if s.rest.len() > 0 {
        assert(named_token(s.rest[0]));
    }
    if atom(kind_at(s)) is None && is_at(s, TokenKind::LParen) {
        lemma_named_expr(advance(s));
    }
}

proof fn lemma_named_let(s: Input)
    requires
        named(s),
    ensures
        let_stmt(s) matches Ok((k, after)) ==> printable_stmt_kind(k) && named(after),
{
    broadcast use group_named;

    if let Ok((l, s1)) = expect(s, TokenKind::Let, "`let`"@) {
        let s2 = if is_at(s1, TokenKind::Mut) {
            advance(s1)
        } else {
            s1
        };
        if let Ok((name, s3)) = expect_ident(s2, "variable name"@) {
            if is_at(s3, TokenKind::Colon) {
                lemma_named_ty(advance(s3));
            }
            if let Ok((t, s4)) = annotation(s3) {
                if let Ok((e, s5)) = expect(s4, TokenKind::Eq, "`=`"@) {
                    lemma_named_expr(s5);
                }
            }
        }
    }
}

proof fn lemma_named_cond(s: Input)
    requires
        named(s),
    ensures
        cond(s) matches Ok((c, after)) ==> printable_cond(c) && named(after),
{
    broadcast use group_named;

    if is_at(s, TokenKind::Let) {
        lemma_named_pattern(advance(s));
        if let Ok((p, s1)) = pattern(advance(s)) {
            if let Ok((e, s2)) = expect(s1, TokenKind::Eq, "`=`"@) {
                lemma_named_expr(s2);
            }
        }
    } else {
        lemma_named_expr(s);
    }
}

proof fn lemma_named_pattern(s: Input)
    requires
        named(s),
    ensures
        pattern(s) matches Ok((p, after)) ==> printable_pattern(p) && named(after),
{
    broadcast use group_named;

}

proof fn lemma_named_emit_fields(s: Input, done: Seq<(tree::Ident, tree::Expr)>)
    requires
        named(s),
        forall|i: int| 0 <= i < done.len() ==> printable_emit_field(#[trigger] done[i]),
    ensures
        emit_fields(s, done) matches Ok((l, after)) ==> {
            &&& named(after)
            &&& forall|i: int| 0 <= i < l.len() ==> printable_emit_field(#[trigger] l[i])
        },
    decreases s.rest.len(),
{
    broadcast use group_named;

    if !is_at(s, TokenKind::RBrace) {
        if let Ok((name, s1)) = expect_ident(s, "field name"@) {
            if let Ok((c, s2)) = expect(s1, TokenKind::Colon, "`:`"@) {
                lemma_named_expr(s2);
                if let Ok((value, s3)) = expr(s2) {
                    if s3.rest.len() < s.rest.len() && is_at(s3, TokenKind::Comma) {
                        lemma_named_emit_fields(advance(s3), done.push((name, value)));
                    }
                }
            }
        }
    }
}

proof fn lemma_named_emit(s: Input)
    requires
        named(s),
    ensures
        emit_stmt(s) matches Ok((k, after)) ==> printable_stmt_kind(k) && named(after),
{
    broadcast use group_named;

    if let Ok((e, s1)) = expect(s, TokenKind::Emit, "`emit`"@) {
        if let Ok((event, s2)) = expect_ident(s1, "event name"@) {
            if let Ok((b, s3)) = expect(s2, TokenKind::LBrace, "`{`"@) {
                lemma_named_emit_fields(s3, Seq::empty());
            }
        }
    }
}

proof fn lemma_named_return(s: Input)
    requires
        named(s),
    ensures
        return_stmt(s) matches Ok((k, after)) ==> printable_stmt_kind(k) && named(after),
{
    broadcast use group_named;

    if let Ok((r, s1)) = expect(s, TokenKind::Return, "`return`"@) {
        if !is_at(s1, TokenKind::Semi) {
            lemma_named_expr(s1);
        }
    }
}

proof fn lemma_named_expr_or_assign(s: Input)
    requires
        named(s),
    ensures
        expr_or_assign_stmt(s) matches Ok((k, after)) ==> printable_stmt_kind(k) && named(after),
{
    broadcast use group_named;

    lemma_named_expr(s);
    if let Ok((e, s1)) = expr(s) {
        if is_at(s1, TokenKind::Eq) {
            lemma_named_expr(advance(s1));
        }
    }
}

proof fn lemma_named_stmts(s: Input, open: usize, done: Seq<tree::Stmt>)
    requires
        named(s),
        forall|i: int| 0 <= i < done.len() ==> printable_stmt(#[trigger] done[i]),
    ensures
        block_stmts(s, open, done) matches Ok((l, after)) ==> {
            &&& named(after)
            &&& forall|i: int| 0 <= i < l.len() ==> printable_stmt(#[trigger] l[i])
        },
    decreases s.rest.len(), 3nat,
{
    if !is_at(s, TokenKind::RBrace) && !is_at(s, TokenKind::Eof) {
        lemma_named_stmt(s);
        if let Ok((x, s1)) = stmt(s) {
            if s1.rest.len() < s.rest.len() {
                lemma_named_stmts(s1, open, done.push(x));
            }
        }
    }
}

proof fn lemma_named_block(s: Input)
    requires
        named(s),
    ensures
        block(s) matches Ok((b, after)) ==> printable_block(b) && named(after),
    decreases s.rest.len(), 0nat,
{
    broadcast use group_named;

    if let Ok((at, s1)) = expect(s, TokenKind::LBrace, "`{`"@) {
        lemma_named_stmts(s1, at.start, Seq::empty());
    }
}

proof fn lemma_named_stmt(s: Input)
    requires
        named(s),
    ensures
        stmt(s) matches Ok((x, after)) ==> printable_stmt(x) && named(after),
    decreases s.rest.len(), 2nat,
{
    lemma_named_stmt_kind(s);
}

proof fn lemma_named_stmt_kind(s: Input)
    requires
        named(s),
    ensures
        stmt_kind(s) matches Ok((k, after)) ==> printable_stmt_kind(k) && named(after),
    decreases s.rest.len(), 1nat,
{
    if is_at(s, TokenKind::Let) {
        lemma_named_let(s);
    } else if is_at(s, TokenKind::If) {
        lemma_named_if(s);
    } else if is_at(s, TokenKind::For) {
        lemma_named_for(s);
    } else if is_at(s, TokenKind::Emit) {
        lemma_named_emit(s);
    } else if is_at(s, TokenKind::Return) {
        lemma_named_return(s);
    } else if !is_at(s, TokenKind::While) {
        lemma_named_expr_or_assign(s);
    }
}

proof fn lemma_named_else(s: Input)
    requires
        named(s),
    ensures
        else_block(s) matches Ok((b, after)) ==> printable_block(b) && named(after),
    decreases s.rest.len(), 2nat,
{
    if is_at(s, TokenKind::If) {
        lemma_named_if(s);
        if let Ok((b, after)) = else_block(s) {
            assert(b.stmts.len() == 1);
            assert(printable_stmt(b.stmts[0]));
        }
    } else {
        lemma_named_block(s);
    }
}

proof fn lemma_named_if(s: Input)
    requires
        named(s),
    ensures
        if_stmt(s) matches Ok((k, after)) ==> printable_stmt_kind(k) && named(after),
    decreases s.rest.len(), 0nat,
{
    broadcast use group_named;

    if let Ok((i, s1)) = expect(s, TokenKind::If, "`if`"@) {
        lemma_named_cond(s1);
        if let Ok((c, s2)) = cond(s1) {
            if s2.rest.len() < s.rest.len() {
                lemma_named_block(s2);
                if let Ok((body, s3)) = block(s2) {
                    if s3.rest.len() < s.rest.len() && is_at(s3, TokenKind::Else) {
                        lemma_named_else(advance(s3));
                    }
                }
            }
        }
    }
}

proof fn lemma_named_for(s: Input)
    requires
        named(s),
    ensures
        for_stmt(s) matches Ok((k, after)) ==> printable_stmt_kind(k) && named(after),
    decreases s.rest.len(), 0nat,
{
    broadcast use group_named;

    if let Ok((f, s1)) = expect(s, TokenKind::For, "`for`"@) {
        if let Ok((var, s2)) = expect_ident(s1, "loop variable"@) {
            if let Ok((i, s3)) = expect(s2, TokenKind::In, "`in`"@) {
                lemma_named_expr(s3);
                if let Ok((a, s4)) = expr(s3) {
                    if let Ok((d, s5)) = expect(s4, TokenKind::DotDot, "`..`"@) {
                        lemma_named_expr(s5);
                        if let Ok((b, s6)) = expr(s5) {
                            if s6.rest.len() < s.rest.len() {
                                lemma_named_block(s6);
                            }
                        }
                    }
                }
            }
        }
    }
}

proof fn lemma_named_const(s: Input)
    requires
        named(s),
    ensures
        const_decl(s) matches Ok((c, after)) ==> printable_item(tree::Item::Const(c)) && named(
            after,
        ),
{
    broadcast use group_named;

    if let Ok((at, s1)) = expect(s, TokenKind::Const, "`const`"@) {
        if let Ok((name, s2)) = expect_ident(s1, "constant name"@) {
            if let Ok((c, s3)) = expect(s2, TokenKind::Colon, "`:`"@) {
                lemma_named_ty(s3);
                if let Ok((t, s4)) = ty(s3) {
                    if let Ok((e, s5)) = expect(s4, TokenKind::Eq, "`=`"@) {
                        lemma_named_expr(s5);
                    }
                }
            }
        }
    }
}

proof fn lemma_named_map_args(s: Input, done: Seq<tree::Type>)
    requires
        named(s),
        forall|i: int| 0 <= i < done.len() ==> printable_type(#[trigger] done[i]),
    ensures
        map_args(s, done) matches Ok((l, after)) ==> {
            &&& named(after)
            &&& l.len() > 0
            &&& forall|i: int| 0 <= i < l.len() ==> printable_type(#[trigger] l[i])
        },
    decreases s.rest.len(),
{
    broadcast use group_named;

    lemma_named_ty(s);
    if let Ok((t, s1)) = ty(s) {
        if s1.rest.len() < s.rest.len() && is_at(s1, TokenKind::Comma) {
            lemma_named_map_args(advance(s1), done.push(t));
        }
    }
}

proof fn lemma_named_map(s: Input)
    requires
        named(s),
    ensures
        map_decl(s) matches Ok((m, after)) ==> printable_item(tree::Item::MapDecl(m)) && named(
            after,
        ),
{
    broadcast use group_named;

    if let Ok((at, s1)) = expect(s, TokenKind::MapKw, "`map`"@) {
        if let Ok((name, s2)) = expect_ident(s1, "map name"@) {
            if let Ok((c, s3)) = expect(s2, TokenKind::Colon, "`:`"@) {
                if let Ok((kind, s4)) = expect_ident(s3, "map kind (`hash` or `array`)"@) {
                    if let Ok((l, s5)) = expect(s4, TokenKind::Lt, "`<`"@) {
                        lemma_named_map_args(s5, Seq::empty());
                    }
                }
            }
        }
    }
}

proof fn lemma_named_event_fields(s: Input, done: Seq<tree::Field>)
    requires
        named(s),
        forall|i: int| 0 <= i < done.len() ==> printable_field(#[trigger] done[i]),
    ensures
        event_fields(s, done) matches Ok((l, after)) ==> {
            &&& named(after)
            &&& forall|i: int| 0 <= i < l.len() ==> printable_field(#[trigger] l[i])
        },
    decreases s.rest.len(),
{
    broadcast use group_named;

    if !is_at(s, TokenKind::RBrace) {
        if let Ok((name, s1)) = expect_ident(s, "field name"@) {
            if let Ok((c, s2)) = expect(s1, TokenKind::Colon, "`:`"@) {
                lemma_named_ty(s2);
                if let Ok((t, s3)) = ty(s2) {
                    if s3.rest.len() < s.rest.len() && is_at(s3, TokenKind::Comma) {
                        let f = tree::Field {
                            name,
                            ty: t,
                            span: Span { start: name.span.start, end: s3.prev },
                        };
                        lemma_named_event_fields(advance(s3), done.push(f));
                    }
                }
            }
        }
    }
}

proof fn lemma_named_event(s: Input)
    requires
        named(s),
    ensures
        event_decl(s) matches Ok((e, after)) ==> printable_item(tree::Item::Event(e)) && named(
            after,
        ),
{
    broadcast use group_named;

    if let Ok((at, s1)) = expect(s, TokenKind::Event, "`event`"@) {
        if let Ok((name, s2)) = expect_ident(s1, "event name"@) {
            if let Ok((b, s3)) = expect(s2, TokenKind::LBrace, "`{`"@) {
                lemma_named_event_fields(s3, Seq::empty());
            }
        }
    }
}

proof fn lemma_named_probe_args(s: Input, done: Seq<Seq<char>>)
    requires
        named(s),
    ensures
        probe_args(s, done) matches Ok((l, after)) ==> named(after) && l.len() > 0,
    decreases s.rest.len(),
{
    broadcast use group_named;

    if let Ok((a, s1)) = expect_str(s, "a string argument"@) {
        if s1.rest.len() < s.rest.len() && is_at(s1, TokenKind::Comma) {
            lemma_named_probe_args(advance(s1), done.push(a));
        }
    }
}

proof fn lemma_named_probe(s: Input)
    requires
        named(s),
    ensures
        probe_decl(s) matches Ok((p, after)) ==> printable_item(tree::Item::Probe(p)) && named(
            after,
        ),
{
    broadcast use group_named;

    if let Ok((at, s1)) = expect(s, TokenKind::Probe, "`probe`"@) {
        if let Ok((kind, s2)) = expect_ident(s1, "probe kind (e.g. `tracepoint`)"@) {
            if let Ok((l, s3)) = expect(s2, TokenKind::LParen, "`(`"@) {
                lemma_named_probe_args(s3, Seq::empty());
                if let Ok((list, s4)) = probe_args(s3, Seq::empty()) {
                    if let Ok((r, s5)) = expect(s4, TokenKind::RParen, "`)`"@) {
                        lemma_named_block(s5);
                    }
                }
            }
        }
    }
}

proof fn lemma_named_items(s: Input, done: Seq<tree::Item>)
    requires
        named(s),
        forall|i: int| 0 <= i < done.len() ==> printable_item(#[trigger] done[i]),
    ensures
        items(s, done) matches Ok((l, after)) ==> forall|i: int|
            0 <= i < l.len() ==> printable_item(#[trigger] l[i]),
    decreases s.rest.len(),
{
    if !is_at(s, TokenKind::Eof) {
        lemma_named_const(s);
        lemma_named_map(s);
        lemma_named_event(s);
        lemma_named_probe(s);
        if let Ok((x, s1)) = item(s) {
            assert(printable_item(x) && named(s1));
            if s1.rest.len() < s.rest.len() {
                lemma_named_items(s1, done.push(x));
            }
        }
    }
}

/// The lexer makes an identifier only of a word that is no keyword.
proof fn lemma_named_step(src: Seq<char>, i: int)
    requires
        0 <= i < src.len(),
    ensures
        step(src, i) matches Step::Token(Kind::Ident(w), j) ==> is_name(w),
{
    lemma_run_end(src, i, Class::Word);
    let end = run_end(src, i, Class::Word);
    let w = src.subrange(i, end);
    if let Step::Token(Kind::Ident(x), j) = step(src, i) {
        assert(x == w);
        assert forall|k: int| 0 <= k < w.len() implies in_class(
            Class::Word,
            #[trigger] w[k],
        ) by {
            assert(w[k] == src[i + k]);
        }
        assert(w[0] == src[i]);
    }
}

proof fn lemma_named_lex(src: Seq<char>, i: int)
    requires
        0 <= i <= src.len(),
    ensures
        lex_from(src, i) matches Ok(t) ==> forall|k: int|
            0 <= k < t.len() ==> named_token(#[trigger] t[k]),
    decreases src.len() - i,
{
    if i < src.len() {
        lemma_step_moves(src, i);
        lemma_named_step(src, i);
        match step(src, i) {
            Step::Skip(j) => lemma_named_lex(src, j),
            Step::Token(k, j) => {
                lemma_named_lex(src, j);
                if let Ok(t) = lex_from(src, j) {
                    let first = Tok { kind: k, span: span_of(src, i, j) };
                    let all = seq![first] + t;
                    assert(lex_from(src, i) == Ok::<Seq<Tok>, LexError>(all));
                    assert forall|n: int| 0 <= n < all.len() implies named_token(
                        #[trigger] all[n],
                    ) by {
                        if n > 0 {
                            assert(all[n] == t[n - 1]);
                        }
                    }
                }
            },
            Step::Fail(..) => {},
        }
    }
}

// --------------------------------------------------------------- the laws

/// Whatever parses is printable: its names are names, its lists are as long as
/// the grammar asks, and what it assigns to can be assigned to.
pub proof fn lemma_parsed_is_printable(src: Seq<char>)
    ensures
        program_of(src) matches Ok(p) ==> printable(p),
        expr_of(src) matches Ok(e) ==> printable_expr(e),
{
    lemma_named_lex(src, 0);
    if let Ok(t) = tokens_of(src) {
        assert(named(start(t)));
        lemma_named_items(start(t), Seq::empty());
        lemma_named_expr(start(t));
    }
}

/// A program that says the same prints the same.
pub proof fn lemma_same_text(a: tree::Program, b: tree::Program)
    requires
        same_program(a, b),
    ensures
        program_text(a) == program_text(b),
{
    lemma_items_text(a.items, b.items, 0);
}

/// An expression that says the same prints the same.
pub proof fn lemma_same_expr_text(a: tree::Expr, b: tree::Expr)
    requires
        same_expr(a, b),
    ensures
        expr_text(a) == expr_text(b),
{
    lemma_expr_text(a, b);
}

/// What is printed parses back to the program that it was printed from, but
/// for the spans.
pub proof fn lemma_print_then_parse(p: tree::Program)
    requires
        printable(p),
    ensures
        program_of(program_text(p)) matches Ok(q) && same_program(q, p),
{
    lemma_lex_program(p);
    let t = tokens_of(program_text(p))->Ok_0;
    let (q, s) = lemma_program(start(t), p);
}

/// The same of a single expression.
pub proof fn lemma_print_then_parse_expr(e: tree::Expr)
    requires
        printable_expr(e),
    ensures
        expr_of(expr_text(e)) matches Ok(x) && same_expr(x, e),
{
    lemma_lex_lone_expr(e);
    let t = tokens_of(expr_text(e))->Ok_0;
    let (x, s) = lemma_expr(start(t), e, fx(TokenKind::Eof));
    assert(ks(s)[0] == s.rest[0].kind);
    assert(ks(s)[0] == Kind::Fixed(TokenKind::Eof));
}

/// Parsing, printing, parsing and printing gives what the first printing gave.
pub proof fn lemma_fixed_point(src: Seq<char>)
    ensures
        program_of(src) matches Ok(p) ==> {
            &&& program_of(program_text(p)) matches Ok(q)
            &&& same_program(q, p)
            &&& program_text(q) == program_text(p)
        },
{
    lemma_parsed_is_printable(src);
    if let Ok(p) = program_of(src) {
        lemma_print_then_parse(p);
        lemma_same_text(program_of(program_text(p))->Ok_0, p);
    }
}

/// The same of a single expression.
pub proof fn lemma_expr_fixed_point(src: Seq<char>)
    ensures
        expr_of(src) matches Ok(e) ==> {
            &&& expr_of(expr_text(e)) matches Ok(x)
            &&& same_expr(x, e)
            &&& expr_text(x) == expr_text(e)
        },
{
    lemma_parsed_is_printable(src);
    if let Ok(e) = expr_of(src) {
        lemma_print_then_parse_expr(e);
        lemma_same_expr_text(expr_of(expr_text(e))->Ok_0, e);
    }
}

/// An operator's symbol between two printed expressions parses to that operator
/// on them.
pub proof fn lemma_symbol_parses_to_its_operator(
    op: BinaryOp,
    lhs: tree::Expr,
    rhs: tree::Expr,
)
    requires
        printable_expr(lhs),
        printable_expr(rhs),
    ensures
        ({
            &&& expr_of(between(op, lhs, rhs)) matches Ok(e)
            &&& e.kind matches tree::ExprKind::Binary { op: o, lhs: l, rhs: r }
            &&& o == op
            &&& same_expr(*l, lhs)
            &&& same_expr(*r, rhs)
        }),
{
    lemma_lex_between(op, lhs, rhs);
    let t = tokens_of(between(op, lhs, rhs))->Ok_0;
    let e = tree::Expr {
        kind: tree::ExprKind::Binary { op, lhs: Box::new(lhs), rhs: Box::new(rhs) },
        span: Span { start: 0, end: 0 },
    };
    let (x, s) = lemma_binary(start(t), op, lhs, rhs, fx(TokenKind::Eof), e);
    assert(ks(s)[0] == s.rest[0].kind);
    assert(ks(s)[0] == Kind::Fixed(TokenKind::Eof));
}

/// No two operators share a symbol.
pub proof fn lemma_symbols_differ(a: BinaryOp, b: BinaryOp)
    requires
        binary_symbol(a) == binary_symbol(b),
    ensures
        a == b,
{
    let one = tree::Expr { kind: tree::ExprKind::Int(1), span: Span { start: 0, end: 0 } };
    lemma_symbol_parses_to_its_operator(a, one, one);
    lemma_symbol_parses_to_its_operator(b, one, one);
    assert(between(a, one, one) == between(b, one, one));
}

} // verus!
