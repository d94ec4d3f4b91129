//! Parsing the tokens of a printed tree gives the tree back, but for where its
//! parts stand in the text.

use crate::ast::{BinaryOp, UnaryOp};
use crate::grammar::{
    advance, annotation, args, args_list, binary, binary_op, binary_rest, block, block_stmts, cast,
    cast_rest, cond, const_decl, else_block, emit_fields, emit_stmt, event_decl, event_fields,
    expect, expect_gt, expect_ident, expr, expr_or_assign_stmt, for_stmt, if_stmt, is_at, is_place,
    item, items, kind_at, let_stmt, map_args, map_decl, pattern, postfix, postfix_rest, primary,
    probe_args, probe_decl, program, return_stmt, span_at, stmt, stmt_kind, ty, ty_arg, ty_args,
    unary, Fault, Input,
};
use crate::printed::{
    callee_kinds, annotation_kinds, binary_kind, block_kinds, closers, cond_kinds,
    emit_fields_kinds, event_fields_kinds, expr_kinds, exprs_kinds, item_kinds, items_kinds,
    mut_kinds, pattern_kinds, printable, printable_item, printable_stmt, printable_stmt_kind,
    printable_block, stmt_kind_kinds, stmt_kinds, stmts_kinds, strs_kinds, type_arg_kinds,
    type_args_kinds, type_kinds, types_kinds, unary_kind,
};
use crate::relex::{fx, group_kinds, kinds};
use crate::token::{Kind, Span, TokenKind};
use crate::tree;
use vstd::prelude::*;

verus! {

// ------------------------------------------------ trees that say the same

/// The same type, whatever the spans.
pub open spec fn same_type(a: tree::Type, b: tree::Type) -> bool
    decreases a,
{
    &&& a.name.name == b.name.name
    &&& a.args.len() == b.args.len()
    &&& forall|i: int|
        0 <= i < a.args.len() ==> same_type_arg(#[trigger] a.args[i], b.args[i])
}

pub open spec fn same_type_arg(a: tree::TypeArg, b: tree::TypeArg) -> bool
    decreases a,
{
    match (a, b) {
        (tree::TypeArg::Type(x), tree::TypeArg::Type(y)) => same_type(x, y),
        (tree::TypeArg::Int(m), tree::TypeArg::Int(n)) => m == n,
        _ => false,
    }
}

/// The same expression, whatever the spans.
pub open spec fn same_expr(a: tree::Expr, b: tree::Expr) -> bool
    decreases a,
{
    match (a.kind, b.kind) {
        (tree::ExprKind::Int(m), tree::ExprKind::Int(n)) => m == n,
        (tree::ExprKind::Str(x), tree::ExprKind::Str(y)) => x == y,
        (tree::ExprKind::Bool(x), tree::ExprKind::Bool(y)) => x == y,
        (tree::ExprKind::Ident(x), tree::ExprKind::Ident(y)) => x == y,
        (
            tree::ExprKind::Unary { op, expr },
            tree::ExprKind::Unary { op: op2, expr: expr2 },
        ) => op == op2 && same_expr(*expr, *expr2),
        (
            tree::ExprKind::Binary { op, lhs, rhs },
            tree::ExprKind::Binary { op: op2, lhs: lhs2, rhs: rhs2 },
        ) => op == op2 && same_expr(*lhs, *lhs2) && same_expr(*rhs, *rhs2),
        (
            tree::ExprKind::Cast { expr, ty },
            tree::ExprKind::Cast { expr: expr2, ty: ty2 },
        ) => same_expr(*expr, *expr2) && same_type(ty, ty2),
        (
            tree::ExprKind::Call { callee, args },
            tree::ExprKind::Call { callee: callee2, args: args2 },
        ) => {
            &&& same_expr(*callee, *callee2)
            &&& args.len() == args2.len()
            &&& forall|i: int| 0 <= i < args.len() ==> same_expr(#[trigger] args[i], args2[i])
        },
        (
            tree::ExprKind::MethodCall { receiver, method, args },
            tree::ExprKind::MethodCall { receiver: receiver2, method: method2, args: args2 },
        ) => {
            &&& same_expr(*receiver, *receiver2)
            &&& method.name == method2.name
            &&& args.len() == args2.len()
            &&& forall|i: int| 0 <= i < args.len() ==> same_expr(#[trigger] args[i], args2[i])
        },
        (
            tree::ExprKind::Field { expr, field },
            tree::ExprKind::Field { expr: expr2, field: field2 },
        ) => same_expr(*expr, *expr2) && field.name == field2.name,
        (
            tree::ExprKind::Index { expr, index },
            tree::ExprKind::Index { expr: expr2, index: index2 },
        ) => same_expr(*expr, *expr2) && same_expr(*index, *index2),
        _ => false,
    }
}

pub open spec fn same_exprs(a: Seq<tree::Expr>, b: Seq<tree::Expr>) -> bool {
    &&& a.len() == b.len()
    &&& forall|i: int| 0 <= i < a.len() ==> same_expr(#[trigger] a[i], b[i])
}

// ----------------------------------------------------------- single tokens

/// The kinds of the tokens that are left.
pub open spec fn ks(s: Input) -> Seq<Kind> {
    kinds(s.rest)
}

/// The next token and what is behind it.
proof fn lemma_front(s: Input, k: Kind, tail: Seq<Kind>)
    requires
        ks(s) == seq![k] + tail,
    ensures
        kind_at(s) == k,
        s.rest.len() > 0,
        k != Kind::Fixed(TokenKind::Eof) ==> {
            &&& ks(advance(s)) == tail
            &&& advance(s).rest.len() == s.rest.len() - 1
        },
{
    assert(ks(s)[0] == k);
    assert(ks(s).len() == s.rest.len());
    if k != Kind::Fixed(TokenKind::Eof) {
        assert(ks(advance(s)) =~= tail) by {
            assert forall|i: int| 0 <= i < tail.len() implies ks(advance(s))[i] == tail[i] by {
                assert(ks(s)[i + 1] == tail[i]);
                assert(s.rest.drop_first()[i] == s.rest[i + 1]);
            }
        }
    }
}

/// What the next token is, for a list that starts with a known one.
proof fn lemma_at(s: Input, tail: Seq<Kind>)
    requires
        ks(s) == tail,
        tail.len() > 0,
    ensures
        kind_at(s) == tail[0],
        s.rest.len() > 0,
{
    assert(ks(s)[0] == s.rest[0].kind);
}

// ------------------------------------------------------------------- types

/// `n` `>` and then `tail`: as they were printed, or with the first one
/// already split off the pair that it was read in.
spec fn closing(k: Seq<Kind>, n: nat, tail: Seq<Kind>) -> bool {
    ||| k == closers(n) + tail
    ||| n > 0 && k == fx(TokenKind::Gt) + (closers((n - 1) as nat) + tail)
}

/// Tokens that can stand behind a type: none that would go on it.
spec fn ends_type(tail: Seq<Kind>) -> bool {
    tail.len() > 0 && tail[0] != Kind::Fixed(TokenKind::Lt)
}

proof fn lemma_closing_first(s: Input, n: nat, tail: Seq<Kind>)
    requires
        closing(ks(s), n, tail),
        n > 0,
    ensures
        s.rest.len() > 0,
        is_at(s, TokenKind::Gt) || is_at(s, TokenKind::Shr),
{
    if ks(s) == fx(TokenKind::Gt) + (closers((n - 1) as nat) + tail) {
        lemma_at(s, ks(s));
    } else if n == 1 {
        lemma_at(s, ks(s));
    } else {
        assert(closers(n) == fx(TokenKind::Shr) + closers((n - 2) as nat));
        lemma_at(s, ks(s));
    }
}

/// One `>` less to close.
proof fn lemma_close(s: Input, n: nat, tail: Seq<Kind>) -> (after: Input)
    requires
        closing(ks(s), n, tail),
        n > 0,
    ensures
        expect_gt(s) == Ok::<((), Input), Fault>(((), after)),
        closing(ks(after), (n - 1) as nat, tail),
        after.rest.len() <= s.rest.len(),
{
    broadcast use group_kinds;

    let after = expect_gt(s)->Ok_0.1;
    if ks(s) == fx(TokenKind::Gt) + (closers((n - 1) as nat) + tail) {
        lemma_front(s, Kind::Fixed(TokenKind::Gt), closers((n - 1) as nat) + tail);
    } else if n == 1 {
        assert(closers(1) == fx(TokenKind::Gt));
        assert(closers(0) == Seq::<Kind>::empty());
        lemma_front(s, Kind::Fixed(TokenKind::Gt), tail);
    } else {
        let more = closers((n - 2) as nat) + tail;
        assert(closers(n) == fx(TokenKind::Shr) + closers((n - 2) as nat));
        lemma_front(s, Kind::Fixed(TokenKind::Shr), more);
        assert(ks(after) =~= fx(TokenKind::Gt) + more) by {
            assert forall|i: int| 0 <= i < ks(after).len() implies ks(after)[i] == (fx(
                TokenKind::Gt,
            ) + more)[i] by {
                assert(ks(s)[i] == (fx(TokenKind::Shr) + more)[i]);
            }
        }
    }
    after
}

/// Tokens of a type, read back.
proof fn lemma_ty(s: Input, t: tree::Type, n: nat, tail: Seq<Kind>) -> (r: (tree::Type, Input))
    requires
        ks(s) == type_kinds(t, n) + tail,
        n == 0 ==> ends_type(tail),
    ensures
        ty(s) == Ok::<(tree::Type, Input), Fault>(r),
        same_type(r.0, t),
        closing(ks(r.1), n, tail),
        r.1.rest.len() < s.rest.len(),
    decreases t, 1int,
{
    broadcast use group_kinds;

    let name = t.name.name;
    let r = ty(s)->Ok_0;
    if t.args.len() == 0 {
        lemma_front(s, Kind::Ident(name), closers(n) + tail);
        let s1 = advance(s);
        if n > 0 {
            lemma_closing_first(s1, n, tail);
        } else {
            assert(closers(0) + tail =~= tail);
            lemma_at(s1, tail);
        }
        assert(!is_at(s1, TokenKind::Lt));
    } else {
        let inner = type_args_kinds(t.args, 0, n + 1) + tail;
        lemma_front(s, Kind::Ident(name), fx(TokenKind::Lt) + inner);
        let s1 = advance(s);
        lemma_front(s1, Kind::Fixed(TokenKind::Lt), inner);
        let s2 = advance(s1);
        if t.args.len() > 1 {
            let more = type_args_kinds(t.args, 1, n + 1) + tail;
            assert(ks(s2) == type_arg_kinds(t.args[0], 0) + more);
            let (list, s3) = lemma_ty_args(s2, t.args, 0, Seq::empty(), n + 1, tail);
            let s4 = lemma_close(s3, n + 1, tail);
        } else {
            assert(ks(s2) == type_arg_kinds(t.args[0], n + 1) + tail);
            let (list, s3) = lemma_ty_args(s2, t.args, 0, Seq::empty(), n + 1, tail);
            let s4 = lemma_close(s3, n + 1, tail);
        }
    }
    r
}

proof fn lemma_ty_arg(s: Input, a: tree::TypeArg, n: nat, tail: Seq<Kind>) -> (r: (
    tree::TypeArg,
    Input,
))
    requires
        ks(s) == type_arg_kinds(a, n) + tail,
        n == 0 ==> ends_type(tail),
    ensures
        ty_arg(s) == Ok::<(tree::TypeArg, Input), Fault>(r),
        same_type_arg(r.0, a),
        closing(ks(r.1), n, tail),
        r.1.rest.len() < s.rest.len(),
    decreases a, 1int,
{
    broadcast use group_kinds;

    let r = ty_arg(s)->Ok_0;
    match a {
        tree::TypeArg::Type(t) => {
            lemma_type_kinds_first(s, t, n, tail);
            let x = lemma_ty(s, t, n, tail);
        },
        tree::TypeArg::Int(v) => {
            lemma_front(s, Kind::Int(v), closers(n) + tail);
        },
    }
    r
}

proof fn lemma_type_kinds_first(s: Input, t: tree::Type, n: nat, tail: Seq<Kind>)
    requires
        ks(s) == type_kinds(t, n) + tail,
    ensures
        kind_at(s) == Kind::Ident(t.name.name),
        s.rest.len() > 0,
{
    broadcast use group_kinds;

    if t.args.len() == 0 {
        lemma_front(s, Kind::Ident(t.name.name), closers(n) + tail);
    } else {
        lemma_front(
            s,
            Kind::Ident(t.name.name),
            fx(TokenKind::Lt) + (type_args_kinds(t.args, 0, n + 1) + tail),
        );
    }
}

/// Type arguments from the `i`th on, read back.
proof fn lemma_ty_args(
    s: Input,
    list: Seq<tree::TypeArg>,
    i: int,
    done: Seq<tree::TypeArg>,
    n: nat,
    tail: Seq<Kind>,
) -> (r: (Seq<tree::TypeArg>, Input))
    requires
        0 <= i < list.len(),
        done.len() == i,
        forall|j: int| 0 <= j < i ==> same_type_arg(#[trigger] done[j], list[j]),
        n > 0,
        i == list.len() - 1 ==> ks(s) == type_arg_kinds(list[i], n) + tail,
        i < list.len() - 1 ==> ks(s) == type_arg_kinds(list[i], 0) + (type_args_kinds(
            list,
            i + 1,
            n,
        ) + tail),
    ensures
        ty_args(s, done) == Ok::<(Seq<tree::TypeArg>, Input), Fault>(r),
        r.0.len() == list.len(),
        forall|j: int| 0 <= j < list.len() ==> same_type_arg(#[trigger] r.0[j], list[j]),
        closing(ks(r.1), n, tail),
        r.1.rest.len() < s.rest.len(),
    decreases list, list.len() - i,
{
    broadcast use group_kinds;

    if i == list.len() - 1 {
        let (a, s1) = lemma_ty_arg(s, list[i], n, tail);
        lemma_closing_first(s1, n, tail);
        assert(!is_at(s1, TokenKind::Comma));
        (done.push(a), s1)
    } else {
        let more = type_args_kinds(list, i + 1, n) + tail;
        let rest = if i + 1 == list.len() - 1 {
            type_arg_kinds(list[i + 1], n) + tail
        } else {
            type_arg_kinds(list[i + 1], 0) + (type_args_kinds(list, i + 2, n) + tail)
        };
        assert(more == fx(TokenKind::Comma) + rest);
        assert(more[0] == Kind::Fixed(TokenKind::Comma));
        let (a, s1) = lemma_ty_arg(s, list[i], 0, more);
        assert(closers(0) + more =~= more);
        lemma_front(s1, Kind::Fixed(TokenKind::Comma), rest);
        lemma_ty_args(advance(s1), list, i + 1, done.push(a), n, tail)
    }
}

/// A type with nothing more to close.
proof fn lemma_plain_ty(s: Input, t: tree::Type, tail: Seq<Kind>) -> (r: (tree::Type, Input))
    requires
        ks(s) == type_kinds(t, 0) + tail,
        ends_type(tail),
    ensures
        ty(s) == Ok::<(tree::Type, Input), Fault>(r),
        same_type(r.0, t),
        ks(r.1) == tail,
        r.1.rest.len() < s.rest.len(),
{
    assert(closers(0) + tail =~= tail);
    lemma_ty(s, t, 0, tail)
}

// ------------------------------------------------------------- expressions

/// Tokens that an expression can start with.
pub open spec fn starts_expr(k: Kind) -> bool {
    match k {
        Kind::Fixed(k) => k == TokenKind::True || k == TokenKind::False || k == TokenKind::LParen,
        _ => true,
    }
}

proof fn lemma_expr_kinds_first(e: tree::Expr)
    ensures
        expr_kinds(e).len() > 0,
        starts_expr(expr_kinds(e)[0]),
    decreases e,
{
    match e.kind {
        tree::ExprKind::Call { callee, args } => {
            lemma_expr_kinds_first(*callee);
            let c = callee_kinds(*callee);
            assert(c.len() > 0 && starts_expr(c[0]));
            assert(expr_kinds(e)[0] == c[0]);
        },
        tree::ExprKind::MethodCall { receiver, method, args } => lemma_expr_kinds_first(*receiver),
        tree::ExprKind::Field { expr, field } => lemma_expr_kinds_first(*expr),
        tree::ExprKind::Index { expr, index } => lemma_expr_kinds_first(*expr),
        _ => {},
    }
}

/// What stands at the start of a printed expression.
proof fn lemma_at_expr(s: Input, e: tree::Expr, tail: Seq<Kind>)
    requires
        ks(s) == expr_kinds(e) + tail,
    ensures
        s.rest.len() > 0,
        starts_expr(kind_at(s)),
{
    lemma_expr_kinds_first(e);
    lemma_at(s, expr_kinds(e) + tail);
}

/// A token that does not go on a postfix expression.
pub open spec fn ends_postfix(k: Kind) -> bool {
    &&& k != Kind::Fixed(TokenKind::LParen)
    &&& k != Kind::Fixed(TokenKind::Dot)
    &&& k != Kind::Fixed(TokenKind::LBracket)
}

/// A token that does not go on an expression.
pub open spec fn ends_expr(k: Kind) -> bool {
    ends_postfix(k) && k != Kind::Fixed(TokenKind::As) && binary_op(k) is None
}

/// `(`, what `inner` reads and `)`.
proof fn lemma_parens(s: Input, inner: Seq<Kind>, e: tree::Expr, s1: Input, tail: Seq<Kind>) -> (r: (
    tree::Expr,
    Input,
))
    requires
        ks(s) == fx(TokenKind::LParen) + (inner + (fx(TokenKind::RParen) + tail)),
        expr(advance(s)) == Ok::<(tree::Expr, Input), Fault>((e, s1)),
        ks(s1) == fx(TokenKind::RParen) + tail,
        s1.rest.len() < s.rest.len(),
    ensures
        postfix(s) == postfix_rest(r.1, r.0),
        r.0.kind == e.kind,
        ks(r.1) == tail,
        r.1.rest.len() < s.rest.len(),
{
    lemma_front(s, Kind::Fixed(TokenKind::LParen), inner + (fx(TokenKind::RParen) + tail));
    lemma_front(s1, Kind::Fixed(TokenKind::RParen), tail);
    assert(primary(s) is Ok);
    primary(s)->Ok_0
}

/// An operator and its operand.
proof fn lemma_unary(s: Input, op: UnaryOp, e: tree::Expr, tail: Seq<Kind>) -> (r: (
    tree::Expr,
    Input,
))
    requires
        ks(s) == fx(unary_kind(op)) + (expr_kinds(e) + (fx(TokenKind::RParen) + tail)),
    ensures
        expr(s) == Ok::<(tree::Expr, Input), Fault>(r),
        r.0.kind matches tree::ExprKind::Unary { op: op2, expr } && op2 == op && same_expr(*expr, e),
        ks(r.1) == fx(TokenKind::RParen) + tail,
        r.1.rest.len() < s.rest.len(),
    decreases e, 5int,
{
    let end = fx(TokenKind::RParen) + tail;
    lemma_front(s, Kind::Fixed(unary_kind(op)), expr_kinds(e) + end);
    let s1 = advance(s);
    let (e1, s2) = lemma_operand(s1, e, end);
    lemma_at(s2, end);
    let u = tree::Expr {
        kind: tree::ExprKind::Unary { op, expr: Box::new(e1) },
        span: Span { start: span_at(s).start, end: e1.span.end },
    };
    assert(unary(s) == Ok::<(tree::Expr, Input), Fault>((u, s2)));
    assert(cast(s) == cast_rest(s2, u));
    assert(cast_rest(s2, u) == Ok::<(tree::Expr, Input), Fault>((u, s2)));
    assert(binary(s, 0) == binary_rest(s2, u, 0));
    assert(binary_rest(s2, u, 0) == Ok::<(tree::Expr, Input), Fault>((u, s2)));
    (u, s2)
}

/// Two operands and the operator between them.
pub proof fn lemma_binary(
    s: Input,
    op: BinaryOp,
    lhs: tree::Expr,
    rhs: tree::Expr,
    end: Seq<Kind>,
    e: tree::Expr,
) -> (r: (tree::Expr, Input))
    requires
        ks(s) == expr_kinds(lhs) + (fx(binary_kind(op)) + (expr_kinds(rhs) + end)),
        end.len() > 0,
        ends_expr(end[0]),
        e.kind == (tree::ExprKind::Binary { op, lhs: Box::new(lhs), rhs: Box::new(rhs) }),
    ensures
        expr(s) == Ok::<(tree::Expr, Input), Fault>(r),
        same_expr(r.0, e),
        ks(r.1) == end,
        r.1.rest.len() < s.rest.len(),
    decreases e, 0int,
{
    let more = fx(binary_kind(op)) + (expr_kinds(rhs) + end);
    let (l, s1) = lemma_cast_operand(s, *e.kind->Binary_lhs, more);
    lemma_front(s1, Kind::Fixed(binary_kind(op)), expr_kinds(rhs) + end);
    let s2 = advance(s1);
    let (_, bp) = binary_op(kind_at(s1))->0;
    let (r, s3) = lemma_whole(s2, *e.kind->Binary_rhs, bp + 1, end);
    lemma_at(s3, end);
    let b = tree::Expr {
        kind: tree::ExprKind::Binary { op, lhs: Box::new(l), rhs: Box::new(r) },
        span: Span { start: l.span.start, end: r.span.end },
    };
    assert(binary(s, 0) == binary_rest(s1, l, 0));
    assert(binary_rest(s1, l, 0) == binary_rest(s3, b, 0));
    assert(binary_rest(s3, b, 0) == Ok::<(tree::Expr, Input), Fault>((b, s3)));
    (b, s3)
}

/// An expression and the type it is cast to.
proof fn lemma_cast(s: Input, e: tree::Expr, t: tree::Type, tail: Seq<Kind>) -> (r: (
    tree::Expr,
    Input,
))
    requires
        ks(s) == expr_kinds(e) + (fx(TokenKind::As) + (type_kinds(t, 0) + (fx(TokenKind::RParen)
            + tail))),
    ensures
        expr(s) == Ok::<(tree::Expr, Input), Fault>(r),
        r.0.kind matches tree::ExprKind::Cast { expr, ty } && same_expr(*expr, e) && same_type(
            ty,
            t,
        ),
        ks(r.1) == fx(TokenKind::RParen) + tail,
        r.1.rest.len() < s.rest.len(),
    decreases e, 5int,
{
    let end = fx(TokenKind::RParen) + tail;
    let more = fx(TokenKind::As) + (type_kinds(t, 0) + end);
    let (e1, s1) = lemma_operand(s, e, more);
    lemma_front(s1, Kind::Fixed(TokenKind::As), type_kinds(t, 0) + end);
    let (t1, s2) = lemma_plain_ty(advance(s1), t, end);
    lemma_at(s2, end);
    let c = tree::Expr {
        kind: tree::ExprKind::Cast { expr: Box::new(e1), ty: t1 },
        span: Span { start: e1.span.start, end: t1.span.end },
    };
    assert(cast(s) == cast_rest(s1, e1));
    assert(cast_rest(s1, e1) == cast_rest(s2, c));
    assert(cast_rest(s2, c) == Ok::<(tree::Expr, Input), Fault>((c, s2)));
    assert(binary(s, 0) == binary_rest(s2, c, 0));
    assert(binary_rest(s2, c, 0) == Ok::<(tree::Expr, Input), Fault>((c, s2)));
    (c, s2)
}

/// A printed expression, with whatever postfix operators come behind it.
proof fn lemma_postfix(s: Input, e: tree::Expr, tail: Seq<Kind>) -> (r: (tree::Expr, Input))
    requires
        ks(s) == expr_kinds(e) + tail,
        e.kind is Field ==> tail.len() > 0 && tail[0] != Kind::Fixed(TokenKind::LParen),
    ensures
        postfix(s) == postfix_rest(r.1, r.0),
        same_expr(r.0, e),
        ks(r.1) == tail,
        r.1.rest.len() < s.rest.len(),
    decreases e, 2int,
{
    match e.kind {
        tree::ExprKind::Int(n) => {
            lemma_front(s, Kind::Int(n), tail);
            primary(s)->Ok_0
        },
        tree::ExprKind::Str(x) => {
            lemma_front(s, Kind::Str(x), tail);
            primary(s)->Ok_0
        },
        tree::ExprKind::Bool(b) => {
            lemma_front(
                s,
                Kind::Fixed(
                    if b {
                        TokenKind::True
                    } else {
                        TokenKind::False
                    },
                ),
                tail,
            );
            primary(s)->Ok_0
        },
        tree::ExprKind::Ident(x) => {
            lemma_front(s, Kind::Ident(x), tail);
            primary(s)->Ok_0
        },
        tree::ExprKind::Unary { .. } => lemma_paren_unary(s, e, tail),
        tree::ExprKind::Binary { .. } => lemma_paren_binary(s, e, tail),
        tree::ExprKind::Cast { .. } => lemma_paren_cast(s, e, tail),
        tree::ExprKind::Call { .. } => lemma_call(s, e, tail),
        tree::ExprKind::MethodCall { .. } => lemma_method(s, e, tail),
        tree::ExprKind::Field { expr: inner, field } => lemma_field(s, e, tail),
        tree::ExprKind::Index { .. } => lemma_index(s, e, tail),
    }
}

proof fn lemma_paren_unary(s: Input, e: tree::Expr, tail: Seq<Kind>) -> (r: (tree::Expr, Input))
    requires
        e.kind is Unary,
        ks(s) == expr_kinds(e) + tail,
    ensures
        postfix(s) == postfix_rest(r.1, r.0),
        same_expr(r.0, e),
        ks(r.1) == tail,
        r.1.rest.len() < s.rest.len(),
    decreases e, 0int,
{
    let op = e.kind->Unary_op;
    let inner = e.kind->Unary_expr;
    let end = fx(TokenKind::RParen) + tail;
    let k = fx(unary_kind(op)) + expr_kinds(*inner);
    assert(ks(s) == fx(TokenKind::LParen) + (k + end)) by {
        broadcast use group_kinds;

    }
    lemma_front(s, Kind::Fixed(TokenKind::LParen), k + end);
    let s1 = advance(s);
    assert(ks(s1) == fx(unary_kind(op)) + (expr_kinds(*inner) + end)) by {
        broadcast use group_kinds;

    }
    let (x, s2) = lemma_unary(s1, op, *inner, tail);
    lemma_parens(s, k, x, s2, tail)
}

proof fn lemma_paren_binary(s: Input, e: tree::Expr, tail: Seq<Kind>) -> (r: (tree::Expr, Input))
    requires
        e.kind is Binary,
        ks(s) == expr_kinds(e) + tail,
    ensures
        postfix(s) == postfix_rest(r.1, r.0),
        same_expr(r.0, e),
        ks(r.1) == tail,
        r.1.rest.len() < s.rest.len(),
    decreases e, 1int,
{
    let op = e.kind->Binary_op;
    let lhs = e.kind->Binary_lhs;
    let rhs = e.kind->Binary_rhs;
    let end = fx(TokenKind::RParen) + tail;
    let k = expr_kinds(*lhs) + (fx(binary_kind(op)) + expr_kinds(*rhs));
    assert(ks(s) == fx(TokenKind::LParen) + (k + end)) by {
        broadcast use group_kinds;

    }
    lemma_front(s, Kind::Fixed(TokenKind::LParen), k + end);
    let s1 = advance(s);
    assert(ks(s1) == expr_kinds(*lhs) + (fx(binary_kind(op)) + (expr_kinds(*rhs) + end))) by {
        broadcast use group_kinds;

    }
    let (x, s2) = lemma_binary(s1, op, *lhs, *rhs, end, e);
    lemma_parens(s, k, x, s2, tail)
}

proof fn lemma_paren_cast(s: Input, e: tree::Expr, tail: Seq<Kind>) -> (r: (tree::Expr, Input))
    requires
        e.kind is Cast,
        ks(s) == expr_kinds(e) + tail,
    ensures
        postfix(s) == postfix_rest(r.1, r.0),
        same_expr(r.0, e),
        ks(r.1) == tail,
        r.1.rest.len() < s.rest.len(),
    decreases e, 0int,
{
    let inner = e.kind->Cast_expr;
    let t = e.kind->Cast_ty;
    let end = fx(TokenKind::RParen) + tail;
    let k = expr_kinds(*inner) + (fx(TokenKind::As) + type_kinds(t, 0));
    assert(ks(s) == fx(TokenKind::LParen) + (k + end)) by {
        broadcast use group_kinds;

    }
    lemma_front(s, Kind::Fixed(TokenKind::LParen), k + end);
    let s1 = advance(s);
    assert(ks(s1) == expr_kinds(*inner) + (fx(TokenKind::As) + (type_kinds(t, 0) + end))) by {
        broadcast use group_kinds;

    }
    let (x, s2) = lemma_cast(s1, *inner, t, tail);
    lemma_parens(s, k, x, s2, tail)
}

/// What is called, with its arguments behind it.
proof fn lemma_callee(s: Input, e: tree::Expr, tail: Seq<Kind>) -> (r: (tree::Expr, Input))
    requires
        ks(s) == callee_kinds(e) + tail,
    ensures
        postfix(s) == postfix_rest(r.1, r.0),
        same_expr(r.0, e),
        ks(r.1) == tail,
        r.1.rest.len() < s.rest.len(),
    decreases e, 6int,
{
    if e.kind is Field {
        let k = expr_kinds(e);
        let end = fx(TokenKind::RParen) + tail;
        assert(ks(s) == fx(TokenKind::LParen) + (k + end)) by {
            broadcast use group_kinds;

        }
        lemma_front(s, Kind::Fixed(TokenKind::LParen), k + end);
        let (x, s1) = lemma_whole(advance(s), e, 0, end);
        assert(expr(advance(s)) == binary(advance(s), 0));
        lemma_parens(s, k, x, s1, tail)
    } else {
        lemma_postfix(s, e, tail)
    }
}

/// A call.
proof fn lemma_call(s: Input, e: tree::Expr, tail: Seq<Kind>) -> (r: (tree::Expr, Input))
    requires
        e.kind is Call,
        ks(s) == expr_kinds(e) + tail,
    ensures
        postfix(s) == postfix_rest(r.1, r.0),
        same_expr(r.0, e),
        ks(r.1) == tail,
        r.1.rest.len() < s.rest.len(),
    decreases e, 0int,
{
    let callee = e.kind->Call_callee;
    let list = e.kind->Call_args;
    let more = fx(TokenKind::LParen) + (exprs_kinds(list, 0) + (fx(TokenKind::RParen) + tail));
    assert(ks(s) == callee_kinds(*callee) + more) by {
        broadcast use group_kinds;

    }
    let (e1, s1) = lemma_callee(s, *callee, more);
    let (l, s2) = lemma_args(s1, list, tail);
    lemma_at(s1, more);
    let c = tree::Expr {
        kind: tree::ExprKind::Call { callee: Box::new(e1), args: l },
        span: Span { start: e1.span.start, end: s2.prev },
    };
    assert(postfix_rest(s1, e1) == postfix_rest(s2, c));
    (c, s2)
}

proof fn lemma_index(s: Input, e: tree::Expr, tail: Seq<Kind>) -> (r: (tree::Expr, Input))
    requires
        e.kind is Index,
        ks(s) == expr_kinds(e) + tail,
    ensures
        postfix(s) == postfix_rest(r.1, r.0),
        same_expr(r.0, e),
        ks(r.1) == tail,
        r.1.rest.len() < s.rest.len(),
    decreases e, 0int,
{
    let inner = e.kind->Index_expr;
    let index = e.kind->Index_index;
    let end = fx(TokenKind::RBracket) + tail;
    let more = fx(TokenKind::LBracket) + (expr_kinds(*index) + end);
    assert(ks(s) == expr_kinds(*inner) + more) by {
        broadcast use group_kinds;

    }
    let (e1, s1) = lemma_postfix(s, *inner, more);
    lemma_front(s1, Kind::Fixed(TokenKind::LBracket), expr_kinds(*index) + end);
    let (i1, s2) = lemma_whole(advance(s1), *index, 0, end);
    lemma_front(s2, Kind::Fixed(TokenKind::RBracket), tail);
    let s3 = advance(s2);
    assert(expr(advance(s1)) == binary(advance(s1), 0));
    let c = tree::Expr {
        kind: tree::ExprKind::Index { expr: Box::new(e1), index: Box::new(i1) },
        span: Span { start: e1.span.start, end: s3.prev },
    };
    assert(postfix_rest(s1, e1) == postfix_rest(s3, c));
    (c, s3)
}

proof fn lemma_method(s: Input, e: tree::Expr, tail: Seq<Kind>) -> (r: (tree::Expr, Input))
    requires
        e.kind is MethodCall,
        ks(s) == expr_kinds(e) + tail,
    ensures
        postfix(s) == postfix_rest(r.1, r.0),
        same_expr(r.0, e),
        ks(r.1) == tail,
        r.1.rest.len() < s.rest.len(),
    decreases e, 0int,
{
    broadcast use group_kinds;

    let receiver = *e.kind->MethodCall_receiver;
    let method = e.kind->MethodCall_method.name;
    let list = e.kind->MethodCall_args;
    let more2 = fx(TokenKind::LParen) + (exprs_kinds(list, 0) + (fx(TokenKind::RParen) + tail));
    let more1 = seq![Kind::Ident(method)] + more2;
    let more = fx(TokenKind::Dot) + more1;
    assert(ks(s) == expr_kinds(receiver) + more);
    let (e1, s1) = lemma_postfix(s, receiver, more);
    lemma_front(s1, Kind::Fixed(TokenKind::Dot), more1);
    let s2 = advance(s1);
    lemma_front(s2, Kind::Ident(method), more2);
    let s3 = advance(s2);
    let (l, s4) = lemma_args(s3, list, tail);
    lemma_at(s3, more2);
    let name = tree::Ident { name: method, span: span_at(s2) };
    let c = tree::Expr {
        kind: tree::ExprKind::MethodCall { receiver: Box::new(e1), method: name, args: l },
        span: Span { start: e1.span.start, end: s4.prev },
    };
    assert(postfix_rest(s1, e1) == postfix_rest(s4, c));
    (c, s4)
}

/// A field of an expression; it is a call only if `(` comes next.
proof fn lemma_field(s: Input, e: tree::Expr, tail: Seq<Kind>) -> (r: (tree::Expr, Input))
    requires
        e.kind is Field,
        ks(s) == expr_kinds(e) + tail,
        tail.len() > 0,
        tail[0] != Kind::Fixed(TokenKind::LParen),
    ensures
        postfix(s) == postfix_rest(r.1, r.0),
        same_expr(r.0, e),
        ks(r.1) == tail,
        r.1.rest.len() < s.rest.len(),
    decreases e, 0int,
{
    broadcast use group_kinds;

    let inner = e.kind->Field_expr;
    let field = e.kind->Field_field;
    let more1 = seq![Kind::Ident(field.name)] + tail;
    let more = fx(TokenKind::Dot) + more1;
    assert(ks(s) == expr_kinds(*inner) + more);
    let (e1, s1) = lemma_postfix(s, *inner, more);
    lemma_front(s1, Kind::Fixed(TokenKind::Dot), more1);
    let s2 = advance(s1);
    lemma_front(s2, Kind::Ident(field.name), tail);
    let s3 = advance(s2);
    lemma_at(s3, tail);
    let name = tree::Ident { name: field.name, span: span_at(s2) };
    let c = tree::Expr {
        kind: tree::ExprKind::Field { expr: Box::new(e1), field: name },
        span: Span { start: e1.span.start, end: s3.prev },
    };
    assert(postfix_rest(s1, e1) == postfix_rest(s3, c));
    (c, s3)
}

/// Arguments in parentheses, read back.
proof fn lemma_args(s: Input, list: Seq<tree::Expr>, tail: Seq<Kind>) -> (r: (
    Seq<tree::Expr>,
    Input,
))
    requires
        ks(s) == fx(TokenKind::LParen) + (exprs_kinds(list, 0) + (fx(TokenKind::RParen) + tail)),
    ensures
        args(s) == Ok::<(Seq<tree::Expr>, Input), Fault>(r),
        same_exprs(r.0, list),
        ks(r.1) == tail,
        r.1.rest.len() < s.rest.len(),
    decreases list, list.len() + 1,
{
    broadcast use group_kinds;

    let end = fx(TokenKind::RParen) + tail;
    lemma_front(s, Kind::Fixed(TokenKind::LParen), exprs_kinds(list, 0) + end);
    let s1 = advance(s);
    if list.len() == 0 {
        assert(exprs_kinds(list, 0) + end =~= end);
        lemma_front(s1, Kind::Fixed(TokenKind::RParen), tail);
        assert(args_list(s1, Seq::empty()) == Ok::<(Seq<tree::Expr>, Input), Fault>(
            (Seq::empty(), s1),
        ));
        (Seq::empty(), advance(s1))
    } else {
        assert(ks(s1) == expr_kinds(list[0]) + (exprs_kinds(list, 1) + end));
        let (l, s2) = lemma_args_list(s1, list, 0, Seq::empty(), tail);
        lemma_front(s2, Kind::Fixed(TokenKind::RParen), tail);
        (l, advance(s2))
    }
}

/// Arguments from the `i`th on, read back.
proof fn lemma_args_list(
    s: Input,
    list: Seq<tree::Expr>,
    i: int,
    done: Seq<tree::Expr>,
    tail: Seq<Kind>,
) -> (r: (Seq<tree::Expr>, Input))
    requires
        0 <= i < list.len(),
        done.len() == i,
        forall|j: int| 0 <= j < i ==> same_expr(#[trigger] done[j], list[j]),
        ks(s) == expr_kinds(list[i]) + (exprs_kinds(list, i + 1) + (fx(TokenKind::RParen) + tail)),
    ensures
        args_list(s, done) == Ok::<(Seq<tree::Expr>, Input), Fault>(r),
        same_exprs(r.0, list),
        ks(r.1) == fx(TokenKind::RParen) + tail,
        r.1.rest.len() < s.rest.len(),
    decreases list, list.len() - i,
{
    broadcast use group_kinds;

    let end = fx(TokenKind::RParen) + tail;
    let more = exprs_kinds(list, i + 1) + end;
    lemma_at_expr(s, list[i], more);
    if i + 1 < list.len() {
        let rest = expr_kinds(list[i + 1]) + (exprs_kinds(list, i + 2) + end);
        assert(more == fx(TokenKind::Comma) + rest);
        let (e, s1) = lemma_whole(s, list[i], 0, more);
        lemma_front(s1, Kind::Fixed(TokenKind::Comma), rest);
        assert(expr(s) == binary(s, 0));
        lemma_args_list(advance(s1), list, i + 1, done.push(e), tail)
    } else {
        assert(more =~= end);
        let (e, s1) = lemma_whole(s, list[i], 0, more);
        lemma_at(s1, end);
        assert(expr(s) == binary(s, 0));
        (done.push(e), s1)
    }
}

/// A printed expression as an operand.
proof fn lemma_operand(s: Input, e: tree::Expr, tail: Seq<Kind>) -> (r: (tree::Expr, Input))
    requires
        ks(s) == expr_kinds(e) + tail,
        tail.len() > 0,
        ends_postfix(tail[0]),
    ensures
        unary(s) == Ok::<(tree::Expr, Input), Fault>(r),
        same_expr(r.0, e),
        ks(r.1) == tail,
        r.1.rest.len() < s.rest.len(),
    decreases e, 3int,
{
    let (e1, s1) = lemma_postfix(s, e, tail);
    lemma_at_expr(s, e, tail);
    lemma_at(s1, tail);
    assert(unary(s) == postfix(s));
    assert(postfix_rest(s1, e1) == Ok::<(tree::Expr, Input), Fault>((e1, s1)));
    (e1, s1)
}

proof fn lemma_cast_operand(s: Input, e: tree::Expr, tail: Seq<Kind>) -> (r: (tree::Expr, Input))
    requires
        ks(s) == expr_kinds(e) + tail,
        tail.len() > 0,
        ends_postfix(tail[0]),
        tail[0] != Kind::Fixed(TokenKind::As),
    ensures
        cast(s) == Ok::<(tree::Expr, Input), Fault>(r),
        same_expr(r.0, e),
        ks(r.1) == tail,
        r.1.rest.len() < s.rest.len(),
    decreases e, 4int,
{
    let (e1, s1) = lemma_operand(s, e, tail);
    lemma_at(s1, tail);
    assert(cast(s) == cast_rest(s1, e1));
    assert(cast_rest(s1, e1) == Ok::<(tree::Expr, Input), Fault>((e1, s1)));
    (e1, s1)
}

/// A printed expression with nothing behind it that would go on it.
proof fn lemma_whole(s: Input, e: tree::Expr, min_bp: int, tail: Seq<Kind>) -> (r: (
    tree::Expr,
    Input,
))
    requires
        ks(s) == expr_kinds(e) + tail,
        tail.len() > 0,
        ends_expr(tail[0]),
    ensures
        binary(s, min_bp) == Ok::<(tree::Expr, Input), Fault>(r),
        same_expr(r.0, e),
        ks(r.1) == tail,
        r.1.rest.len() < s.rest.len(),
    decreases e, 5int,
{
    let (e1, s1) = lemma_cast_operand(s, e, tail);
    lemma_at(s1, tail);
    assert(binary(s, min_bp) == binary_rest(s1, e1, min_bp));
    assert(binary_rest(s1, e1, min_bp) == Ok::<(tree::Expr, Input), Fault>((e1, s1)));
    (e1, s1)
}

pub proof fn lemma_expr(s: Input, e: tree::Expr, tail: Seq<Kind>) -> (r: (tree::Expr, Input))
    requires
        ks(s) == expr_kinds(e) + tail,
        tail.len() > 0,
        ends_expr(tail[0]),
    ensures
        expr(s) == Ok::<(tree::Expr, Input), Fault>(r),
        same_expr(r.0, e),
        ks(r.1) == tail,
        r.1.rest.len() < s.rest.len(),
{
    assert(expr(s) == binary(s, 0));
    lemma_whole(s, e, 0, tail)
}

// -------------------------------------------------------------- statements

pub open spec fn same_opt_type(a: Option<tree::Type>, b: Option<tree::Type>) -> bool {
    match (a, b) {
        (Some(x), Some(y)) => same_type(x, y),
        (None, None) => true,
        _ => false,
    }
}

pub open spec fn same_opt_expr(a: Option<tree::Expr>, b: Option<tree::Expr>) -> bool {
    match (a, b) {
        (Some(x), Some(y)) => same_expr(x, y),
        (None, None) => true,
        _ => false,
    }
}

pub open spec fn same_pattern(a: tree::Pattern, b: tree::Pattern) -> bool {
    &&& a.name.name == b.name.name
    &&& match (a.binding, b.binding) {
        (Some(x), Some(y)) => x.name == y.name,
        (None, None) => true,
        _ => false,
    }
}

pub open spec fn same_cond(a: tree::Cond, b: tree::Cond) -> bool {
    match (a, b) {
        (tree::Cond::Expr(x), tree::Cond::Expr(y)) => same_expr(x, y),
        (
            tree::Cond::Let { pattern, value },
            tree::Cond::Let { pattern: pattern2, value: value2 },
        ) => same_pattern(pattern, pattern2) && same_expr(value, value2),
        _ => false,
    }
}

pub open spec fn same_emit_field(a: (tree::Ident, tree::Expr), b: (tree::Ident, tree::Expr)) -> bool {
    a.0.name == b.0.name && same_expr(a.1, b.1)
}

/// The same block, whatever the spans.
pub open spec fn same_block(a: tree::Block, b: tree::Block) -> bool
    decreases a,
{
    &&& a.stmts.len() == b.stmts.len()
    &&& forall|i: int| 0 <= i < a.stmts.len() ==> same_stmt(#[trigger] a.stmts[i], b.stmts[i])
}

pub open spec fn same_stmt(a: tree::Stmt, b: tree::Stmt) -> bool
    decreases a,
{
    same_stmt_kind(a.kind, b.kind)
}

pub open spec fn same_stmt_kind(a: tree::StmtKind, b: tree::StmtKind) -> bool
    decreases a,
{
    match (a, b) {
        (
            tree::StmtKind::Let { mutable, name, ty, value },
            tree::StmtKind::Let { mutable: mutable2, name: name2, ty: ty2, value: value2 },
        ) => {
            &&& mutable == mutable2
            &&& name.name == name2.name
            &&& same_opt_type(ty, ty2)
            &&& same_expr(value, value2)
        },
        (
            tree::StmtKind::Assign { target, value },
            tree::StmtKind::Assign { target: target2, value: value2 },
        ) => same_expr(target, target2) && same_expr(value, value2),
        (
            tree::StmtKind::If { cond, body, otherwise },
            tree::StmtKind::If { cond: cond2, body: body2, otherwise: otherwise2 },
        ) => {
            &&& same_cond(cond, cond2)
            &&& same_block(body, body2)
            &&& match (otherwise, otherwise2) {
                (Some(x), Some(y)) => same_block(x, y),
                (None, None) => true,
                _ => false,
            }
        },
        (
            tree::StmtKind::For { var, start, end, body },
            tree::StmtKind::For { var: var2, start: start2, end: end2, body: body2 },
        ) => {
            &&& var.name == var2.name
            &&& same_expr(start, start2)
            &&& same_expr(end, end2)
            &&& same_block(body, body2)
        },
        (
            tree::StmtKind::Emit { event, fields },
            tree::StmtKind::Emit { event: event2, fields: fields2 },
        ) => {
            &&& event.name == event2.name
            &&& fields.len() == fields2.len()
            &&& forall|i: int|
                0 <= i < fields.len() ==> same_emit_field(#[trigger] fields[i], fields2[i])
        },
        (tree::StmtKind::Return(x), tree::StmtKind::Return(y)) => same_opt_expr(x, y),
        (tree::StmtKind::Expr(x), tree::StmtKind::Expr(y)) => same_expr(x, y),
        _ => false,
    }
}

/// What a printed statement starts with.
spec fn stmt_start(kind: tree::StmtKind, k: Kind) -> bool {
    match kind {
        tree::StmtKind::Let { .. } => k == Kind::Fixed(TokenKind::Let),
        tree::StmtKind::If { .. } => k == Kind::Fixed(TokenKind::If),
        tree::StmtKind::For { .. } => k == Kind::Fixed(TokenKind::For),
        tree::StmtKind::Emit { .. } => k == Kind::Fixed(TokenKind::Emit),
        tree::StmtKind::Return(_) => k == Kind::Fixed(TokenKind::Return),
        tree::StmtKind::Assign { .. } | tree::StmtKind::Expr(_) => starts_expr(k),
    }
}

proof fn lemma_stmt_start(kind: tree::StmtKind)
    ensures
        stmt_kind_kinds(kind).len() > 0,
        stmt_start(kind, stmt_kind_kinds(kind)[0]),
{
    match kind {
        tree::StmtKind::Assign { target, value } => lemma_expr_kinds_first(target),
        tree::StmtKind::Expr(e) => lemma_expr_kinds_first(e),
        _ => {},
    }
}

proof fn lemma_let(
    s: Input,
    mutable: bool,
    name: tree::Ident,
    t: Option<tree::Type>,
    value: tree::Expr,
    tail: Seq<Kind>,
) -> (r: (tree::StmtKind, Input))
    requires
        ks(s) == stmt_kind_kinds((tree::StmtKind::Let { mutable, name, ty: t, value })) + tail,
    ensures
        stmt_kind(s) == Ok::<(tree::StmtKind, Input), Fault>(r),
        same_stmt_kind(r.0, (tree::StmtKind::Let { mutable, name, ty: t, value })),
        ks(r.1) == tail,
        r.1.rest.len() < s.rest.len(),
{
    broadcast use group_kinds;

    let k5 = fx(TokenKind::Semi) + tail;
    let k4 = expr_kinds(value) + k5;
    let k3 = fx(TokenKind::Eq) + k4;
    let k2 = annotation_kinds(t) + k3;
    let k1 = seq![Kind::Ident(name.name)] + k2;
    let k0 = mut_kinds(mutable) + k1;
    assert(ks(s) == fx(TokenKind::Let) + k0);
    lemma_front(s, Kind::Fixed(TokenKind::Let), k0);
    let s1 = advance(s);
    let s2 = if mutable {
        advance(s1)
    } else {
        s1
    };
    if mutable {
        lemma_front(s1, Kind::Fixed(TokenKind::Mut), k1);
    } else {
        assert(k0 =~= k1);
    }
    lemma_front(s2, Kind::Ident(name.name), k2);
    let s3 = advance(s2);
    let (t1, s4) = match t {
        Some(x) => {
            lemma_front(s3, Kind::Fixed(TokenKind::Colon), type_kinds(x, 0) + k3);
            let (x1, s4) = lemma_plain_ty(advance(s3), x, k3);
            (Some(x1), s4)
        },
        None => {
            assert(k2 =~= k3);
            (None, s3)
        },
    };
    lemma_front(s4, Kind::Fixed(TokenKind::Eq), k4);
    assert(annotation(s3) == Ok::<(Option<tree::Type>, Input), Fault>((t1, s4)));
    let (e, s6) = lemma_expr(advance(s4), value, k5);
    lemma_front(s6, Kind::Fixed(TokenKind::Semi), tail);
    assert(stmt_kind(s) == let_stmt(s));
    let_stmt(s)->Ok_0
}

/// What can be assigned to can be assigned to, wherever it stands.
proof fn lemma_same_place(a: tree::Expr, b: tree::Expr)
    requires
        same_expr(a, b),
        is_place(b),
    ensures
        is_place(a),
{
    match b.kind {
        tree::ExprKind::Unary { op, expr } => {
            assert(same_expr(*a.kind->Unary_expr, *expr));
        },
        tree::ExprKind::Field { expr, field } => {
            assert(same_expr(*a.kind->Field_expr, *expr));
        },
        _ => {},
    }
}

proof fn lemma_assign(s: Input, target: tree::Expr, value: tree::Expr, tail: Seq<Kind>) -> (r: (
    tree::StmtKind,
    Input,
))
    requires
        is_place(target),
        ks(s) == stmt_kind_kinds((tree::StmtKind::Assign { target, value })) + tail,
    ensures
        stmt_kind(s) == Ok::<(tree::StmtKind, Input), Fault>(r),
        same_stmt_kind(r.0, (tree::StmtKind::Assign { target, value })),
        ks(r.1) == tail,
        r.1.rest.len() < s.rest.len(),
{
    let k3 = fx(TokenKind::Semi) + tail;
    let k2 = expr_kinds(value) + k3;
    let k1 = fx(TokenKind::Eq) + k2;
    assert(ks(s) == expr_kinds(target) + k1) by {
        broadcast use group_kinds;

    }
    lemma_at_expr(s, target, k1);
    let (t1, s1) = lemma_expr(s, target, k1);
    lemma_front(s1, Kind::Fixed(TokenKind::Eq), k2);
    lemma_same_place(t1, target);
    let (v1, s2) = lemma_expr(advance(s1), value, k3);
    lemma_front(s2, Kind::Fixed(TokenKind::Semi), tail);
    assert(stmt_kind(s) == expr_or_assign_stmt(s));
    (tree::StmtKind::Assign { target: t1, value: v1 }, advance(s2))
}

proof fn lemma_expr_stmt(s: Input, e: tree::Expr, tail: Seq<Kind>) -> (r: (tree::StmtKind, Input))
    requires
        ks(s) == stmt_kind_kinds(tree::StmtKind::Expr(e)) + tail,
    ensures
        stmt_kind(s) == Ok::<(tree::StmtKind, Input), Fault>(r),
        same_stmt_kind(r.0, tree::StmtKind::Expr(e)),
        ks(r.1) == tail,
        r.1.rest.len() < s.rest.len(),
{
    broadcast use group_kinds;

    let k1 = fx(TokenKind::Semi) + tail;
    assert(ks(s) == expr_kinds(e) + k1);
    lemma_at_expr(s, e, k1);
    let (e1, s1) = lemma_expr(s, e, k1);
    lemma_front(s1, Kind::Fixed(TokenKind::Semi), tail);
    assert(stmt_kind(s) == expr_or_assign_stmt(s));
    (tree::StmtKind::Expr(e1), advance(s1))
}

proof fn lemma_return(s: Input, value: Option<tree::Expr>, tail: Seq<Kind>) -> (r: (
    tree::StmtKind,
    Input,
))
    requires
        ks(s) == stmt_kind_kinds(tree::StmtKind::Return(value)) + tail,
    ensures
        stmt_kind(s) == Ok::<(tree::StmtKind, Input), Fault>(r),
        same_stmt_kind(r.0, tree::StmtKind::Return(value)),
        ks(r.1) == tail,
        r.1.rest.len() < s.rest.len(),
{
    broadcast use group_kinds;

    let k1 = fx(TokenKind::Semi) + tail;
    match value {
        Some(v) => {
            lemma_front(s, Kind::Fixed(TokenKind::Return), expr_kinds(v) + k1);
            let s1 = advance(s);
            lemma_at_expr(s1, v, k1);
            let (v1, s2) = lemma_expr(s1, v, k1);
            lemma_front(s2, Kind::Fixed(TokenKind::Semi), tail);
            assert(stmt_kind(s) == return_stmt(s));
            (tree::StmtKind::Return(Some(v1)), advance(s2))
        },
        None => {
            lemma_front(s, Kind::Fixed(TokenKind::Return), k1);
            let s1 = advance(s);
            lemma_front(s1, Kind::Fixed(TokenKind::Semi), tail);
            assert(stmt_kind(s) == return_stmt(s));
            (tree::StmtKind::Return(None), advance(s1))
        },
    }
}

/// The fields of an `emit` from the `i`th on, read back.
proof fn lemma_emit_fields(
    s: Input,
    list: Seq<(tree::Ident, tree::Expr)>,
    i: int,
    done: Seq<(tree::Ident, tree::Expr)>,
    tail: Seq<Kind>,
) -> (r: (Seq<(tree::Ident, tree::Expr)>, Input))
    requires
        0 <= i < list.len(),
        done.len() == i,
        forall|j: int| 0 <= j < i ==> same_emit_field(#[trigger] done[j], list[j]),
        ks(s) == seq![Kind::Ident(list[i].0.name)] + (fx(TokenKind::Colon) + (expr_kinds(list[i].1)
            + (emit_fields_kinds(list, i + 1) + (fx(TokenKind::RBrace) + tail)))),
    ensures
        emit_fields(s, done) == Ok::<(Seq<(tree::Ident, tree::Expr)>, Input), Fault>(r),
        r.0.len() == list.len(),
        forall|j: int| 0 <= j < list.len() ==> same_emit_field(#[trigger] r.0[j], list[j]),
        ks(r.1) == fx(TokenKind::RBrace) + tail,
    decreases list.len() - i,
{
    broadcast use group_kinds;

    let end = fx(TokenKind::RBrace) + tail;
    let more = emit_fields_kinds(list, i + 1) + end;
    let k2 = expr_kinds(list[i].1) + more;
    let k1 = fx(TokenKind::Colon) + k2;
    lemma_front(s, Kind::Ident(list[i].0.name), k1);
    let s1 = advance(s);
    lemma_front(s1, Kind::Fixed(TokenKind::Colon), k2);
    let s2 = advance(s1);
    let name = tree::Ident { name: list[i].0.name, span: span_at(s) };
    if i + 1 < list.len() {
        let rest = seq![Kind::Ident(list[i + 1].0.name)] + (fx(TokenKind::Colon) + (expr_kinds(
            list[i + 1].1,
        ) + (emit_fields_kinds(list, i + 2) + end)));
        assert(more == fx(TokenKind::Comma) + rest);
        let (v, s3) = lemma_expr(s2, list[i].1, more);
        lemma_front(s3, Kind::Fixed(TokenKind::Comma), rest);
        lemma_emit_fields(advance(s3), list, i + 1, done.push((name, v)), tail)
    } else {
        assert(more =~= end);
        let (v, s3) = lemma_expr(s2, list[i].1, more);
        lemma_at(s3, end);
        (done.push((name, v)), s3)
    }
}

proof fn lemma_emit(
    s: Input,
    event: tree::Ident,
    fields: Seq<(tree::Ident, tree::Expr)>,
    tail: Seq<Kind>,
) -> (r: (tree::StmtKind, Input))
    requires
        ks(s) == stmt_kind_kinds((tree::StmtKind::Emit { event, fields })) + tail,
    ensures
        stmt_kind(s) == Ok::<(tree::StmtKind, Input), Fault>(r),
        same_stmt_kind(r.0, (tree::StmtKind::Emit { event, fields })),
        ks(r.1) == tail,
        r.1.rest.len() < s.rest.len(),
{
    broadcast use group_kinds;

    let k4 = fx(TokenKind::Semi) + tail;
    let k3 = fx(TokenKind::RBrace) + k4;
    let k2 = emit_fields_kinds(fields, 0) + k3;
    let k1 = fx(TokenKind::LBrace) + k2;
    assert(ks(s) == fx(TokenKind::Emit) + (seq![Kind::Ident(event.name)] + k1));
    lemma_front(s, Kind::Fixed(TokenKind::Emit), seq![Kind::Ident(event.name)] + k1);
    let s1 = advance(s);
    lemma_front(s1, Kind::Ident(event.name), k1);
    let s2 = advance(s1);
    lemma_front(s2, Kind::Fixed(TokenKind::LBrace), k2);
    let s3 = advance(s2);
    let s4 = if fields.len() > 0 {
        assert(k2 == seq![Kind::Ident(fields[0].0.name)] + (fx(TokenKind::Colon) + (expr_kinds(
            fields[0].1,
        ) + (emit_fields_kinds(fields, 1) + k3))));
        let (l, s4) = lemma_emit_fields(s3, fields, 0, Seq::empty(), k4);
        lemma_emit_progress(s3, Seq::empty());
        s4
    } else {
        assert(k2 =~= k3);
        lemma_at(s3, k3);
        s3
    };
    lemma_front(s4, Kind::Fixed(TokenKind::RBrace), k4);
    let s5 = advance(s4);
    lemma_front(s5, Kind::Fixed(TokenKind::Semi), tail);
    assert(stmt_kind(s) == emit_stmt(s));
    emit_stmt(s)->Ok_0
}

/// Reading fields never gains tokens.
proof fn lemma_emit_progress(s: Input, done: Seq<(tree::Ident, tree::Expr)>)
    ensures
        emit_fields(s, done) matches Ok((_, after)) ==> after.rest.len() <= s.rest.len(),
    decreases s.rest.len(),
{
    if !is_at(s, TokenKind::RBrace) {
        if let Ok((name, s1)) = expect_ident(s, "field name"@) {
            if let Ok((c, s2)) = expect(s1, TokenKind::Colon, "`:`"@) {
                if let Ok((value, s3)) = expr(s2) {
                    if s3.rest.len() < s.rest.len() && is_at(s3, TokenKind::Comma) {
                        lemma_emit_progress(advance(s3), done.push((name, value)));
                    }
                }
            }
        }
    }
}

proof fn lemma_pattern(s: Input, p: tree::Pattern, tail: Seq<Kind>) -> (r: (tree::Pattern, Input))
    requires
        ks(s) == pattern_kinds(p) + tail,
        tail.len() > 0,
        tail[0] != Kind::Fixed(TokenKind::LParen),
    ensures
        pattern(s) == Ok::<(tree::Pattern, Input), Fault>(r),
        same_pattern(r.0, p),
        ks(r.1) == tail,
        r.1.rest.len() < s.rest.len(),
{
    broadcast use group_kinds;

    match p.binding {
        Some(b) => {
            let k2 = fx(TokenKind::RParen) + tail;
            let k1 = seq![Kind::Ident(b.name)] + k2;
            lemma_front(s, Kind::Ident(p.name.name), fx(TokenKind::LParen) + k1);
            let s1 = advance(s);
            lemma_front(s1, Kind::Fixed(TokenKind::LParen), k1);
            let s2 = advance(s1);
            lemma_front(s2, Kind::Ident(b.name), k2);
            lemma_front(advance(s2), Kind::Fixed(TokenKind::RParen), tail);
        },
        None => {
            lemma_front(s, Kind::Ident(p.name.name), tail);
            lemma_at(advance(s), tail);
        },
    }
    pattern(s)->Ok_0
}

proof fn lemma_cond(s: Input, c: tree::Cond, tail: Seq<Kind>) -> (r: (tree::Cond, Input))
    requires
        ks(s) == cond_kinds(c) + tail,
        tail.len() > 0,
        ends_expr(tail[0]),
    ensures
        cond(s) == Ok::<(tree::Cond, Input), Fault>(r),
        same_cond(r.0, c),
        ks(r.1) == tail,
        r.1.rest.len() < s.rest.len(),
{
    broadcast use group_kinds;

    match c {
        tree::Cond::Expr(e) => {
            lemma_at_expr(s, e, tail);
            let (e1, s1) = lemma_expr(s, e, tail);
            (tree::Cond::Expr(e1), s1)
        },
        tree::Cond::Let { pattern: p, value } => {
            let k2 = expr_kinds(value) + tail;
            let k1 = fx(TokenKind::Eq) + k2;
            lemma_front(s, Kind::Fixed(TokenKind::Let), pattern_kinds(p) + k1);
            let (p1, s1) = lemma_pattern(advance(s), p, k1);
            lemma_front(s1, Kind::Fixed(TokenKind::Eq), k2);
            let (v, s2) = lemma_expr(advance(s1), value, tail);
            (tree::Cond::Let { pattern: p1, value: v }, s2)
        },
    }
}

/// A printed block, read back.
proof fn lemma_block(s: Input, b: tree::Block, tail: Seq<Kind>) -> (r: (tree::Block, Input))
    requires
        printable_block(b),
        ks(s) == block_kinds(b) + tail,
    ensures
        block(s) == Ok::<(tree::Block, Input), Fault>(r),
        same_block(r.0, b),
        ks(r.1) == tail,
        r.1.rest.len() < s.rest.len(),
    decreases b, 0int,
{
    broadcast use group_kinds;

    let k1 = fx(TokenKind::RBrace) + tail;
    lemma_front(s, Kind::Fixed(TokenKind::LBrace), stmts_kinds(b.stmts, 0) + k1);
    let s1 = advance(s);
    let (l, s2) = lemma_stmts(s1, span_at(s).start, b.stmts, 0, Seq::empty(), tail);
    lemma_front(s2, Kind::Fixed(TokenKind::RBrace), tail);
    block(s)->Ok_0
}

/// Behind a statement stands no `else`.
proof fn lemma_no_else(list: Seq<tree::Stmt>, i: int, tail: Seq<Kind>)
    requires
        0 <= i <= list.len(),
    ensures
        ({
            let more = stmts_kinds(list, i) + (fx(TokenKind::RBrace) + tail);
            more.len() > 0 && more[0] != Kind::Fixed(TokenKind::Else)
        }),
{
    let end = fx(TokenKind::RBrace) + tail;
    let more = stmts_kinds(list, i) + end;
    if i < list.len() {
        lemma_stmt_start(list[i].kind);
        assert(stmt_kinds(list[i]) == stmt_kind_kinds(list[i].kind));
        assert(stmts_kinds(list, i)[0] == stmt_kinds(list[i])[0]);
        assert(more[0] == stmt_kind_kinds(list[i].kind)[0]);
    } else {
        assert(more =~= end);
    }
}

/// A printed statement in a block, read back.
proof fn lemma_stmt(s: Input, x: tree::Stmt, tail: Seq<Kind>) -> (r: (tree::Stmt, Input))
    requires
        printable_stmt(x),
        ks(s) == stmt_kinds(x) + tail,
        tail.len() > 0,
        tail[0] != Kind::Fixed(TokenKind::Else),
    ensures
        stmt(s) == Ok::<(tree::Stmt, Input), Fault>(r),
        same_stmt(r.0, x),
        ks(r.1) == tail,
        r.1.rest.len() < s.rest.len(),
        !is_at(s, TokenKind::RBrace),
        !is_at(s, TokenKind::Eof),
    decreases x, 0int,
{
    lemma_stmt_start(x.kind);
    lemma_at(s, ks(s));
    assert(ks(s)[0] == stmt_kind_kinds(x.kind)[0]);
    let (k, s1) = lemma_stmt_kind(s, x.kind, tail);
    (tree::Stmt { kind: k, span: Span { start: span_at(s).start, end: s1.prev } }, s1)
}

/// The statements of a block from the `i`th on, read back.
proof fn lemma_stmts(
    s: Input,
    open: usize,
    list: Seq<tree::Stmt>,
    i: int,
    done: Seq<tree::Stmt>,
    tail: Seq<Kind>,
) -> (r: (Seq<tree::Stmt>, Input))
    requires
        forall|j: int| 0 <= j < list.len() ==> printable_stmt(#[trigger] list[j]),
        0 <= i <= list.len(),
        done.len() == i,
        forall|j: int| 0 <= j < i ==> same_stmt(#[trigger] done[j], list[j]),
        ks(s) == stmts_kinds(list, i) + (fx(TokenKind::RBrace) + tail),
    ensures
        block_stmts(s, open, done) == Ok::<(Seq<tree::Stmt>, Input), Fault>(r),
        r.0.len() == list.len(),
        forall|j: int| 0 <= j < list.len() ==> same_stmt(#[trigger] r.0[j], list[j]),
        ks(r.1) == fx(TokenKind::RBrace) + tail,
        r.1.rest.len() <= s.rest.len(),
    decreases list, list.len() - i,
{
    let end = fx(TokenKind::RBrace) + tail;
    if i == list.len() {
        assert(stmts_kinds(list, i) + end =~= end);
        lemma_at(s, end);
        (done, s)
    } else {
        let more = stmts_kinds(list, i + 1) + end;
        assert(ks(s) == stmt_kinds(list[i]) + more) by {
            broadcast use group_kinds;

        }
        lemma_no_else(list, i + 1, tail);
        let (x, s1) = lemma_stmt(s, list[i], more);
        assert(block_stmts(s, open, done) == block_stmts(s1, open, done.push(x)));
        lemma_stmts(s1, open, list, i + 1, done.push(x), tail)
    }
}

#[verifier::rlimit(30)]
proof fn lemma_if(
    s: Input,
    kind: tree::StmtKind,
    c: tree::Cond,
    body: tree::Block,
    otherwise: Option<tree::Block>,
    tail: Seq<Kind>,
) -> (r: (tree::StmtKind, Input))
    requires
        kind == (tree::StmtKind::If { cond: c, body, otherwise }),
        printable_stmt_kind(kind),
        ks(s) == stmt_kind_kinds(kind) + tail,
        tail.len() > 0,
        tail[0] != Kind::Fixed(TokenKind::Else),
    ensures
        stmt_kind(s) == Ok::<(tree::StmtKind, Input), Fault>(r),
        same_stmt_kind(r.0, kind),
        ks(r.1) == tail,
        r.1.rest.len() < s.rest.len(),
    decreases kind, 0int,
{
    let k3 = match otherwise {
        Some(b) => fx(TokenKind::Else) + block_kinds(b),
        None => Seq::empty(),
    } + tail;
    let k2 = block_kinds(body) + k3;
    let k1 = cond_kinds(c) + k2;
    assert(ks(s) == fx(TokenKind::If) + k1) by {
        broadcast use group_kinds;

    }
    lemma_front(s, Kind::Fixed(TokenKind::If), k1);
    let (c1, s2) = lemma_cond(advance(s), c, k2);
    let (b1, s3) = lemma_block(s2, kind->If_body, k3);
    match otherwise {
        Some(b) => {
            assert(k3 == fx(TokenKind::Else) + (block_kinds(b) + tail)) by {
                broadcast use group_kinds;

            }
            lemma_front(s3, Kind::Fixed(TokenKind::Else), block_kinds(b) + tail);
            let s4 = advance(s3);
            lemma_at(s4, block_kinds(b) + tail);
            let (b2, s5) = lemma_block(s4, kind->If_otherwise->0, tail);
            assert(else_block(s4) == block(s4));
            assert(stmt_kind(s) == if_stmt(s));
            (tree::StmtKind::If { cond: c1, body: b1, otherwise: Some(b2) }, s5)
        },
        None => {
            assert(k3 =~= tail);
            lemma_at(s3, tail);
            assert(stmt_kind(s) == if_stmt(s));
            (tree::StmtKind::If { cond: c1, body: b1, otherwise: None }, s3)
        },
    }
}

proof fn lemma_for(
    s: Input,
    kind: tree::StmtKind,
    var: tree::Ident,
    start: tree::Expr,
    end: tree::Expr,
    body: tree::Block,
    tail: Seq<Kind>,
) -> (r: (tree::StmtKind, Input))
    requires
        kind == (tree::StmtKind::For { var, start, end, body }),
        printable_stmt_kind(kind),
        ks(s) == stmt_kind_kinds(kind) + tail,
    ensures
        stmt_kind(s) == Ok::<(tree::StmtKind, Input), Fault>(r),
        same_stmt_kind(r.0, kind),
        ks(r.1) == tail,
        r.1.rest.len() < s.rest.len(),
    decreases kind, 0int,
{
    let k6 = block_kinds(body) + tail;
    let k5 = expr_kinds(end) + k6;
    let k4 = fx(TokenKind::DotDot) + k5;
    let k3 = expr_kinds(start) + k4;
    let k2 = fx(TokenKind::In) + k3;
    let k1 = seq![Kind::Ident(var.name)] + k2;
    assert(ks(s) == fx(TokenKind::For) + k1) by {
        broadcast use group_kinds;

    }
    lemma_front(s, Kind::Fixed(TokenKind::For), k1);
    let s1 = advance(s);
    lemma_front(s1, Kind::Ident(var.name), k2);
    let s2 = advance(s1);
    lemma_front(s2, Kind::Fixed(TokenKind::In), k3);
    let (e1, s4) = lemma_expr(advance(s2), start, k4);
    lemma_front(s4, Kind::Fixed(TokenKind::DotDot), k5);
    let (e2, s6) = lemma_expr(advance(s4), end, k6);
    let (b, s7) = lemma_block(s6, kind->For_body, tail);
    assert(stmt_kind(s) == for_stmt(s));
    for_stmt(s)->Ok_0
}

/// A printed statement, read back.
proof fn lemma_stmt_kind(s: Input, kind: tree::StmtKind, tail: Seq<Kind>) -> (r: (
    tree::StmtKind,
    Input,
))
    requires
        printable_stmt_kind(kind),
        ks(s) == stmt_kind_kinds(kind) + tail,
        tail.len() > 0,
        tail[0] != Kind::Fixed(TokenKind::Else),
    ensures
        stmt_kind(s) == Ok::<(tree::StmtKind, Input), Fault>(r),
        same_stmt_kind(r.0, kind),
        ks(r.1) == tail,
        r.1.rest.len() < s.rest.len(),
    decreases kind, 1int,
{
    match kind {
        tree::StmtKind::Let { mutable, name, ty: t, value } => lemma_let(
            s,
            mutable,
            name,
            t,
            value,
            tail,
        ),
        tree::StmtKind::Assign { target, value } => lemma_assign(s, target, value, tail),
        tree::StmtKind::If { cond: c, body, otherwise } => lemma_if(
            s,
            kind,
            c,
            body,
            otherwise,
            tail,
        ),
        tree::StmtKind::For { var, start, end, body } => lemma_for(
            s,
            kind,
            var,
            start,
            end,
            body,
            tail,
        ),
        tree::StmtKind::Emit { event, fields } => lemma_emit(s, event, fields, tail),
        tree::StmtKind::Return(value) => lemma_return(s, value, tail),
        tree::StmtKind::Expr(e) => lemma_expr_stmt(s, e, tail),
    }
}

// ------------------------------------------------------------------- items

pub open spec fn same_field(a: tree::Field, b: tree::Field) -> bool {
    a.name.name == b.name.name && same_type(a.ty, b.ty)
}

pub open spec fn same_item(a: tree::Item, b: tree::Item) -> bool {
    match (a, b) {
        (tree::Item::Const(x), tree::Item::Const(y)) => {
            &&& x.name.name == y.name.name
            &&& same_type(x.ty, y.ty)
            &&& same_expr(x.value, y.value)
        },
        (tree::Item::MapDecl(x), tree::Item::MapDecl(y)) => {
            &&& x.name.name == y.name.name
            &&& x.kind.name == y.kind.name
            &&& x.args.len() == y.args.len()
            &&& forall|i: int| 0 <= i < x.args.len() ==> same_type(#[trigger] x.args[i], y.args[i])
            &&& x.capacity == y.capacity
        },
        (tree::Item::Event(x), tree::Item::Event(y)) => {
            &&& x.name.name == y.name.name
            &&& x.fields.len() == y.fields.len()
            &&& forall|i: int|
                0 <= i < x.fields.len() ==> same_field(#[trigger] x.fields[i], y.fields[i])
        },
        (tree::Item::Probe(x), tree::Item::Probe(y)) => {
            &&& x.kind.name == y.kind.name
            &&& x.args == y.args
            &&& same_block(x.body, y.body)
        },
        _ => false,
    }
}

/// The same program, whatever the spans.
pub open spec fn same_program(a: tree::Program, b: tree::Program) -> bool {
    &&& a.items.len() == b.items.len()
    &&& forall|i: int| 0 <= i < a.items.len() ==> same_item(#[trigger] a.items[i], b.items[i])
}

proof fn lemma_const(s: Input, c: tree::ConstDecl, tail: Seq<Kind>) -> (r: (tree::Item, Input))
    requires
        ks(s) == item_kinds(tree::Item::Const(c)) + tail,
    ensures
        item(s) == Ok::<(tree::Item, Input), Fault>(r),
        same_item(r.0, tree::Item::Const(c)),
        ks(r.1) == tail,
        r.1.rest.len() < s.rest.len(),
{
    let k6 = fx(TokenKind::Semi) + tail;
    let k5 = expr_kinds(c.value) + k6;
    let k4 = fx(TokenKind::Eq) + k5;
    let k3 = type_kinds(c.ty, 0) + k4;
    let k2 = fx(TokenKind::Colon) + k3;
    let k1 = seq![Kind::Ident(c.name.name)] + k2;
    assert(ks(s) == fx(TokenKind::Const) + k1) by {
        broadcast use group_kinds;

    }
    lemma_front(s, Kind::Fixed(TokenKind::Const), k1);
    let s1 = advance(s);
    lemma_front(s1, Kind::Ident(c.name.name), k2);
    let s2 = advance(s1);
    lemma_front(s2, Kind::Fixed(TokenKind::Colon), k3);
    let (t, s4) = lemma_plain_ty(advance(s2), c.ty, k4);
    lemma_front(s4, Kind::Fixed(TokenKind::Eq), k5);
    let (v, s6) = lemma_expr(advance(s4), c.value, k6);
    lemma_front(s6, Kind::Fixed(TokenKind::Semi), tail);
    assert(const_decl(s) is Ok);
    item(s)->Ok_0
}

/// The types of a map from the `i`th on, read back.
proof fn lemma_map_args(
    s: Input,
    list: Seq<tree::Type>,
    i: int,
    done: Seq<tree::Type>,
    tail: Seq<Kind>,
) -> (r: (Seq<tree::Type>, Input))
    requires
        0 <= i < list.len(),
        done.len() == i,
        forall|j: int| 0 <= j < i ==> same_type(#[trigger] done[j], list[j]),
        i == list.len() - 1 ==> ks(s) == type_kinds(list[i], 1) + tail,
        i < list.len() - 1 ==> ks(s) == type_kinds(list[i], 0) + (types_kinds(list, i + 1, 1)
            + tail),
    ensures
        map_args(s, done) == Ok::<(Seq<tree::Type>, Input), Fault>(r),
        r.0.len() == list.len(),
        forall|j: int| 0 <= j < list.len() ==> same_type(#[trigger] r.0[j], list[j]),
        closing(ks(r.1), 1, tail),
        r.1.rest.len() < s.rest.len(),
    decreases list.len() - i,
{
    if i == list.len() - 1 {
        let (a, s1) = lemma_ty(s, list[i], 1, tail);
        lemma_closing_first(s1, 1, tail);
        (done.push(a), s1)
    } else {
        let more = types_kinds(list, i + 1, 1) + tail;
        let rest = if i + 1 == list.len() - 1 {
            type_kinds(list[i + 1], 1) + tail
        } else {
            type_kinds(list[i + 1], 0) + (types_kinds(list, i + 2, 1) + tail)
        };
        assert(more == fx(TokenKind::Comma) + rest) by {
            broadcast use group_kinds;

        }
        assert(more[0] == Kind::Fixed(TokenKind::Comma));
        let (a, s1) = lemma_plain_ty(s, list[i], more);
        lemma_front(s1, Kind::Fixed(TokenKind::Comma), rest);
        lemma_map_args(advance(s1), list, i + 1, done.push(a), tail)
    }
}

/// What stands behind the types of a map.
proof fn lemma_map_end(s: Input, n: u64, tail: Seq<Kind>)
    requires
        ks(s) == fx(TokenKind::LBracket) + (seq![Kind::Int(n)] + (fx(TokenKind::RBracket) + (fx(
            TokenKind::Semi,
        ) + tail))),
    ensures
        is_at(s, TokenKind::LBracket),
        kind_at(advance(s)) == Kind::Int(n),
        is_at(advance(advance(s)), TokenKind::RBracket),
        is_at(advance(advance(advance(s))), TokenKind::Semi),
        ks(advance(advance(advance(advance(s))))) == tail,
        advance(advance(advance(advance(s)))).rest.len() < s.rest.len(),
{
    let k3 = fx(TokenKind::Semi) + tail;
    let k2 = fx(TokenKind::RBracket) + k3;
    let k1 = seq![Kind::Int(n)] + k2;
    lemma_front(s, Kind::Fixed(TokenKind::LBracket), k1);
    lemma_front(advance(s), Kind::Int(n), k2);
    lemma_front(advance(advance(s)), Kind::Fixed(TokenKind::RBracket), k3);
    lemma_front(advance(advance(advance(s))), Kind::Fixed(TokenKind::Semi), tail);
}

proof fn lemma_map(s: Input, m: tree::MapDecl, tail: Seq<Kind>) -> (r: (tree::Item, Input))
    requires
        m.args.len() > 0,
        ks(s) == item_kinds(tree::Item::MapDecl(m)) + tail,
    ensures
        item(s) == Ok::<(tree::Item, Input), Fault>(r),
        same_item(r.0, tree::Item::MapDecl(m)),
        ks(r.1) == tail,
        r.1.rest.len() < s.rest.len(),
{
    let k6 = fx(TokenKind::LBracket) + (seq![Kind::Int(m.capacity)] + (fx(TokenKind::RBracket) + (
    fx(TokenKind::Semi) + tail)));
    let k5 = types_kinds(m.args, 0, 1) + k6;
    let k4 = fx(TokenKind::Lt) + k5;
    let k3 = seq![Kind::Ident(m.kind.name)] + k4;
    let k2 = fx(TokenKind::Colon) + k3;
    let k1 = seq![Kind::Ident(m.name.name)] + k2;
    assert(ks(s) == fx(TokenKind::MapKw) + k1) by {
        broadcast use group_kinds;

    }
    lemma_front(s, Kind::Fixed(TokenKind::MapKw), k1);
    let s1 = advance(s);
    lemma_front(s1, Kind::Ident(m.name.name), k2);
    let s2 = advance(s1);
    lemma_front(s2, Kind::Fixed(TokenKind::Colon), k3);
    let s3 = advance(s2);
    lemma_front(s3, Kind::Ident(m.kind.name), k4);
    let s4 = advance(s3);
    lemma_front(s4, Kind::Fixed(TokenKind::Lt), k5);
    let s5 = advance(s4);
    if m.args.len() == 1 {
        assert(k5 == type_kinds(m.args[0], 1) + k6) by {
            broadcast use group_kinds;

        }
    } else {
        assert(k5 == type_kinds(m.args[0], 0) + (types_kinds(m.args, 1, 1) + k6)) by {
            broadcast use group_kinds;

        }
    }
    let (l, s6) = lemma_map_args(s5, m.args, 0, Seq::empty(), k6);
    let s7 = lemma_close(s6, 1, k6);
    assert(closers(0) + k6 =~= k6);
    lemma_map_end(s7, m.capacity, tail);
    assert(map_decl(s) is Ok);
    item(s)->Ok_0
}

/// The fields of an event from the `i`th on, read back.
proof fn lemma_event_fields(
    s: Input,
    list: Seq<tree::Field>,
    i: int,
    done: Seq<tree::Field>,
    tail: Seq<Kind>,
) -> (r: (Seq<tree::Field>, Input))
    requires
        0 <= i <= list.len(),
        done.len() == i,
        forall|j: int| 0 <= j < i ==> same_field(#[trigger] done[j], list[j]),
        ks(s) == event_fields_kinds(list, i) + (fx(TokenKind::RBrace) + tail),
    ensures
        event_fields(s, done) == Ok::<(Seq<tree::Field>, Input), Fault>(r),
        r.0.len() == list.len(),
        forall|j: int| 0 <= j < list.len() ==> same_field(#[trigger] r.0[j], list[j]),
        ks(r.1) == fx(TokenKind::RBrace) + tail,
        r.1.rest.len() <= s.rest.len(),
    decreases list.len() - i,
{
    let end = fx(TokenKind::RBrace) + tail;
    if i == list.len() {
        assert(event_fields_kinds(list, i) + end =~= end);
        lemma_at(s, end);
        (done, s)
    } else {
        let f = list[i];
        let k4 = event_fields_kinds(list, i + 1) + end;
        let k3 = fx(TokenKind::Comma) + k4;
        let k2 = type_kinds(f.ty, 0) + k3;
        let k1 = fx(TokenKind::Colon) + k2;
        assert(ks(s) == seq![Kind::Ident(f.name.name)] + k1) by {
            broadcast use group_kinds;

        }
        lemma_front(s, Kind::Ident(f.name.name), k1);
        let s1 = advance(s);
        lemma_front(s1, Kind::Fixed(TokenKind::Colon), k2);
        let (t, s3) = lemma_plain_ty(advance(s1), f.ty, k3);
        lemma_front(s3, Kind::Fixed(TokenKind::Comma), k4);
        let name = tree::Ident { name: f.name.name, span: span_at(s) };
        let x = tree::Field {
            name,
            ty: t,
            span: Span { start: name.span.start, end: s3.prev },
        };
        lemma_event_fields(advance(s3), list, i + 1, done.push(x), tail)
    }
}

proof fn lemma_event(s: Input, e: tree::EventDecl, tail: Seq<Kind>) -> (r: (tree::Item, Input))
    requires
        ks(s) == item_kinds(tree::Item::Event(e)) + tail,
    ensures
        item(s) == Ok::<(tree::Item, Input), Fault>(r),
        same_item(r.0, tree::Item::Event(e)),
        ks(r.1) == tail,
        r.1.rest.len() < s.rest.len(),
{
    let k3 = event_fields_kinds(e.fields, 0) + (fx(TokenKind::RBrace) + tail);
    let k2 = fx(TokenKind::LBrace) + k3;
    let k1 = seq![Kind::Ident(e.name.name)] + k2;
    assert(ks(s) == fx(TokenKind::Event) + k1) by {
        broadcast use group_kinds;

    }
    lemma_front(s, Kind::Fixed(TokenKind::Event), k1);
    let s1 = advance(s);
    lemma_front(s1, Kind::Ident(e.name.name), k2);
    let s2 = advance(s1);
    lemma_front(s2, Kind::Fixed(TokenKind::LBrace), k3);
    let (l, s4) = lemma_event_fields(advance(s2), e.fields, 0, Seq::empty(), tail);
    lemma_front(s4, Kind::Fixed(TokenKind::RBrace), tail);
    assert(event_decl(s) is Ok);
    item(s)->Ok_0
}

/// The arguments of a probe from the `i`th on, read back.
proof fn lemma_probe_args(
    s: Input,
    list: Seq<Seq<char>>,
    i: int,
    done: Seq<Seq<char>>,
    tail: Seq<Kind>,
) -> (r: (Seq<Seq<char>>, Input))
    requires
        0 <= i < list.len(),
        done == list.take(i),
        ks(s) == seq![Kind::Str(list[i])] + (strs_kinds(list, i + 1) + (fx(TokenKind::RParen)
            + tail)),
    ensures
        probe_args(s, done) == Ok::<(Seq<Seq<char>>, Input), Fault>(r),
        r.0 == list,
        ks(r.1) == fx(TokenKind::RParen) + tail,
        r.1.rest.len() < s.rest.len(),
    decreases list.len() - i,
{
    let end = fx(TokenKind::RParen) + tail;
    let more = strs_kinds(list, i + 1) + end;
    lemma_front(s, Kind::Str(list[i]), more);
    let s1 = advance(s);
    assert(done.push(list[i]) =~= list.take(i + 1));
    if i + 1 < list.len() {
        let rest = seq![Kind::Str(list[i + 1])] + (strs_kinds(list, i + 2) + end);
        assert(more == fx(TokenKind::Comma) + rest) by {
            broadcast use group_kinds;

        }
        lemma_front(s1, Kind::Fixed(TokenKind::Comma), rest);
        lemma_probe_args(advance(s1), list, i + 1, done.push(list[i]), tail)
    } else {
        assert(more =~= end);
        lemma_at(s1, end);
        assert(list.take(i + 1) =~= list);
        (list, s1)
    }
}

proof fn lemma_probe(s: Input, p: tree::ProbeDecl, tail: Seq<Kind>) -> (r: (tree::Item, Input))
    requires
        p.args.len() > 0,
        printable_block(p.body),
        ks(s) == item_kinds(tree::Item::Probe(p)) + tail,
    ensures
        item(s) == Ok::<(tree::Item, Input), Fault>(r),
        same_item(r.0, tree::Item::Probe(p)),
        ks(r.1) == tail,
        r.1.rest.len() < s.rest.len(),
{
    let k5 = block_kinds(p.body) + tail;
    let k4 = fx(TokenKind::RParen) + k5;
    let k3 = strs_kinds(p.args, 0) + k4;
    let k2 = fx(TokenKind::LParen) + k3;
    let k1 = seq![Kind::Ident(p.kind.name)] + k2;
    assert(ks(s) == fx(TokenKind::Probe) + k1) by {
        broadcast use group_kinds;

    }
    lemma_front(s, Kind::Fixed(TokenKind::Probe), k1);
    let s1 = advance(s);
    lemma_front(s1, Kind::Ident(p.kind.name), k2);
    let s2 = advance(s1);
    lemma_front(s2, Kind::Fixed(TokenKind::LParen), k3);
    let s3 = advance(s2);
    assert(k3 == seq![Kind::Str(p.args[0])] + (strs_kinds(p.args, 1) + k4)) by {
        broadcast use group_kinds;

    }
    assert(p.args.take(0) =~= Seq::empty());
    let (l, s4) = lemma_probe_args(s3, p.args, 0, Seq::empty(), k5);
    lemma_front(s4, Kind::Fixed(TokenKind::RParen), k5);
    let (b, s6) = lemma_block(advance(s4), p.body, tail);
    assert(probe_decl(s) is Ok);
    item(s)->Ok_0
}

/// The items of a program from the `i`th on, read back.
proof fn lemma_items(s: Input, list: Seq<tree::Item>, i: int, done: Seq<tree::Item>) -> (r: (
    Seq<tree::Item>,
    Input,
))
    requires
        forall|j: int| 0 <= j < list.len() ==> printable_item(#[trigger] list[j]),
        0 <= i <= list.len(),
        done.len() == i,
        forall|j: int| 0 <= j < i ==> same_item(#[trigger] done[j], list[j]),
        ks(s) == items_kinds(list, i) + fx(TokenKind::Eof),
    ensures
        items(s, done) == Ok::<(Seq<tree::Item>, Input), Fault>(r),
        r.0.len() == list.len(),
        forall|j: int| 0 <= j < list.len() ==> same_item(#[trigger] r.0[j], list[j]),
    decreases list.len() - i,
{
    let end = fx(TokenKind::Eof);
    if i == list.len() {
        assert(items_kinds(list, i) + end =~= end);
        lemma_at(s, end);
        (done, s)
    } else {
        let more = items_kinds(list, i + 1) + end;
        assert(ks(s) == item_kinds(list[i]) + more) by {
            broadcast use group_kinds;

        }
        assert(printable_item(list[i]));
        lemma_at(s, ks(s));
        assert(!is_at(s, TokenKind::Eof)) by {
            assert(ks(s)[0] == item_kinds(list[i])[0]);
        }
        let (x, s1) = match list[i] {
            tree::Item::Const(c) => lemma_const(s, c, more),
            tree::Item::MapDecl(m) => lemma_map(s, m, more),
            tree::Item::Event(e) => lemma_event(s, e, more),
            tree::Item::Probe(p) => lemma_probe(s, p, more),
        };
        assert(items(s, done) == items(s1, done.push(x)));
        lemma_items(s1, list, i + 1, done.push(x))
    }
}

/// The tokens of a printed program, read back.
pub proof fn lemma_program(s: Input, p: tree::Program) -> (r: (tree::Program, Input))
    requires
        printable(p),
        ks(s) == items_kinds(p.items, 0) + fx(TokenKind::Eof),
    ensures
        program(s) == Ok::<(tree::Program, Input), Fault>(r),
        same_program(r.0, p),
{
    let (l, s1) = lemma_items(s, p.items, 0, Seq::empty());
    (tree::Program { items: l }, s1)
}

} // verus!
