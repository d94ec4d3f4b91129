//! Copies of the syntax tree. A copy stands for what the node stands for.

use crate::ast::{
    emit_fields, exprs, fields, items, lemma_exprs_push, lemma_stmts_push, lemma_type_args_push,
    stmts, strings, type_args, types, Block, Cond, ConstDecl, EventDecl, Expr, ExprKind, Field,
    Ident, Item, MapDecl, Pattern, ProbeDecl, Program, Stmt, StmtKind, Type, TypeArg,
};
use vstd::prelude::*;

verus! {

// ------------------------------------------------------------ names and types

impl Clone for Ident {
    fn clone(&self) -> (r: Self)
        ensures
            r@ == self@,
    {
        Ident { name: self.name.clone(), span: self.span }
    }
}

impl Clone for Pattern {
    fn clone(&self) -> (r: Self)
        ensures
            r@ == self@,
    {
        let binding = match &self.binding {
            Some(b) => Some(b.clone()),
            None => None,
        };
        Pattern { name: self.name.clone(), binding, span: self.span }
    }
}

fn copy_type(t: &Type) -> (r: Type)
    ensures
        r@ == t@,
    decreases t,
{
    Type { name: t.name.clone(), args: copy_type_args(&t.args), span: t.span }
}

fn copy_type_args(v: &Vec<TypeArg>) -> (r: Vec<TypeArg>)
    ensures
        type_args(r@) == type_args(v@),
    decreases v,
{
    let mut r: Vec<TypeArg> = Vec::new();
    let mut i: usize = 0;
    while i < v.len()
        invariant
            i <= v@.len(),
            type_args(r@) == type_args(v@.take(i as int)),
        decreases v@.len() - i,
    {
        let x = match &v[i] {
            TypeArg::Type(t) => TypeArg::Type(copy_type(t)),
            TypeArg::Int(n) => TypeArg::Int(*n),
        };
        proof {
            lemma_type_args_push(r@, x);
            lemma_type_args_push(v@.take(i as int), v@[i as int]);
            assert(v@.take(i as int).push(v@[i as int]) =~= v@.take(i + 1));
        }
        r.push(x);
        i += 1;
    }
    assert(v@.take(i as int) =~= v@);
    r
}

impl Clone for Type {
    fn clone(&self) -> (r: Self)
        ensures
            r@ == self@,
    {
        copy_type(self)
    }
}

impl Clone for TypeArg {
    fn clone(&self) -> (r: Self)
        ensures
            r@ == self@,
    {
        match self {
            TypeArg::Type(t) => TypeArg::Type(copy_type(t)),
            TypeArg::Int(n) => TypeArg::Int(*n),
        }
    }
}

// -------------------------------------------------------------- expressions

fn copy_expr(e: &Expr) -> (r: Expr)
    ensures
        r@ == e@,
    decreases e,
{
    proof {
        reveal_with_fuel(Expr::model, 2);
    }
    Expr { kind: copy_expr_kind(&e.kind), span: e.span }
}

fn copy_expr_kind(k: &ExprKind) -> (r: ExprKind)
    ensures
        r@ == k@,
    decreases k,
{
    match k {
        ExprKind::Int(n) => ExprKind::Int(*n),
        ExprKind::Str(s) => ExprKind::Str(s.clone()),
        ExprKind::Bool(b) => ExprKind::Bool(*b),
        ExprKind::Ident(s) => ExprKind::Ident(s.clone()),
        ExprKind::Unary { op, expr } => ExprKind::Unary {
            op: *op,
            expr: Box::new(copy_expr(expr)),
        },
        ExprKind::Binary { op, lhs, rhs } => ExprKind::Binary {
            op: *op,
            lhs: Box::new(copy_expr(lhs)),
            rhs: Box::new(copy_expr(rhs)),
        },
        ExprKind::Cast { expr, ty } => ExprKind::Cast {
            expr: Box::new(copy_expr(expr)),
            ty: copy_type(ty),
        },
        ExprKind::Call { callee, args } => ExprKind::Call {
            callee: Box::new(copy_expr(callee)),
            args: copy_exprs(args),
        },
        ExprKind::MethodCall { receiver, method, args } => ExprKind::MethodCall {
            receiver: Box::new(copy_expr(receiver)),
            method: method.clone(),
            args: copy_exprs(args),
        },
        ExprKind::Field { expr, field } => ExprKind::Field {
            expr: Box::new(copy_expr(expr)),
            field: field.clone(),
        },
        ExprKind::Index { expr, index } => ExprKind::Index {
            expr: Box::new(copy_expr(expr)),
            index: Box::new(copy_expr(index)),
        },
    }
}

fn copy_exprs(v: &Vec<Expr>) -> (r: Vec<Expr>)
    ensures
        exprs(r@) == exprs(v@),
    decreases v,
{
    let mut r: Vec<Expr> = Vec::new();
    let mut i: usize = 0;
    while i < v.len()
        invariant
            i <= v@.len(),
            exprs(r@) == exprs(v@.take(i as int)),
        decreases v@.len() - i,
    {
        let x = copy_expr(&v[i]);
        proof {
            lemma_exprs_push(r@, x);
            lemma_exprs_push(v@.take(i as int), v@[i as int]);
            assert(v@.take(i as int).push(v@[i as int]) =~= v@.take(i + 1));
        }
        r.push(x);
        i += 1;
    }
    assert(v@.take(i as int) =~= v@);
    r
}

impl Clone for Expr {
    fn clone(&self) -> (r: Self)
        ensures
            r@ == self@,
    {
        copy_expr(self)
    }
}

impl Clone for ExprKind {
    fn clone(&self) -> (r: Self)
        ensures
            r@ == self@,
    {
        copy_expr_kind(self)
    }
}

impl Clone for Cond {
    fn clone(&self) -> (r: Self)
        ensures
            r@ == self@,
    {
        match self {
            Cond::Expr(e) => Cond::Expr(e.clone()),
            Cond::Let { pattern, value } => Cond::Let {
                pattern: pattern.clone(),
                value: value.clone(),
            },
        }
    }
}

// --------------------------------------------------------------- statements

fn copy_block(b: &Block) -> (r: Block)
    ensures
        r@ == b@,
    decreases b,
{
    Block { stmts: copy_stmts(&b.stmts), span: b.span }
}

fn copy_stmt(x: &Stmt) -> (r: Stmt)
    ensures
        r@ == x@,
    decreases x,
{
    proof {
        reveal_with_fuel(Stmt::model, 2);
    }
    Stmt { kind: copy_stmt_kind(&x.kind), span: x.span }
}

fn copy_stmt_kind(k: &StmtKind) -> (r: StmtKind)
    ensures
        r@ == k@,
    decreases k,
{
    match k {
        StmtKind::Let { mutable, name, ty, value } => StmtKind::Let {
            mutable: *mutable,
            name: name.clone(),
            ty: match ty {
                Some(t) => Some(t.clone()),
                None => None,
            },
            value: value.clone(),
        },
        StmtKind::Assign { target, value } => StmtKind::Assign {
            target: target.clone(),
            value: value.clone(),
        },
        StmtKind::If { cond, body, otherwise } => StmtKind::If {
            cond: cond.clone(),
            body: copy_block(body),
            otherwise: match otherwise {
                Some(b) => Some(copy_block(b)),
                None => None,
            },
        },
        StmtKind::For { var, start, end, body } => StmtKind::For {
            var: var.clone(),
            start: start.clone(),
            end: end.clone(),
            body: copy_block(body),
        },
        StmtKind::Emit { event, fields } => StmtKind::Emit {
            event: event.clone(),
            fields: copy_emit_fields(fields),
        },
        StmtKind::Return(value) => StmtKind::Return(
            match value {
                Some(e) => Some(e.clone()),
                None => None,
            },
        ),
        StmtKind::Expr(e) => StmtKind::Expr(e.clone()),
    }
}

fn copy_emit_fields(v: &Vec<(Ident, Expr)>) -> (r: Vec<(Ident, Expr)>)
    ensures
        emit_fields(r@) == emit_fields(v@),
{
    let mut r: Vec<(Ident, Expr)> = Vec::new();
    let mut i: usize = 0;
    while i < v.len()
        invariant
            i <= v@.len(),
            emit_fields(r@) =~= emit_fields(v@.take(i as int)),
        decreases v@.len() - i,
    {
        let x = (v[i].0.clone(), v[i].1.clone());
        let ghost before = r@;
        r.push(x);
        proof {
            assert(emit_fields(before.push(x)) =~= emit_fields(before).push((x.0@, x.1@)));
            assert(v@.take(i as int).push(v@[i as int]) =~= v@.take(i + 1));
        }
        i += 1;
    }
    assert(v@.take(i as int) =~= v@);
    r
}

fn copy_stmts(v: &Vec<Stmt>) -> (r: Vec<Stmt>)
    ensures
        stmts(r@) == stmts(v@),
    decreases v,
{
    let mut r: Vec<Stmt> = Vec::new();
    let mut i: usize = 0;
    while i < v.len()
        invariant
            i <= v@.len(),
            stmts(r@) == stmts(v@.take(i as int)),
        decreases v@.len() - i,
    {
        let x = copy_stmt(&v[i]);
        proof {
            lemma_stmts_push(r@, x);
            lemma_stmts_push(v@.take(i as int), v@[i as int]);
            assert(v@.take(i as int).push(v@[i as int]) =~= v@.take(i + 1));
        }
        r.push(x);
        i += 1;
    }
    assert(v@.take(i as int) =~= v@);
    r
}

impl Clone for Block {
    fn clone(&self) -> (r: Self)
        ensures
            r@ == self@,
    {
        copy_block(self)
    }
}

impl Clone for Stmt {
    fn clone(&self) -> (r: Self)
        ensures
            r@ == self@,
    {
        copy_stmt(self)
    }
}

impl Clone for StmtKind {
    fn clone(&self) -> (r: Self)
        ensures
            r@ == self@,
    {
        copy_stmt_kind(self)
    }
}

// -------------------------------------------------------------------- items

impl Clone for Field {
    fn clone(&self) -> (r: Self)
        ensures
            r@ == self@,
    {
        Field { name: self.name.clone(), ty: self.ty.clone(), span: self.span }
    }
}

impl Clone for ConstDecl {
    fn clone(&self) -> (r: Self)
        ensures
            r@ == self@,
    {
        ConstDecl {
            name: self.name.clone(),
            ty: self.ty.clone(),
            value: self.value.clone(),
            span: self.span,
        }
    }
}

impl Clone for MapDecl {
    fn clone(&self) -> (r: Self)
        ensures
            r@ == self@,
    {
        let args = self.args.clone();
        proof {
            assert forall|i: int| 0 <= i < args@.len() implies #[trigger] args@[i]@
                == self.args@[i]@ by {
                assert(cloned(self.args@[i], args@[i]));
            }
            assert(types(args@) =~= types(self.args@));
        }
        MapDecl {
            name: self.name.clone(),
            kind: self.kind.clone(),
            args,
            capacity: self.capacity,
            span: self.span,
        }
    }
}

impl Clone for EventDecl {
    fn clone(&self) -> (r: Self)
        ensures
            r@ == self@,
    {
        let list = self.fields.clone();
        proof {
            assert forall|i: int| 0 <= i < list@.len() implies #[trigger] list@[i]@
                == self.fields@[i]@ by {
                assert(cloned(self.fields@[i], list@[i]));
            }
            assert(fields(list@) =~= fields(self.fields@));
        }
        EventDecl { name: self.name.clone(), fields: list, span: self.span }
    }
}

impl Clone for ProbeDecl {
    fn clone(&self) -> (r: Self)
        ensures
            r@ == self@,
    {
        let args = self.args.clone();
        proof {
            assert forall|i: int| 0 <= i < args@.len() implies #[trigger] args@[i]@
                == self.args@[i]@ by {
                assert(cloned(self.args@[i], args@[i]));
            }
            assert(strings(args@) =~= strings(self.args@));
        }
        ProbeDecl { kind: self.kind.clone(), args, body: self.body.clone(), span: self.span }
    }
}

impl Clone for Item {
    fn clone(&self) -> (r: Self)
        ensures
            r@ == self@,
    {
        match self {
            Item::Const(c) => Item::Const(c.clone()),
            Item::MapDecl(m) => Item::MapDecl(m.clone()),
            Item::Event(e) => Item::Event(e.clone()),
            Item::Probe(p) => Item::Probe(p.clone()),
        }
    }
}

impl Clone for Program {
    fn clone(&self) -> (r: Self)
        ensures
            r@ == self@,
    {
        let list = self.items.clone();
        proof {
            assert forall|i: int| 0 <= i < list@.len() implies #[trigger] list@[i]@
                == self.items@[i]@ by {
                assert(cloned(self.items@[i], list@[i]));
            }
            assert(items(list@) =~= items(self.items@));
        }
        Program { items: list }
    }
}

} // verus!
