//! The models of the syntax tree: the same nodes, with text as sequences of
//! characters and lists as sequences.

use crate::ast::{BinaryOp, UnaryOp};
use crate::token::Span;
use vstd::prelude::*;

verus! {

pub struct Program {
    pub items: Seq<Item>,
}

pub struct Ident {
    pub name: Seq<char>,
    pub span: Span,
}

pub enum Item {
    Const(ConstDecl),
    MapDecl(MapDecl),
    Event(EventDecl),
    Probe(ProbeDecl),
}

pub struct ConstDecl {
    pub name: Ident,
    pub ty: Type,
    pub value: Expr,
    pub span: Span,
}

pub struct MapDecl {
    pub name: Ident,
    pub kind: Ident,
    pub args: Seq<Type>,
    pub capacity: u64,
    pub span: Span,
}

pub struct EventDecl {
    pub name: Ident,
    pub fields: Seq<Field>,
    pub span: Span,
}

pub struct Field {
    pub name: Ident,
    pub ty: Type,
    pub span: Span,
}

pub struct ProbeDecl {
    pub kind: Ident,
    pub args: Seq<Seq<char>>,
    pub body: Block,
    pub span: Span,
}

pub struct Type {
    pub name: Ident,
    pub args: Seq<TypeArg>,
    pub span: Span,
}

pub enum TypeArg {
    Type(Type),
    Int(u64),
}

pub struct Block {
    pub stmts: Seq<Stmt>,
    pub span: Span,
}

pub struct Stmt {
    pub kind: StmtKind,
    pub span: Span,
}

pub enum StmtKind {
    Let { mutable: bool, name: Ident, ty: Option<Type>, value: Expr },
    Assign { target: Expr, value: Expr },
    If { cond: Cond, body: Block, otherwise: Option<Block> },
    For { var: Ident, start: Expr, end: Expr, body: Block },
    Emit { event: Ident, fields: Seq<(Ident, Expr)> },
    Return(Option<Expr>),
    Expr(Expr),
}

pub enum Cond {
    Expr(Expr),
    Let { pattern: Pattern, value: Expr },
}

pub struct Pattern {
    pub name: Ident,
    pub binding: Option<Ident>,
    pub span: Span,
}

pub struct Expr {
    pub kind: ExprKind,
    pub span: Span,
}

pub enum ExprKind {
    Int(u64),
    Str(Seq<char>),
    Bool(bool),
    Ident(Seq<char>),
    Unary { op: UnaryOp, expr: Box<Expr> },
    Binary { op: BinaryOp, lhs: Box<Expr>, rhs: Box<Expr> },
    Cast { expr: Box<Expr>, ty: Type },
    Call { callee: Box<Expr>, args: Seq<Expr> },
    MethodCall { receiver: Box<Expr>, method: Ident, args: Seq<Expr> },
    Field { expr: Box<Expr>, field: Ident },
    Index { expr: Box<Expr>, index: Box<Expr> },
}

/// Where an item was written.
pub open spec fn item_span(i: Item) -> Span {
    match i {
        Item::Const(c) => c.span,
        Item::MapDecl(m) => m.span,
        Item::Event(e) => e.span,
        Item::Probe(p) => p.span,
    }
}

} // verus!
