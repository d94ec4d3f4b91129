//! The syntax tree: what a honey program means, structurally, with the
//! punctuation gone. Produced by the parser, consumed by the type checker and
//! the code generator.
//!
//! Every node keeps the `Span` of the source text it came from, so later
//! stages can report errors at the right place. The model of a node, given by
//! its view, is the node of the same name in `tree`.

use crate::token::Span;
use crate::tree;
use vstd::prelude::*;

verus! {

/// A whole `.hny` file.
#[derive(Debug, PartialEq, Eq)]
pub struct Program {
    pub items: Vec<Item>,
}

/// A name, with where it was written.
#[derive(Debug, PartialEq, Eq)]
pub struct Ident {
    pub name: String,
    pub span: Span,
}

// ------------------------------------------------------------------ items

#[derive(Debug, PartialEq, Eq)]
pub enum Item {
    Const(ConstDecl),
    MapDecl(MapDecl),
    Event(EventDecl),
    Probe(ProbeDecl),
}

/// `const NAME: type = expr;`
#[derive(Debug, PartialEq, Eq)]
pub struct ConstDecl {
    pub name: Ident,
    pub ty: Type,
    pub value: Expr,
    pub span: Span,
}

/// `map NAME: kind<args>[capacity];`
#[derive(Debug, PartialEq, Eq)]
pub struct MapDecl {
    pub name: Ident,
    /// `hash`, `array`, ... The parser takes any name; the type checker
    /// decides.
    pub kind: Ident,
    pub args: Vec<Type>,
    pub capacity: u64,
    pub span: Span,
}

/// `event NAME { field: type, ... }`
#[derive(Debug, PartialEq, Eq)]
pub struct EventDecl {
    pub name: Ident,
    pub fields: Vec<Field>,
    pub span: Span,
}

#[derive(Debug, PartialEq, Eq)]
pub struct Field {
    pub name: Ident,
    pub ty: Type,
    pub span: Span,
}

/// `probe kind("arg", "arg") { ... }`
#[derive(Debug, PartialEq, Eq)]
pub struct ProbeDecl {
    /// `tracepoint`, `kprobe`, ... The type checker decides.
    pub kind: Ident,
    pub args: Vec<String>,
    pub body: Block,
    pub span: Span,
}

// ------------------------------------------------------------------ types

/// `u32`, `str<16>`, `hash<u32, u64>`.
#[derive(Debug, PartialEq, Eq)]
pub struct Type {
    pub name: Ident,
    pub args: Vec<TypeArg>,
    pub span: Span,
}

#[derive(Debug, PartialEq, Eq)]
pub enum TypeArg {
    Type(Type),
    /// The `16` in `str<16>`.
    Int(u64),
}

// ------------------------------------------------------------- statements

#[derive(Debug, PartialEq, Eq)]
pub struct Block {
    pub stmts: Vec<Stmt>,
    pub span: Span,
}

#[derive(Debug, PartialEq, Eq)]
pub struct Stmt {
    pub kind: StmtKind,
    pub span: Span,
}

#[derive(Debug, PartialEq, Eq)]
pub enum StmtKind {
    /// `let [mut] name [: type] = value;`
    Let { mutable: bool, name: Ident, ty: Option<Type>, value: Expr },
    /// `target = value;` where `target` is a place.
    Assign { target: Expr, value: Expr },
    /// `if cond { } [else { }]`. An `else if` is an `else` block holding a
    /// single `If` statement.
    If { cond: Cond, body: Block, otherwise: Option<Block> },
    /// `for var in start..end { }`
    For { var: Ident, start: Expr, end: Expr, body: Block },
    /// `emit Event { field: value, ... };`
    Emit { event: Ident, fields: Vec<(Ident, Expr)> },
    /// `return [value];`
    Return(Option<Expr>),
    /// `expr;`
    Expr(Expr),
}

/// The condition of an `if`.
#[derive(Debug, PartialEq, Eq)]
pub enum Cond {
    Expr(Expr),
    /// `if let pattern = value`
    Let { pattern: Pattern, value: Expr },
}

/// `Some(x)` or `None`. Only used in `if let`.
#[derive(Debug, PartialEq, Eq)]
pub struct Pattern {
    pub name: Ident,
    pub binding: Option<Ident>,
    pub span: Span,
}

// ------------------------------------------------------------ expressions

#[derive(Debug, PartialEq, Eq)]
pub struct Expr {
    pub kind: ExprKind,
    pub span: Span,
}

#[derive(Debug, PartialEq, Eq)]
pub enum ExprKind {
    Int(u64),
    Str(String),
    Bool(bool),
    Ident(String),
    Unary { op: UnaryOp, expr: Box<Expr> },
    Binary { op: BinaryOp, lhs: Box<Expr>, rhs: Box<Expr> },
    /// `expr as type`
    Cast { expr: Box<Expr>, ty: Type },
    /// `callee(args)`
    Call { callee: Box<Expr>, args: Vec<Expr> },
    /// `receiver.method(args)`
    MethodCall { receiver: Box<Expr>, method: Ident, args: Vec<Expr> },
    /// `expr.field`
    Field { expr: Box<Expr>, field: Ident },
    /// `expr[index]`
    Index { expr: Box<Expr>, index: Box<Expr> },
}

#[derive(Debug, Clone, Copy, PartialEq, Eq, Structural)]
pub enum UnaryOp {
    /// `!`
    Not,
    /// `-`
    Neg,
    /// `~`
    BitNot,
    /// `*`
    Deref,
}

#[derive(Debug, Clone, Copy, PartialEq, Eq, Structural)]
pub enum BinaryOp {
    /// `||`
    Or,
    /// `&&`
    And,
    /// `==`
    Eq,
    /// `!=`
    Ne,
    /// `<`
    Lt,
    /// `<=`
    Le,
    /// `>`
    Gt,
    /// `>=`
    Ge,
    /// `|`
    BitOr,
    /// `^`
    BitXor,
    /// `&`
    BitAnd,
    /// `<<`
    Shl,
    /// `>>`
    Shr,
    /// `+`
    Add,
    /// `-`
    Sub,
    /// `*`
    Mul,
    /// `/`
    Div,
    /// `%`
    Rem,
}

/// How a unary operator is written.
pub open spec fn unary_symbol(op: UnaryOp) -> Seq<char> {
    match op {
        UnaryOp::Not => "!"@,
        UnaryOp::Neg => "-"@,
        UnaryOp::BitNot => "~"@,
        UnaryOp::Deref => "*"@,
    }
}

/// How a binary operator is written.
pub open spec fn binary_symbol(op: BinaryOp) -> Seq<char> {
    match op {
        BinaryOp::Or => "||"@,
        BinaryOp::And => "&&"@,
        BinaryOp::Eq => "=="@,
        BinaryOp::Ne => "!="@,
        BinaryOp::Lt => "<"@,
        BinaryOp::Le => "<="@,
        BinaryOp::Gt => ">"@,
        BinaryOp::Ge => ">="@,
        BinaryOp::BitOr => "|"@,
        BinaryOp::BitXor => "^"@,
        BinaryOp::BitAnd => "&"@,
        BinaryOp::Shl => "<<"@,
        BinaryOp::Shr => ">>"@,
        BinaryOp::Add => "+"@,
        BinaryOp::Sub => "-"@,
        BinaryOp::Mul => "*"@,
        BinaryOp::Div => "/"@,
        BinaryOp::Rem => "%"@,
    }
}

impl UnaryOp {
    pub fn symbol(self) -> (r: &'static str)
        ensures
            r@ == unary_symbol(self),
    {
        match self {
            UnaryOp::Not => "!",
            UnaryOp::Neg => "-",
            UnaryOp::BitNot => "~",
            UnaryOp::Deref => "*",
        }
    }
}

impl BinaryOp {
    pub fn symbol(self) -> (r: &'static str)
        ensures
            r@ == binary_symbol(self),
    {
        match self {
            BinaryOp::Or => "||",
            BinaryOp::And => "&&",
            BinaryOp::Eq => "==",
            BinaryOp::Ne => "!=",
            BinaryOp::Lt => "<",
            BinaryOp::Le => "<=",
            BinaryOp::Gt => ">",
            BinaryOp::Ge => ">=",
            BinaryOp::BitOr => "|",
            BinaryOp::BitXor => "^",
            BinaryOp::BitAnd => "&",
            BinaryOp::Shl => "<<",
            BinaryOp::Shr => ">>",
            BinaryOp::Add => "+",
            BinaryOp::Sub => "-",
            BinaryOp::Mul => "*",
            BinaryOp::Div => "/",
            BinaryOp::Rem => "%",
        }
    }
}

impl Item {
    pub fn span(&self) -> (r: Span)
        ensures
            r == tree::item_span(self@),
    {
        match self {
            Item::Const(c) => c.span,
            Item::MapDecl(m) => m.span,
            Item::Event(e) => e.span,
            Item::Probe(p) => p.span,
        }
    }
}

// ----------------------------------------------------------------- models

impl View for Ident {
    type V = tree::Ident;

    open spec fn view(&self) -> tree::Ident {
        tree::Ident { name: self.name@, span: self.span }
    }
}

/// An optional name.
pub open spec fn opt_ident(i: Option<Ident>) -> Option<tree::Ident> {
    match i {
        Some(i) => Some(i@),
        None => None,
    }
}

impl View for Pattern {
    type V = tree::Pattern;

    open spec fn view(&self) -> tree::Pattern {
        tree::Pattern { name: self.name@, binding: opt_ident(self.binding), span: self.span }
    }
}

impl Type {
    pub open spec fn model(self) -> tree::Type
        decreases self,
    {
        tree::Type { name: self.name@, args: type_args(self.args@), span: self.span }
    }
}

impl TypeArg {
    pub open spec fn model(self) -> tree::TypeArg
        decreases self,
    {
        match self {
            TypeArg::Type(t) => tree::TypeArg::Type(t.model()),
            TypeArg::Int(n) => tree::TypeArg::Int(n),
        }
    }
}

/// The models of a list of type arguments.
pub open spec fn type_args(v: Seq<TypeArg>) -> Seq<tree::TypeArg>
    decreases v,
{
    if v.len() == 0 {
        Seq::empty()
    } else {
        type_args(v.drop_last()).push(v.last().model())
    }
}

impl View for Type {
    type V = tree::Type;

    open spec fn view(&self) -> tree::Type {
        self.model()
    }
}

impl View for TypeArg {
    type V = tree::TypeArg;

    open spec fn view(&self) -> tree::TypeArg {
        self.model()
    }
}

impl Expr {
    pub open spec fn model(self) -> tree::Expr
        decreases self,
    {
        tree::Expr { kind: self.kind.model(), span: self.span }
    }
}

impl ExprKind {
    pub open spec fn model(self) -> tree::ExprKind
        decreases self,
    {
        match self {
            ExprKind::Int(n) => tree::ExprKind::Int(n),
            ExprKind::Str(s) => tree::ExprKind::Str(s@),
            ExprKind::Bool(b) => tree::ExprKind::Bool(b),
            ExprKind::Ident(s) => tree::ExprKind::Ident(s@),
            ExprKind::Unary { op, expr } => tree::ExprKind::Unary {
                op,
                expr: Box::new(expr.model()),
            },
            ExprKind::Binary { op, lhs, rhs } => tree::ExprKind::Binary {
                op,
                lhs: Box::new(lhs.model()),
                rhs: Box::new(rhs.model()),
            },
            ExprKind::Cast { expr, ty } => tree::ExprKind::Cast {
                expr: Box::new(expr.model()),
                ty: ty.model(),
            },
            ExprKind::Call { callee, args } => tree::ExprKind::Call {
                callee: Box::new(callee.model()),
                args: exprs(args@),
            },
            ExprKind::MethodCall { receiver, method, args } => tree::ExprKind::MethodCall {
                receiver: Box::new(receiver.model()),
                method: method@,
                args: exprs(args@),
            },
            ExprKind::Field { expr, field } => tree::ExprKind::Field {
                expr: Box::new(expr.model()),
                field: field@,
            },
            ExprKind::Index { expr, index } => tree::ExprKind::Index {
                expr: Box::new(expr.model()),
                index: Box::new(index.model()),
            },
        }
    }
}

/// The models of a list of expressions.
pub open spec fn exprs(v: Seq<Expr>) -> Seq<tree::Expr>
    decreases v,
{
    if v.len() == 0 {
        Seq::empty()
    } else {
        exprs(v.drop_last()).push(v.last().model())
    }
}

impl View for Expr {
    type V = tree::Expr;

    open spec fn view(&self) -> tree::Expr {
        self.model()
    }
}

impl View for ExprKind {
    type V = tree::ExprKind;

    open spec fn view(&self) -> tree::ExprKind {
        self.model()
    }
}

/// An optional expression.
pub open spec fn opt_expr(e: Option<Expr>) -> Option<tree::Expr> {
    match e {
        Some(e) => Some(e@),
        None => None,
    }
}

/// An optional type.
pub open spec fn opt_type(t: Option<Type>) -> Option<tree::Type> {
    match t {
        Some(t) => Some(t@),
        None => None,
    }
}

impl View for Cond {
    type V = tree::Cond;

    open spec fn view(&self) -> tree::Cond {
        match *self {
            Cond::Expr(e) => tree::Cond::Expr(e@),
            Cond::Let { pattern, value } => tree::Cond::Let { pattern: pattern@, value: value@ },
        }
    }
}

/// The models of the fields of an `emit`.
pub open spec fn emit_fields(v: Seq<(Ident, Expr)>) -> Seq<(tree::Ident, tree::Expr)> {
    v.map_values(|p: (Ident, Expr)| (p.0@, p.1@))
}

impl Block {
    pub open spec fn model(self) -> tree::Block
        decreases self,
    {
        tree::Block { stmts: stmts(self.stmts@), span: self.span }
    }
}

impl Stmt {
    pub open spec fn model(self) -> tree::Stmt
        decreases self,
    {
        tree::Stmt { kind: self.kind.model(), span: self.span }
    }
}

impl StmtKind {
    pub open spec fn model(self) -> tree::StmtKind
        decreases self,
    {
        match self {
            StmtKind::Let { mutable, name, ty, value } => tree::StmtKind::Let {
                mutable,
                name: name@,
                ty: opt_type(ty),
                value: value@,
            },
            StmtKind::Assign { target, value } => tree::StmtKind::Assign {
                target: target@,
                value: value@,
            },
            StmtKind::If { cond, body, otherwise } => tree::StmtKind::If {
                cond: cond@,
                body: body.model(),
                otherwise: match otherwise {
                    Some(b) => Some(b.model()),
                    None => None,
                },
            },
            StmtKind::For { var, start, end, body } => tree::StmtKind::For {
                var: var@,
                start: start@,
                end: end@,
                body: body.model(),
            },
            StmtKind::Emit { event, fields } => tree::StmtKind::Emit {
                event: event@,
                fields: emit_fields(fields@),
            },
            StmtKind::Return(value) => tree::StmtKind::Return(opt_expr(value)),
            StmtKind::Expr(e) => tree::StmtKind::Expr(e@),
        }
    }
}

/// The models of a list of statements.
pub open spec fn stmts(v: Seq<Stmt>) -> Seq<tree::Stmt>
    decreases v,
{
    if v.len() == 0 {
        Seq::empty()
    } else {
        stmts(v.drop_last()).push(v.last().model())
    }
}

impl View for Block {
    type V = tree::Block;

    open spec fn view(&self) -> tree::Block {
        self.model()
    }
}

impl View for Stmt {
    type V = tree::Stmt;

    open spec fn view(&self) -> tree::Stmt {
        self.model()
    }
}

impl View for StmtKind {
    type V = tree::StmtKind;

    open spec fn view(&self) -> tree::StmtKind {
        self.model()
    }
}

/// The models of a list of types.
pub open spec fn types(v: Seq<Type>) -> Seq<tree::Type> {
    v.map_values(|t: Type| t@)
}

/// The models of a list of event fields.
pub open spec fn fields(v: Seq<Field>) -> Seq<tree::Field> {
    v.map_values(|f: Field| f@)
}

/// The models of a list of strings.
pub open spec fn strings(v: Seq<String>) -> Seq<Seq<char>> {
    v.map_values(|s: String| s@)
}

/// The models of a list of items.
pub open spec fn items(v: Seq<Item>) -> Seq<tree::Item> {
    v.map_values(|i: Item| i@)
}

impl View for Field {
    type V = tree::Field;

    open spec fn view(&self) -> tree::Field {
        tree::Field { name: self.name@, ty: self.ty@, span: self.span }
    }
}

impl View for ConstDecl {
    type V = tree::ConstDecl;

    open spec fn view(&self) -> tree::ConstDecl {
        tree::ConstDecl { name: self.name@, ty: self.ty@, value: self.value@, span: self.span }
    }
}

impl View for MapDecl {
    type V = tree::MapDecl;

    open spec fn view(&self) -> tree::MapDecl {
        tree::MapDecl {
            name: self.name@,
            kind: self.kind@,
            args: types(self.args@),
            capacity: self.capacity,
            span: self.span,
        }
    }
}

impl View for EventDecl {
    type V = tree::EventDecl;

    open spec fn view(&self) -> tree::EventDecl {
        tree::EventDecl { name: self.name@, fields: fields(self.fields@), span: self.span }
    }
}

impl View for ProbeDecl {
    type V = tree::ProbeDecl;

    open spec fn view(&self) -> tree::ProbeDecl {
        tree::ProbeDecl {
            kind: self.kind@,
            args: strings(self.args@),
            body: self.body@,
            span: self.span,
        }
    }
}

impl View for Item {
    type V = tree::Item;

    open spec fn view(&self) -> tree::Item {
        match *self {
            Item::Const(c) => tree::Item::Const(c@),
            Item::MapDecl(m) => tree::Item::MapDecl(m@),
            Item::Event(e) => tree::Item::Event(e@),
            Item::Probe(p) => tree::Item::Probe(p@),
        }
    }
}

impl View for Program {
    type V = tree::Program;

    open spec fn view(&self) -> tree::Program {
        tree::Program { items: items(self.items@) }
    }
}

// ------------------------------------------------------------ list lemmas

/// A list's models are the models of its elements, in order.
pub proof fn lemma_type_args(v: Seq<TypeArg>)
    ensures
        type_args(v).len() == v.len(),
        forall|i: int| 0 <= i < v.len() ==> #[trigger] type_args(v)[i] == v[i]@,
    decreases v.len(),
{
    if v.len() > 0 {
        lemma_type_args(v.drop_last());
        assert forall|i: int| 0 <= i < v.len() implies #[trigger] type_args(v)[i] == v[i]@ by {
            if i < v.len() - 1 {
                assert(type_args(v.drop_last())[i] == v.drop_last()[i]@);
            }
        }
    }
}

pub proof fn lemma_type_args_push(v: Seq<TypeArg>, x: TypeArg)
    ensures
        type_args(v.push(x)) == type_args(v).push(x@),
{
    assert(v.push(x).drop_last() =~= v);
}

/// A list's models are the models of its elements, in order.
pub proof fn lemma_exprs(v: Seq<Expr>)
    ensures
        exprs(v).len() == v.len(),
        forall|i: int| 0 <= i < v.len() ==> #[trigger] exprs(v)[i] == v[i]@,
    decreases v.len(),
{
    if v.len() > 0 {
        lemma_exprs(v.drop_last());
        assert forall|i: int| 0 <= i < v.len() implies #[trigger] exprs(v)[i] == v[i]@ by {
            if i < v.len() - 1 {
                assert(exprs(v.drop_last())[i] == v.drop_last()[i]@);
            }
        }
    }
}

pub proof fn lemma_exprs_push(v: Seq<Expr>, x: Expr)
    ensures
        exprs(v.push(x)) == exprs(v).push(x@),
{
    assert(v.push(x).drop_last() =~= v);
}

/// A list's models are the models of its elements, in order.
pub proof fn lemma_stmts(v: Seq<Stmt>)
    ensures
        stmts(v).len() == v.len(),
        forall|i: int| 0 <= i < v.len() ==> #[trigger] stmts(v)[i] == v[i]@,
    decreases v.len(),
{
    if v.len() > 0 {
        lemma_stmts(v.drop_last());
        assert forall|i: int| 0 <= i < v.len() implies #[trigger] stmts(v)[i] == v[i]@ by {
            if i < v.len() - 1 {
                assert(stmts(v.drop_last())[i] == v.drop_last()[i]@);
            }
        }
    }
}

pub proof fn lemma_stmts_push(v: Seq<Stmt>, x: Stmt)
    ensures
        stmts(v.push(x)) == stmts(v).push(x@),
{
    assert(v.push(x).drop_last() =~= v);
}

} // verus!
