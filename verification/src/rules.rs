//! The rules of the type checker, as functions from a program and what is in
//! scope to a type and a list of notes.
//!
//! The kernel verifier rejects a program for a small, well-known set of
//! reasons. Each of them is a typing or a scoping rule here:
//!
//! - loops are bounded: the bounds of a `for` are constants, at most 64 apart;
//! - a map lookup may find nothing: `get` is an `Option<&V>`, and only
//!   `if let Some` unwraps it;
//! - a pointer does not outlive its check: the `Some(x)` binding is scoped to
//!   the body of the `if`;
//! - reads have a known length: `read_user_str` goes only into a `str<N>`;
//! - the stack is 512 bytes: locals are summed along each path of scopes;
//! - there are no writes through pointers: `*p = v` is refused.
//!
//! Some inputs have no answer: a constant expression whose value does not fit
//! in 64 bits, a search in the kernel's types that does not end, locals beyond
//! 4 GiB. They carry `ok == false`.

use crate::addr;
use crate::ast::{binary_symbol, unary_symbol, BinaryOp, UnaryOp};
use crate::btf::{member_named, shape_of, Kernel, Shape};
use crate::pretty::type_text;
use crate::text::{dec, signed_dec};
use crate::token::Span;
use crate::tree;
use vstd::prelude::*;
use vstd::utf8::encode_utf8;

verus! {

// -------------------------------------------------------------------- types

/// A type of a value.
pub enum Sort {
    U8,
    U16,
    U32,
    U64,
    I64,
    Bool,
    Str(u32),
    Ipv6,
    Mac,
    Option(Box<Sort>),
    Ref(Box<Sort>),
    KPtr(Seq<char>),
    KCharPtr,
    Unit,
    Int,
}

/// The type that a type expression names, or why it names none.
pub open spec fn sort_of(t: tree::Type) -> Result<Sort, Seq<char>> {
    let name = t.name.name;
    let bare = t.args.len() == 0;
    if name == "u8"@ && bare {
        Ok(Sort::U8)
    } else if name == "u16"@ && bare {
        Ok(Sort::U16)
    } else if name == "u32"@ && bare {
        Ok(Sort::U32)
    } else if name == "u64"@ && bare {
        Ok(Sort::U64)
    } else if name == "i64"@ && bare {
        Ok(Sort::I64)
    } else if name == "bool"@ && bare {
        Ok(Sort::Bool)
    } else if name == "ipv4"@ && bare {
        Ok(Sort::U32)
    } else if name == "ipv6"@ && bare {
        Ok(Sort::Ipv6)
    } else if name == "mac"@ && bare {
        Ok(Sort::Mac)
    } else if name == "str"@ {
        if t.args.len() == 1 && t.args[0] is Int {
            let n = t.args[0]->Int_0;
            if n == 0 || n > 256 {
                Err("`str<"@ + dec(n as nat) + ">`: capacity must be between 1 and 256"@)
            } else {
                Ok(Sort::Str(n as u32))
            }
        } else {
            Err("`str` needs a capacity, e.g. `str<64>`"@)
        }
    } else {
        Err("unknown type `"@ + name + "`"@)
    }
}

/// How a type is written in a message.
pub open spec fn sort_text(s: Sort) -> Seq<char>
    decreases s,
{
    match s {
        Sort::U8 => "u8"@,
        Sort::U16 => "u16"@,
        Sort::U32 => "u32"@,
        Sort::U64 => "u64"@,
        Sort::I64 => "i64"@,
        Sort::Bool => "bool"@,
        Sort::Str(n) => "str<"@ + dec(n as nat) + ">"@,
        Sort::Ipv6 => "ipv6"@,
        Sort::Mac => "mac"@,
        Sort::Option(inner) => "Option<&"@ + sort_text(*inner) + ">"@,
        Sort::Ref(inner) => "&"@ + sort_text(*inner),
        Sort::KPtr(name) => "ptr<"@ + name + ">"@,
        Sort::KCharPtr => "ptr<char>"@,
        Sort::Unit => "()"@,
        Sort::Int => "{integer}"@,
    }
}

pub open spec fn is_int(s: Sort) -> bool {
    s is U8 || s is U16 || s is U32 || s is U64 || s is I64 || s is Int
}

/// An integer or a bool.
pub open spec fn is_scalar(s: Sort) -> bool {
    is_int(s) || s is Bool
}

/// An address that stays in a buffer of its own.
pub open spec fn is_blob(s: Sort) -> bool {
    s is Ipv6 || s is Mac
}

/// Bytes that a local of this type takes on the stack.
pub open spec fn stack_bytes(s: Sort) -> nat {
    match s {
        Sort::Str(n) => ((n + 7) / 8 * 8) as nat,
        Sort::Ipv6 => 16,
        Sort::Unit => 0,
        _ => 8,
    }
}

/// The largest value of an integer type.
pub open spec fn max_value(s: Sort) -> Option<u64> {
    match s {
        Sort::U8 => Some(0xff),
        Sort::U16 => Some(0xffff),
        Sort::U32 => Some(0xffff_ffff),
        Sort::U64 => Some(u64::MAX),
        Sort::Int => Some(u64::MAX),
        Sort::I64 => Some(0x7fff_ffff_ffff_ffff),
        _ => None,
    }
}

/// `actual` is acceptable where `expected` is required. `Unit` stands for an
/// operand whose error has been reported.
pub open spec fn compatible(expected: Sort, actual: Sort) -> bool {
    ||| expected == actual
    ||| actual is Int && is_int(expected)
    ||| expected is Int && is_int(actual)
    ||| actual is Unit
    ||| expected is Unit
}

// -------------------------------------------------------------------- notes

/// A diagnostic.
pub struct Note {
    pub message: Seq<char>,
    pub span: Span,
    pub help: Option<Seq<char>>,
}

pub open spec fn note(span: Span, message: Seq<char>) -> Note {
    Note { message, span, help: None }
}

pub open spec fn hint(span: Span, message: Seq<char>, help: Seq<char>) -> Note {
    Note { message, span, help: Some(help) }
}

pub open spec fn none() -> Seq<Note> {
    Seq::empty()
}

/// One note if the condition holds.
pub open spec fn only_if(c: bool, n: Note) -> Seq<Note> {
    if c {
        seq![n]
    } else {
        none()
    }
}

// ------------------------------------------------------------------- scopes

#[derive(Debug, Clone, Copy, PartialEq, Eq, Structural)]
pub enum ProbeKind {
    Tracepoint,
    Kprobe,
    Kretprobe,
    /// An LSM hook: can observe and can `deny()` the action.
    Lsm,
    /// An XDP program on a network interface: sees raw packets, can `drop()`.
    Xdp,
    /// A uprobe on a userspace function entry.
    Uprobe,
    /// A uretprobe on a userspace function return.
    Uretprobe,
    /// A static marker in a userspace binary.
    Usdt,
}

/// A local: its type, whether it can be assigned to, and its value where that
/// is known when compiling (a loop variable).
pub struct Local {
    pub ty: Sort,
    pub mutable: bool,
    pub konst: Option<i64>,
}

/// The locals of one scope, and the bytes that they take.
pub struct Frame {
    pub vars: Map<Seq<char>, Local>,
    pub bytes: nat,
}

/// Everything that a rule can look at.
pub struct Env {
    pub kernel: Option<Kernel>,
    pub consts: Map<Seq<char>, (Sort, u64)>,
    pub maps: Map<Seq<char>, (Sort, Sort)>,
    pub events: Map<Seq<char>, Seq<(Seq<char>, Sort)>>,
    pub scopes: Seq<Frame>,
    pub probe: Option<ProbeKind>,
}

/// The local of a name: the innermost one.
pub open spec fn lookup(scopes: Seq<Frame>, name: Seq<char>) -> Option<Local>
    decreases scopes.len(),
{
    if scopes.len() == 0 {
        None
    } else if scopes.last().vars.contains_key(name) {
        Some(scopes.last().vars[name])
    } else {
        lookup(scopes.drop_last(), name)
    }
}

/// The bytes that the locals of all open scopes take.
pub open spec fn total(scopes: Seq<Frame>) -> nat
    decreases scopes.len(),
{
    if scopes.len() == 0 {
        0
    } else {
        total(scopes.drop_last()) + scopes.last().bytes
    }
}

// -------------------------------------------------------------- expressions

/// What checking an expression gives.
pub struct Out {
    pub ty: Sort,
    pub notes: Seq<Note>,
    pub ok: bool,
}

pub open spec fn quiet(ty: Sort) -> Out {
    Out { ty, notes: none(), ok: true }
}

pub open spec fn noted(ty: Sort, n: Note) -> Out {
    Out { ty, notes: seq![n], ok: true }
}

/// More notes behind those of `o`, and another type.
pub open spec fn then_say(o: Out, ty: Sort, notes: Seq<Note>) -> Out {
    Out { ty, notes: o.notes + notes, ok: o.ok }
}

/// What evaluating a constant gives.
pub struct Konst {
    pub value: Option<i64>,
    pub notes: Seq<Note>,
    pub ok: bool,
}

/// Whether an expression calls the given builtin.
pub open spec fn is_call_to(e: tree::Expr, name: Seq<char>) -> bool {
    match e.kind {
        tree::ExprKind::Call { callee, .. } => match callee.kind {
            tree::ExprKind::Ident(n) => n == name,
            _ => false,
        },
        _ => false,
    }
}

/// An integer literal must fit the width that it is used at.
pub open spec fn literal_fits(expected: Sort, e: tree::Expr) -> Seq<Note> {
    match (e.kind, max_value(expected)) {
        (tree::ExprKind::Int(n), Some(max)) => only_if(
            n > max,
            note(e.span, dec(n as nat) + " does not fit in `"@ + sort_text(expected) + "`"@),
        ),
        _ => none(),
    }
}

/// What to add to a type mismatch.
pub open spec fn mismatch_help(expected: Sort, actual: Sort) -> Option<Seq<char>> {
    if is_int(expected) && is_int(actual) {
        Some("integer widths must match exactly; honey has no implicit conversions"@)
    } else if expected is Ref {
        None
    } else if actual is Option {
        Some("check the lookup first: `if let Some(v) = map.get(key) { ... }`"@)
    } else {
        None
    }
}

/// `actual` is used where `expected` is required.
pub open spec fn expect(expected: Sort, actual: Sort, span: Span) -> Seq<Note> {
    only_if(
        !compatible(expected, actual),
        Note {
            message: "mismatched types: expected `"@ + sort_text(expected) + "`, found `"@
                + sort_text(actual) + "`"@,
            span,
            help: mismatch_help(expected, actual),
        },
    )
}

/// Whether an expression is a call, or made of one.
pub open spec fn from_call(e: tree::Expr) -> bool
    decreases e,
{
    match e.kind {
        tree::ExprKind::Call { .. } => true,
        tree::ExprKind::MethodCall { .. } => true,
        tree::ExprKind::Unary { expr, .. } => from_call(*expr),
        tree::ExprKind::Binary { lhs, rhs, .. } => from_call(*lhs) || from_call(*rhs),
        tree::ExprKind::Field { expr, .. } => from_call(*expr),
        _ => false,
    }
}

/// A call that gives no value, with nothing wrong in it. A name without a type
/// is something else: its error has been reported where it was bound.
pub open spec fn valueless(e: tree::Expr, o: Out) -> bool {
    o.ty is Unit && o.notes.len() == 0 && from_call(e)
}

/// Checking `e` where a value is required.
pub open spec fn valued(e: tree::Expr, o: Out) -> Out {
    then_say(o, o.ty, only_if(valueless(e, o), note(e.span, "this expression has no value"@)))
}

/// Checking `e` where `expected` is required.
pub open spec fn expecting(expected: Sort, e: tree::Expr, o: Out) -> Out {
    then_say(valued(e, o), o.ty, expect(expected, o.ty, e.span) + literal_fits(expected, e))
}

/// The value of two constants under an operator that a constant can have;
/// `ok` is false where it does not fit.
pub open spec fn fold(op: BinaryOp, a: i64, b: i64, e: tree::Expr) -> Konst {
    match op {
        BinaryOp::Add => fitting(a + b),
        BinaryOp::Sub => fitting(a - b),
        BinaryOp::Mul => fitting(a * b),
        BinaryOp::BitOr => Konst { value: Some(a | b), notes: none(), ok: true },
        BinaryOp::BitAnd => Konst { value: Some(a & b), notes: none(), ok: true },
        BinaryOp::Shl => Konst { value: Some(a << b), notes: none(), ok: 0 <= b < 64 },
        _ => Konst {
            value: None,
            notes: seq![
                note(e.span, "this operator is not allowed in a constant expression"@),
            ],
            ok: true,
        },
    }
}

pub open spec fn fitting(n: int) -> Konst {
    Konst { value: Some(n as i64), notes: none(), ok: i64::MIN <= n <= i64::MAX }
}

/// Evaluate a compile-time constant, or say why it is none. A declared constant
/// goes before a local of the same name.
pub open spec fn const_eval(v: Env, e: tree::Expr) -> Konst
    decreases e,
{
    match e.kind {
        tree::ExprKind::Int(n) => Konst { value: Some(n as i64), notes: none(), ok: true },
        tree::ExprKind::Ident(name) => if v.consts.contains_key(name) {
            Konst { value: Some(v.consts[name].1 as i64), notes: none(), ok: true }
        } else {
            match lookup(v.scopes, name) {
                Some(x) => match x.konst {
                    Some(k) => Konst { value: Some(k), notes: none(), ok: true },
                    None => Konst {
                        value: None,
                        notes: seq![
                            hint(
                                e.span,
                                "`"@ + name + "` is a runtime value, not a constant"@,
                                "loop bounds and indices must be known at compile time so the verifier can prove them bounded; use a literal or a `const`"@,
                            ),
                        ],
                        ok: true,
                    },
                },
                None => Konst {
                    value: None,
                    notes: seq![note(e.span, "unknown name `"@ + name + "`"@)],
                    ok: true,
                },
            }
        },
        tree::ExprKind::Binary { op, lhs, rhs } => {
            let a = const_eval(v, *lhs);
            match a.value {
                None => a,
                Some(x) => {
                    let b = const_eval(v, *rhs);
                    match b.value {
                        None => Konst {
                            value: None,
                            notes: a.notes + b.notes,
                            ok: a.ok && b.ok,
                        },
                        Some(y) => {
                            let f = fold(op, x, y, e);
                            Konst {
                                value: f.value,
                                notes: a.notes + b.notes + f.notes,
                                ok: a.ok && b.ok && f.ok,
                            }
                        },
                    }
                },
            }
        },
        _ => Konst {
            value: None,
            notes: seq![
                hint(
                    e.span,
                    "expected a compile-time constant"@,
                    "loop bounds and indices must be literals or `const` names"@,
                ),
            ],
            ok: true,
        },
    }
}

/// The first local that takes part in a constant expression, and where.
pub open spec fn local_in(v: Env, e: tree::Expr) -> Option<(Seq<char>, Span)>
    decreases e,
{
    match e.kind {
        tree::ExprKind::Ident(name) => if lookup(v.scopes, name) is Some {
            Some((name, e.span))
        } else {
            None
        },
        tree::ExprKind::Binary { op, lhs, rhs } => match local_in(v, *lhs) {
            Some(x) => Some(x),
            None => local_in(v, *rhs),
        },
        _ => None,
    }
}

/// A constant without loop variables: a packet offset, which must be fixed so
/// that the one bounds check on entry can cover it.
pub open spec fn const_eval_global(v: Env, e: tree::Expr) -> Konst {
    match local_in(v, e) {
        Some((name, span)) => Konst {
            value: None,
            notes: seq![
                hint(
                    span,
                    "packet offset `"@ + name + "` is a variable"@,
                    "packet offsets must be literals or `const`s so honey can bounds-check the packet once on entry"@,
                ),
            ],
            ok: true,
        },
        None => const_eval(v, e),
    }
}

/// How an operand takes part in a string or address comparison, decided
/// without evaluating it.
pub enum Side {
    /// A `str<N>` variable with this capacity.
    Local(u32),
    /// A string literal.
    Lit(Seq<char>),
    /// An address variable of this type.
    Addr(Sort),
    No,
}

pub open spec fn side(v: Env, e: tree::Expr) -> Side {
    match e.kind {
        tree::ExprKind::Str(lit) => Side::Lit(lit),
        tree::ExprKind::Ident(n) => match lookup(v.scopes, n) {
            Some(x) => match x.ty {
                Sort::Str(cap) => Side::Local(cap),
                Sort::Ipv6 => Side::Addr(Sort::Ipv6),
                Sort::Mac => Side::Addr(Sort::Mac),
                _ => Side::No,
            },
            None => Side::No,
        },
        _ => Side::No,
    }
}

/// How many bytes a literal has.
pub open spec fn byte_len(s: Seq<char>) -> nat {
    encode_utf8(s).len()
}

pub open spec fn cannot_compare(span: Span, a: Seq<char>, b: Seq<char>) -> Note {
    note(span, "cannot compare `"@ + a + "` with `"@ + b + "`"@)
}

/// A `str<N>` variable against a literal.
pub open spec fn str_with_literal(cap: u32, lit: Seq<char>, span: Span) -> Seq<Note> {
    only_if(
        byte_len(lit) > cap,
        hint(
            span,
            "this literal is "@ + dec(byte_len(lit)) + " bytes but the string is only `str<"@ + dec(
                cap as nat,
            ) + ">`; they can never be equal"@,
            "enlarge the `str<N>` or shorten the literal"@,
        ),
    )
}

/// An address variable against a literal.
pub open spec fn addr_with_literal(ty: Sort, lit: Seq<char>, span: Span) -> Seq<Note> {
    let good = if ty is Ipv6 {
        addr::ipv6(lit) is Some
    } else {
        addr::mac(lit) is Some
    };
    only_if(
        !good,
        note(span, "`"@ + lit + "` is not a valid `"@ + sort_text(ty) + "` literal"@),
    )
}

/// A literal against a value that is neither a string nor an address variable.
pub open spec fn literal_with_value(lit: Seq<char>, other: Sort, span: Span) -> Seq<Note> {
    if other is U32 {
        only_if(
            addr::ipv4(lit) is None,
            hint(
                span,
                "`"@ + lit + "` is not an IPv4 address literal"@,
                "a `u32` can be compared with a literal of the form `a.b.c.d`"@,
            ),
        )
    } else {
        only_if(
            !(other is Unit),
            hint(
                span,
                "cannot compare a string literal with `"@ + sort_text(other) + "`"@,
                "only a `str<N>` variable can be compared with a literal"@,
            ),
        )
    }
}

/// `==` or `!=` where a side is a string or an address.
pub open spec fn compare_sides(v: Env, e: tree::Expr, l: Side, r: Side, other: Out) -> Out {
    match (l, r) {
        (Side::Lit(_), Side::Lit(_)) => noted(
            Sort::Bool,
            note(
                e.span,
                "comparing two string literals; compare a `str<N>` variable with a literal"@,
            ),
        ),
        (Side::Local(cap), Side::Lit(lit)) => Out {
            ty: Sort::Bool,
            notes: str_with_literal(cap, lit, e.span),
            ok: true,
        },
        (Side::Lit(lit), Side::Local(cap)) => Out {
            ty: Sort::Bool,
            notes: str_with_literal(cap, lit, e.span),
            ok: true,
        },
        (Side::Local(_), Side::Local(_)) => quiet(Sort::Bool),
        (Side::Addr(a), Side::Lit(lit)) => Out {
            ty: Sort::Bool,
            notes: addr_with_literal(a, lit, e.span),
            ok: true,
        },
        (Side::Lit(lit), Side::Addr(a)) => Out {
            ty: Sort::Bool,
            notes: addr_with_literal(a, lit, e.span),
            ok: true,
        },
        (Side::Addr(a), Side::Addr(b)) => Out {
            ty: Sort::Bool,
            notes: only_if(a != b, cannot_compare(e.span, sort_text(a), sort_text(b))),
            ok: true,
        },
        (Side::Addr(a), Side::Local(cap)) => noted(
            Sort::Bool,
            cannot_compare(e.span, sort_text(a), sort_text(Sort::Str(cap))),
        ),
        (Side::Local(cap), Side::Addr(b)) => noted(
            Sort::Bool,
            cannot_compare(e.span, sort_text(Sort::Str(cap)), sort_text(b)),
        ),
        (Side::Local(cap), Side::No) => with_other(e, Sort::Str(cap), other),
        (Side::No, Side::Local(cap)) => with_other(e, Sort::Str(cap), other),
        (Side::Addr(a), Side::No) => with_other(e, a, other),
        (Side::No, Side::Addr(a)) => with_other(e, a, other),
        (Side::Lit(lit), Side::No) => then_say(
            other,
            Sort::Bool,
            literal_with_value(lit, other.ty, e.span),
        ),
        (Side::No, Side::Lit(lit)) => then_say(
            other,
            Sort::Bool,
            literal_with_value(lit, other.ty, e.span),
        ),
        (Side::No, Side::No) => quiet(Sort::Bool),
    }
}

/// A string or address variable against a value that is neither.
pub open spec fn with_other(e: tree::Expr, ty: Sort, other: Out) -> Out {
    then_say(
        other,
        Sort::Bool,
        only_if(
            !(other.ty is Unit),
            cannot_compare(e.span, sort_text(ty), sort_text(other.ty)),
        ),
    )
}

pub open spec fn is_equality(op: BinaryOp) -> bool {
    op is Eq || op is Ne
}

pub open spec fn is_comparison(op: BinaryOp) -> bool {
    op is Eq || op is Ne || op is Lt || op is Le || op is Gt || op is Ge
}

pub open spec fn is_logical(op: BinaryOp) -> bool {
    op is And || op is Or
}

/// What checking an operand gives. A comparison is a `bool` whatever its
/// operands are, so it is the last that can ask for their values; arithmetic on
/// nothing gives nothing, and that is noted where it is used.
pub open spec fn operand(op: BinaryOp, e: tree::Expr, o: Out) -> Out {
    if is_logical(op) || is_comparison(op) {
        valued(e, o)
    } else {
        o
    }
}

/// A binary operator on two values.
pub open spec fn operate(
    op: BinaryOp,
    lhs: tree::Expr,
    rhs: tree::Expr,
    l: Sort,
    r: Sort,
    span: Span,
) -> Out {
    let sym = binary_symbol(op);
    if l is Unit || r is Unit {
        // Errors in operands are already reported.
        quiet(
            if is_logical(op) || is_comparison(op) {
                Sort::Bool
            } else {
                Sort::Unit
            },
        )
    } else if is_logical(op) {
        Out {
            ty: Sort::Bool,
            notes: only_if(
                !(l is Bool),
                note(
                    lhs.span,
                    "`"@ + sym + "` needs `bool` operands, found `"@ + sort_text(l) + "`"@,
                ),
            ) + only_if(
                !(r is Bool),
                note(
                    rhs.span,
                    "`"@ + sym + "` needs `bool` operands, found `"@ + sort_text(r) + "`"@,
                ),
            ),
            ok: true,
        }
    } else if is_comparison(op) {
        if !compatible(l, r) && !compatible(r, l) {
            noted(
                Sort::Bool,
                hint(
                    span,
                    "cannot compare `"@ + sort_text(l) + "` with `"@ + sort_text(r) + "`"@,
                    "both sides must have the same type"@,
                ),
            )
        } else {
            Out {
                ty: Sort::Bool,
                notes: only_if(
                    !is_scalar(l),
                    note(span, "cannot compare values of type `"@ + sort_text(l) + "`"@),
                ),
                ok: true,
            }
        }
    } else if !is_int(l) {
        noted(
            Sort::Unit,
            note(
                lhs.span,
                "`"@ + sym + "` needs integer operands, found `"@ + sort_text(l) + "`"@,
            ),
        )
    } else if !is_int(r) {
        noted(
            Sort::Unit,
            note(
                rhs.span,
                "`"@ + sym + "` needs integer operands, found `"@ + sort_text(r) + "`"@,
            ),
        )
    } else if l is Int {
        quiet(r)
    } else if r is Int || l == r {
        quiet(l)
    } else {
        noted(
            l,
            hint(
                span,
                "mismatched integer widths: `"@ + sort_text(l) + "` "@ + sym + " `"@ + sort_text(r)
                    + "`"@,
                "honey has no implicit conversions; give both sides the same declared type"@,
            ),
        )
    }
}

/// The type of a field of a kernel struct.
pub open spec fn field_type(v: Env, struct_name: Seq<char>, field: tree::Ident) -> Out {
    match v.kernel {
        None => noted(Sort::Unit, note(field.span, "kernel field access needs `--btf`"@)),
        Some(k) => match member_named(k, struct_name, field.name) {
            None => Out { ty: Sort::Unit, notes: none(), ok: false },
            Some(None) => noted(
                Sort::Unit,
                note(
                    field.span,
                    "`struct "@ + struct_name + "` has no field `"@ + field.name + "`"@,
                ),
            ),
            Some(Some(m)) => match shape_of(k, m.type_id) {
                Shape::Int { bytes, .. } => quiet(
                    if bytes == 1 {
                        Sort::U8
                    } else if bytes == 2 {
                        Sort::U16
                    } else if bytes == 4 {
                        Sort::U32
                    } else {
                        Sort::U64
                    },
                ),
                Shape::Struct { name, .. } => quiet(Sort::KPtr(name)),
                Shape::PtrToStruct { name, .. } => quiet(Sort::KPtr(name)),
                Shape::PtrToChar => quiet(Sort::KCharPtr),
                Shape::PtrToOther => quiet(Sort::U64),
                _ => noted(
                    Sort::Unit,
                    hint(
                        field.span,
                        "field `"@ + field.name
                            + "` has a type honey can't read yet (array, enum, or function pointer)"@,
                        "read a scalar, an embedded struct, or a pointer field instead"@,
                    ),
                ),
            },
        },
    }
}

/// A name used as a value.
pub open spec fn name_type(v: Env, name: Seq<char>, span: Span) -> Out {
    match lookup(v.scopes, name) {
        Some(x) => quiet(x.ty),
        None => if v.consts.contains_key(name) {
            quiet(v.consts[name].0)
        } else if v.maps.contains_key(name) {
            noted(
                Sort::Unit,
                hint(
                    span,
                    "`"@ + name + "` is a map, not a value"@,
                    "use `.get(key)` or `.insert(key, value)`"@,
                ),
            )
        } else {
            noted(Sort::Unit, note(span, "unknown name `"@ + name + "`"@))
        },
    }
}

/// A prefix operator on a value.
pub open spec fn unary_type(op: UnaryOp, t: Sort, span: Span) -> Out {
    match op {
        UnaryOp::Deref => match t {
            Sort::Ref(inner) => quiet(*inner),
            Sort::Option(inner) => noted(
                *inner,
                hint(
                    span,
                    "cannot dereference `Option<&"@ + sort_text(*inner)
                        + ">`: the lookup may have found nothing"@,
                    "check it first: `if let Some(v) = map.get(key) { ... *v ... }`"@,
                ),
            ),
            other => Out {
                ty: Sort::Unit,
                notes: only_if(
                    !(other is Unit),
                    note(span, "cannot dereference `"@ + sort_text(other) + "`"@),
                ),
                ok: true,
            },
        },
        UnaryOp::Not => Out {
            ty: Sort::Bool,
            notes: only_if(
                !(t is Bool) && !(t is Unit),
                note(span, "`!` needs a `bool`, found `"@ + sort_text(t) + "`"@),
            ),
            ok: true,
        },
        _ => Out {
            ty: t,
            notes: only_if(
                !is_int(t) && !(t is Unit),
                note(
                    span,
                    "`"@ + unary_symbol(op) + "` needs an integer, found `"@ + sort_text(t) + "`"@,
                ),
            ),
            ok: true,
        },
    }
}

/// The type of an expression.
pub open spec fn expr(v: Env, e: tree::Expr) -> Out
    decreases e, 2int,
{
    match e.kind {
        tree::ExprKind::Int(_) => quiet(Sort::Int),
        tree::ExprKind::Bool(_) => quiet(Sort::Bool),
        tree::ExprKind::Str(_) => noted(
            Sort::Unit,
            hint(
                e.span,
                "string literals can only be used as `starts_with` arguments in v1"@,
                "there is no string type you can hold in a variable except `str<N>` from `read_user_str`"@,
            ),
        ),
        tree::ExprKind::Ident(name) => name_type(v, name, e.span),
        tree::ExprKind::Unary { op, expr: inner } => {
            let a = expr(v, *inner);
            let o = if op is Not {
                valued(*inner, a)
            } else {
                a
            };
            let u = unary_type(op, o.ty, e.span);
            then_say(o, u.ty, u.notes)
        },
        tree::ExprKind::Binary { .. } => binary(v, e),
        tree::ExprKind::Cast { expr: inner, ty } => {
            let o = expr(v, *inner);
            then_say(
                o,
                match sort_of(ty) {
                    Ok(t) => t,
                    Err(_) => Sort::Unit,
                },
                seq![
                    hint(
                        e.span,
                        "`as` casts are not supported in v1"@,
                        "declare the value with the width you need, e.g. `let x: "@ + type_text(ty)
                            + " = ...`"@,
                    ),
                ],
            )
        },
        tree::ExprKind::Call { .. } => call(v, e),
        tree::ExprKind::MethodCall { .. } => method(v, e),
        tree::ExprKind::Field { expr: inner, field } => {
            let o = expr(v, *inner);
            match o.ty {
                Sort::KPtr(name) => {
                    let f = field_type(v, name, field);
                    Out { ty: f.ty, notes: o.notes + f.notes, ok: o.ok && f.ok }
                },
                Sort::Unit => then_say(o, Sort::Unit, none()),
                other => then_say(
                    o,
                    Sort::Unit,
                    seq![
                        hint(
                            e.span,
                            "`."@ + field.name + "` needs a kernel struct pointer, found `"@
                                + sort_text(other) + "`"@,
                            "get one with `let p: ptr<Struct> = arg(n);`"@,
                        ),
                    ],
                ),
            }
        },
        tree::ExprKind::Index { .. } => noted(
            Sort::Unit,
            hint(
                e.span,
                "indexing is not supported in v1"@,
                "use `map.get(key)` for maps and `s.byte_at(i)` for strings"@,
            ),
        ),
    }
}

/// Check the expressions from `i` on for their notes alone; `ty` is the type
/// of the whole.
pub open spec fn exprs(v: Env, list: Seq<tree::Expr>, i: int, ty: Sort) -> Out
    decreases list, list.len() - i,
{
    if 0 <= i < list.len() {
        let a = expr(v, list[i]);
        let b = exprs(v, list, i + 1, ty);
        Out { ty, notes: a.notes + b.notes, ok: a.ok && b.ok }
    } else {
        quiet(ty)
    }
}

/// A note, and then the notes of a list of expressions.
pub open spec fn say_then(n: Note, o: Out) -> Out {
    Out { ty: o.ty, notes: seq![n] + o.notes, ok: o.ok }
}

pub open spec fn binary(v: Env, e: tree::Expr) -> Out
    decreases e, 1int,
{
    match e.kind {
        tree::ExprKind::Binary { op, lhs, rhs } => {
            let l = side(v, *lhs);
            let r = side(v, *rhs);
            if !(l is No) || !(r is No) {
                if !is_equality(op) {
                    noted(
                        Sort::Bool,
                        hint(
                            e.span,
                            "strings and addresses do not support `"@ + binary_symbol(op) + "`"@,
                            "strings can only be compared with `==` and `!=`, or tested with `starts_with`"@,
                        ),
                    )
                } else {
                    let other = if l is No {
                        valued(*lhs, expr(v, *lhs))
                    } else {
                        valued(*rhs, expr(v, *rhs))
                    };
                    compare_sides(v, e, l, r, other)
                }
            } else {
                let a = operand(op, *lhs, expr(v, *lhs));
                let b = operand(op, *rhs, expr(v, *rhs));
                let o = operate(op, *lhs, *rhs, a.ty, b.ty, e.span);
                Out { ty: o.ty, notes: a.notes + b.notes + o.notes, ok: a.ok && b.ok }
            }
        },
        _ => quiet(Sort::Unit),
    }
}

// ----------------------------------------------------------------- builtins

/// The builtins over the process that a packet does not have.
pub open spec fn is_process_builtin(name: Seq<char>) -> bool {
    ||| name == "pid"@
    ||| name == "tgid"@
    ||| name == "tid"@
    ||| name == "uid"@
    ||| name == "gid"@
    ||| name == "comm"@
    ||| name == "arg"@
    ||| name == "retval"@
}

/// The builtins that give an id of 32 bits.
pub open spec fn is_id_builtin(name: Seq<char>) -> bool {
    name == "pid"@ || name == "tgid"@ || name == "tid"@ || name == "uid"@ || name == "gid"@
}

pub open spec fn is_return_probe(p: Option<ProbeKind>) -> bool {
    p == Some(ProbeKind::Kretprobe) || p == Some(ProbeKind::Uretprobe)
}

/// `arg(n)`
pub open spec fn arg_builtin(v: Env, idx: tree::Expr, span: Span) -> Out {
    let k = const_eval(v, idx);
    Out {
        ty: Sort::U64,
        notes: only_if(
            is_return_probe(v.probe),
            hint(
                span,
                "`arg()` is not available in a return probe: the arguments are gone by the time the function returns"@,
                "record what you need in the entry probe and share it through a map keyed by `tid()`"@,
            ),
        ) + k.notes + (match k.value {
            Some(n) => only_if(
                !(0 <= n <= 5),
                note(
                    idx.span,
                    "`arg("@ + signed_dec(n as int) + ")`: probes expose arguments 0 to 5"@,
                ),
            ),
            None => none(),
        }),
        ok: k.ok,
    }
}

/// `sample(n)`
pub open spec fn sample_builtin(v: Env, n: tree::Expr) -> Out {
    let k = const_eval(v, n);
    Out {
        ty: Sort::Bool,
        notes: k.notes + (match k.value {
            Some(x) => only_if(
                x < 1,
                note(
                    n.span,
                    "`sample("@ + signed_dec(x as int) + ")`: the rate must be at least 1"@,
                ),
            ),
            None => none(),
        }),
        ok: k.ok,
    }
}

/// A call of a builtin by name. `rest` is what checking the arguments gives.
pub open spec fn builtin(
    v: Env,
    name: Seq<char>,
    args: Seq<tree::Expr>,
    callee: Span,
    span: Span,
    rest: Out,
) -> Out {
    if v.probe == Some(ProbeKind::Xdp) && is_process_builtin(name) {
        say_then(
            hint(
                span,
                "`"@ + name
                    + "()` is not available in an `xdp` probe: a packet has no process context"@,
                "use `pkt.u8/u16/u32(offset)`, `pkt.len()`, and `ktime()` here"@,
            ),
            Out {
                ty: if name == "comm"@ {
                    Sort::Str(16)
                } else {
                    Sort::U64
                },
                ..rest
            },
        )
    } else if is_id_builtin(name) && args.len() == 0 {
        quiet(Sort::U32)
    } else if name == "ktime"@ && args.len() == 0 {
        quiet(Sort::U64)
    } else if name == "comm"@ && args.len() == 0 {
        noted(
            Sort::Str(16),
            hint(
                span,
                "`comm()` can only be used directly as an `emit` field value"@,
                "e.g. `emit Exec { comm: comm() }` with `comm: str<16>` in the event"@,
            ),
        )
    } else if name == "arg"@ && args.len() == 1 {
        arg_builtin(v, args[0], span)
    } else if name == "retval"@ && args.len() == 0 {
        Out {
            ty: Sort::I64,
            notes: only_if(
                !is_return_probe(v.probe),
                hint(
                    span,
                    "`retval()` is only available in a return probe"@,
                    "a return value only exists when the function returns; use `kretprobe(\"fn\")` or `uretprobe(\"path:sym\")`"@,
                ),
            ),
            ok: true,
        }
    } else if name == "sample"@ && args.len() == 1 {
        sample_builtin(v, args[0])
    } else if name == "sample"@ {
        noted(Sort::Unit, note(span, "`sample(N)` takes one constant rate"@))
    } else if name == "read_user_str"@ || name == "read_kernel_str"@ {
        noted(
            Sort::Unit,
            hint(
                span,
                "`"@ + name + "` must initialise a bounded string"@,
                "write `let s: str<N> = "@ + name + "(ptr);`"@,
            ),
        )
    } else if (name == "drop"@ || name == "pass"@) && args.len() == 0 {
        Out {
            ty: Sort::Unit,
            notes: only_if(
                v.probe != Some(ProbeKind::Xdp),
                hint(
                    span,
                    "`"@ + name + "()` is only available in an `xdp` probe"@,
                    "only an XDP program decides a packet's fate; use `probe xdp(\"iface\") { ... }`"@,
                ),
            ),
            ok: true,
        }
    } else if (name == "deny"@ || name == "allow"@) && args.len() == 0 {
        Out {
            ty: Sort::Unit,
            notes: only_if(
                v.probe != Some(ProbeKind::Lsm),
                hint(
                    span,
                    "`"@ + name + "()` is only available in an `lsm` probe"@,
                    "only an LSM hook can allow or deny an action; use `probe lsm(\"hook\") { ... }`"@,
                ),
            ),
            ok: true,
        }
    } else if name == "drop"@ || name == "pass"@ || name == "deny"@ || name == "allow"@ {
        noted(Sort::Unit, note(span, "`"@ + name + "()` takes no arguments"@))
    } else if is_id_builtin(name) || name == "ktime"@ || name == "arg"@ || name == "retval"@ {
        say_then(
            note(span, "wrong number of arguments to `"@ + name + "()`"@),
            Out { ty: Sort::Unit, ..rest },
        )
    } else {
        say_then(
            note(callee, "unknown builtin `"@ + name + "`"@),
            Out { ty: Sort::Unit, ..rest },
        )
    }
}

pub open spec fn call(v: Env, e: tree::Expr) -> Out
    decreases e, 1int,
{
    match e.kind {
        tree::ExprKind::Call { callee, args } => match callee.kind {
            tree::ExprKind::Ident(name) => builtin(
                v,
                name,
                args,
                callee.span,
                e.span,
                exprs(v, args, 0, Sort::Unit),
            ),
            _ => noted(Sort::Unit, note(callee.span, "only builtins can be called"@)),
        },
        _ => quiet(Sort::Unit),
    }
}

// ------------------------------------------------------------------ methods

/// What a method of the packet reads: how many bytes, and as what.
pub open spec fn packet_read(m: Seq<char>) -> Option<(int, Sort)> {
    if m == "u8"@ {
        Some((1int, Sort::U8))
    } else if m == "u16"@ {
        Some((2int, Sort::U16))
    } else if m == "u32"@ {
        Some((4int, Sort::U32))
    } else if m == "ipv6"@ {
        Some((16int, Sort::Ipv6))
    } else if m == "mac"@ {
        Some((6int, Sort::Mac))
    } else {
        None
    }
}

/// Whether a read at an offset stays in the part of the packet that is
/// checked on entry.
pub open spec fn packet_offset(o: i64, width: int, span: Span) -> Seq<Note> {
    if o < 0 {
        seq![note(span, "packet offset must not be negative"@)]
    } else {
        only_if(
            o + width > 256,
            hint(
                span,
                "packet read at offset "@ + signed_dec(o as int)
                    + " ends past 256 bytes, the most an XDP probe may inspect"@,
                "honey checks the packet is at least that long once, on entry; keep reads within the first 256 bytes"@,
            ),
        )
    }
}

/// A method of the packet, inside an `xdp` probe.
pub open spec fn packet_method(
    v: Env,
    m: tree::Ident,
    args: Seq<tree::Expr>,
    span: Span,
) -> Out {
    if m.name == "len"@ && args.len() == 0 {
        quiet(Sort::U32)
    } else {
        match packet_read(m.name) {
            Some((width, ty)) => if args.len() == 1 {
                let k = const_eval_global(v, args[0]);
                Out {
                    ty,
                    notes: k.notes + (match k.value {
                        Some(o) => packet_offset(o, width, args[0].span),
                        None => none(),
                    }),
                    ok: k.ok,
                }
            } else {
                noted(
                    Sort::Unit,
                    note(span, "`pkt."@ + m.name + "` takes one constant offset"@),
                )
            },
            None => noted(
                Sort::Unit,
                note(
                    m.span,
                    "`pkt` has no method `"@ + m.name
                        + "`; use `u8(off)`, `u16(off)`, `u32(off)`, or `len()`"@,
                ),
            ),
        }
    }
}

/// `s.starts_with(arg)` on a `str<cap>` named `name`.
pub open spec fn starts_with_method(name: Seq<char>, cap: u32, arg: tree::Expr) -> Out {
    Out {
        ty: Sort::Bool,
        notes: match arg.kind {
            tree::ExprKind::Str(lit) => only_if(
                byte_len(lit) > cap,
                note(
                    arg.span,
                    "prefix is "@ + dec(byte_len(lit)) + " bytes but `"@ + name
                        + "` is only `str<"@ + dec(cap as nat) + ">`"@,
                ),
            ),
            _ => seq![note(arg.span, "`starts_with` takes a string literal"@)],
        },
        ok: true,
    }
}

/// `s.byte_at(arg)` on a `str<cap>`.
pub open spec fn byte_at_method(v: Env, cap: u32, arg: tree::Expr) -> Out {
    let k = const_eval(v, arg);
    Out {
        ty: Sort::U8,
        notes: k.notes + (match k.value {
            Some(i) => only_if(
                !(0 <= i < cap),
                hint(
                    arg.span,
                    "`byte_at("@ + signed_dec(i as int) + ")` is outside `str<"@ + dec(cap as nat)
                        + ">`"@,
                    "the index must be a constant below the string's capacity so the read is bounded"@,
                ),
            ),
            None => none(),
        }),
        ok: k.ok,
    }
}

/// A method of a local.
pub open spec fn local_method(
    v: Env,
    name: Seq<char>,
    ty: Sort,
    m: tree::Ident,
    args: Seq<tree::Expr>,
    span: Span,
) -> Out {
    match ty {
        Sort::Str(cap) => if m.name == "starts_with"@ && args.len() == 1 {
            starts_with_method(name, cap, args[0])
        } else if m.name == "byte_at"@ && args.len() == 1 {
            byte_at_method(v, cap, args[0])
        } else {
            noted(
                Sort::Unit,
                note(
                    m.span,
                    "string has no method `"@ + m.name
                        + "`; try `starts_with(\"...\")` or `byte_at(i)`"@,
                ),
            )
        },
        _ => noted(
            Sort::Unit,
            note(
                span,
                "`"@ + name + "` is a `"@ + sort_text(ty) + "`, which has no methods"@,
            ),
        ),
    }
}

/// A method of a map from `key` to `value`. `k` and `x` are what checking the
/// first and the second argument gives, `rest` what checking all of them does.
pub open spec fn map_method(
    key: Sort,
    value: Sort,
    m: tree::Ident,
    args: Seq<tree::Expr>,
    k: Out,
    x: Out,
    rest: Out,
) -> Out {
    if m.name == "get"@ && args.len() == 1 {
        Out { ty: Sort::Option(Box::new(value)), ..expecting(key, args[0], k) }
    } else if m.name == "insert"@ && args.len() == 2 {
        let a = expecting(key, args[0], k);
        let b = expecting(value, args[1], x);
        Out { ty: Sort::Unit, notes: a.notes + b.notes, ok: a.ok && b.ok }
    } else if m.name == "delete"@ && args.len() == 1 {
        Out { ty: Sort::Unit, ..expecting(key, args[0], k) }
    } else {
        say_then(
            note(
                m.span,
                "map has no method `"@ + m.name + "` with "@ + dec(args.len())
                    + " argument(s); use `get(k)`, `insert(k, v)`, `delete(k)`"@,
            ),
            rest,
        )
    }
}

pub open spec fn method(v: Env, e: tree::Expr) -> Out
    decreases e, 1int,
{
    match e.kind {
        tree::ExprKind::MethodCall { receiver, method: m, args } => match receiver.kind {
            tree::ExprKind::Ident(name) => match lookup(v.scopes, name) {
                None => if name == "pkt"@ {
                    if v.probe == Some(ProbeKind::Xdp) {
                        packet_method(v, m, args, e.span)
                    } else {
                        say_then(
                            hint(
                                e.span,
                                "`pkt` is only available in an `xdp` probe"@,
                                "packets exist only in `probe xdp(\"iface\")`"@,
                            ),
                            exprs(v, args, 0, Sort::Unit),
                        )
                    }
                } else if v.maps.contains_key(name) {
                    map_method(
                        v.maps[name].0,
                        v.maps[name].1,
                        m,
                        args,
                        if args.len() > 0 {
                            expr(v, args[0])
                        } else {
                            quiet(Sort::Unit)
                        },
                        if args.len() > 1 {
                            expr(v, args[1])
                        } else {
                            quiet(Sort::Unit)
                        },
                        exprs(v, args, 0, Sort::Unit),
                    )
                } else {
                    say_then(
                        note(receiver.span, "unknown map or string `"@ + name + "`"@),
                        exprs(v, args, 0, Sort::Unit),
                    )
                },
                Some(x) => local_method(v, name, x.ty, m, args, e.span),
            },
            _ => noted(
                Sort::Unit,
                note(receiver.span, "methods can only be called on maps and strings"@),
            ),
        },
        _ => quiet(Sort::Unit),
    }
}

// --------------------------------------------------------------- statements

/// Where checking has got to.
pub struct State {
    pub env: Env,
    pub peak: nat,
    pub notes: Seq<Note>,
    pub ok: bool,
}

pub open spec fn say(s: State, notes: Seq<Note>) -> State {
    State { notes: s.notes + notes, ..s }
}

/// The notes of an expression.
pub open spec fn heard(s: State, o: Out) -> State {
    State { notes: s.notes + o.notes, ok: s.ok && o.ok, ..s }
}

pub open spec fn with_scopes(s: State, scopes: Seq<Frame>) -> State {
    State { env: Env { scopes, ..s.env }, ..s }
}

pub open spec fn push_scope(s: State) -> State {
    with_scopes(s, s.env.scopes.push(Frame { vars: Map::empty(), bytes: 0 }))
}

pub open spec fn pop_scope(s: State) -> State {
    with_scopes(s, s.env.scopes.drop_last())
}

/// Put a local that takes `bytes` bytes into the innermost scope.
pub open spec fn put(s: State, name: Seq<char>, x: Local, bytes: nat) -> State {
    let top = s.env.scopes.last();
    let scopes = s.env.scopes.update(
        s.env.scopes.len() - 1,
        Frame { vars: top.vars.insert(name, x), bytes: top.bytes + bytes },
    );
    let now = total(s.env.scopes) + bytes;
    State {
        env: Env { scopes, ..s.env },
        peak: if now > s.peak {
            now
        } else {
            s.peak
        },
        notes: s.notes,
        ok: s.ok && now <= u32::MAX,
    }
}

/// Declare a local on the stack.
pub open spec fn declare(s: State, name: Seq<char>, ty: Sort, mutable: bool) -> State {
    put(s, name, Local { ty, mutable, konst: None }, stack_bytes(ty))
}

/// The builtin that reads a string, if the expression calls one, and whether
/// it reads from the kernel.
pub open spec fn reader(e: tree::Expr) -> Option<(Seq<char>, bool)> {
    if is_call_to(e, "read_user_str"@) {
        Some(("read_user_str"@, false))
    } else if is_call_to(e, "read_kernel_str"@) {
        Some(("read_kernel_str"@, true))
    } else {
        None
    }
}

/// Whether a value can be the address that a string is read from.
pub open spec fn readable(kernel: bool, t: Sort) -> bool {
    t is U64 || t is Int || kernel && (t is KCharPtr || t is KPtr)
}

/// The argument of a string read.
pub open spec fn read_arg(s: State, value: tree::Expr, fname: Seq<char>, kernel: bool) -> State {
    match value.kind {
        tree::ExprKind::Call { args, .. } => if args.len() == 1 {
            let o = expr(s.env, args[0]);
            say(
                heard(s, o),
                only_if(
                    !readable(kernel, o.ty),
                    note(
                        args[0].span,
                        "`"@ + fname + "` takes "@ + (if kernel {
                            "a kernel pointer"@
                        } else {
                            "a user pointer (`u64`)"@
                        }) + ", found `"@ + sort_text(o.ty) + "`"@,
                    ),
                ),
            )
        } else {
            say(s, seq![note(value.span, "`"@ + fname + "` takes exactly one argument"@)])
        },
        _ => s,
    }
}

/// `let s: str<N> = read_user_str(p);`: the annotation is the bound of the
/// read, which is why it is mandatory.
pub open spec fn let_read(
    s: State,
    mutable: bool,
    name: Seq<char>,
    ty: Option<tree::Type>,
    value: tree::Expr,
    fname: Seq<char>,
    kernel: bool,
) -> State {
    match ty {
        None => declare(
            say(
                s,
                seq![
                    hint(
                        value.span,
                        "`"@ + fname + "` needs a bounded destination"@,
                        "write `let "@ + name + ": str<N> = "@ + fname
                            + "(...)` so the read has a known length"@,
                    ),
                ],
            ),
            name,
            Sort::Unit,
            mutable,
        ),
        Some(t) => match sort_of(t) {
            Err(m) => say(s, seq![note(t.span, m)]),
            Ok(declared) => if declared is Str {
                declare(read_arg(s, value, fname, kernel), name, declared, mutable)
            } else {
                say(
                    s,
                    seq![
                        note(
                            t.span,
                            "`"@ + fname + "` produces a `str<N>`, not `"@ + sort_text(declared)
                                + "`"@,
                        ),
                    ],
                )
            },
        },
    }
}

/// The struct that a `ptr<S>` names, and what is wrong where it names none.
pub open spec fn ptr_target(v: Env, t: tree::Type) -> (Option<Seq<char>>, Seq<Note>) {
    if !(t.args.len() == 1 && t.args[0] is Type && (t.args[0]->Type_0).args.len() == 0) {
        (
            None,
            seq![
                hint(
                    t.span,
                    "`ptr<...>` needs a struct name"@,
                    "for example `ptr<file>` or `ptr<task_struct>`"@,
                ),
            ],
        )
    } else {
        let name = (t.args[0]->Type_0).name.name;
        match v.kernel {
            None => (
                None,
                seq![
                    hint(
                        t.span,
                        "reading kernel struct fields needs the kernel's type information"@,
                        "pass `--btf /path/to/vmlinux.btf` (export it with `linux/export-btf`)"@,
                    ),
                ],
            ),
            Some(k) => if k.structs.contains_key(name) {
                (Some(name), none())
            } else {
                (
                    None,
                    seq![
                        note(
                            t.span,
                            "`"@ + name + "` is not a kernel struct in the provided BTF"@,
                        ),
                    ],
                )
            },
        }
    }
}

/// `let f: ptr<S> = arg(n);`
pub open spec fn let_ptr(
    s: State,
    mutable: bool,
    name: Seq<char>,
    t: tree::Type,
    value: tree::Expr,
) -> State {
    let (target, notes) = ptr_target(s.env, t);
    let o = expr(s.env, value);
    let bad = !(o.ty is U64 || o.ty is Int || o.ty is KPtr || o.ty is KCharPtr);
    declare(
        say(
            heard(say(s, notes), o),
            only_if(
                bad,
                note(
                    value.span,
                    "`ptr<...>` must come from an argument or another pointer, found `"@
                        + sort_text(o.ty) + "`"@,
                ),
            ),
        ),
        name,
        match target {
            Some(struct_name) => Sort::KPtr(struct_name),
            None => Sort::Unit,
        },
        mutable,
    )
}

/// The type of a local that is bound to a value, and the notes over it.
pub open spec fn bound_type(ty: Option<tree::Type>, value: tree::Expr, o: Out) -> (
    Sort,
    Seq<Note>,
) {
    match ty {
        Some(t) => match sort_of(t) {
            Ok(declared) => (
                declared,
                only_if(
                    valueless(value, o),
                    note(value.span, "this expression has no value to bind"@),
                ) + expect(declared, o.ty, value.span) + literal_fits(declared, value),
            ),
            Err(m) => (o.ty, seq![note(t.span, m)]),
        },
        None => match o.ty {
            Sort::Int => (Sort::U64, none()),
            Sort::Unit => (
                Sort::Unit,
                only_if(
                    o.notes.len() == 0,
                    note(value.span, "this expression has no value to bind"@),
                ),
            ),
            t => (t, none()),
        },
    }
}

/// `let x [: T] = value;` for anything but strings and kernel pointers.
pub open spec fn let_value(
    s: State,
    mutable: bool,
    name: Seq<char>,
    ty: Option<tree::Type>,
    value: tree::Expr,
) -> State {
    let o = expr(s.env, value);
    let (bound, notes) = bound_type(ty, value, o);
    declare(
        say(
            say(heard(s, o), notes),
            only_if(
                bound is Str,
                hint(
                    value.span,
                    "strings can only come from `read_user_str`"@,
                    "declare `let s: str<N> = read_user_str(ptr);`"@,
                ),
            ),
        ),
        name,
        bound,
        mutable,
    )
}

pub open spec fn let_stmt(
    s: State,
    mutable: bool,
    name: Seq<char>,
    ty: Option<tree::Type>,
    value: tree::Expr,
) -> State {
    match reader(value) {
        Some((fname, kernel)) => let_read(s, mutable, name, ty, value, fname, kernel),
        None => match ty {
            Some(t) => if t.name.name == "ptr"@ {
                let_ptr(s, mutable, name, t, value)
            } else {
                let_value(s, mutable, name, ty, value)
            },
            None => let_value(s, mutable, name, ty, value),
        },
    }
}

pub open spec fn assign(s: State, target: tree::Expr, value: tree::Expr) -> State {
    match target.kind {
        tree::ExprKind::Ident(n) => match lookup(s.env.scopes, n) {
            None => say(s, seq![note(target.span, "unknown variable `"@ + n + "`"@)]),
            Some(x) => heard(
                say(
                    s,
                    only_if(
                        !x.mutable,
                        hint(
                            target.span,
                            "cannot assign to `"@ + n + "`: it is not mutable"@,
                            "declare it with `let mut "@ + n + " = ...`"@,
                        ),
                    ) + only_if(
                        is_blob(x.ty),
                        note(
                            target.span,
                            "`"@ + n + "` is a `"@ + sort_text(x.ty)
                                + "` buffer and cannot be reassigned"@,
                        ),
                    ),
                ),
                expecting(x.ty, value, expr(s.env, value)),
            ),
        },
        tree::ExprKind::Unary { op: UnaryOp::Deref, .. } => heard(
            say(
                s,
                seq![
                    hint(
                        target.span,
                        "writing through a map pointer is not supported in v1"@,
                        "use `map.insert(key, value)` to update the map"@,
                    ),
                ],
            ),
            expr(s.env, value),
        ),
        _ => say(s, seq![note(target.span, "invalid assignment target"@)]),
    }
}

/// What is wrong with the range of a loop.
pub open spec fn loop_range(lo: i64, hi: i64, span: Span) -> Seq<Note> {
    if hi < lo {
        seq![
            note(
                span,
                "loop runs from "@ + signed_dec(lo as int) + " to "@ + signed_dec(hi as int)
                    + ": end is before start"@,
            ),
        ]
    } else {
        only_if(
            hi - lo > 64,
            hint(
                span,
                "loop would run "@ + signed_dec(hi - lo) + " times; the limit is 64"@,
                "the verifier needs every loop to be provably bounded; honey unrolls them"@,
            ),
        )
    }
}

/// The notes of evaluating a constant.
pub open spec fn heard_konst(s: State, k: Konst) -> State {
    State { notes: s.notes + k.notes, ok: s.ok && k.ok, ..s }
}

/// The state before a loop, and the values of its variable if the loop has
/// constant bounds: from the first on, up to the second. A loop whose range is
/// refused is looked at once, for its first value.
pub open spec fn for_entry(s: State, start: tree::Expr, end: tree::Expr) -> (
    State,
    Option<(i64, i64)>,
) {
    let a = const_eval(s.env, start);
    let b = const_eval(s.env, end);
    let s1 = heard_konst(heard_konst(s, a), b);
    match (a.value, b.value) {
        (Some(lo), Some(hi)) => (
            say(s1, loop_range(lo, hi, end.span)),
            if 0 <= hi - lo <= 64 {
                Some((lo, hi))
            } else {
                Some((lo, lo))
            },
        ),
        _ => (s1, None),
    }
}

/// The state before the body of a loop, in the iteration for `k`. The loop
/// variable is a constant inside the body: no stack.
pub open spec fn in_loop(s: State, var: Seq<char>, k: int) -> State {
    put(push_scope(s), var, Local { ty: Sort::U64, mutable: false, konst: Some(k as i64) }, 0)
}

/// Whether there is a note over a place.
pub open spec fn spoken(said: Seq<Note>, span: Span) -> bool {
    exists|i: int| 0 <= i < said.len() && (#[trigger] said[i]).span == span
}

/// The notes over places of which nothing was said.
pub open spec fn unsaid(said: Seq<Note>, notes: Seq<Note>) -> Seq<Note>
    decreases notes.len(),
{
    if notes.len() == 0 {
        Seq::empty()
    } else if spoken(said, notes[0].span) {
        unsaid(said, notes.drop_first())
    } else {
        seq![notes[0]] + unsaid(said, notes.drop_first())
    }
}

/// Whether a name is among the first `n` fields of an `emit`.
pub open spec fn given(fields: Seq<(tree::Ident, tree::Expr)>, n: int, name: Seq<char>) -> bool {
    exists|i: int| 0 <= i < n && (#[trigger] fields[i]).0.name == name
}

/// The type of the first declared field of a name.
pub open spec fn declared_type(
    declared: Seq<(Seq<char>, Sort)>,
    name: Seq<char>,
    i: int,
) -> Option<Sort>
    decreases declared.len() - i,
{
    if i < 0 || i >= declared.len() {
        None
    } else if declared[i].0 == name {
        Some(declared[i].1)
    } else {
        declared_type(declared, name, i + 1)
    }
}

/// Field number `i` of an `emit`.
pub open spec fn emit_field(
    v: Env,
    event: Seq<char>,
    declared: Seq<(Seq<char>, Sort)>,
    fields: Seq<(tree::Ident, tree::Expr)>,
    i: int,
) -> Out {
    let (name, value) = fields[i];
    if given(fields, i, name.name) {
        noted(Sort::Unit, note(name.span, "field `"@ + name.name + "` given twice"@))
    } else {
        match declared_type(declared, name.name, 0) {
            None => say_then(
                note(
                    name.span,
                    "event `"@ + event + "` has no field `"@ + name.name + "`"@,
                ),
                expr(v, value),
            ),
            // `comm()` is the one builtin that produces a string.
            Some(ty) => if is_call_to(value, "comm"@) {
                Out {
                    ty,
                    notes: only_if(
                        !(ty is Str),
                        note(
                            value.span,
                            "`comm()` is a string; field `"@ + name.name + "` is `"@ + sort_text(ty)
                                + "`"@,
                        ),
                    ),
                    ok: true,
                }
            } else {
                expecting(ty, value, expr(v, value))
            },
        }
    }
}

/// The fields of an `emit` from `i` on.
pub open spec fn emit_fields(
    s: State,
    event: Seq<char>,
    declared: Seq<(Seq<char>, Sort)>,
    fields: Seq<(tree::Ident, tree::Expr)>,
    i: int,
) -> State
    decreases fields.len() - i,
{
    if 0 <= i < fields.len() && s.ok {
        emit_fields(
            heard(s, emit_field(s.env, event, declared, fields, i)),
            event,
            declared,
            fields,
            i + 1,
        )
    } else {
        s
    }
}

/// The declared fields from `i` on that an `emit` does not set.
pub open spec fn missing_fields(
    event: Seq<char>,
    declared: Seq<(Seq<char>, Sort)>,
    fields: Seq<(tree::Ident, tree::Expr)>,
    span: Span,
    i: int,
) -> Seq<Note>
    decreases declared.len() - i,
{
    if 0 <= i < declared.len() {
        only_if(
            !given(fields, fields.len() as int, declared[i].0),
            hint(
                span,
                "`emit "@ + event + "` is missing field `"@ + declared[i].0 + "`"@,
                "every field of the event must be set"@,
            ),
        ) + missing_fields(event, declared, fields, span, i + 1)
    } else {
        none()
    }
}

pub open spec fn emit(
    s: State,
    event: tree::Ident,
    fields: Seq<(tree::Ident, tree::Expr)>,
    span: Span,
) -> State {
    if s.env.events.contains_key(event.name) {
        let declared = s.env.events[event.name];
        say(
            emit_fields(s, event.name, declared, fields, 0),
            missing_fields(event.name, declared, fields, span, 0),
        )
    } else {
        say(s, seq![note(event.span, "unknown event `"@ + event.name + "`"@)])
    }
}

/// The state before the body of an `if let`. The checked pointer exists only
/// inside that body.
pub open spec fn if_let_entry(s: State, pattern: tree::Pattern, value: tree::Expr) -> State {
    let o = expr(s.env, value);
    let s1 = push_scope(heard(s, o));
    match o.ty {
        Sort::Option(inner) => if pattern.name.name == "Some"@ {
            match pattern.binding {
                Some(b) => declare(s1, b.name, Sort::Ref(inner), false),
                None => say(
                    s1,
                    seq![note(pattern.span, "`Some` needs a binding: `Some(name)`"@)],
                ),
            }
        } else if pattern.name.name == "None"@ {
            match pattern.binding {
                Some(_) => say(s1, seq![note(pattern.span, "`None` takes no binding"@)]),
                None => s1,
            }
        } else {
            say(
                s1,
                seq![
                    note(
                        pattern.span,
                        "unknown pattern `"@ + pattern.name.name
                            + "`; use `Some(x)` or `None`"@,
                    ),
                ],
            )
        },
        other => say(
            s1,
            seq![
                hint(
                    value.span,
                    "`if let` needs an `Option<&V>` from `map.get`, found `"@ + sort_text(other)
                        + "`"@,
                    "only map lookups can be `None`"@,
                ),
            ],
        ),
    }
}

/// The state before the body of an `if`, in a scope of its own.
pub open spec fn if_entry(s: State, cond: tree::Cond) -> State {
    match cond {
        tree::Cond::Expr(e) => {
            let o = expr(s.env, e);
            push_scope(
                say(
                    heard(s, o),
                    only_if(
                        !(o.ty is Bool),
                        note(
                            e.span,
                            "`if` condition must be `bool`, found `"@ + sort_text(o.ty) + "`"@,
                        ),
                    ),
                ),
            )
        },
        tree::Cond::Let { pattern, value } => if_let_entry(s, pattern, value),
    }
}

/// An expression as a statement.
pub open spec fn expr_stmt(s: State, e: tree::Expr) -> State {
    let o = expr(s.env, e);
    say(
        heard(s, o),
        only_if(
            !(e.kind is MethodCall) && !(o.ty is Unit),
            note(e.span, "expression statement has no effect"@),
        ),
    )
}

/// The statements from `i` on. Nothing follows once there is no answer.
pub open spec fn stmts(s: State, list: Seq<tree::Stmt>, i: int) -> State
    decreases list, list.len() - i,
{
    if 0 <= i < list.len() && s.ok {
        stmts(stmt(s, list[i]), list, i + 1)
    } else {
        s
    }
}

pub open spec fn block(s: State, b: tree::Block) -> State
    decreases b, 0int,
{
    stmts(s, b.stmts, 0)
}

/// One iteration of a loop, with nothing said before it.
pub open spec fn alone(s: State, var: Seq<char>, k: int, body: tree::Block) -> State
    decreases body, 1int,
{
    pop_scope(block(in_loop(State { notes: none(), ..s }, var, k), body))
}

/// The body of a loop for the values from `k` on, up to `hi`; at least once.
/// Of a place that was noted in an earlier iteration, nothing more is said.
pub open spec fn iterations(
    s: State,
    said: Seq<Note>,
    var: Seq<char>,
    k: int,
    hi: int,
    body: tree::Block,
) -> State
    decreases
            body,
            if k < hi {
                hi - k
            } else {
                0
            } + 2,
{
    let r = alone(s, var, k, body);
    let new = unsaid(said, r.notes);
    let t = State { notes: s.notes + new, ..r };
    if k + 1 < hi && r.ok {
        iterations(t, said + new, var, k + 1, hi, body)
    } else {
        t
    }
}

pub open spec fn stmt(s: State, x: tree::Stmt) -> State
    decreases x, 0int,
{
    match x.kind {
        tree::StmtKind::Let { mutable, name, ty, value } => let_stmt(
            s,
            mutable,
            name.name,
            ty,
            value,
        ),
        tree::StmtKind::Assign { target, value } => assign(s, target, value),
        tree::StmtKind::If { cond, body, otherwise } => {
            let s1 = pop_scope(block(if_entry(s, cond), body));
            match otherwise {
                Some(b) => pop_scope(block(push_scope(s1), b)),
                None => s1,
            }
        },
        tree::StmtKind::For { var, start, end, body } => {
            let (s1, range) = for_entry(s, start, end);
            match range {
                Some((lo, hi)) => iterations(s1, none(), var.name, lo as int, hi as int, body),
                None => s1,
            }
        },
        tree::StmtKind::Emit { event, fields } => emit(s, event, fields, x.span),
        tree::StmtKind::Return(value) => match value {
            Some(e) => say(
                s,
                seq![note(e.span, "probes always return 0; use a bare `return;`"@)],
            ),
            None => s,
        },
        tree::StmtKind::Expr(e) => expr_stmt(s, e),
    }
}

// -------------------------------------------------------------------- items

/// The type and the value of a constant.
pub open spec fn const_info(c: tree::ConstDecl) -> Result<(Sort, u64), Note> {
    match sort_of(c.ty) {
        Err(m) => Err(note(c.ty.span, m)),
        Ok(ty) => if !is_scalar(ty) {
            Err(
                note(
                    c.ty.span,
                    "const `"@ + c.name.name + "`: only integers and bool can be constants"@,
                ),
            )
        } else {
            match literal_value(c.value) {
                None => Err(
                    hint(
                        c.value.span,
                        "const initialiser must be a literal"@,
                        "constants are baked into the bytecode, so they have to be known here"@,
                    ),
                ),
                Some(n) => if max_value(ty) is Some && n > max_value(ty)->0 {
                    Err(
                        note(
                            c.value.span,
                            dec(n as nat) + " does not fit in `"@ + sort_text(ty) + "`"@,
                        ),
                    )
                } else {
                    Ok((ty, n))
                },
            }
        },
    }
}

pub open spec fn const_decl(v: Env, c: tree::ConstDecl) -> (Env, Seq<Note>) {
    match const_info(c) {
        Err(n) => (v, seq![n]),
        Ok(info) => (Env { consts: v.consts.insert(c.name.name, info), ..v }, none()),
    }
}

/// The value of an integer or bool literal.
pub open spec fn literal_value(e: tree::Expr) -> Option<u64> {
    match e.kind {
        tree::ExprKind::Int(n) => Some(n),
        tree::ExprKind::Bool(b) => Some(
            if b {
                1
            } else {
                0
            },
        ),
        _ => None,
    }
}

/// The type of a key or a value of a map.
pub open spec fn map_sort(t: tree::Type) -> Result<Sort, Seq<char>> {
    match sort_of(t) {
        Err(m) => Err(m),
        Ok(ty) => if is_scalar(ty) {
            Ok(ty)
        } else {
            Err(
                "map keys and values must be integers or bool in v1, not `"@ + sort_text(ty) + "`"@,
            )
        },
    }
}

/// The key and value types of a map, or what is wrong with it.
pub open spec fn map_info(m: tree::MapDecl) -> Result<(Sort, Sort), Note> {
    if m.kind.name == "hash"@ && m.args.len() == 2 {
        match (map_sort(m.args[0]), map_sort(m.args[1])) {
            (Ok(key), Ok(value)) => Ok((key, value)),
            (Err(e), _) => Err(note(m.args[0].span, e)),
            (_, Err(e)) => Err(note(m.args[1].span, e)),
        }
    } else if m.kind.name == "array"@ && m.args.len() == 1 {
        match map_sort(m.args[0]) {
            Ok(value) => Ok((Sort::U32, value)),
            Err(e) => Err(note(m.args[0].span, e)),
        }
    } else {
        Err(
            hint(
                m.kind.span,
                "unknown map kind `"@ + m.kind.name + "`"@,
                "use `hash<K, V>` or `array<V>`"@,
            ),
        )
    }
}

pub open spec fn map_decl(v: Env, m: tree::MapDecl) -> (Env, Seq<Note>) {
    match map_info(m) {
        Err(n) => (v, seq![n]),
        Ok(info) => (
            Env { maps: v.maps.insert(m.name.name, info), ..v },
            only_if(m.capacity == 0, note(m.span, "map capacity must be at least 1"@)),
        ),
    }
}

/// Whether a name is among a list of fields.
pub open spec fn has_field(list: Seq<(Seq<char>, Sort)>, name: Seq<char>) -> bool {
    exists|i: int| 0 <= i < list.len() && (#[trigger] list[i]).0 == name
}

/// The fields of an event from `i` on, behind those declared so far, and the
/// notes over them.
pub open spec fn event_fields(
    f: Seq<tree::Field>,
    i: int,
    done: Seq<(Seq<char>, Sort)>,
    notes: Seq<Note>,
) -> (Seq<(Seq<char>, Sort)>, Seq<Note>)
    decreases f.len() - i,
{
    if 0 <= i < f.len() {
        let name = f[i].name.name;
        match sort_of(f[i].ty) {
            Ok(ty) => if is_scalar(ty) || ty is Str || is_blob(ty) {
                event_fields(
                    f,
                    i + 1,
                    done.push((name, ty)),
                    notes + only_if(
                        has_field(done, name),
                        note(f[i].name.span, "duplicate field `"@ + name + "`"@),
                    ),
                )
            } else {
                event_fields(
                    f,
                    i + 1,
                    done,
                    notes + seq![
                        note(
                            f[i].ty.span,
                            "event fields must be integers, bool or str<N>, not `"@ + sort_text(ty)
                                + "`"@,
                        ),
                    ],
                )
            },
            Err(m) => event_fields(f, i + 1, done, notes + seq![note(f[i].ty.span, m)]),
        }
    } else {
        (done, notes)
    }
}

pub open spec fn event_decl(v: Env, e: tree::EventDecl) -> (Env, Seq<Note>) {
    let (list, notes) = event_fields(e.fields, 0, Seq::empty(), none());
    (Env { events: v.events.insert(e.name.name, list), ..v }, notes)
}

/// Declare one item.
pub open spec fn declare_item(v: Env, item: tree::Item) -> (Env, Seq<Note>) {
    match item {
        tree::Item::Const(c) => const_decl(v, c),
        tree::Item::MapDecl(m) => map_decl(v, m),
        tree::Item::Event(e) => event_decl(v, e),
        tree::Item::Probe(_) => (v, none()),
    }
}

/// Declare the items from `i` on, so that their order does not matter to the
/// probes.
pub open spec fn declare_items(v: Env, items: Seq<tree::Item>, i: int, notes: Seq<Note>) -> (
    Env,
    Seq<Note>,
)
    decreases items.len() - i,
{
    if 0 <= i < items.len() {
        let (v1, n) = declare_item(v, items[i]);
        declare_items(v1, items, i + 1, notes + n)
    } else {
        (v, notes)
    }
}

/// How often a character occurs.
pub open spec fn count(s: Seq<char>, c: char) -> nat
    decreases s.len(),
{
    if s.len() == 0 {
        0
    } else {
        count(s.drop_last(), c) + (if s.last() == c {
            1nat
        } else {
            0
        })
    }
}

/// The kind of a probe by its name and how many arguments it has; or what is
/// wrong with it.
pub open spec fn probe_kind(p: tree::ProbeDecl) -> Result<ProbeKind, Note> {
    let name = p.kind.name;
    let one = p.args.len() == 1;
    if name == "tracepoint"@ {
        if p.args.len() == 2 {
            Ok(ProbeKind::Tracepoint)
        } else {
            Err(note(p.span, "`tracepoint` takes two string arguments: category and name"@))
        }
    } else if name == "kprobe"@ || name == "kretprobe"@ {
        if !one {
            Err(
                note(
                    p.span,
                    "`"@ + name + "` takes one string argument: the kernel function name"@,
                ),
            )
        } else if name == "kprobe"@ {
            Ok(ProbeKind::Kprobe)
        } else {
            Ok(ProbeKind::Kretprobe)
        }
    } else if name == "lsm"@ {
        if one {
            Ok(ProbeKind::Lsm)
        } else {
            Err(
                note(
                    p.span,
                    "`lsm` takes one string argument: the hook name, e.g. `lsm(\"file_open\")`"@,
                ),
            )
        }
    } else if name == "xdp"@ {
        if one {
            Ok(ProbeKind::Xdp)
        } else {
            Err(
                note(
                    p.span,
                    "`xdp` takes one string argument: the interface name, e.g. `xdp(\"eth0\")`"@,
                ),
            )
        }
    } else if name == "uprobe"@ || name == "uretprobe"@ {
        if !one {
            Err(
                note(
                    p.span,
                    "`"@ + name + "` takes one string argument: `\"/path/to/binary:symbol\"`"@,
                ),
            )
        } else if name == "uprobe"@ {
            Ok(ProbeKind::Uprobe)
        } else {
            Ok(ProbeKind::Uretprobe)
        }
    } else if name == "usdt"@ {
        if one {
            Ok(ProbeKind::Usdt)
        } else {
            Err(
                note(
                    p.span,
                    "`usdt` takes one string argument: `\"/path/to/binary:provider:name\"`"@,
                ),
            )
        }
    } else {
        Err(
            hint(
                p.kind.span,
                "unsupported probe kind `"@ + name + "`"@,
                "use `tracepoint`, `kprobe`, `kretprobe`, `lsm`, `xdp`, `uprobe`, `uretprobe`, or `usdt`"@,
            ),
        )
    }
}

/// Whether one of the targets is empty.
pub open spec fn has_empty(args: Seq<Seq<char>>) -> bool {
    exists|i: int| 0 <= i < args.len() && (#[trigger] args[i]).len() == 0
}

/// What is wrong with where a probe attaches.
pub open spec fn target_notes(p: tree::ProbeDecl) -> Seq<Note> {
    only_if(has_empty(p.args), note(p.span, "probe target must not be empty"@)) + (
    match probe_kind(p) {
        Ok(ProbeKind::Uprobe) | Ok(ProbeKind::Uretprobe) => only_if(
            count(p.args[0], ':') == 0,
            hint(
                p.span,
                "uprobe target must be `path:symbol`"@,
                "for example `uprobe(\"/lib/x86_64-linux-gnu/libc.so.6:getenv\")`"@,
            ),
        ),
        Ok(ProbeKind::Usdt) => only_if(
            count(p.args[0], ':') != 2,
            hint(
                p.span,
                "usdt target must be `path:provider:name`"@,
                "for example `usdt(\"/usr/bin/python3:python:function__entry\")`"@,
            ),
        ),
        _ => none(),
    })
}

/// What is wrong with where a probe attaches and with its kind.
pub open spec fn attach_notes(p: tree::ProbeDecl) -> Seq<Note> {
    (match probe_kind(p) {
        Ok(_) => none(),
        Err(n) => seq![n],
    }) + target_notes(p)
}

/// The state in which the body of a probe is checked.
pub open spec fn probe_entry(v: Env, p: tree::ProbeDecl, notes: Seq<Note>) -> State {
    push_scope(
        State {
            env: Env {
                scopes: Seq::empty(),
                probe: match probe_kind(p) {
                    Ok(k) => Some(k),
                    Err(_) => None,
                },
                ..v
            },
            peak: 0,
            notes: notes + attach_notes(p),
            ok: true,
        },
    )
}

/// More stack than a probe may use.
pub open spec fn budget_notes(peak: nat, span: Span) -> Seq<Note> {
    only_if(
        peak > 472,
        hint(
            span,
            "probe needs "@ + dec(peak)
                + " bytes of stack for its locals; the BPF limit leaves 472"@,
            "shrink a `str<N>` buffer or narrow a scope"@,
        ),
    )
}

/// Check one probe. Each is a program of its own, with a stack of its own.
#[verifier::opaque]
pub open spec fn probe(v: Env, p: tree::ProbeDecl, notes: Seq<Note>) -> State {
    let s = block(probe_entry(v, p, notes), p.body);
    say(s, budget_notes(s.peak, p.body.span))
}

/// What checking a program gives: the stack that its probes need at most, and
/// the notes over it.
pub struct Report {
    pub peak: nat,
    pub notes: Seq<Note>,
    pub ok: bool,
}

/// Check the probes from `i` on.
pub open spec fn probes(v: Env, items: Seq<tree::Item>, i: int, r: Report) -> Report
    decreases items.len() - i,
{
    if 0 <= i < items.len() && r.ok {
        match items[i] {
            tree::Item::Probe(p) => {
                let s = probe(v, p, r.notes);
                probes(
                    v,
                    items,
                    i + 1,
                    Report {
                        peak: if s.peak > r.peak {
                            s.peak
                        } else {
                            r.peak
                        },
                        notes: s.notes,
                        ok: s.ok,
                    },
                )
            },
            _ => probes(v, items, i + 1, r),
        }
    } else {
        r
    }
}

pub open spec fn has_probe(items: Seq<tree::Item>) -> bool {
    exists|i: int| 0 <= i < items.len() && (#[trigger] items[i]) is Probe
}

/// Nothing declared yet.
pub open spec fn start(kernel: Option<Kernel>) -> Env {
    Env {
        kernel,
        consts: Map::empty(),
        maps: Map::empty(),
        events: Map::empty(),
        scopes: Seq::empty(),
        probe: None,
    }
}

/// Check a program.
pub open spec fn program(p: tree::Program, kernel: Option<Kernel>) -> Report {
    let (v, notes) = declare_items(start(kernel), p.items, 0, none());
    probes(
        v,
        p.items,
        0,
        Report {
            peak: 0,
            notes: notes + only_if(
                !has_probe(p.items),
                note(Span { start: 0, end: 0 }, "program has no `probe`"@),
            ),
            ok: true,
        },
    )
}

} // verus!
