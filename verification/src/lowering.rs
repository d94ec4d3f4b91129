//! How a probe is turned into instructions: the translation, statement by
//! statement and expression by expression.
//!
//! Every expression is computed into R0. A local lives in a slot of the BPF
//! stack, eight bytes at a time, and slots are given up in the reverse of the
//! order they were taken in. An operator keeps its left operand in a slot while
//! the right one is computed, and brings it back into R1. R6 holds the
//! ring-buffer record during an `emit`; helper calls keep it.

use crate::ast::{BinaryOp, UnaryOp};
use crate::bpf::{
    aluop_bits, helper_id, high_half, jmpop_bits, jumping, low_half, narrow, reg_num, size_bits,
    AluOp, Asm, Helper, Insn, JmpOp, Reg, Size,
};
use crate::layout::{
    field_kind, first_unheld, held, layout_fits, layout_of, unsupported, FieldKind, Layout, Slot,
};
use crate::pretty::expr_text;
use crate::rules::given;
use crate::text::dec;
use crate::tree;
use vstd::prelude::*;
use vstd::utf8::encode_utf8;

verus! {

/// What the BPF stack holds, in bytes.
pub const STACK_BYTES: u32 = 512;

/// As many iterations as a loop may have: it is unrolled.
pub const MAX_ITERATIONS: i64 = 64;

/// The last argument that a tracepoint has.
pub const LAST_ARG: i64 = 5;

/// As many labels as a program may have.
pub const MAX_LABELS: u32 = 1_000_000;

/// As many instructions as the kernel takes.
pub const MAX_INSNS: usize = 1_000_000;

// ------------------------------------------------------------ instructions

/// `dst = n`.
pub open spec fn set_num(dst: Reg, n: i32) -> Insn {
    narrow(0xb7, reg_num(dst), 0, 0, n)
}

/// `dst = src`.
pub open spec fn copy(dst: Reg, src: Reg) -> Insn {
    narrow(0xbf, reg_num(dst), reg_num(src), 0, 0)
}

/// `dst = n`, all 64 bits of it.
pub open spec fn set_wide(dst: Reg, n: i64) -> Insn {
    Insn {
        opcode: 0x18,
        dst: reg_num(dst),
        src: 0,
        off: 0,
        imm: low_half(n),
        high: Some(high_half(n)),
    }
}

/// `dst = map number n`.
pub open spec fn set_map(dst: Reg, n: int) -> Insn {
    Insn { opcode: 0x18, dst: reg_num(dst), src: 1, off: 0, imm: n as i32, high: Some(0) }
}

/// `dst op= n`.
pub open spec fn alu(op: AluOp, dst: Reg, n: int) -> Insn {
    narrow((0x07 + aluop_bits(op)) as u8, reg_num(dst), 0, 0, n as i32)
}

/// `dst op= src`.
pub open spec fn alu_reg(op: AluOp, dst: Reg, src: Reg) -> Insn {
    narrow((0x0f + aluop_bits(op)) as u8, reg_num(dst), reg_num(src), 0, 0)
}

/// Keep the low 32 bits of a register.
pub open spec fn keep_low(r: Reg) -> Insn {
    narrow((0x0c + aluop_bits(AluOp::Mov)) as u8, reg_num(r), reg_num(r), 0, 0)
}

/// `dst = *(src + off)`.
pub open spec fn load(size: Size, dst: Reg, src: Reg, off: int) -> Insn {
    narrow((0x61 + size_bits(size)) as u8, reg_num(dst), reg_num(src), off as i16, 0)
}

/// `*(dst + off) = src`.
pub open spec fn store(size: Size, dst: Reg, off: int, src: Reg) -> Insn {
    narrow((0x63 + size_bits(size)) as u8, reg_num(dst), reg_num(src), off as i16, 0)
}

/// Call a helper.
pub open spec fn helper(h: Helper) -> Insn {
    narrow(0x85, 0, 0, 0, helper_id(h))
}

/// End the program.
pub open spec fn leave() -> Insn {
    narrow(0x95, 0, 0, 0, 0)
}

/// `if dst op n goto`.
pub open spec fn if_num(op: JmpOp, dst: Reg, n: int) -> Insn {
    narrow((0x05 + jmpop_bits(op)) as u8, reg_num(dst), 0, 0, n as i32)
}

/// `if dst op src goto`.
pub open spec fn if_reg(op: JmpOp, dst: Reg, src: Reg) -> Insn {
    narrow((0x0d + jmpop_bits(op)) as u8, reg_num(dst), reg_num(src), 0, 0)
}

/// `goto`.
pub open spec fn always() -> Insn {
    narrow(0x05, 0, 0, 0, 0)
}

/// How many bytes an access is wide.
pub open spec fn size_bytes(s: Size) -> u32 {
    match s {
        Size::B => 1,
        Size::H => 2,
        Size::W => 4,
        Size::DW => 8,
    }
}

// ------------------------------------------------------------------- state

/// Where a name is kept.
pub enum Place {
    /// Nowhere: it is a constant, of this width.
    Const(u64, Size),
    /// Nowhere: it is a loop variable, which has this value here.
    Step(u64),
    /// A number of this width, so many bytes below R10. All 64 bits of the slot
    /// are written; those above the width are zero.
    Num(nat, Size),
    /// A pointer to a map value, or null.
    Maybe(nat, Size),
    /// A pointer to a map value that is there.
    Ref(nat, Size),
    /// So many bytes of text.
    Text(nat, nat),
}

pub struct Var {
    pub name: Seq<char>,
    pub place: Place,
}

/// What a map is, to the kernel.
#[derive(Debug, Clone, Copy, PartialEq, Eq, Structural)]
pub enum MapKind {
    Hash,
    Array,
}

/// A declared map.
pub struct Table {
    pub name: Seq<char>,
    pub kind: MapKind,
    pub key: Size,
    pub value: Size,
    pub entries: u32,
}

/// What a program declares around its probe.
pub struct World {
    pub tables: Seq<Table>,
    pub events: Seq<tree::EventDecl>,
}

/// A translation under way.
pub struct Gen {
    pub out: Asm,
    /// Bytes of the stack in use, and the most there were.
    pub depth: nat,
    pub peak: nat,
    /// The names in scope, the last one first found.
    pub vars: Seq<Var>,
    /// The event that is emitted.
    pub event: Option<Layout>,
}

/// What an expression leaves in R0.
pub enum Value {
    Num,
    /// A pointer to a map value of this size, or null.
    Maybe(Size),
}

pub type Made = Result<Gen, Seq<char>>;

pub open spec fn put(g: Gen, insn: Insn) -> Gen {
    Gen { out: Asm { code: g.out.code.push(insn), ..g.out }, ..g }
}

pub open spec fn jump(g: Gen, insn: Insn, label: int) -> Gen {
    Gen { out: jumping(g.out, insn, label), ..g }
}

/// The label stands here.
pub open spec fn bound(g: Gen, label: int) -> Gen {
    Gen {
        out: Asm {
            labels: g.out.labels.update(label, Some(g.out.code.len() as int)),
            ..g.out
        },
        ..g
    }
}

/// One more label, not placed yet. Its number is how many there were.
pub open spec fn fresh(g: Gen) -> Made {
    if g.out.labels.len() >= MAX_LABELS {
        Err("program too large"@)
    } else {
        Ok(Gen { out: Asm { labels: g.out.labels.push(None), ..g.out }, ..g })
    }
}

/// So many bytes of the stack more; the new slot ends where the depth now is.
pub open spec fn grow(g: Gen, n: nat) -> Made {
    let depth = g.depth + n;
    if depth > STACK_BYTES {
        Err("probe needs more than 512 bytes of stack"@)
    } else {
        Ok(
            Gen {
                depth,
                peak: if depth > g.peak {
                    depth
                } else {
                    g.peak
                },
                ..g
            },
        )
    }
}

/// Back to an earlier depth and number of names.
pub open spec fn back(g: Gen, before: Gen) -> Gen {
    Gen { depth: before.depth, vars: g.vars.take(before.vars.len() as int), ..g }
}

/// Back to an earlier depth.
pub open spec fn up(g: Gen, before: Gen) -> Gen {
    Gen { depth: before.depth, ..g }
}

/// One more name in scope.
pub open spec fn with(g: Gen, name: Seq<char>, place: Place) -> Gen {
    Gen { vars: g.vars.push(Var { name, place }), ..g }
}

/// Where a name is kept: the last one of that name.
pub open spec fn find(vars: Seq<Var>, name: Seq<char>) -> Option<Place>
    decreases vars.len(),
{
    if vars.len() == 0 {
        None
    } else if vars.last().name == name {
        Some(vars.last().place)
    } else {
        find(vars.drop_last(), name)
    }
}

/// The declared constant of a name: the last one of that name.
pub open spec fn find_const(vars: Seq<Var>, name: Seq<char>) -> Option<u64>
    decreases vars.len(),
{
    if vars.len() == 0 {
        None
    } else {
        match vars.last().place {
            Place::Const(n, _) => if vars.last().name == name {
                Some(n)
            } else {
                find_const(vars.drop_last(), name)
            },
            _ => find_const(vars.drop_last(), name),
        }
    }
}

/// Which map has a name: the first one of that name.
pub open spec fn table_at(tables: Seq<Table>, name: Seq<char>, i: int) -> Option<int>
    decreases tables.len() - i,
{
    if i >= tables.len() {
        None
    } else if tables[i].name == name {
        Some(i)
    } else {
        table_at(tables, name, i + 1)
    }
}

/// Which event has a name: the first one of that name.
pub open spec fn event_at(events: Seq<tree::EventDecl>, name: Seq<char>, i: int) -> Option<int>
    decreases events.len() - i,
{
    if i >= events.len() {
        None
    } else if events[i].name.name == name {
        Some(i)
    } else {
        event_at(events, name, i + 1)
    }
}

/// Which field of a record has a name: the first one of that name.
pub open spec fn slot_named(fields: Seq<Slot>, name: Seq<char>, i: int) -> Option<int>
    decreases fields.len() - i,
{
    if i >= fields.len() {
        None
    } else if fields[i].name == name {
        Some(i)
    } else {
        slot_named(fields, name, i + 1)
    }
}

// ------------------------------------------------------------- expressions

/// The number that a literal is.
pub open spec fn literal_of(e: tree::Expr) -> Option<u64> {
    match e.kind {
        tree::ExprKind::Int(n) => Some(n),
        tree::ExprKind::Bool(b) => Some(
            if b {
                1
            } else {
                0
            },
        ),
        _ => None,
    }
}

/// Two constants under an operator that a constant can have, if the result
/// fits.
pub open spec fn folded(op: BinaryOp, a: i64, b: i64) -> Option<i64> {
    match op {
        BinaryOp::Add => fitting(a + b),
        BinaryOp::Sub => fitting(a - b),
        BinaryOp::Mul => fitting(a * b),
        BinaryOp::BitOr => Some(a | b),
        BinaryOp::BitAnd => Some(a & b),
        BinaryOp::Shl => if 0 <= b < 64 {
            Some(a << b)
        } else {
            None
        },
        _ => None,
    }
}

pub open spec fn fitting(n: int) -> Option<i64> {
    if i64::MIN <= n <= i64::MAX {
        Some(n as i64)
    } else {
        None
    }
}

/// The number that an expression is, if it is a constant: literals, constants
/// and loop variables, combined with `+ - * | & <<`. A constant goes before a
/// variable of the same name, as it does for the type checker.
pub open spec fn const_of(vars: Seq<Var>, e: tree::Expr) -> Option<i64>
    decreases e,
{
    match e.kind {
        tree::ExprKind::Int(n) => Some(n as i64),
        tree::ExprKind::Ident(name) => match find_const(vars, name) {
            Some(n) => Some(n as i64),
            None => match find(vars, name) {
                Some(Place::Step(n)) => Some(n as i64),
                _ => None,
            },
        },
        tree::ExprKind::Binary { op, lhs, rhs } => match (
            const_of(vars, *lhs),
            const_of(vars, *rhs),
        ) {
            (Some(a), Some(b)) => folded(op, a, b),
            _ => None,
        },
        _ => None,
    }
}

/// The same 64 bits as a signed number.
pub open spec fn signed(n: u64) -> i64 {
    (if n > i64::MAX {
        n - 0x1_0000_0000_0000_0000
    } else {
        n as int
    }) as i64
}

/// `R0 = n`.
pub open spec fn literal(g: Gen, n: u64) -> Gen {
    if n <= i32::MAX {
        put(g, set_num(Reg::R0, n as i32))
    } else {
        put(g, set_wide(Reg::R0, signed(n)))
    }
}

/// How many bytes a builtin without arguments gives, if it gives a number.
pub open spec fn builtin_width(name: Seq<char>) -> Option<u32> {
    if name == "pid"@ || name == "tgid"@ || name == "tid"@ || name == "uid"@ || name == "gid"@ {
        Some(4)
    } else if name == "ktime"@ {
        Some(8)
    } else {
        None
    }
}

/// The helper behind such a builtin: the two ids come in one register, the
/// first in the high half.
#[verifier::opaque]
pub open spec fn builtin(g: Gen, name: Seq<char>) -> Gen {
    if name == "pid"@ || name == "tgid"@ {
        put(put(g, helper(Helper::GetCurrentPidTgid)), alu(AluOp::Rsh, Reg::R0, 32))
    } else if name == "tid"@ {
        put(put(g, helper(Helper::GetCurrentPidTgid)), keep_low(Reg::R0))
    } else if name == "uid"@ {
        put(put(g, helper(Helper::GetCurrentUidGid)), keep_low(Reg::R0))
    } else if name == "gid"@ {
        put(put(g, helper(Helper::GetCurrentUidGid)), alu(AluOp::Rsh, Reg::R0, 32))
    } else {
        put(g, helper(Helper::KtimeGetNs))
    }
}

/// Is it true or false, and so computed by jumping?
pub open spec fn is_logic(e: tree::Expr) -> bool {
    match e.kind {
        tree::ExprKind::Unary { op, .. } => op == UnaryOp::Not,
        tree::ExprKind::Binary { op, .. } => comparison(op) is Some || op == BinaryOp::And || op
            == BinaryOp::Or,
        tree::ExprKind::MethodCall { method, .. } => method.name == "starts_with"@,
        _ => false,
    }
}

/// The jump that an operator is.
pub open spec fn comparison(op: BinaryOp) -> Option<JmpOp> {
    match op {
        BinaryOp::Eq => Some(JmpOp::Eq),
        BinaryOp::Ne => Some(JmpOp::Ne),
        BinaryOp::Lt => Some(JmpOp::Lt),
        BinaryOp::Le => Some(JmpOp::Le),
        BinaryOp::Gt => Some(JmpOp::Gt),
        BinaryOp::Ge => Some(JmpOp::Ge),
        _ => None,
    }
}

/// The instruction that an operator is.
pub open spec fn arithmetic(op: BinaryOp) -> Option<AluOp> {
    match op {
        BinaryOp::BitOr => Some(AluOp::Or),
        BinaryOp::BitXor => Some(AluOp::Xor),
        BinaryOp::BitAnd => Some(AluOp::And),
        BinaryOp::Shl => Some(AluOp::Lsh),
        BinaryOp::Shr => Some(AluOp::Rsh),
        BinaryOp::Add => Some(AluOp::Add),
        BinaryOp::Sub => Some(AluOp::Sub),
        BinaryOp::Mul => Some(AluOp::Mul),
        BinaryOp::Div => Some(AluOp::Div),
        BinaryOp::Rem => Some(AluOp::Mod),
        _ => None,
    }
}

/// The width that an expression has; none where it is made of literals alone,
/// which take the width that they meet.
pub open spec fn width_of(vars: Seq<Var>, e: tree::Expr) -> Option<Size>
    decreases e,
{
    if is_logic(e) {
        Some(Size::B)
    } else {
        match e.kind {
            tree::ExprKind::Bool(_) => Some(Size::B),
            tree::ExprKind::Ident(name) => match find(vars, name) {
                Some(Place::Const(_, size)) => Some(size),
                Some(Place::Step(_)) => Some(Size::DW),
                Some(Place::Num(_, size)) => Some(size),
                _ => None,
            },
            tree::ExprKind::Unary { op, expr } => match op {
                UnaryOp::Deref => pointed_size(vars, *expr),
                _ => width_of(vars, *expr),
            },
            tree::ExprKind::Binary { lhs, rhs, .. } => match width_of(vars, *lhs) {
                Some(size) => Some(size),
                None => width_of(vars, *rhs),
            },
            tree::ExprKind::Call { callee, .. } => called_size(*callee),
            tree::ExprKind::MethodCall { .. } => Some(Size::B),
            _ => None,
        }
    }
}

/// The width of what a name points at.
pub open spec fn pointed_size(vars: Seq<Var>, e: tree::Expr) -> Option<Size> {
    match e.kind {
        tree::ExprKind::Ident(name) => match find(vars, name) {
            Some(Place::Ref(_, size)) => Some(size),
            _ => None,
        },
        _ => None,
    }
}

/// The width of what a builtin gives.
pub open spec fn called_size(callee: tree::Expr) -> Option<Size> {
    match callee.kind {
        tree::ExprKind::Ident(name) => match builtin_width(name) {
            Some(n) => Some(width_size(n)),
            None => Some(Size::DW),
        },
        _ => None,
    }
}

/// R0 without the bits above a width. A register has 64 bits: this is where a
/// narrower number wraps round.
pub open spec fn masked(g: Gen, width: Option<Size>) -> Gen {
    match width {
        Some(Size::B) => put(g, alu(AluOp::And, Reg::R0, 0xff)),
        Some(Size::H) => put(g, alu(AluOp::And, Reg::R0, 0xffff)),
        Some(Size::W) => put(g, keep_low(Reg::R0)),
        _ => g,
    }
}

/// R0 as a number of width `want`, where it has width `have`.
pub open spec fn fit(g: Gen, have: Option<Size>, want: Size) -> Gen {
    if have == Some(want) {
        g
    } else {
        masked(g, Some(want))
    }
}

/// The error over a pointer that was not checked.
pub open spec fn unchecked(e: tree::Expr) -> Seq<char> {
    "`"@ + expr_text(e) + "` may be null: check it with `if let Some(x) = ..` first"@
}

/// The address of a slot in a register.
pub open spec fn point(g: Gen, r: Reg, depth: nat) -> Gen {
    put(put(g, copy(r, Reg::R10)), alu(AluOp::Add, r, -(depth as int)))
}

/// What a name is worth.
#[verifier::opaque]
pub open spec fn named(g: Gen, name: Seq<char>) -> Result<(Gen, Value), Seq<char>> {
    match find(g.vars, name) {
        None => Err("unknown name `"@ + name + "`"@),
        Some(Place::Const(n, _)) => Ok((literal(g, n), Value::Num)),
        Some(Place::Step(n)) => Ok((literal(g, n), Value::Num)),
        Some(Place::Num(at, _)) => Ok(
            (put(g, load(Size::DW, Reg::R0, Reg::R10, -(at as int))), Value::Num),
        ),
        Some(Place::Maybe(at, size)) => Ok(
            (put(g, load(Size::DW, Reg::R0, Reg::R10, -(at as int))), Value::Maybe(size)),
        ),
        Some(Place::Ref(..)) => Err("`"@ + name + "` is a pointer: read it with `*"@ + name + "`"@),
        Some(Place::Text(..)) => Err(
            "`"@ + name
                + "` is a string: only `starts_with`, `byte_at` and `emit` can use it"@,
        ),
    }
}

/// What a pointer points at.
#[verifier::opaque]
pub open spec fn deref(g: Gen, e: tree::Expr) -> Made {
    match e.kind {
        tree::ExprKind::Ident(name) => match find(g.vars, name) {
            Some(Place::Ref(at, size)) => Ok(
                put(
                    put(g, load(Size::DW, Reg::R0, Reg::R10, -(at as int))),
                    load(size, Reg::R0, Reg::R0, 0),
                ),
            ),
            Some(Place::Maybe(..)) => Err(unchecked(e)),
            _ => Err("cannot dereference `"@ + name + "`"@),
        },
        tree::ExprKind::MethodCall { .. } => Err(unchecked(e)),
        _ => Err("cannot dereference `"@ + expr_text(e) + "`"@),
    }
}

/// A builtin with its arguments.
#[verifier::opaque]
pub open spec fn called(g: Gen, e: tree::Expr, callee: tree::Expr, args: Seq<tree::Expr>) -> Made {
    match callee.kind {
        tree::ExprKind::Ident(name) => if builtin_width(name) is Some && args.len() == 0 {
            Ok(builtin(g, name))
        } else if name == "arg"@ && args.len() == 1 {
            match const_of(g.vars, args[0]) {
                Some(n) => if !(0 <= n <= LAST_ARG) {
                    Err("`arg(n)` takes a constant from 0 to 5"@)
                } else {
                    Ok(
                        put(
                            put(g, load(Size::DW, Reg::R0, Reg::R10, -8)),
                            load(Size::DW, Reg::R0, Reg::R0, 16 + 8 * n),
                        ),
                    )
                },
                None => Err("`arg(n)` takes a constant from 0 to 5"@),
            }
        } else if name == "comm"@ || name == "read_user_str"@ {
            Err("`"@ + name + "` can only fill a `str<N>`"@)
        } else {
            Err("unknown builtin `"@ + name + "()`"@)
        },
        _ => Err("expected a builtin name"@),
    }
}

/// One byte of a text.
#[verifier::opaque]
pub open spec fn byte_of(
    g: Gen,
    name: Seq<char>,
    method: Seq<char>,
    args: Seq<tree::Expr>,
) -> Made {
    match find(g.vars, name) {
        Some(Place::Text(at, n)) => if method == "byte_at"@ && args.len() == 1 {
            match const_of(g.vars, args[0]) {
                Some(i) => if 0 <= i < n {
                    Ok(put(g, load(Size::B, Reg::R0, Reg::R10, i - at)))
                } else {
                    Err("`byte_at` is out of range of `"@ + name + "`"@)
                },
                None => Err("`byte_at` takes a constant"@),
            }
        } else {
            Err("string has no method `"@ + method + "`"@)
        },
        _ => Err("unknown map `"@ + name + "`"@),
    }
}

/// Call a map's helper on the key in the slot that ends at `key`.
pub open spec fn on_map(g: Gen, table: int, key: nat, h: Helper) -> Gen {
    put(point(put(g, set_map(Reg::R1, table + 1)), Reg::R2, key), helper(h))
}

/// Compare the text at `at` with `bytes`, from the `i`th on; go to `no` at the
/// first one that differs.
pub open spec fn compare_bytes(g: Gen, at: nat, bytes: Seq<u8>, i: int, no: int) -> Gen
    decreases bytes.len() - i,
{
    if i >= bytes.len() {
        g
    } else {
        compare_bytes(
            jump(
                put(g, load(Size::B, Reg::R0, Reg::R10, i - at)),
                if_num(JmpOp::Ne, Reg::R0, bytes[i] as int),
                no,
            ),
            at,
            bytes,
            i + 1,
            no,
        )
    }
}

/// Does a text start with a literal?
#[verifier::opaque]
pub open spec fn prefix_test(
    g: Gen,
    receiver: tree::Expr,
    args: Seq<tree::Expr>,
    yes: int,
    no: int,
) -> Made {
    match receiver.kind {
        tree::ExprKind::Ident(name) => match find(g.vars, name) {
            Some(Place::Text(at, n)) => if args.len() == 1 {
                match args[0].kind {
                    tree::ExprKind::Str(text) => {
                        let bytes = encode_utf8(text);
                        if bytes.len() > n {
                            Err("`starts_with` is longer than `"@ + name + "`"@)
                        } else {
                            Ok(jump(compare_bytes(g, at, bytes, 0, no), always(), yes))
                        }
                    },
                    _ => Err("`starts_with` takes a string literal"@),
                }
            } else {
                Err("`starts_with` takes a string literal"@)
            },
            _ => Err("`"@ + name + "` is not a string"@),
        },
        _ => Err("`starts_with` is a method of a string"@),
    }
}

/// Compute an expression into R0.
pub open spec fn value(w: World, g: Gen, e: tree::Expr) -> Result<(Gen, Value), Seq<char>>
    decreases
            e,
            (if is_logic(e) {
                5int
            } else {
                2int
            }),
{
    if is_logic(e) {
        match truth(w, g, e) {
            Ok(g1) => Ok((g1, Value::Num)),
            Err(m) => Err(m),
        }
    } else {
        match e.kind {
            tree::ExprKind::Int(n) => Ok((literal(g, n), Value::Num)),
            tree::ExprKind::Bool(b) => Ok(
                (
                    literal(
                        g,
                        if b {
                            1
                        } else {
                            0
                        },
                    ),
                    Value::Num,
                ),
            ),
            tree::ExprKind::Str(_) => Err("a string can only be used by `starts_with`"@),
            tree::ExprKind::Ident(name) => named(g, name),
            tree::ExprKind::Unary { op, expr } => match op {
                UnaryOp::Deref => match deref(g, *expr) {
                    Ok(g1) => Ok((g1, Value::Num)),
                    Err(m) => Err(m),
                },
                UnaryOp::Neg => match number(w, g, *expr) {
                    Ok(g1) => Ok(
                        (
                            masked(put(g1, alu(AluOp::Neg, Reg::R0, 0)), width_of(g.vars, e)),
                            Value::Num,
                        ),
                    ),
                    Err(m) => Err(m),
                },
                _ => match number(w, g, *expr) {
                    Ok(g1) => Ok(
                        (
                            masked(put(g1, alu(AluOp::Xor, Reg::R0, -1)), width_of(g.vars, e)),
                            Value::Num,
                        ),
                    ),
                    Err(m) => Err(m),
                },
            },
            tree::ExprKind::Binary { op, .. } => match operands(w, g, e) {
                Ok(g1) => Ok(
                    (
                        masked(
                            put(
                                put(g1, alu_reg(arithmetic(op)->0, Reg::R1, Reg::R0)),
                                copy(Reg::R0, Reg::R1),
                            ),
                            width_of(g.vars, e),
                        ),
                        Value::Num,
                    ),
                ),
                Err(m) => Err(m),
            },
            tree::ExprKind::Cast { .. } => Err("`as` casts are not supported yet"@),
            tree::ExprKind::Call { callee, args } => match called(g, e, *callee, args) {
                Ok(g1) => Ok((g1, Value::Num)),
                Err(m) => Err(m),
            },
            tree::ExprKind::MethodCall { receiver, method, args } => method_value(
                w,
                g,
                *receiver,
                method.name,
                args,
            ),
            tree::ExprKind::Field { .. } => Err("field access is not supported yet"@),
            tree::ExprKind::Index { .. } => Err("indexing is not supported yet"@),
        }
    }
}

/// Compute an expression that has to be a number.
pub open spec fn number(w: World, g: Gen, e: tree::Expr) -> Made
    decreases e, 6int,
{
    match value(w, g, e) {
        Ok((g1, Value::Num)) => Ok(g1),
        Ok((_, Value::Maybe(_))) => Err(unchecked(e)),
        Err(m) => Err(m),
    }
}

/// The left operand in R1, the right one in R0.
pub open spec fn operands(w: World, g: Gen, e: tree::Expr) -> Made
    decreases e, 1int,
{
    match e.kind {
        tree::ExprKind::Binary { lhs, rhs, .. } => match number(w, g, *lhs) {
            Err(m) => Err(m),
            Ok(g1) => match grow(g1, 8) {
                Err(m) => Err(m),
                Ok(g2) => match number(
                    w,
                    put(g2, store(Size::DW, Reg::R10, -(g2.depth as int), Reg::R0)),
                    *rhs,
                ) {
                    Err(m) => Err(m),
                    Ok(g3) => Ok(
                        up(put(g3, load(Size::DW, Reg::R1, Reg::R10, -(g2.depth as int))), g1),
                    ),
                },
            },
        },
        _ => Err(Seq::empty()),
    }
}

/// Something true or false as 1 or 0.
pub open spec fn truth(w: World, g: Gen, e: tree::Expr) -> Made
    decreases e, 4int,
{
    let yes = g.out.labels.len() as int;
    match fresh3(g) {
        Err(m) => Err(m),
        Ok(g1) => match branch(w, g1, e, yes, yes + 1) {
            Err(m) => Err(m),
            Ok(g2) => {
                let g3 = jump(put(bound(g2, yes), set_num(Reg::R0, 1)), always(), yes + 2);
                Ok(bound(put(bound(g3, yes + 1), set_num(Reg::R0, 0)), yes + 2))
            },
        },
    }
}

/// Go to `yes` if the expression holds, and to `no` if it does not.
pub open spec fn branch(w: World, g: Gen, e: tree::Expr, yes: int, no: int) -> Made
    decreases e, 3int,
{
    match e.kind {
        tree::ExprKind::Unary { op: UnaryOp::Not, expr } => branch(w, g, *expr, no, yes),
        tree::ExprKind::Binary { op: BinaryOp::And, lhs, rhs } => {
            let next = g.out.labels.len() as int;
            match fresh(g) {
                Err(m) => Err(m),
                Ok(g1) => match branch(w, g1, *lhs, next, no) {
                    Err(m) => Err(m),
                    Ok(g2) => branch(w, bound(g2, next), *rhs, yes, no),
                },
            }
        },
        tree::ExprKind::Binary { op: BinaryOp::Or, lhs, rhs } => {
            let next = g.out.labels.len() as int;
            match fresh(g) {
                Err(m) => Err(m),
                Ok(g1) => match branch(w, g1, *lhs, yes, next) {
                    Err(m) => Err(m),
                    Ok(g2) => branch(w, bound(g2, next), *rhs, yes, no),
                },
            }
        },
        _ => if let Some(op) = compares(e) {
            match operands(w, g, e) {
                Err(m) => Err(m),
                Ok(g1) => Ok(jump(jump(g1, if_reg(op, Reg::R1, Reg::R0), yes), always(), no)),
            }
        } else if is_logic(e) {
            prefix_test(
                g,
                *e.kind->MethodCall_receiver,
                e.kind->MethodCall_args,
                yes,
                no,
            )
        } else {
            match value(w, g, e) {
                Ok((g1, Value::Num)) => Ok(
                    jump(jump(g1, if_num(JmpOp::Ne, Reg::R0, 0), yes), always(), no),
                ),
                Ok((_, Value::Maybe(_))) => Err(unchecked(e)),
                Err(m) => Err(m),
            }
        },
    }
}

/// The comparison that an expression is.
pub open spec fn compares(e: tree::Expr) -> Option<JmpOp> {
    match e.kind {
        tree::ExprKind::Binary { op, .. } => comparison(op),
        _ => None,
    }
}

/// Three more labels.
pub open spec fn fresh3(g: Gen) -> Made {
    match fresh(g) {
        Err(m) => Err(m),
        Ok(g1) => match fresh(g1) {
            Err(m) => Err(m),
            Ok(g2) => fresh(g2),
        },
    }
}

/// A method call that gives a value.
pub open spec fn method_value(
    w: World,
    g: Gen,
    receiver: tree::Expr,
    method: Seq<char>,
    args: Seq<tree::Expr>,
) -> Result<(Gen, Value), Seq<char>>
    decreases args, 0int,
{
    match receiver.kind {
        tree::ExprKind::Ident(name) => match table_at(w.tables, name, 0) {
            Some(t) => if method == "get"@ && args.len() == 1 {
                match keyed(w, g, w.tables[t].key, args[0]) {
                    Err(m) => Err(m),
                    Ok(g1) => Ok(
                        (
                            up(on_map(g1, t, g1.depth, Helper::MapLookupElem), g),
                            Value::Maybe(w.tables[t].value),
                        ),
                    ),
                }
            } else {
                Err("`"@ + name + "."@ + method + "` gives no value"@)
            },
            None => match byte_of(g, name, method, args) {
                Err(m) => Err(m),
                Ok(g1) => Ok((g1, Value::Num)),
            },
        },
        _ => Err("methods need a name in front"@),
    }
}

/// Compute an expression and keep it in a slot of its own, `size` bytes wide.
pub open spec fn keyed(w: World, g: Gen, size: Size, e: tree::Expr) -> Made
    decreases e, 7int,
{
    match number(w, g, e) {
        Err(m) => Err(m),
        Ok(g1) => match grow(g1, 8) {
            Err(m) => Err(m),
            Ok(g2) => Ok(put(g2, store(size, Reg::R10, -(g2.depth as int), Reg::R0))),
        },
    }
}

// -------------------------------------------------------------- statements

/// How many bytes `str<n>` is given on the stack.
pub open spec fn text_room(n: int) -> nat {
    ((n + 7) / 8 * 8) as nat
}

/// The capacity that a type annotation asks for, if it is a text.
pub open spec fn text_type(t: Option<tree::Type>) -> Option<u64> {
    match t {
        Some(t) => if t.name.name == "str"@ && t.args.len() == 1 {
            match t.args[0] {
                tree::TypeArg::Int(n) => Some(n),
                _ => None,
            }
        } else {
            None
        },
        None => None,
    }
}

/// Fill a text of `n` bytes in a new slot.
#[verifier::opaque]
pub open spec fn text_value(w: World, g: Gen, n: u64, e: tree::Expr) -> Made {
    match e.kind {
        tree::ExprKind::Call { callee, args } => match callee.kind {
            tree::ExprKind::Ident(name) => if name == "comm"@ && args.len() == 0 {
                match grow(g, text_room(n as int)) {
                    Err(m) => Err(m),
                    Ok(g1) => Ok(
                        put(
                            put(point(g1, Reg::R1, g1.depth), set_num(Reg::R2, n as i32)),
                            helper(Helper::GetCurrentComm),
                        ),
                    ),
                }
            } else if name == "read_user_str"@ && args.len() == 1 {
                match number(w, g, args[0]) {
                    Err(m) => Err(m),
                    Ok(g1) => match grow(g1, text_room(n as int)) {
                        Err(m) => Err(m),
                        Ok(g2) => Ok(
                            put(
                                put(
                                    point(put(g2, copy(Reg::R3, Reg::R0)), Reg::R1, g2.depth),
                                    set_num(Reg::R2, n as i32),
                                ),
                                helper(Helper::ProbeReadUserStr),
                            ),
                        ),
                    },
                }
            } else {
                Err("a string comes from `comm()` or `read_user_str(p)`"@)
            },
            _ => Err("a string comes from `comm()` or `read_user_str(p)`"@),
        },
        _ => Err("a string comes from `comm()` or `read_user_str(p)`"@),
    }
}

/// `let name = e;`
#[verifier::opaque]
pub open spec fn let_stmt(
    w: World,
    g: Gen,
    name: Seq<char>,
    t: Option<tree::Type>,
    e: tree::Expr,
) -> Made {
    match text_type(t) {
        Some(n) => if n == 0 {
            Err("`str<0>` holds nothing"@)
        } else if n > STACK_BYTES {
            Err("probe needs more than 512 bytes of stack"@)
        } else {
            match text_value(w, g, n, e) {
                Err(m) => Err(m),
                Ok(g1) => Ok(with(g1, name, Place::Text(g1.depth, n as nat))),
            }
        },
        None => match value(w, g, e) {
            Err(m) => Err(m),
            Ok((g0, v)) => match grow(
                match v {
                    Value::Num => fit(g0, width_of(g.vars, e), local_size(g.vars, t, e)),
                    Value::Maybe(_) => g0,
                },
                8,
            ) {
                Err(m) => Err(m),
                Ok(g2) => {
                    let g3 = put(g2, store(Size::DW, Reg::R10, -(g2.depth as int), Reg::R0));
                    Ok(
                        with(
                            g3,
                            name,
                            match v {
                                Value::Num => Place::Num(g2.depth, local_size(g.vars, t, e)),
                                Value::Maybe(size) => Place::Maybe(g2.depth, size),
                            },
                        ),
                    )
                },
            },
        },
    }
}

/// The width of a local: what it is declared as, or what its value has.
pub open spec fn local_size(vars: Seq<Var>, t: Option<tree::Type>, e: tree::Expr) -> Size {
    match t {
        Some(t) => declared_size(t),
        None => match width_of(vars, e) {
            Some(size) => size,
            None => Size::DW,
        },
    }
}

/// The width of a type; what is no narrow integer takes a whole slot.
pub open spec fn declared_size(t: tree::Type) -> Size {
    match map_size(t) {
        Some(size) => size,
        None => Size::DW,
    }
}

/// `target = e;`
#[verifier::opaque]
pub open spec fn assign(w: World, g: Gen, target: tree::Expr, e: tree::Expr) -> Made {
    match target.kind {
        tree::ExprKind::Ident(name) => match find(g.vars, name) {
            Some(Place::Num(at, size)) => match number(w, g, e) {
                Err(m) => Err(m),
                Ok(g0) => Ok(put(fit(g0, width_of(g.vars, e), size), store(Size::DW, Reg::R10, -(at as int), Reg::R0))),
            },
            Some(_) => Err("cannot assign to `"@ + name + "`"@),
            None => Err("unknown name `"@ + name + "`"@),
        },
        tree::ExprKind::Unary { .. } => Err("writing through a map pointer is not supported yet"@),
        _ => Err("field access is not supported yet"@),
    }
}

/// A call for what it does.
#[verifier::opaque]
pub open spec fn expr_stmt(w: World, g: Gen, e: tree::Expr) -> Made {
    match e.kind {
        tree::ExprKind::MethodCall { receiver, method, args } => match receiver.kind {
            tree::ExprKind::Ident(name) => match table_at(w.tables, name, 0) {
                Some(t) => if method.name == "insert"@ && args.len() == 2 {
                    insert(w, g, t, args)
                } else if method.name == "delete"@ && args.len() == 1 {
                    match keyed(w, g, w.tables[t].key, args[0]) {
                        Err(m) => Err(m),
                        Ok(g1) => Ok(up(on_map(g1, t, g1.depth, Helper::MapDeleteElem), g)),
                    }
                } else {
                    discarded(value(w, g, e))
                },
                None => discarded(value(w, g, e)),
            },
            _ => discarded(value(w, g, e)),
        },
        _ => discarded(value(w, g, e)),
    }
}

pub open spec fn discarded(r: Result<(Gen, Value), Seq<char>>) -> Made {
    match r {
        Ok((g, _)) => Ok(g),
        Err(m) => Err(m),
    }
}

/// `m.insert(k, v)`
#[verifier::opaque]
pub open spec fn insert(w: World, g: Gen, t: int, args: Seq<tree::Expr>) -> Made {
    match keyed(w, g, w.tables[t].key, args[0]) {
        Err(m) => Err(m),
        Ok(g1) => match keyed(w, g1, w.tables[t].value, args[1]) {
            Err(m) => Err(m),
            Ok(g2) => {
                let g3 = point(put(g2, set_map(Reg::R1, t + 1)), Reg::R2, g1.depth);
                let g4 = put(point(g3, Reg::R3, g2.depth), set_num(Reg::R4, 0));
                Ok(up(put(g4, helper(Helper::MapUpdateElem)), g))
            },
        },
    }
}

/// What the code generator calls a kind of field.
pub open spec fn kind_text(k: FieldKind) -> Seq<char> {
    match k {
        FieldKind::Uint(n) => "Uint("@ + dec(n as nat) + ")"@,
        FieldKind::Str(n) => "Str("@ + dec(n as nat) + ")"@,
        FieldKind::Bool => "Bool"@,
    }
}

/// The access that a number of so many bytes takes.
pub open spec fn width_size(n: u32) -> Size {
    if n == 1 {
        Size::B
    } else if n == 2 {
        Size::H
    } else if n == 4 {
        Size::W
    } else {
        Size::DW
    }
}

/// A builtin without arguments, stored in a field.
#[verifier::opaque]
pub open spec fn emit_builtin(g: Gen, off: int, kind: FieldKind, name: Seq<char>) -> Made {
    match builtin_width(name) {
        Some(width) => if kind == FieldKind::Uint(width) {
            Ok(put(builtin(g, name), store(width_size(width), Reg::R6, off, Reg::R0)))
        } else {
            Err(
                "`"@ + name + "()` produces a u"@ + dec((width * 8) as nat) + ", field is "@
                    + kind_text(kind),
            )
        },
        None => if name == "comm"@ {
            match kind {
                FieldKind::Str(n) => Ok(
                    put(
                        put(
                            put(put(g, copy(Reg::R1, Reg::R6)), alu(AluOp::Add, Reg::R1, off)),
                            set_num(Reg::R2, n as i32),
                        ),
                        helper(Helper::GetCurrentComm),
                    ),
                ),
                _ => Err("`comm()` must fill a `str<N>` field, not "@ + kind_text(kind)),
            }
        } else {
            Err("unknown builtin `"@ + name + "()`"@)
        },
    }
}

/// Copy a text of `n` bytes from the stack into the record, from the `i`th
/// byte on.
pub open spec fn copy_bytes(g: Gen, at: nat, off: int, i: int, n: int) -> Gen
    decreases n - i,
{
    if i >= n {
        g
    } else {
        copy_bytes(
            put(
                put(g, load(Size::B, Reg::R0, Reg::R10, i - at)),
                store(Size::B, Reg::R6, off + i, Reg::R0),
            ),
            at,
            off,
            i + 1,
            n,
        )
    }
}

/// A field that can only be filled with what it is.
pub open spec fn bad_field(e: tree::Expr, kind: FieldKind) -> Seq<char> {
    "unsupported field value `"@ + expr_text(e) + "` for a field "@ + kind_text(kind)
}

/// Store a value in the field at `off`.
#[verifier::opaque]
pub open spec fn emit_field(w: World, g: Gen, off: u32, kind: FieldKind, e: tree::Expr) -> Made {
    if off > i16::MAX {
        Err("field offset too large"@)
    } else if nullary(e) {
        match e.kind->Call_callee.kind {
            tree::ExprKind::Ident(name) => emit_builtin(g, off as int, kind, name),
            _ => Err("expected a builtin name"@),
        }
    } else {
        match kind {
            FieldKind::Str(n) => match e.kind {
                tree::ExprKind::Ident(name) => match find(g.vars, name) {
                    Some(Place::Text(at, m)) => if m != n {
                        Err(bad_field(e, kind))
                    } else if off + n > i16::MAX {
                        Err("field offset too large"@)
                    } else {
                        Ok(copy_bytes(g, at, off as int, 0, n as int))
                    },
                    _ => Err(bad_field(e, kind)),
                },
                _ => Err(bad_field(e, kind)),
            },
            FieldKind::Uint(n) => match number(w, g, e) {
                Err(m) => Err(m),
                Ok(g1) => Ok(put(g1, store(width_size(n), Reg::R6, off as int, Reg::R0))),
            },
            FieldKind::Bool => match number(w, g, e) {
                Err(m) => Err(m),
                Ok(g1) => Ok(put(g1, store(Size::B, Reg::R6, off as int, Reg::R0))),
            },
        }
    }
}

/// A call without arguments.
pub open spec fn nullary(e: tree::Expr) -> bool {
    match e.kind {
        tree::ExprKind::Call { args, .. } => args.len() == 0,
        _ => false,
    }
}

/// The fields of an `emit` from the `i`th on. None may be set twice.
#[verifier::opaque]
pub open spec fn emit_fields(
    w: World,
    g: Gen,
    l: Layout,
    fields: Seq<(tree::Ident, tree::Expr)>,
    i: int,
) -> Made
    decreases fields.len() - i,
{
    if i >= fields.len() {
        Ok(g)
    } else if given(fields, i, fields[i].0.name) {
        Err("field `"@ + fields[i].0.name + "` given twice"@)
    } else {
        match slot_named(l.fields, fields[i].0.name, 0) {
            None => Err(
                "event `"@ + l.name + "` has no field `"@ + fields[i].0.name + "`"@,
            ),
            Some(k) => match emit_field(w, g, l.fields[k].offset, l.fields[k].kind, fields[i].1) {
                Err(m) => Err(m),
                Ok(g1) => emit_fields(w, g1, l, fields, i + 1),
            },
        }
    }
}

/// The layout of an event, or why it has none.
#[verifier::opaque]
pub open spec fn event_layout(e: tree::EventDecl) -> Result<Layout, Seq<char>> {
    let n = e.fields.len() as int;
    if !layout_fits(e) {
        Err("event `"@ + e.name.name + "` is too large"@)
    } else if !held(e.fields, n) {
        Err(unsupported(e, first_unheld(e.fields, 0)))
    } else if layout_of(e).size > i32::MAX {
        Err("event `"@ + e.name.name + "` is too large"@)
    } else {
        Ok(layout_of(e))
    }
}

/// The event to emit, and that it is the only one.
#[verifier::opaque]
pub open spec fn chosen(w: World, g: Gen, name: Seq<char>) -> Result<Layout, Seq<char>> {
    match event_at(w.events, name, 0) {
        None => Err("unknown event `"@ + name + "`"@),
        Some(k) => match event_layout(w.events[k]) {
            Err(m) => Err(m),
            Ok(l) => match g.event {
                Some(first) => if first.name == l.name {
                    Ok(l)
                } else {
                    Err("only one event per program is supported"@)
                },
                None => Ok(l),
            },
        },
    }
}

/// Ask for a record, and keep it in R6; go to `lost` if there is none.
pub open spec fn reserve(g: Gen, size: u32, lost: int) -> Gen {
    let g1 = put(put(g, set_map(Reg::R1, 0)), set_num(Reg::R2, size as i32));
    let g2 = put(put(g1, set_num(Reg::R3, 0)), helper(Helper::RingbufReserve));
    put(jump(g2, if_num(JmpOp::Eq, Reg::R0, 0), lost), copy(Reg::R6, Reg::R0))
}

/// Hand the record over.
pub open spec fn submit(g: Gen) -> Gen {
    put(put(put(g, copy(Reg::R1, Reg::R6)), set_num(Reg::R2, 0)), helper(Helper::RingbufSubmit))
}

/// `emit name { fields }`
#[verifier::opaque]
pub open spec fn emit(
    w: World,
    g: Gen,
    name: Seq<char>,
    fields: Seq<(tree::Ident, tree::Expr)>,
) -> Made {
    match chosen(w, g, name) {
        Err(m) => Err(m),
        Ok(l) => if fields.len() != l.fields.len() {
            Err(
                "event `"@ + l.name + "` has "@ + dec(l.fields.len()) + " fields but `emit` provides "@
                    + dec(fields.len()),
            )
        } else {
            let lost = g.out.labels.len() as int;
            match fresh(Gen { event: Some(l), ..g }) {
                Err(m) => Err(m),
                Ok(g1) => match emit_fields(w, reserve(g1, l.size, lost), l, fields, 0) {
                    Err(m) => Err(m),
                    Ok(g2) => Ok(bound(submit(g2), lost)),
                },
            }
        },
    }
}

/// The statements from the `i`th on. `end` is the label of the program's end.
pub open spec fn stmts(w: World, g: Gen, list: Seq<tree::Stmt>, i: int, end: int) -> Made
    decreases list, list.len() - i,
{
    if 0 <= i < list.len() {
        match stmt(w, g, list[i], end) {
            Err(m) => Err(m),
            Ok(g1) => stmts(w, g1, list, i + 1, end),
        }
    } else {
        Ok(g)
    }
}

/// A block, with its own names and slots.
pub open spec fn block(w: World, g: Gen, b: tree::Block, end: int) -> Made
    decreases b, 0int,
{
    match stmts(w, g, b.stmts, 0, end) {
        Err(m) => Err(m),
        Ok(g1) => Ok(back(g1, g)),
    }
}

/// What stands behind the body of an `if`; `no` is where the condition goes
/// when it fails.
pub open spec fn otherwise_part(
    w: World,
    g: Gen,
    otherwise: Option<tree::Block>,
    no: int,
    end: int,
) -> Made
    decreases otherwise, 1int,
{
    match otherwise {
        None => Ok(bound(g, no)),
        Some(b) => {
            let done = g.out.labels.len() as int;
            match fresh(g) {
                Err(m) => Err(m),
                Ok(g1) => match block(w, bound(jump(g1, always(), done), no), b, end) {
                    Err(m) => Err(m),
                    Ok(g2) => Ok(bound(g2, done)),
                },
            }
        },
    }
}

/// The iterations of a loop from `lo` on, one behind the other.
pub open spec fn unroll(
    w: World,
    g: Gen,
    var: Seq<char>,
    lo: int,
    hi: int,
    body: tree::Block,
    end: int,
) -> Made
    decreases body, hi - lo,
{
    if lo >= hi {
        Ok(g)
    } else {
        match block(w, with(g, var, Place::Step(lo as u64)), body, end) {
            Err(m) => Err(m),
            Ok(g1) => unroll(w, back(g1, g), var, lo + 1, hi, body, end),
        }
    }
}

pub open spec fn stmt(w: World, g: Gen, s: tree::Stmt, end: int) -> Made
    decreases s, 0int,
{
    stmt_kind(w, g, s.kind, end)
}

pub open spec fn stmt_kind(w: World, g: Gen, kind: tree::StmtKind, end: int) -> Made
    decreases kind, 2int,
{
    match kind {
        tree::StmtKind::Let { name, ty, value: e, .. } => let_stmt(w, g, name.name, ty, e),
        tree::StmtKind::Assign { target, value: e } => assign(w, g, target, e),
        tree::StmtKind::If { cond, body, otherwise } => match cond {
            tree::Cond::Expr(e) => match tested(w, g, e) {
                Err(m) => Err(m),
                Ok(g1) => match block(w, g1, body, end) {
                    Err(m) => Err(m),
                    Ok(g2) => otherwise_part(
                        w,
                        g2,
                        otherwise,
                        g.out.labels.len() as int + 1,
                        end,
                    ),
                },
            },
            tree::Cond::Let { pattern, value: e } => match checked(w, g, pattern, e) {
                Err(m) => Err(m),
                Ok(g1) => match block(w, g1, body, end) {
                    Err(m) => Err(m),
                    Ok(g2) => otherwise_part(
                        w,
                        back(g2, g),
                        otherwise,
                        g1.out.labels.len() - 1,
                        end,
                    ),
                },
            },
        },
        tree::StmtKind::For { var, start, end: stop, body } => match (
            const_of(g.vars, start),
            const_of(g.vars, stop),
        ) {
            (Some(lo), Some(hi)) => if hi > lo && hi - lo > MAX_ITERATIONS {
                Err("loop has more than 64 iterations"@)
            } else {
                unroll(w, g, var.name, lo as int, hi as int, body, end)
            },
            _ => Err("`for` bounds must be constant"@),
        },
        tree::StmtKind::Emit { event, fields } => emit(w, g, event.name, fields),
        tree::StmtKind::Return(v) => match v {
            Some(_) => Err("`return` in a probe takes no value"@),
            None => Ok(jump(g, always(), end)),
        },
        tree::StmtKind::Expr(e) => expr_stmt(w, g, e),
    }
}

/// `if e`: two new labels, the first for the body, which starts here, the second
/// for what to do if the condition fails.
#[verifier::opaque]
pub open spec fn tested(w: World, g: Gen, e: tree::Expr) -> Made {
    let yes = g.out.labels.len() as int;
    match fresh2(g) {
        Err(m) => Err(m),
        Ok(g1) => match branch(w, g1, e, yes, yes + 1) {
            Err(m) => Err(m),
            Ok(g2) => Ok(bound(g2, yes)),
        },
    }
}

/// Two more labels.
pub open spec fn fresh2(g: Gen) -> Made {
    match fresh(g) {
        Err(m) => Err(m),
        Ok(g1) => fresh(g1),
    }
}

/// `if let Some(x) = e`: keep the pointer in a slot, then test it, so that the
/// test covers the slot too. The last label is where to go if it is null.
#[verifier::opaque]
pub open spec fn checked(w: World, g: Gen, p: tree::Pattern, e: tree::Expr) -> Made {
    match p.binding {
        Some(x) => if p.name.name == "Some"@ {
            match value(w, g, e) {
                Err(m) => Err(m),
                Ok((_, Value::Num)) => Err(
                    "`if let Some(x)` needs `map.get(k)`, not `"@ + expr_text(e) + "`"@,
                ),
                Ok((g1, Value::Maybe(size))) => match grow(g1, 8) {
                    Err(m) => Err(m),
                    Ok(g2) => {
                        let no = g2.out.labels.len() as int;
                        match fresh(
                            put(g2, store(Size::DW, Reg::R10, -(g2.depth as int), Reg::R0)),
                        ) {
                            Err(m) => Err(m),
                            Ok(g3) => Ok(
                                with(
                                    jump(g3, if_num(JmpOp::Eq, Reg::R0, 0), no),
                                    x.name,
                                    Place::Ref(g2.depth, size),
                                ),
                            ),
                        }
                    },
                },
            }
        } else {
            Err("only `if let Some(x) = ..` is supported"@)
        },
        None => Err("only `if let Some(x) = ..` is supported"@),
    }
}

// ----------------------------------------------------------------- program

/// What stands before the probe: its names and its maps.
pub struct Declared {
    pub vars: Seq<Var>,
    pub tables: Seq<Table>,
    pub events: Seq<tree::EventDecl>,
    pub probe: Option<tree::ProbeDecl>,
}

/// The access that a map's key or value takes.
pub open spec fn map_size(t: tree::Type) -> Option<Size> {
    match field_kind(t.name.name, t.args) {
        Some(FieldKind::Uint(n)) => Some(width_size(n)),
        Some(FieldKind::Bool) => Some(Size::B),
        _ => None,
    }
}

/// A map as it is declared.
pub open spec fn table(m: tree::MapDecl) -> Result<Table, Seq<char>> {
    if m.capacity > u32::MAX {
        Err("map `"@ + m.name.name + "` is too large"@)
    } else if m.kind.name == "hash"@ && m.args.len() == 2 {
        match (map_size(m.args[0]), map_size(m.args[1])) {
            (Some(key), Some(v)) => Ok(
                Table {
                    name: m.name.name,
                    kind: MapKind::Hash,
                    key,
                    value: v,
                    entries: m.capacity as u32,
                },
            ),
            _ => Err("map `"@ + m.name.name + "` needs unsigned keys and values"@),
        }
    } else if m.kind.name == "array"@ && m.args.len() == 1 {
        match map_size(m.args[0]) {
            Some(v) => Ok(
                Table {
                    name: m.name.name,
                    kind: MapKind::Array,
                    key: Size::W,
                    value: v,
                    entries: m.capacity as u32,
                },
            ),
            None => Err("map `"@ + m.name.name + "` needs unsigned keys and values"@),
        }
    } else {
        Err("map `"@ + m.name.name + "` must be a `hash<K, V>` or an `array<V>`"@)
    }
}

/// The items from the `i`th on.
pub open spec fn declare(d: Declared, items: Seq<tree::Item>, i: int) -> Result<
    Declared,
    Seq<char>,
>
    decreases items.len() - i,
{
    if 0 <= i < items.len() {
        match items[i] {
            tree::Item::Event(e) => declare(
                Declared { events: d.events.push(e), ..d },
                items,
                i + 1,
            ),
            tree::Item::Probe(p) => if d.probe is Some {
                Err("this codegen slice supports only one probe"@)
            } else {
                declare(Declared { probe: Some(p), ..d }, items, i + 1)
            },
            tree::Item::Const(c) => match literal_of(c.value) {
                Some(n) => declare(
                    Declared {
                        vars: d.vars.push(Var { name: c.name.name, place: Place::Const(n, declared_size(c.ty)) }),
                        ..d
                    },
                    items,
                    i + 1,
                ),
                None => Err("`const "@ + c.name.name + "` must be an integer literal"@),
            },
            tree::Item::MapDecl(m) => match table(m) {
                Err(e) => Err(e),
                Ok(t) => if d.tables.len() >= MAX_MAPS {
                    Err("too many maps"@)
                } else {
                    declare(Declared { tables: d.tables.push(t), ..d }, items, i + 1)
                },
            },
        }
    } else {
        Ok(d)
    }
}

/// As many maps as can be numbered: the number of a map is a signed immediate of
/// 32 bits, and 0 is the ring buffer.
pub const MAX_MAPS: usize = 0x7fff_ffff;

/// Before the first statement: the context is kept in the first slot, where
/// `arg(n)` finds it.
pub open spec fn entry(vars: Seq<Var>) -> Gen {
    Gen {
        out: Asm {
            code: seq![store(Size::DW, Reg::R10, -8, Reg::R1)],
            jumps: Seq::empty(),
            labels: seq![None],
        },
        depth: 8,
        peak: 8,
        vars,
        event: None,
    }
}

/// The whole translation, with the end of the program in place.
pub open spec fn body(d: Declared, p: tree::ProbeDecl) -> Made {
    let w = World { tables: d.tables, events: d.events };
    match block(w, entry(d.vars), p.body, 0) {
        Err(m) => Err(m),
        Ok(g) => Ok(put(put(bound(g, 0), set_num(Reg::R0, 0)), leave())),
    }
}

/// A translated program: what it declares, its probe and the code.
pub struct Lowered {
    pub declared: Declared,
    pub probe: tree::ProbeDecl,
    pub state: Gen,
    pub event: Layout,
}

/// The translation of a program, or why there is none.
pub open spec fn lowered(program: tree::Program) -> Result<Lowered, Seq<char>> {
    let none = Declared {
        vars: Seq::empty(),
        tables: Seq::empty(),
        events: Seq::empty(),
        probe: None,
    };
    match declare(none, program.items, 0) {
        Err(m) => Err(m),
        Ok(d) => match d.probe {
            None => Err("no probe to compile"@),
            Some(p) => if p.kind.name != "tracepoint"@ {
                Err("only `tracepoint` probes are supported yet, got `"@ + p.kind.name + "`"@)
            } else if p.args.len() != 2 {
                Err("tracepoint probe needs exactly two string arguments"@)
            } else {
                match body(d, p) {
                    Err(m) => Err(m),
                    Ok(g) => match g.event {
                        None => Err("the probe emits no event"@),
                        Some(event) => if g.out.code.len() > MAX_INSNS {
                            Err("program too large"@)
                        } else {
                            Ok(Lowered { declared: d, probe: p, state: g, event })
                        },
                    },
                }
            },
        },
    }
}

} // verus!
