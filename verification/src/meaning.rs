//! What an expression is worth, and that its code computes it.
//!
//! `eval` and `truly` give expressions a meaning: numbers of 64 bits, cut to the
//! width of the expression, over the locals in their slots of the stack. Running
//! the code of an expression, jumps and all, gets to the end of it with that value
//! in R0, or for a condition to the label that its truth asks for.

use crate::ast::{BinaryOp, UnaryOp};
use crate::bpf::{AluOp, Asm, Helper, Insn, JmpOp, Reg, Size};
use crate::lowering::{
    alu, alu_reg, always, arithmetic, bound, branch, builtin, builtin_width, byte_of, called,
    compare_bytes, compares, comparison, const_of, copy, deref, find, find_const, fresh, fresh3,
    grow, helper, if_num, if_reg, is_logic, jump, keep_low, keyed, literal, load, masked, named,
    number, on_map, operands, point, prefix_test, put, set_map, set_num, set_wide, signed, store,
    table_at, truth, up, value, width_of, Gen, Place, Var, World,
};
use crate::machine::{
    as_signed, bytes_in, extended, fetched, jump_taken, kept, lemma_alu, lemma_alu_reg, lemma_call,
    lemma_copy, lemma_fetched_bound, lemma_fetched_same, lemma_helper_numbers, lemma_jumps_compare,
    lemma_keep_low, lemma_kept_elsewhere, lemma_load, lemma_operations_compute, lemma_set_map,
    lemma_set_num, lemma_set_wide, lemma_store, means, run, set_reg, span_of_bytes, step,
    takes_register, two64, word, Cpu, Deed, Kernel,
};
use crate::running::{builtin_value, lemma_builtins_run, only_answers, tells, Current};
use crate::tree;
use vstd::prelude::*;
use vstd::utf8::encode_utf8;

verus! {

// ------------------------------------------------------ the machine with jumps

/// A jump, and neither a call nor the end.
pub open spec fn jumps_somewhere(insn: Insn) -> bool {
    insn.opcode % 8 == 5 && insn.opcode as int / 16 != 8 && insn.opcode as int / 16 != 9
}

/// The label that the jump at `pc` goes to.
pub open spec fn label_of(f: Asm, pc: int) -> int {
    choose|l: int| f.jumps.contains((pc, l))
}

/// One step of the machine through code `f`.
pub open spec fn tick(f: Asm, k: Kernel, pc: int, c: Cpu) -> (int, Cpu) {
    let insn = f.code[pc];
    if !jumps_somewhere(insn) {
        (pc + 1, step(k, c, insn))
    } else if jump_taken(
        insn.opcode,
        c.regs[insn.dst as int],
        if takes_register(insn.opcode) {
            c.regs[insn.src as int]
        } else {
            extended(insn.imm)
        },
    ) {
        (f.labels[label_of(f, pc)]->0, c)
    } else {
        (pc + 1, c)
    }
}

/// `n` steps.
pub open spec fn go(f: Asm, k: Kernel, n: nat, pc: int, c: Cpu) -> (int, Cpu)
    decreases n,
{
    if n == 0 {
        (pc, c)
    } else {
        let (p, d) = tick(f, k, pc, c);
        go(f, k, (n - 1) as nat, p, d)
    }
}

/// From `pc` the machine gets to `p`, in state `d`.
pub open spec fn gets(f: Asm, k: Kernel, pc: int, c: Cpu, p: int, d: Cpu) -> bool {
    exists|n: nat| #[trigger] go(f, k, n, pc, c) == (p, d)
}

pub proof fn lemma_go_on(f: Asm, k: Kernel, n: nat, m: nat, pc: int, c: Cpu)
    ensures
        go(f, k, n + m, pc, c) == go(f, k, m, go(f, k, n, pc, c).0, go(f, k, n, pc, c).1),
    decreases n,
{
    if n > 0 {
        let (p, d) = tick(f, k, pc, c);
        lemma_go_on(f, k, (n - 1) as nat, m, p, d);
        assert((n + m - 1) as nat == (n - 1) as nat + m);
    }
}

pub proof fn lemma_gets_self(f: Asm, k: Kernel, pc: int, c: Cpu)
    ensures
        gets(f, k, pc, c, pc, c),
{
    assert(go(f, k, 0, pc, c) == (pc, c));
}

pub proof fn lemma_gets_on(
    f: Asm,
    k: Kernel,
    pc: int,
    c: Cpu,
    p: int,
    d: Cpu,
    q: int,
    e: Cpu,
)
    requires
        gets(f, k, pc, c, p, d),
        gets(f, k, p, d, q, e),
    ensures
        gets(f, k, pc, c, q, e),
{
    let n = choose|n: nat| #[trigger] go(f, k, n, pc, c) == (p, d);
    let m = choose|m: nat| #[trigger] go(f, k, m, p, d) == (q, e);
    lemma_go_on(f, k, n, m, pc, c);
}

pub proof fn lemma_gets_tick(f: Asm, k: Kernel, pc: int, c: Cpu)
    ensures
        gets(f, k, pc, c, tick(f, k, pc, c).0, tick(f, k, pc, c).1),
{
    let (p, d) = tick(f, k, pc, c);
    assert(go(f, k, 0, p, d) == (p, d));
    assert(go(f, k, 1, pc, c) == (p, d));
}

/// Every jump has one label.
pub open spec fn one_label(f: Asm) -> bool {
    forall|i: int, j: int|
        0 <= i < f.jumps.len() && 0 <= j < f.jumps.len() && (#[trigger] f.jumps[i]).0 == (
        #[trigger] f.jumps[j]).0 ==> f.jumps[i].1 == f.jumps[j].1
}

/// The code of `f` goes on from that of `a`: what stands in `a` stands in `f`.
pub open spec fn goes_on(a: Asm, f: Asm) -> bool {
    &&& a.code.len() <= f.code.len()
    &&& a.jumps.len() <= f.jumps.len()
    &&& a.labels.len() <= f.labels.len()
    &&& forall|i: int| 0 <= i < a.code.len() ==> #[trigger] f.code[i] == a.code[i]
    &&& forall|i: int| 0 <= i < a.jumps.len() ==> #[trigger] f.jumps[i] == a.jumps[i]
    &&& forall|l: int|
        0 <= l < a.labels.len() && (#[trigger] a.labels[l]) is Some ==> f.labels[l] == a.labels[l]
}

/// Jumps are noted in the order of the code.
pub open spec fn tidy(a: Asm) -> bool {
    &&& forall|i: int|
        0 <= i < a.jumps.len() ==> 0 <= (#[trigger] a.jumps[i]).0 < a.code.len()
    &&& forall|i: int, j: int|
        0 <= i < j < a.jumps.len() ==> (#[trigger] a.jumps[i]).0 < (#[trigger] a.jumps[j]).0
}

/// So every jump has one label.
pub proof fn lemma_tidy(a: Asm)
    requires
        tidy(a),
    ensures
        one_label(a),
{
    assert forall|i: int, j: int|
        0 <= i < a.jumps.len() && 0 <= j < a.jumps.len() && (#[trigger] a.jumps[i]).0 == (
        #[trigger] a.jumps[j]).0 implies a.jumps[i].1 == a.jumps[j].1 by {
        if i < j {
            assert(a.jumps[i].0 < a.jumps[j].0);
        } else if j < i {
            assert(a.jumps[j].0 < a.jumps[i].0);
        }
    }
}

/// The same, and no label of `a` was placed since.
pub open spec fn extends(a: Asm, b: Asm) -> bool {
    &&& goes_on(a, b)
    &&& tidy(a) ==> tidy(b)
    &&& forall|l: int| 0 <= l < a.labels.len() ==> #[trigger] b.labels[l] == a.labels[l]
}

pub proof fn lemma_extends_on(a: Asm, b: Asm, d: Asm)
    requires
        extends(a, b),
        extends(b, d),
    ensures
        extends(a, d),
{
    assert forall|i: int| 0 <= i < a.code.len() implies #[trigger] d.code[i] == a.code[i] by {
        assert(b.code[i] == a.code[i]);
    }
    assert forall|i: int| 0 <= i < a.jumps.len() implies #[trigger] d.jumps[i] == a.jumps[i] by {
        assert(b.jumps[i] == a.jumps[i]);
    }
    assert forall|l: int| 0 <= l < a.labels.len() implies #[trigger] d.labels[l]
        == a.labels[l] by {
        assert(b.labels[l] == a.labels[l]);
    }
}

pub proof fn lemma_goes_back(a: Asm, b: Asm, f: Asm)
    requires
        extends(a, b),
        goes_on(b, f),
    ensures
        goes_on(a, f),
{
    assert forall|i: int| 0 <= i < a.code.len() implies #[trigger] f.code[i] == a.code[i] by {
        assert(b.code[i] == a.code[i]);
    }
    assert forall|i: int| 0 <= i < a.jumps.len() implies #[trigger] f.jumps[i] == a.jumps[i] by {
        assert(b.jumps[i] == a.jumps[i]);
    }
    assert forall|l: int| 0 <= l < a.labels.len() && (#[trigger] a.labels[l]) is Some implies f
        .labels[l] == a.labels[l] by {
        assert(b.labels[l] == a.labels[l]);
    }
}

/// Only code, jumps and new labels came between `g` and `h`.
pub open spec fn steps(g: Gen, h: Gen) -> bool {
    extends(g.out, h.out) && h.depth == g.depth && h.vars == g.vars && h.event == g.event
}

pub proof fn lemma_steps_on(a: Gen, b: Gen, d: Gen)
    requires
        steps(a, b),
        steps(b, d),
    ensures
        steps(a, d),
{
    lemma_extends_on(a.out, b.out, d.out);
}

/// One instruction that is no jump.
pub proof fn lemma_put_runs(f: Asm, k: Kernel, g: Gen, insn: Insn, c: Cpu)
    requires
        goes_on(put(g, insn).out, f),
        !jumps_somewhere(insn),
    ensures
        gets(
            f,
            k,
            g.out.code.len() as int,
            c,
            g.out.code.len() as int + 1,
            step(k, c, insn),
        ),
{
    let pc = g.out.code.len() as int;
    assert(put(g, insn).out.code[pc] == insn);
    assert(f.code[pc] == insn);
    lemma_gets_tick(f, k, pc, c);
}

/// One jump: to its label where it is taken, and on where it is not.
pub proof fn lemma_jump_runs(f: Asm, k: Kernel, g: Gen, insn: Insn, label: int, c: Cpu)
    requires
        goes_on(jump(g, insn, label).out, f),
        one_label(f),
        jumps_somewhere(insn),
    ensures
        ({
            let pc = g.out.code.len() as int;
            let b = if takes_register(insn.opcode) {
                c.regs[insn.src as int]
            } else {
                extended(insn.imm)
            };
            let p = if jump_taken(insn.opcode, c.regs[insn.dst as int], b) {
                f.labels[label]->0
            } else {
                pc + 1
            };
            gets(f, k, pc, c, p, c)
        }),
{
    let pc = g.out.code.len() as int;
    let a = jump(g, insn, label).out;
    let i = g.out.jumps.len() as int;
    assert(a.code[pc] == insn);
    assert(f.code[pc] == insn);
    assert(a.jumps[i] == (pc, label));
    assert(f.jumps[i] == (pc, label));
    assert(f.jumps.contains((pc, label)));
    let l = label_of(f, pc);
    assert(f.jumps.contains((pc, l)));
    let j = choose|j: int| 0 <= j < f.jumps.len() && f.jumps[j] == (pc, l);
    assert(f.jumps[j].0 == f.jumps[i].0);
    lemma_gets_tick(f, k, pc, c);
}

// ------------------------------------------------------------------- meanings

/// Something true or false.
pub open spec fn is_truth(e: tree::Expr) -> bool {
    match e.kind {
        tree::ExprKind::Unary { op, .. } => op is Not,
        tree::ExprKind::Binary { op, .. } => match op {
            BinaryOp::And | BinaryOp::Or => true,
            BinaryOp::Eq | BinaryOp::Ne | BinaryOp::Lt | BinaryOp::Le | BinaryOp::Gt
            | BinaryOp::Ge => true,
            _ => false,
        },
        tree::ExprKind::MethodCall { method, .. } => method.name == "starts_with"@,
        _ => false,
    }
}

/// A builtin that takes nothing and gives a number: an id of 4 bytes, or the
/// time, of 8.
pub open spec fn plain_builtin(name: Seq<char>) -> Option<nat> {
    if name == "ktime"@ {
        Some(8)
    } else if name == "pid"@ || name == "tgid"@ || name == "tid"@ || name == "uid"@ || name
        == "gid"@ {
        Some(4)
    } else {
        None
    }
}

/// How many bytes an expression is wide; none where it is made of literals alone.
pub open spec fn width(vars: Seq<Var>, e: tree::Expr) -> Option<nat>
    decreases e,
{
    if is_truth(e) {
        Some(1)
    } else {
        match e.kind {
            tree::ExprKind::Bool(_) => Some(1),
            tree::ExprKind::Ident(name) => match find(vars, name) {
                Some(Place::Const(_, s)) => Some(bytes_in(s)),
                Some(Place::Num(_, s)) => Some(bytes_in(s)),
                Some(Place::Step(_)) => Some(8),
                _ => None,
            },
            tree::ExprKind::Unary { op, expr } => if op is Deref {
                match expr.kind {
                    tree::ExprKind::Ident(name) => match find(vars, name) {
                        Some(Place::Ref(_, s)) => Some(bytes_in(s)),
                        _ => None,
                    },
                    _ => None,
                }
            } else {
                width(vars, *expr)
            },
            tree::ExprKind::Binary { lhs, rhs, .. } => if width(vars, *lhs) is Some {
                width(vars, *lhs)
            } else {
                width(vars, *rhs)
            },
            tree::ExprKind::Call { callee, .. } => match callee.kind {
                tree::ExprKind::Ident(name) => if plain_builtin(name) is Some {
                    plain_builtin(name)
                } else {
                    Some(8)
                },
                _ => None,
            },
            tree::ExprKind::MethodCall { .. } => Some(1),
            _ => None,
        }
    }
}

/// A number cut to a width.
pub open spec fn cut(n: u64, w: Option<nat>) -> u64 {
    if w == Some(1nat) {
        (n % 0x100) as u64
    } else if w == Some(2nat) {
        (n % 0x1_0000) as u64
    } else if w == Some(4nat) {
        (n % 0x1_0000_0000) as u64
    } else {
        n
    }
}

/// The number that an expression is known to be when the code is made.
pub open spec fn settled(vars: Seq<Var>, e: tree::Expr) -> Option<int>
    decreases e,
{
    match e.kind {
        tree::ExprKind::Int(n) => Some(as_signed(n)),
        tree::ExprKind::Ident(name) => match (find_const(vars, name), find(vars, name)) {
            (Some(n), _) => Some(as_signed(n)),
            (None, Some(Place::Step(n))) => Some(as_signed(n)),
            _ => None,
        },
        tree::ExprKind::Binary { op, lhs, rhs } => match (settled(vars, *lhs), settled(vars, *rhs)) {
            (Some(a), Some(b)) => if op is Add {
                crate::typing::held64(a + b)
            } else if op is Sub {
                crate::typing::held64(a - b)
            } else if op is Mul {
                crate::typing::held64(a * b)
            } else if op is BitOr {
                Some((a as i64 | b as i64) as int)
            } else if op is BitAnd {
                Some((a as i64 & b as i64) as int)
            } else if op is Shl && 0 <= b < 64 {
                Some(((a as i64) << (b as i64)) as int)
            } else {
                None
            },
            _ => None,
        },
        _ => None,
    }
}

/// What two numbers are under an operator.
pub open spec fn computes(op: BinaryOp, a: u64, b: u64) -> u64 {
    match op {
        BinaryOp::Add => word(a + b),
        BinaryOp::Sub => word(a - b),
        BinaryOp::Mul => word(a * b),
        BinaryOp::Div => if b == 0 {
            0
        } else {
            a / b
        },
        BinaryOp::Rem => if b == 0 {
            a
        } else {
            a % b
        },
        BinaryOp::BitOr => a | b,
        BinaryOp::BitXor => a ^ b,
        BinaryOp::BitAnd => a & b,
        BinaryOp::Shl => a << (b % 64),
        _ => a >> (b % 64),
    }
}

/// Whether a comparison holds.
pub open spec fn compare(op: BinaryOp, a: u64, b: u64) -> bool {
    match op {
        BinaryOp::Eq => a == b,
        BinaryOp::Ne => a != b,
        BinaryOp::Lt => a < b,
        BinaryOp::Le => a <= b,
        BinaryOp::Gt => a > b,
        _ => a >= b,
    }
}

/// What a running program has around it.
pub struct Around {
    pub now: Current,
    /// The address of the value under a key of a map, or 0, after what was done.
    pub found: spec_fn(Seq<Deed>, int, int) -> u64,
    /// The address of a new record of so many bytes, or 0, after what was done.
    pub record: spec_fn(Seq<Deed>, int) -> u64,
    /// Where the stack ends: what R10 holds.
    pub stack: u64,
    /// The bytes of the process's name.
    pub comm: spec_fn(int) -> u8,
    /// The bytes that a read of so many from an address of the process gives.
    pub read: spec_fn(u64, int, int) -> u8,
}

/// The address of the slot that ends `at` bytes below R10.
pub open spec fn slot(c: Cpu, at: nat) -> int {
    c.regs[10] - at
}

/// The number in a slot.
pub open spec fn slot_value(c: Cpu, at: nat) -> u64 {
    fetched(c.mem, slot(c, at), 8) as u64
}

/// Whether a text on the stack starts with some bytes.
pub open spec fn text_starts(c: Cpu, at: nat, bytes: Seq<u8>) -> bool {
    forall|i: int| 0 <= i < bytes.len() ==> c.mem[slot(c, at) + i] == #[trigger] bytes[i]
}

/// What an expression is worth.
pub open spec fn eval(w: World, x: Around, vars: Seq<Var>, c: Cpu, e: tree::Expr) -> u64
    decreases
            e,
            (if is_truth(e) {
                1int
            } else {
                0int
            }),
{
    if is_truth(e) {
        if truly(w, x, vars, c, e) {
            1
        } else {
            0
        }
    } else {
        match e.kind {
            tree::ExprKind::Int(n) => n,
            tree::ExprKind::Bool(b) => if b {
                1
            } else {
                0
            },
            tree::ExprKind::Ident(name) => match find(vars, name) {
                Some(Place::Const(n, _)) => n,
                Some(Place::Step(n)) => n,
                Some(Place::Num(at, _)) => slot_value(c, at),
                Some(Place::Maybe(at, _)) => slot_value(c, at),
                _ => 0,
            },
            tree::ExprKind::Unary { op, expr } => match op {
                UnaryOp::Deref => match expr.kind {
                    tree::ExprKind::Ident(name) => match find(vars, name) {
                        Some(Place::Ref(at, s)) => fetched(
                            c.mem,
                            slot_value(c, at) as int,
                            bytes_in(s),
                        ) as u64,
                        _ => 0,
                    },
                    _ => 0,
                },
                UnaryOp::Neg => cut(word(-(eval(w, x, vars, c, *expr) as int)), width(vars, e)),
                _ => cut(
                    (u64::MAX - eval(w, x, vars, c, *expr)) as u64,
                    width(vars, e),
                ),
            },
            tree::ExprKind::Binary { op, lhs, rhs } => cut(
                computes(op, eval(w, x, vars, c, *lhs), eval(w, x, vars, c, *rhs)),
                width(vars, e),
            ),
            tree::ExprKind::Call { callee, args } => match callee.kind {
                tree::ExprKind::Ident(name) => if plain_builtin(name) is Some {
                    builtin_value(x.now, name)
                } else {
                    match settled(vars, args[0]) {
                        Some(n) => if 0 <= n <= 5 {
                            fetched(c.mem, slot_value(c, 8) + 16 + 8 * n, 8) as u64
                        } else {
                            0
                        },
                        None => 0,
                    }
                },
                _ => 0,
            },
            tree::ExprKind::MethodCall { receiver, method, args } => match receiver.kind {
                tree::ExprKind::Ident(name) => match table_at(w.tables, name, 0) {
                    Some(t) => if args.len() == 0 {
                        0
                    } else { (x.found)(
                        c.deeds,
                        t,
                        cut(
                            eval(w, x, vars, c, args[0]),
                            Some(bytes_in(w.tables[t].key)),
                        ) as int,
                    ) },
                    None => match (find(vars, name), settled(vars, args[0])) {
                        (Some(Place::Text(at, n)), Some(i)) => if 0 <= i < n {
                            c.mem[slot(c, at) + i] as u64
                        } else {
                            0
                        },
                        _ => 0,
                    },
                },
                _ => 0,
            },
            _ => 0,
        }
    }
}

/// Whether an expression holds.
pub open spec fn truly(w: World, x: Around, vars: Seq<Var>, c: Cpu, e: tree::Expr) -> bool
    decreases
            e,
            (if is_truth(e) {
                0int
            } else {
                1int
            }),
{
    if !is_truth(e) {
        eval(w, x, vars, c, e) != 0
    } else {
        match e.kind {
            tree::ExprKind::Unary { expr, .. } => !truly(w, x, vars, c, *expr),
            tree::ExprKind::Binary { op, lhs, rhs } => if op is And {
                truly(w, x, vars, c, *lhs) && truly(w, x, vars, c, *rhs)
            } else if op is Or {
                truly(w, x, vars, c, *lhs) || truly(w, x, vars, c, *rhs)
            } else {
                compare(op, eval(w, x, vars, c, *lhs), eval(w, x, vars, c, *rhs))
            },
            tree::ExprKind::MethodCall { receiver, method, args } => match (
                receiver.kind,
                args[0].kind,
            ) {
                (tree::ExprKind::Ident(name), tree::ExprKind::Str(s)) => match find(vars, name) {
                    Some(Place::Text(at, n)) => encode_utf8(s).len() <= n && text_starts(
                        c,
                        at,
                        encode_utf8(s),
                    ),
                    _ => false,
                },
                _ => false,
            },
            _ => false,
        }
    }
}

// ------------------------------------------------------------- what is kept

/// Every local has its place among the bytes in use.
pub open spec fn placed(vars: Seq<Var>, depth: nat) -> bool {
    forall|i: int|
        0 <= i < vars.len() ==> match (#[trigger] vars[i]).place {
            Place::Num(at, _) => 8 <= at <= depth,
            Place::Maybe(at, _) => 8 <= at <= depth,
            Place::Ref(at, _) => 8 <= at <= depth,
            Place::Text(at, n) => n <= at <= depth,
            _ => true,
        }
}

/// Memory that is not the stack.
pub open spec fn off_stack(c: Cpu, p: int, n: int) -> bool {
    p + n <= c.regs[10] - 512 || p >= c.regs[10]
}

/// A machine in the middle of a probe: locals in their places, pointers to memory
/// of the kernel, and the context in the first slot.
pub open spec fn sane(vars: Seq<Var>, depth: nat, c: Cpu) -> bool {
    &&& c.regs[10] >= 512
    &&& 8 <= depth <= 512
    &&& placed(vars, depth)
    &&& off_stack(c, slot_value(c, 8) as int, 64)
    &&& forall|i: int|
        0 <= i < vars.len() ==> ((#[trigger] vars[i]).place matches Place::Ref(at, s) ==> off_stack(
            c,
            slot_value(c, at) as int,
            bytes_in(s) as int,
        ))
}

/// Nothing but registers R0 to R5 and the unused part of the stack changed.
pub open spec fn agree(c: Cpu, d: Cpu, depth: nat) -> bool {
    &&& d.deeds == c.deeds
    &&& forall|r: int| 6 <= r <= 10 ==> #[trigger] d.regs[r] == c.regs[r]
    &&& forall|a: int|
        (a < c.regs[10] - 512 || a >= c.regs[10] - depth) ==> #[trigger] d.mem[a] == c.mem[a]
}

pub proof fn lemma_agree_on(c: Cpu, d: Cpu, e: Cpu, depth: nat, deeper: nat)
    requires
        agree(c, d, depth),
        agree(d, e, deeper),
        depth <= deeper,
    ensures
        agree(c, e, depth),
{
    assert(d.regs[10] == c.regs[10]);
    assert forall|r: int| 6 <= r <= 10 implies #[trigger] e.regs[r] == c.regs[r] by {
        assert(d.regs[r] == c.regs[r]);
    }
    assert forall|a: int|
        (a < c.regs[10] - 512 || a >= c.regs[10] - depth) implies #[trigger] e.mem[a]
        == c.mem[a] by {
        assert(d.mem[a] == c.mem[a]);
    }
}

pub proof fn lemma_slot_same(c: Cpu, d: Cpu, depth: nat, at: nat)
    requires
        agree(c, d, depth),
        8 <= at <= depth,
    ensures
        slot_value(d, at) == slot_value(c, at),
        slot(d, at) == slot(c, at),
{
    assert(d.regs[10] == c.regs[10]);
    lemma_fetched_same(d.mem, c.mem, slot(c, at), 8);
}

pub proof fn lemma_off_stack_same(c: Cpu, d: Cpu, depth: nat, p: int, n: nat, m: nat)
    requires
        agree(c, d, depth),
        off_stack(c, p, m as int),
        n <= m,
    ensures
        fetched(d.mem, p, n) == fetched(c.mem, p, n),
{
    lemma_fetched_same(d.mem, c.mem, p, n);
}

pub proof fn lemma_sane_same(vars: Seq<Var>, depth: nat, c: Cpu, d: Cpu)
    requires
        agree(c, d, depth),
        sane(vars, depth, c),
    ensures
        sane(vars, depth, d),
{
    assert(d.regs[10] == c.regs[10]);
    lemma_slot_same(c, d, depth, 8);
    assert forall|i: int| 0 <= i < vars.len() implies ((#[trigger] vars[i]).place matches Place::Ref(
        at,
        s,
    ) ==> off_stack(d, slot_value(d, at) as int, bytes_in(s) as int)) by {
        if let Place::Ref(at, s) = vars[i].place {
            lemma_slot_same(c, d, depth, at);
        }
    }
}

pub proof fn lemma_sane_deeper(vars: Seq<Var>, depth: nat, deeper: nat, c: Cpu)
    requires
        sane(vars, depth, c),
        depth <= deeper <= 512,
    ensures
        sane(vars, deeper, c),
{
}

/// The place of a name is that of one of the locals.
pub proof fn lemma_find_placed(vars: Seq<Var>, name: Seq<char>)
    ensures
        find(vars, name) matches Some(p) ==> exists|i: int|
            0 <= i < vars.len() && (#[trigger] vars[i]).place == p,
    decreases vars.len(),
{
    if vars.len() > 0 {
        if vars.last().name == name {
            assert(vars[vars.len() - 1].place == find(vars, name)->0);
        } else {
            lemma_find_placed(vars.drop_last(), name);
            if let Some(p) = find(vars.drop_last(), name) {
                let i = choose|i: int|
                    0 <= i < vars.drop_last().len() && (
                    #[trigger] vars.drop_last()[i]).place == p;
                assert(vars[i].place == p);
            }
        }
    }
}

pub proof fn lemma_find_sane(vars: Seq<Var>, depth: nat, c: Cpu, name: Seq<char>)
    requires
        sane(vars, depth, c),
    ensures
        match find(vars, name) {
            Some(Place::Num(at, _)) => 8 <= at <= depth,
            Some(Place::Maybe(at, _)) => 8 <= at <= depth,
            Some(Place::Ref(at, s)) => 8 <= at <= depth && off_stack(
                c,
                slot_value(c, at) as int,
                bytes_in(s) as int,
            ),
            Some(Place::Text(at, n)) => n <= at <= depth,
            _ => true,
        },
{
    lemma_find_placed(vars, name);
    if let Some(p) = find(vars, name) {
        let i = choose|i: int| 0 <= i < vars.len() && (#[trigger] vars[i]).place == p;
        assert(vars[i].place == p);
    }
}

/// What an expression is worth does not depend on the unused part of the stack.
pub proof fn lemma_eval_same(
    w: World,
    x: Around,
    vars: Seq<Var>,
    depth: nat,
    c: Cpu,
    d: Cpu,
    e: tree::Expr,
)
    requires
        agree(c, d, depth),
        sane(vars, depth, c),
    ensures
        eval(w, x, vars, d, e) == eval(w, x, vars, c, e),
        truly(w, x, vars, d, e) == truly(w, x, vars, c, e),
    decreases e,
{
    assert(d.regs[10] == c.regs[10]);
    match e.kind {
        tree::ExprKind::Ident(name) => {
            lemma_find_sane(vars, depth, c, name);
            match find(vars, name) {
                Some(Place::Num(at, _)) => {
                    lemma_slot_same(c, d, depth, at);
                    assert(eval(w, x, vars, d, e) == slot_value(d, at));
                    assert(eval(w, x, vars, c, e) == slot_value(c, at));
                },
                Some(Place::Maybe(at, _)) => {
                    lemma_slot_same(c, d, depth, at);
                    assert(eval(w, x, vars, d, e) == slot_value(d, at));
                    assert(eval(w, x, vars, c, e) == slot_value(c, at));
                },
                Some(_) => {
                    assert(eval(w, x, vars, d, e) == eval(w, x, vars, c, e));
                },
                None => {
                    assert(eval(w, x, vars, d, e) == 0);
                },
            }
        },
        tree::ExprKind::Unary { op, expr } => {
            lemma_eval_same(w, x, vars, depth, c, d, *expr);
            if let tree::ExprKind::Ident(name) = expr.kind {
                lemma_find_sane(vars, depth, c, name);
                if let Some(Place::Ref(at, s)) = find(vars, name) {
                    lemma_slot_same(c, d, depth, at);
                    lemma_off_stack_same(
                        c,
                        d,
                        depth,
                        slot_value(c, at) as int,
                        bytes_in(s),
                        bytes_in(s),
                    );
                }
            }
            if is_truth(e) {
                assert(truly(w, x, vars, d, e) == truly(w, x, vars, c, e));
            } else {
                assert(eval(w, x, vars, d, e) == eval(w, x, vars, c, e));
            }
        },
        tree::ExprKind::Binary { op, lhs, rhs } => {
            lemma_eval_same(w, x, vars, depth, c, d, *lhs);
            lemma_eval_same(w, x, vars, depth, c, d, *rhs);
            if is_truth(e) {
                assert(truly(w, x, vars, d, e) == truly(w, x, vars, c, e));
            } else {
                assert(eval(w, x, vars, d, e) == eval(w, x, vars, c, e));
            }
        },
        tree::ExprKind::Call { callee, args } => {
            lemma_slot_same(c, d, depth, 8);
            if let tree::ExprKind::Ident(name) = callee.kind {
                if let Some(n) = settled(vars, args[0]) {
                    if 0 <= n <= 5 {
                        let p = slot_value(c, 8) + 16 + 8 * n;
                        lemma_off_stack_same(c, d, depth, p, 8, 8);
                    }
                }
            }
            assert(eval(w, x, vars, d, e) == eval(w, x, vars, c, e));
        },
        tree::ExprKind::MethodCall { receiver, method, args } => {
            if let tree::ExprKind::Ident(name) = receiver.kind {
                lemma_find_sane(vars, depth, c, name);
                if args.len() > 0 {
                    lemma_eval_same(w, x, vars, depth, c, d, args[0]);
                }
                if let Some(Place::Text(at, n)) = find(vars, name) {
                    assert forall|i: int| 0 <= i < n implies #[trigger] d.mem[slot(c, at) + i]
                        == c.mem[slot(c, at) + i] by {}
                    if let tree::ExprKind::Str(s) = args[0].kind {
                        let bytes = encode_utf8(s);
                        if bytes.len() <= n {
                            assert forall|i: int| 0 <= i < bytes.len() implies d.mem[slot(d, at) + i]
                                == c.mem[slot(c, at) + i] && #[trigger] bytes[i] == bytes[i] by {}
                            assert(text_starts(d, at, bytes) == text_starts(c, at, bytes));
                        }
                    }
                }
            }
            if is_truth(e) {
                assert(truly(w, x, vars, d, e) == truly(w, x, vars, c, e));
            } else {
                assert(eval(w, x, vars, d, e) == eval(w, x, vars, c, e));
            }
        },
        _ => {
            assert(eval(w, x, vars, d, e) == eval(w, x, vars, c, e));
        },
    }
}

// --------------------------------------------------------- what code adds

pub proof fn lemma_put_steps(g: Gen, insn: Insn)
    ensures
        steps(g, put(g, insn)),
{
}

pub proof fn lemma_jump_steps(g: Gen, insn: Insn, label: int)
    ensures
        steps(g, jump(g, insn, label)),
{
}

pub proof fn lemma_fresh_steps(g: Gen)
    ensures
        fresh(g) matches Ok(h) ==> steps(g, h) && h.out.labels.len() == g.out.labels.len() + 1
            && h.out.code == g.out.code,
{
}

pub proof fn lemma_bound_steps(g: Gen, h: Gen, label: int)
    requires
        steps(g, h),
        g.out.labels.len() <= label < h.out.labels.len(),
    ensures
        steps(g, bound(h, label)),
{
}

pub proof fn lemma_masked_steps(g: Gen, w: Option<Size>)
    ensures
        steps(g, masked(g, w)),
{
}

pub proof fn lemma_two_puts(g: Gen, a: Insn, b: Insn)
    ensures
        steps(g, put(put(g, a), b)),
        steps(put(g, a), put(put(g, a), b)),
{
    lemma_put_steps(g, a);
    lemma_put_steps(put(g, a), b);
    lemma_steps_on(g, put(g, a), put(put(g, a), b));
}

pub proof fn lemma_leaf_steps(g: Gen, e: tree::Expr)
    ensures
        e.kind matches tree::ExprKind::Ident(name) ==> (named(g, name) matches Ok((h, _)) ==> steps(
            g,
            h,
        )),
        deref(g, e) matches Ok(h) ==> steps(g, h),
        e.kind matches tree::ExprKind::Call { callee, args } ==> (called(g, e, *callee, args) matches Ok(
            h,
        ) ==> steps(g, h)),
{
    reveal(named);
    reveal(deref);
    reveal(called);
    reveal(builtin);
}

pub proof fn lemma_byte_steps(g: Gen, name: Seq<char>, method: Seq<char>, args: Seq<tree::Expr>)
    ensures
        byte_of(g, name, method, args) matches Ok(h) ==> steps(g, h),
{
    reveal(byte_of);
}

pub proof fn lemma_compare_steps(g: Gen, at: nat, bytes: Seq<u8>, i: int, no: int)
    ensures
        steps(g, compare_bytes(g, at, bytes, i, no)),
    decreases bytes.len() - i,
{
    if i < bytes.len() {
        let g1 = put(g, load(Size::B, Reg::R0, Reg::R10, i - at));
        let g2 = jump(g1, if_num(JmpOp::Ne, Reg::R0, bytes[i] as int), no);
        lemma_put_steps(g, load(Size::B, Reg::R0, Reg::R10, i - at));
        lemma_jump_steps(g1, if_num(JmpOp::Ne, Reg::R0, bytes[i] as int), no);
        lemma_steps_on(g, g1, g2);
        lemma_compare_steps(g2, at, bytes, i + 1, no);
        lemma_steps_on(g, g2, compare_bytes(g, at, bytes, i, no));
    }
}

pub proof fn lemma_prefix_steps(
    g: Gen,
    receiver: tree::Expr,
    args: Seq<tree::Expr>,
    yes: int,
    no: int,
)
    ensures
        prefix_test(g, receiver, args, yes, no) matches Ok(h) ==> steps(g, h),
{
    reveal(prefix_test);
    if let tree::ExprKind::Ident(name) = receiver.kind {
        if let Some(Place::Text(at, n)) = find(g.vars, name) {
            if args.len() == 1 {
                if let tree::ExprKind::Str(text) = args[0].kind {
                    let bytes = encode_utf8(text);
                    let g1 = compare_bytes(g, at, bytes, 0, no);
                    lemma_compare_steps(g, at, bytes, 0, no);
                    lemma_jump_steps(g1, always(), yes);
                    lemma_steps_on(g, g1, jump(g1, always(), yes));
                }
            }
        }
    }
}

pub proof fn lemma_on_map_steps(g: Gen, table: int, key: nat, h: Helper)
    ensures
        steps(g, on_map(g, table, key, h)),
{
    let g1 = put(g, set_map(Reg::R1, table + 1));
    let g2 = put(g1, copy(Reg::R2, Reg::R10));
    let g3 = put(g2, alu(AluOp::Add, Reg::R2, -(key as int)));
    lemma_two_puts(g, set_map(Reg::R1, table + 1), copy(Reg::R2, Reg::R10));
    lemma_two_puts(g2, alu(AluOp::Add, Reg::R2, -(key as int)), helper(h));
    lemma_steps_on(g, g2, put(g3, helper(h)));
}

/// Only code, jumps and new labels come with an expression.
pub proof fn lemma_value_steps(w: World, g: Gen, e: tree::Expr)
    ensures
        value(w, g, e) matches Ok((h, _)) ==> steps(g, h),
    decreases
            e,
            (if is_logic(e) {
                5int
            } else {
                2int
            }),
{
    if is_logic(e) {
        lemma_truth_steps(w, g, e);
    } else {
        lemma_leaf_steps(g, e);
        match e.kind {
            tree::ExprKind::Unary { op, expr } => {
                lemma_leaf_steps(g, *expr);
                lemma_number_steps(w, g, *expr);
                if let Ok(g1) = number(w, g, *expr) {
                    let neg = put(g1, alu(AluOp::Neg, Reg::R0, 0));
                    let not = put(g1, alu(AluOp::Xor, Reg::R0, -1));
                    lemma_put_steps(g1, alu(AluOp::Neg, Reg::R0, 0));
                    lemma_put_steps(g1, alu(AluOp::Xor, Reg::R0, -1));
                    lemma_steps_on(g, g1, neg);
                    lemma_steps_on(g, g1, not);
                    lemma_masked_steps(neg, width_of(g.vars, e));
                    lemma_masked_steps(not, width_of(g.vars, e));
                    lemma_steps_on(g, neg, masked(neg, width_of(g.vars, e)));
                    lemma_steps_on(g, not, masked(not, width_of(g.vars, e)));
                }
            },
            tree::ExprKind::Binary { op, lhs, rhs } => {
                lemma_operands_steps(w, g, e);
                if let Ok(g1) = operands(w, g, e) {
                    let a = alu_reg(arithmetic(op)->0, Reg::R1, Reg::R0);
                    let g3 = put(put(g1, a), copy(Reg::R0, Reg::R1));
                    lemma_two_puts(g1, a, copy(Reg::R0, Reg::R1));
                    lemma_steps_on(g, g1, g3);
                    lemma_masked_steps(g3, width_of(g.vars, e));
                    lemma_steps_on(g, g3, masked(g3, width_of(g.vars, e)));
                }
            },
            tree::ExprKind::MethodCall { receiver, method, args } => {
                if let tree::ExprKind::Ident(name) = receiver.kind {
                    lemma_byte_steps(g, name, method.name, args);
                    if let Some(t) = table_at(w.tables, name, 0) {
                        if args.len() == 1 {
                            lemma_keyed_steps(w, g, w.tables[t].key, args[0]);
                            if let Ok(g1) = keyed(w, g, w.tables[t].key, args[0]) {
                                lemma_on_map_steps(g1, t, g1.depth, Helper::MapLookupElem);
                                let g2 = on_map(g1, t, g1.depth, Helper::MapLookupElem);
                                lemma_extends_on(g.out, g1.out, g2.out);
                            }
                        }
                    }
                }
            },
            _ => {},
        }
    }
}

pub proof fn lemma_number_steps(w: World, g: Gen, e: tree::Expr)
    ensures
        number(w, g, e) matches Ok(h) ==> steps(g, h),
    decreases e, 6int,
{
    lemma_value_steps(w, g, e);
}

pub proof fn lemma_keyed_steps(w: World, g: Gen, size: Size, e: tree::Expr)
    ensures
        keyed(w, g, size, e) matches Ok(h) ==> extends(g.out, h.out) && h.vars == g.vars && h.event
            == g.event && h.depth == g.depth + 8 && h.depth <= 512,
    decreases e, 7int,
{
    lemma_number_steps(w, g, e);
    if let Ok(g1) = number(w, g, e) {
        if let Ok(g2) = grow(g1, 8) {
            let s = store(size, Reg::R10, -(g2.depth as int), Reg::R0);
            lemma_put_steps(g2, s);
            lemma_extends_on(g.out, g2.out, put(g2, s).out);
        }
    }
}

pub proof fn lemma_operands_steps(w: World, g: Gen, e: tree::Expr)
    ensures
        operands(w, g, e) matches Ok(h) ==> steps(g, h),
    decreases e, 1int,
{
    if let tree::ExprKind::Binary { op, lhs, rhs } = e.kind {
        lemma_number_steps(w, g, *lhs);
        if let Ok(g1) = number(w, g, *lhs) {
            if let Ok(g2) = grow(g1, 8) {
                let s = store(Size::DW, Reg::R10, -(g2.depth as int), Reg::R0);
                let l = load(Size::DW, Reg::R1, Reg::R10, -(g2.depth as int));
                let g2b = put(g2, s);
                lemma_put_steps(g2, s);
                lemma_extends_on(g.out, g2.out, g2b.out);
                lemma_number_steps(w, g2b, *rhs);
                if let Ok(g3) = number(w, g2b, *rhs) {
                    lemma_extends_on(g.out, g2b.out, g3.out);
                    lemma_put_steps(g3, l);
                    lemma_extends_on(g.out, g3.out, put(g3, l).out);
                }
            }
        }
    }
}

pub proof fn lemma_truth_steps(w: World, g: Gen, e: tree::Expr)
    ensures
        truth(w, g, e) matches Ok(h) ==> steps(g, h),
    decreases e, 4int,
{
    let yes = g.out.labels.len() as int;
    if let Ok(g1) = fresh3(g) {
        assert(steps(g, g1) && g1.out.labels.len() == yes + 3);
        lemma_branch_steps(w, g1, e, yes, yes + 1);
        if let Ok(g2) = branch(w, g1, e, yes, yes + 1) {
            lemma_steps_on(g, g1, g2);
            let a = bound(g2, yes);
            lemma_bound_steps(g, g2, yes);
            let b = put(a, set_num(Reg::R0, 1));
            lemma_put_steps(a, set_num(Reg::R0, 1));
            lemma_steps_on(g, a, b);
            let g3 = jump(b, always(), yes + 2);
            lemma_jump_steps(b, always(), yes + 2);
            lemma_steps_on(g, b, g3);
            let d = bound(g3, yes + 1);
            lemma_bound_steps(g, g3, yes + 1);
            let h = put(d, set_num(Reg::R0, 0));
            lemma_put_steps(d, set_num(Reg::R0, 0));
            lemma_steps_on(g, d, h);
            lemma_bound_steps(g, h, yes + 2);
        }
    }
}

pub proof fn lemma_branch_steps(w: World, g: Gen, e: tree::Expr, yes: int, no: int)
    ensures
        branch(w, g, e, yes, no) matches Ok(h) ==> steps(g, h),
    decreases e, 3int,
{
    match e.kind {
        tree::ExprKind::Unary { op: UnaryOp::Not, expr } => {
            lemma_branch_steps(w, g, *expr, no, yes);
        },
        tree::ExprKind::Binary { op: BinaryOp::And, lhs, rhs } => {
            let next = g.out.labels.len() as int;
            lemma_fresh_steps(g);
            if let Ok(g1) = fresh(g) {
                lemma_branch_steps(w, g1, *lhs, next, no);
                if let Ok(g2) = branch(w, g1, *lhs, next, no) {
                    lemma_steps_on(g, g1, g2);
                    lemma_bound_steps(g, g2, next);
                    lemma_branch_steps(w, bound(g2, next), *rhs, yes, no);
                    if let Ok(h) = branch(w, bound(g2, next), *rhs, yes, no) {
                        lemma_steps_on(g, bound(g2, next), h);
                    }
                }
            }
        },
        tree::ExprKind::Binary { op: BinaryOp::Or, lhs, rhs } => {
            let next = g.out.labels.len() as int;
            lemma_fresh_steps(g);
            if let Ok(g1) = fresh(g) {
                lemma_branch_steps(w, g1, *lhs, yes, next);
                if let Ok(g2) = branch(w, g1, *lhs, yes, next) {
                    lemma_steps_on(g, g1, g2);
                    lemma_bound_steps(g, g2, next);
                    lemma_branch_steps(w, bound(g2, next), *rhs, yes, no);
                    if let Ok(h) = branch(w, bound(g2, next), *rhs, yes, no) {
                        lemma_steps_on(g, bound(g2, next), h);
                    }
                }
            }
        },
        _ => {
            if let Some(op) = compares(e) {
                lemma_operands_steps(w, g, e);
                if let Ok(g1) = operands(w, g, e) {
                    lemma_two_jumps(g, g1, if_reg(op, Reg::R1, Reg::R0), yes, no);
                }
            } else if is_logic(e) {
                lemma_prefix_steps(
                    g,
                    *e.kind->MethodCall_receiver,
                    e.kind->MethodCall_args,
                    yes,
                    no,
                );
            } else {
                lemma_value_steps(w, g, e);
                if let Ok((g1, _)) = value(w, g, e) {
                    lemma_two_jumps(g, g1, if_num(JmpOp::Ne, Reg::R0, 0), yes, no);
                }
            }
        },
    }
}

pub proof fn lemma_two_jumps(g: Gen, g1: Gen, insn: Insn, yes: int, no: int)
    requires
        steps(g, g1),
    ensures
        steps(g, jump(jump(g1, insn, yes), always(), no)),
        steps(g1, jump(g1, insn, yes)),
        steps(jump(g1, insn, yes), jump(jump(g1, insn, yes), always(), no)),
{
    let g2 = jump(g1, insn, yes);
    lemma_jump_steps(g1, insn, yes);
    lemma_jump_steps(g2, always(), no);
    lemma_steps_on(g, g1, g2);
    lemma_steps_on(g, g2, jump(g2, always(), no));
}

// ------------------------------------------------- instructions, one by one

pub proof fn lemma_then_put(f: Asm, k: Kernel, g: Gen, insn: Insn, pc: int, b: Cpu, c: Cpu)
    requires
        gets(f, k, pc, b, g.out.code.len() as int, c),
        goes_on(put(g, insn).out, f),
        !jumps_somewhere(insn),
    ensures
        gets(f, k, pc, b, put(g, insn).out.code.len() as int, step(k, c, insn)),
{
    lemma_put_runs(f, k, g, insn, c);
    lemma_gets_on(
        f,
        k,
        pc,
        b,
        g.out.code.len() as int,
        c,
        g.out.code.len() as int + 1,
        step(k, c, insn),
    );
}

pub proof fn run_load(
    f: Asm,
    k: Kernel,
    g: Gen,
    size: Size,
    dst: Reg,
    src: Reg,
    off: i16,
    pc: int,
    b: Cpu,
    c: Cpu,
) -> (d: Cpu)
    requires
        gets(f, k, pc, b, g.out.code.len() as int, c),
        goes_on(put(g, load(size, dst, src, off as int)).out, f),
    ensures
        gets(f, k, pc, b, g.out.code.len() as int + 1, d),
        d == set_reg(
            c,
            crate::bpf::reg_num(dst) as int,
            fetched(c.mem, c.regs[crate::bpf::reg_num(src) as int] + off, bytes_in(size)) as u64,
        ),
{
    crate::machine::lemma_accesses_have_their_width(size);
    lemma_load(k, c, size, dst, src, off);
    lemma_then_put(f, k, g, load(size, dst, src, off as int), pc, b, c);
    step(k, c, load(size, dst, src, off as int))
}

pub proof fn run_store(
    f: Asm,
    k: Kernel,
    g: Gen,
    size: Size,
    dst: Reg,
    off: i16,
    src: Reg,
    pc: int,
    b: Cpu,
    c: Cpu,
) -> (d: Cpu)
    requires
        gets(f, k, pc, b, g.out.code.len() as int, c),
        goes_on(put(g, store(size, dst, off as int, src)).out, f),
    ensures
        gets(f, k, pc, b, g.out.code.len() as int + 1, d),
        d == (Cpu {
            mem: kept(
                c.mem,
                c.regs[crate::bpf::reg_num(dst) as int] + off,
                bytes_in(size),
                c.regs[crate::bpf::reg_num(src) as int] as int,
            ),
            ..c
        }),
{
    crate::machine::lemma_accesses_have_their_width(size);
    lemma_store(k, c, size, dst, off, src);
    lemma_then_put(f, k, g, store(size, dst, off as int, src), pc, b, c);
    step(k, c, store(size, dst, off as int, src))
}

pub proof fn run_alu(
    f: Asm,
    k: Kernel,
    g: Gen,
    op: AluOp,
    dst: Reg,
    n: i32,
    pc: int,
    b: Cpu,
    c: Cpu,
) -> (d: Cpu)
    requires
        gets(f, k, pc, b, g.out.code.len() as int, c),
        goes_on(put(g, alu(op, dst, n as int)).out, f),
    ensures
        gets(f, k, pc, b, g.out.code.len() as int + 1, d),
        d == set_reg(
            c,
            crate::bpf::reg_num(dst) as int,
            means(op, c.regs[crate::bpf::reg_num(dst) as int], word(n as int)),
        ),
{
    lemma_operations_compute(op, 0, 0);
    lemma_alu(k, c, op, dst, n);
    lemma_then_put(f, k, g, alu(op, dst, n as int), pc, b, c);
    step(k, c, alu(op, dst, n as int))
}

pub proof fn run_alu_reg(
    f: Asm,
    k: Kernel,
    g: Gen,
    op: AluOp,
    dst: Reg,
    src: Reg,
    pc: int,
    b: Cpu,
    c: Cpu,
) -> (d: Cpu)
    requires
        gets(f, k, pc, b, g.out.code.len() as int, c),
        goes_on(put(g, alu_reg(op, dst, src)).out, f),
    ensures
        gets(f, k, pc, b, g.out.code.len() as int + 1, d),
        d == set_reg(
            c,
            crate::bpf::reg_num(dst) as int,
            means(
                op,
                c.regs[crate::bpf::reg_num(dst) as int],
                c.regs[crate::bpf::reg_num(src) as int],
            ),
        ),
{
    lemma_operations_compute(op, 0, 0);
    lemma_alu_reg(k, c, op, dst, src);
    lemma_then_put(f, k, g, alu_reg(op, dst, src), pc, b, c);
    step(k, c, alu_reg(op, dst, src))
}

pub proof fn run_copy(
    f: Asm,
    k: Kernel,
    g: Gen,
    dst: Reg,
    src: Reg,
    pc: int,
    b: Cpu,
    c: Cpu,
) -> (d: Cpu)
    requires
        gets(f, k, pc, b, g.out.code.len() as int, c),
        goes_on(put(g, copy(dst, src)).out, f),
    ensures
        gets(f, k, pc, b, g.out.code.len() as int + 1, d),
        d == set_reg(
            c,
            crate::bpf::reg_num(dst) as int,
            c.regs[crate::bpf::reg_num(src) as int],
        ),
{
    lemma_copy(k, c, dst, src);
    lemma_then_put(f, k, g, copy(dst, src), pc, b, c);
    step(k, c, copy(dst, src))
}

pub proof fn run_set_num(
    f: Asm,
    k: Kernel,
    g: Gen,
    dst: Reg,
    n: i32,
    pc: int,
    b: Cpu,
    c: Cpu,
) -> (d: Cpu)
    requires
        gets(f, k, pc, b, g.out.code.len() as int, c),
        goes_on(put(g, set_num(dst, n)).out, f),
    ensures
        gets(f, k, pc, b, g.out.code.len() as int + 1, d),
        d == set_reg(c, crate::bpf::reg_num(dst) as int, word(n as int)),
{
    lemma_set_num(k, c, dst, n);
    lemma_then_put(f, k, g, set_num(dst, n), pc, b, c);
    step(k, c, set_num(dst, n))
}

pub proof fn run_set_map(
    f: Asm,
    k: Kernel,
    g: Gen,
    dst: Reg,
    n: i32,
    pc: int,
    b: Cpu,
    c: Cpu,
) -> (d: Cpu)
    requires
        gets(f, k, pc, b, g.out.code.len() as int, c),
        goes_on(put(g, set_map(dst, n as int)).out, f),
    ensures
        gets(f, k, pc, b, g.out.code.len() as int + 1, d),
        d == set_reg(c, crate::bpf::reg_num(dst) as int, (k.map_at)(n as int)),
{
    lemma_set_map(k, c, dst, n);
    lemma_then_put(f, k, g, set_map(dst, n as int), pc, b, c);
    step(k, c, set_map(dst, n as int))
}

pub proof fn run_call(f: Asm, k: Kernel, g: Gen, h: Helper, pc: int, b: Cpu, c: Cpu) -> (d: Cpu)
    requires
        gets(f, k, pc, b, g.out.code.len() as int, c),
        goes_on(put(g, helper(h)).out, f),
    ensures
        gets(f, k, pc, b, g.out.code.len() as int + 1, d),
        d == (k.acts)(crate::bpf::helper_id(h) as int, c),
{
    lemma_call(k, c, h);
    lemma_then_put(f, k, g, helper(h), pc, b, c);
    step(k, c, helper(h))
}

/// Instructions without a jump, one behind the other.
pub proof fn lemma_line(f: Asm, k: Kernel, pc: int, code: Seq<Insn>, c: Cpu)
    requires
        forall|i: int|
            0 <= i < code.len() ==> f.code[pc + i] == #[trigger] code[i] && !jumps_somewhere(
                code[i],
            ),
    ensures
        gets(f, k, pc, c, pc + code.len(), run(k, c, code)),
    decreases code.len(),
{
    if code.len() == 0 {
        lemma_gets_self(f, k, pc, c);
    } else {
        let but = code.drop_last();
        let last = code.len() - 1;
        assert forall|i: int| 0 <= i < but.len() implies f.code[pc + i] == #[trigger] but[i]
            && !jumps_somewhere(but[i]) by {
            assert(code[i] == but[i]);
        }
        lemma_line(f, k, pc, but, c);
        assert(f.code[pc + last] == code[last] && !jumps_somewhere(code[last]));
        let c1 = run(k, c, but);
        lemma_gets_tick(f, k, pc + last, c1);
        lemma_gets_on(f, k, pc, c, pc + last, c1, pc + code.len(), run(k, c, code));
    }
}

/// Nothing but R0 changed.
pub open spec fn only_r0(c: Cpu, d: Cpu) -> bool {
    &&& d.mem == c.mem
    &&& d.deeds == c.deeds
    &&& forall|r: int| r != 0 ==> #[trigger] d.regs[r] == c.regs[r]
}

pub proof fn run_literal(f: Asm, k: Kernel, g: Gen, n: u64, c: Cpu) -> (d: Cpu)
    requires
        goes_on(literal(g, n).out, f),
    ensures
        gets(f, k, g.out.code.len() as int, c, literal(g, n).out.code.len() as int, d),
        d.regs[0] == n,
        only_r0(c, d),
{
    let pc = g.out.code.len() as int;
    lemma_gets_self(f, k, pc, c);
    if n <= i32::MAX {
        run_set_num(f, k, g, Reg::R0, n as i32, pc, c, c)
    } else {
        lemma_set_wide(k, c, Reg::R0, signed(n));
        lemma_then_put(f, k, g, set_wide(Reg::R0, signed(n)), pc, c, c);
        assert(word(signed(n) as int) == n);
        step(k, c, set_wide(Reg::R0, signed(n)))
    }
}

pub proof fn lemma_low_bits(a: u64)
    ensures
        a & 0xffu64 == a % 0x100,
        a & 0xffffu64 == a % 0x1_0000,
        a ^ 0xffff_ffff_ffff_ffffu64 == 0xffff_ffff_ffff_ffff - a,
{
    assert(a & 0xffu64 == a % 0x100) by (bit_vector);
    assert(a & 0xffffu64 == a % 0x1_0000) by (bit_vector);
    assert(a ^ 0xffff_ffff_ffff_ffffu64 == 0xffff_ffff_ffff_ffffu64 - a) by (bit_vector);
}

/// How many bytes a width is, if there is one.
pub open spec fn bytes_of(s: Option<Size>) -> Option<nat> {
    match s {
        Some(x) => Some(bytes_in(x)),
        None => None,
    }
}

/// Cutting R0 to a width.
pub proof fn run_masked(
    f: Asm,
    k: Kernel,
    g: Gen,
    s: Option<Size>,
    pc: int,
    b: Cpu,
    c: Cpu,
) -> (d: Cpu)
    requires
        gets(f, k, pc, b, g.out.code.len() as int, c),
        goes_on(masked(g, s).out, f),
    ensures
        gets(f, k, pc, b, masked(g, s).out.code.len() as int, d),
        d.regs[0] == cut(c.regs[0], bytes_of(s)),
        only_r0(c, d),
{
    lemma_low_bits(c.regs[0]);
    match s {
        Some(Size::B) => {
            assert(word(0xff) == 0xff);
            run_alu(f, k, g, AluOp::And, Reg::R0, 0xff, pc, b, c)
        },
        Some(Size::H) => {
            assert(word(0xffff) == 0xffff);
            run_alu(f, k, g, AluOp::And, Reg::R0, 0xffff, pc, b, c)
        },
        Some(Size::W) => {
            lemma_operations_compute(AluOp::Mov, 0, 0);
            lemma_keep_low(k, c, Reg::R0);
            lemma_then_put(f, k, g, keep_low(Reg::R0), pc, b, c);
            step(k, c, keep_low(Reg::R0))
        },
        _ => c,
    }
}

pub proof fn lemma_truth_is_logic(e: tree::Expr)
    ensures
        is_truth(e) == is_logic(e),
{
}

pub proof fn lemma_plain(name: Seq<char>)
    ensures
        match builtin_width(name) {
            Some(n) => plain_builtin(name) == Some(n as nat),
            None => plain_builtin(name) is None,
        },
{
    crate::running::lemma_names_differ();
}

pub proof fn lemma_width(vars: Seq<Var>, e: tree::Expr)
    ensures
        width(vars, e) == bytes_of(width_of(vars, e)),
    decreases e,
{
    lemma_truth_is_logic(e);
    match e.kind {
        tree::ExprKind::Unary { op, expr } => lemma_width(vars, *expr),
        tree::ExprKind::Binary { op, lhs, rhs } => {
            lemma_width(vars, *lhs);
            lemma_width(vars, *rhs);
        },
        tree::ExprKind::Call { callee, args } => {
            if let tree::ExprKind::Ident(name) = callee.kind {
                lemma_plain(name);
            }
        },
        _ => {},
    }
}

/// Constants are known as what they are.
pub proof fn lemma_settled(vars: Seq<Var>, e: tree::Expr)
    ensures
        match const_of(vars, e) {
            Some(n) => settled(vars, e) == Some(n as int),
            None => settled(vars, e) is None,
        },
    decreases e,
{
    match e.kind {
        tree::ExprKind::Int(n) => crate::typing::lemma_signed64(n),
        tree::ExprKind::Ident(name) => {
            if let Some(n) = find_const(vars, name) {
                crate::typing::lemma_signed64(n);
            } else if let Some(Place::Step(n)) = find(vars, name) {
                crate::typing::lemma_signed64(n);
            }
        },
        tree::ExprKind::Binary { op, lhs, rhs } => {
            lemma_settled(vars, *lhs);
            lemma_settled(vars, *rhs);
        },
        _ => {},
    }
}

pub proof fn lemma_eight(mem: Map<int, u8>, at: int)
    ensures
        0 <= fetched(mem, at, 8) <= u64::MAX,
        fetched(mem, at, 1) == mem[at],
{
    lemma_fetched_bound(mem, at, 8);
    reveal_with_fuel(span_of_bytes, 9);
    reveal_with_fuel(fetched, 2);
}

pub proof fn lemma_mod_kept(mem: Map<int, u8>, at: int, n: nat, v: int)
    requires
        0 <= v,
    ensures
        fetched(kept(mem, at, n, v), at, n) == v % span_of_bytes(n),
        span_of_bytes(n) > 0,
    decreases n,
{
    if n > 0 {
        let m1 = mem.insert(at, (v % 256) as u8);
        lemma_mod_kept(m1, at + 1, (n - 1) as nat, v / 256);
        lemma_kept_elsewhere(m1, at + 1, (n - 1) as nat, v / 256, at);
        let rest = span_of_bytes((n - 1) as nat);
        vstd::arithmetic::div_mod::lemma_mod_breakdown(v, 256, rest);
    }
}

/// The low bytes of a number are what it is cut to.
pub proof fn lemma_kept_is_cut(mem: Map<int, u8>, at: int, s: Size, v: u64)
    ensures
        fetched(kept(mem, at, bytes_in(s), v as int), at, bytes_in(s)) == cut(
            v,
            Some(bytes_in(s)),
        ),
{
    lemma_mod_kept(mem, at, bytes_in(s), v as int);
    reveal_with_fuel(span_of_bytes, 9);
    assert(span_of_bytes(1) == 0x100);
    assert(span_of_bytes(2) == 0x1_0000);
    assert(span_of_bytes(4) == 0x1_0000_0000);
    assert(span_of_bytes(8) == two64());
    match s {
        Size::B => {
            assert(v as int % 0x100 == cut(v, Some(1)));
        },
        Size::H => {
            assert(v as int % 0x1_0000 == cut(v, Some(2)));
        },
        Size::W => {
            assert(v as int % 0x1_0000_0000 == cut(v, Some(4)));
        },
        Size::DW => {
            assert(v as int % two64() == v);
        },
    }
}

// ------------------------------------------------------------------- leaves

pub proof fn run_named(f: Asm, k: Kernel, x: Around, w: World, g: Gen, e: tree::Expr, c: Cpu) -> (d: Cpu)
    requires
        e.kind is Ident,
        named(g, e.kind->Ident_0) is Ok,
        goes_on((named(g, e.kind->Ident_0)->Ok_0).0.out, f),
        sane(g.vars, g.depth, c),
    ensures
        gets(
            f,
            k,
            g.out.code.len() as int,
            c,
            (named(g, e.kind->Ident_0)->Ok_0).0.out.code.len() as int,
            d,
        ),
        d.regs[0] == eval(w, x, g.vars, c, e),
        only_r0(c, d),
{
    reveal(named);
    let name = e.kind->Ident_0;
    let pc = g.out.code.len() as int;
    lemma_gets_self(f, k, pc, c);
    lemma_find_sane(g.vars, g.depth, c, name);
    match find(g.vars, name) {
        Some(Place::Const(n, _)) => run_literal(f, k, g, n, c),
        Some(Place::Step(n)) => run_literal(f, k, g, n, c),
        Some(Place::Num(at, _)) => {
            let off = (-(at as int)) as i16;
            assert(eval(w, x, g.vars, c, e) == slot_value(c, at));
            run_load(f, k, g, Size::DW, Reg::R0, Reg::R10, off, pc, c, c)
        },
        Some(Place::Maybe(at, _)) => {
            let off = (-(at as int)) as i16;
            assert(eval(w, x, g.vars, c, e) == slot_value(c, at));
            run_load(f, k, g, Size::DW, Reg::R0, Reg::R10, off, pc, c, c)
        },
        _ => c,
    }
}

pub proof fn run_deref(f: Asm, k: Kernel, x: Around, w: World, g: Gen, e: tree::Expr, c: Cpu) -> (d: Cpu)
    requires
        e.kind matches tree::ExprKind::Unary { op: UnaryOp::Deref, .. },
        deref(g, *e.kind->Unary_expr) is Ok,
        goes_on((deref(g, *e.kind->Unary_expr)->Ok_0).out, f),
        sane(g.vars, g.depth, c),
    ensures
        gets(
            f,
            k,
            g.out.code.len() as int,
            c,
            (deref(g, *e.kind->Unary_expr)->Ok_0).out.code.len() as int,
            d,
        ),
        d.regs[0] == eval(w, x, g.vars, c, e),
        only_r0(c, d),
{
    reveal(deref);
    let inner = *e.kind->Unary_expr;
    let pc = g.out.code.len() as int;
    lemma_gets_self(f, k, pc, c);
    match inner.kind {
        tree::ExprKind::Ident(name) => {
            lemma_find_sane(g.vars, g.depth, c, name);
            match find(g.vars, name) {
                Some(Place::Ref(at, size)) => {
                    let off = (-(at as int)) as i16;
                    let a = load(Size::DW, Reg::R0, Reg::R10, off as int);
                    let b = load(size, Reg::R0, Reg::R0, 0);
                    lemma_two_puts(g, a, b);
                    lemma_goes_back(put(g, a).out, put(put(g, a), b).out, f);
                    let c1 = run_load(f, k, g, Size::DW, Reg::R0, Reg::R10, off, pc, c, c);
                    assert(c1.regs[0] == slot_value(c, at));
                    run_load(f, k, put(g, a), size, Reg::R0, Reg::R0, 0, pc, c, c1)
                },
                _ => c,
            }
        },
        _ => c,
    }
}

pub proof fn run_called(
    f: Asm,
    k: Kernel,
    x: Around,
    w: World,
    g: Gen,
    e: tree::Expr,
    callee: tree::Expr,
    args: Seq<tree::Expr>,
    c: Cpu,
) -> (d: Cpu)
    requires
        e.kind matches tree::ExprKind::Call { callee: a, args: b } && *a == callee && b == args,
        called(g, e, callee, args) is Ok,
        goes_on((called(g, e, callee, args)->Ok_0).out, f),
        sane(g.vars, g.depth, c),
        tells(k, x.now),
    ensures
        gets(
            f,
            k,
            g.out.code.len() as int,
            c,
            (called(g, e, callee, args)->Ok_0).out.code.len() as int,
            d,
        ),
        d.regs[0] == eval(w, x, g.vars, c, e),
        only_answers(c, d),
{
    reveal(called);
    let pc = g.out.code.len() as int;
    lemma_gets_self(f, k, pc, c);
    match callee.kind {
        tree::ExprKind::Ident(name) => {
            lemma_plain(name);
            if builtin_width(name) is Some && args.len() == 0 {
                let h = builtin(g, name);
                let code = crate::running::added(g, h);
                lemma_builtins_run(k, x.now, c, g, name);
                assert forall|i: int| 0 <= i < code.len() implies f.code[pc + i]
                    == #[trigger] code[i] && !jumps_somewhere(code[i]) by {
                    assert(h.out.code[pc + i] == code[i]);
                }
                lemma_line(f, k, pc, code, c);
                run(k, c, code)
            } else {
                reveal_strlit("arg");
                crate::running::lemma_names_differ();
                lemma_settled(g.vars, args[0]);
                let n = const_of(g.vars, args[0])->0;
                let off = (16 + 8 * n) as i16;
                let a = load(Size::DW, Reg::R0, Reg::R10, -8);
                let b = load(Size::DW, Reg::R0, Reg::R0, off as int);
                lemma_two_puts(g, a, b);
                lemma_goes_back(put(g, a).out, put(put(g, a), b).out, f);
                let c1 = run_load(f, k, g, Size::DW, Reg::R0, Reg::R10, -8i16, pc, c, c);
                assert(c1.regs[0] == slot_value(c, 8));
                lemma_arg_is_not_plain();
                run_load(f, k, put(g, a), Size::DW, Reg::R0, Reg::R0, off, pc, c, c1)
            }
        },
        _ => c,
    }
}

pub proof fn lemma_arg_is_not_plain()
    ensures
        plain_builtin("arg"@) is None,
{
    reveal_strlit("arg");
    reveal_strlit("ktime");
    reveal_strlit("pid");
    reveal_strlit("tgid");
    reveal_strlit("tid");
    reveal_strlit("uid");
    reveal_strlit("gid");
    assert("arg"@[0] == 'a' && "pid"@[0] == 'p' && "tid"@[0] == 't' && "uid"@[0] == 'u');
    assert("gid"@[0] == 'g' && "tgid"@[0] == 't' && "ktime"@[0] == 'k');
}

pub proof fn run_byte(
    f: Asm,
    k: Kernel,
    g: Gen,
    name: Seq<char>,
    method: Seq<char>,
    args: Seq<tree::Expr>,
    c: Cpu,
) -> (d: Cpu)
    requires
        byte_of(g, name, method, args) is Ok,
        goes_on((byte_of(g, name, method, args)->Ok_0).out, f),
        sane(g.vars, g.depth, c),
    ensures
        gets(
            f,
            k,
            g.out.code.len() as int,
            c,
            (byte_of(g, name, method, args)->Ok_0).out.code.len() as int,
            d,
        ),
        args.len() == 1,
        find(g.vars, name) matches Some(Place::Text(at, n)) && (settled(
            g.vars,
            args[0],
        ) matches Some(i) && 0 <= i < n && d.regs[0] == c.mem[slot(c, at) + i]),
        only_r0(c, d),
{
    reveal(byte_of);
    let pc = g.out.code.len() as int;
    lemma_gets_self(f, k, pc, c);
    lemma_find_sane(g.vars, g.depth, c, name);
    lemma_settled(g.vars, args[0]);
    let at = (find(g.vars, name)->0)->Text_0;
    let i = const_of(g.vars, args[0])->0;
    let off = (i - at) as i16;
    lemma_eight(c.mem, slot(c, at) + i);
    run_load(f, k, g, Size::B, Reg::R0, Reg::R10, off, pc, c, c)
}

// ------------------------------------------------------- whole expressions

/// The kernel does for a program what it is there for: it tells the process, and
/// looks keys up in the maps. Map number 0 is the ring buffer; the others follow
/// in the order of their declaration.
pub open spec fn faithful(w: World, x: Around, k: Kernel) -> bool {
    &&& w.tables.len() <= 0x7fff_ffff
    &&& tells(k, x.now)
    &&& forall|t: int, c: Cpu|
        #![trigger w.tables[t], (k.acts)(1, c)]
        0 <= t < w.tables.len() && c.regs[1] == (k.map_at)(t + 1) ==> {
            &&& (k.acts)(1, c).regs[0] == (x.found)(
                c.deeds,
                t,
                fetched(c.mem, c.regs[2] as int, bytes_in(w.tables[t].key)),
            )
            &&& only_answers(c, (k.acts)(1, c))
        }
}

pub proof fn lemma_answers_agree(c: Cpu, d: Cpu, depth: nat)
    requires
        only_answers(c, d),
    ensures
        agree(c, d, depth),
{
}

/// A number goes into a slot of the unused part of the stack.
pub proof fn lemma_kept_agrees(c: Cpu, d: Cpu, depth: nat, n: nat)
    requires
        depth + 8 <= 512,
        n <= 8,
        d == (Cpu { mem: kept(c.mem, slot(c, depth + 8), n, c.regs[0] as int), ..c }),
    ensures
        agree(c, d, depth),
{
    assert forall|a: int|
        (a < c.regs[10] - 512 || a >= c.regs[10] - depth) implies #[trigger] d.mem[a]
        == c.mem[a] by {
        lemma_kept_elsewhere(c.mem, slot(c, depth + 8), n, c.regs[0] as int, a);
    }
}

pub proof fn lemma_table_at(tables: Seq<crate::lowering::Table>, name: Seq<char>, i: int)
    requires
        0 <= i,
    ensures
        table_at(tables, name, i) matches Some(t) ==> i <= t < tables.len(),
    decreases tables.len() - i,
{
    if i < tables.len() {
        lemma_table_at(tables, name, i + 1);
    }
}

/// The address of a slot.
pub proof fn run_point(
    f: Asm,
    k: Kernel,
    g: Gen,
    r: Reg,
    depth: nat,
    pc: int,
    b: Cpu,
    c: Cpu,
) -> (d: Cpu)
    requires
        gets(f, k, pc, b, g.out.code.len() as int, c),
        goes_on(point(g, r, depth).out, f),
        c.regs[10] >= 512,
        depth <= 512,
        r != Reg::R10,
    ensures
        gets(f, k, pc, b, point(g, r, depth).out.code.len() as int, d),
        d == set_reg(c, crate::bpf::reg_num(r) as int, slot(c, depth) as u64),
{
    let a = copy(r, Reg::R10);
    let n = (-(depth as int)) as i32;
    lemma_two_puts(g, a, alu(AluOp::Add, r, n as int));
    lemma_goes_back(put(g, a).out, point(g, r, depth).out, f);
    let c1 = run_copy(f, k, g, r, Reg::R10, pc, b, c);
    let d = run_alu(f, k, put(g, a), AluOp::Add, r, n, pc, b, c1);
    assert(word(n as int) == if depth == 0 {
        0
    } else {
        two64() - depth
    });
    assert(word(c.regs[10] + word(n as int)) == slot(c, depth));
    assert(d.regs =~= set_reg(c, crate::bpf::reg_num(r) as int, slot(c, depth) as u64).regs);
    d
}

/// A call of a map's helper, with the map in R1 and the key's address in R2.
pub proof fn run_on_map(
    f: Asm,
    k: Kernel,
    g: Gen,
    t: int,
    key: nat,
    h: Helper,
    pc: int,
    b: Cpu,
    c: Cpu,
) -> (m: Cpu)
    requires
        gets(f, k, pc, b, g.out.code.len() as int, c),
        goes_on(on_map(g, t, key, h).out, f),
        c.regs[10] >= 512,
        key <= 512,
        0 <= t < 0x7fff_ffff,
    ensures
        gets(
            f,
            k,
            pc,
            b,
            on_map(g, t, key, h).out.code.len() as int,
            (k.acts)(crate::bpf::helper_id(h) as int, m),
        ),
        m.mem == c.mem,
        m.deeds == c.deeds,
        m.regs[1] == (k.map_at)(t + 1),
        m.regs[2] == slot(c, key),
        forall|r: int| 6 <= r <= 10 ==> #[trigger] m.regs[r] == c.regs[r],
{
    let n = (t + 1) as i32;
    let g1 = put(g, set_map(Reg::R1, n as int));
    let g2 = point(g1, Reg::R2, key);
    let g3 = put(g2, helper(h));
    lemma_on_map_steps(g, t, key, h);
    lemma_put_steps(g2, helper(h));
    lemma_goes_back(g2.out, g3.out, f);
    lemma_two_puts(g1, copy(Reg::R2, Reg::R10), alu(AluOp::Add, Reg::R2, -(key as int)));
    lemma_goes_back(g1.out, g2.out, f);
    let c1 = run_set_map(f, k, g, Reg::R1, n, pc, b, c);
    let c2 = run_point(f, k, g1, Reg::R2, key, pc, b, c1);
    run_call(f, k, g2, h, pc, b, c2);
    c2
}

/// Comparing bytes gets past them where they are all there, and else to `no`.
pub proof fn run_compare(
    f: Asm,
    k: Kernel,
    g: Gen,
    at: nat,
    bytes: Seq<u8>,
    i: int,
    no: int,
    c: Cpu,
) -> (d: Cpu)
    requires
        goes_on(compare_bytes(g, at, bytes, i, no).out, f),
        one_label(f),
        bytes.len() <= at <= 512,
        0 <= i,
    ensures
        only_r0(c, d),
        gets(
            f,
            k,
            g.out.code.len() as int,
            c,
            if forall|j: int|
                i <= j < bytes.len() ==> c.mem[slot(c, at) + j] == #[trigger] bytes[j] {
                compare_bytes(g, at, bytes, i, no).out.code.len() as int
            } else {
                f.labels[no]->0
            },
            d,
        ),
    decreases bytes.len() - i,
{
    let pc = g.out.code.len() as int;
    lemma_gets_self(f, k, pc, c);
    if i >= bytes.len() {
        c
    } else {
        let off = (i - at) as i16;
        let a = load(Size::B, Reg::R0, Reg::R10, off as int);
        let j = if_num(JmpOp::Ne, Reg::R0, bytes[i] as int);
        let g1 = put(g, a);
        let g2 = jump(g1, j, no);
        let h = compare_bytes(g, at, bytes, i, no);
        lemma_compare_steps(g2, at, bytes, i + 1, no);
        lemma_goes_back(g2.out, h.out, f);
        lemma_jump_steps(g1, j, no);
        lemma_goes_back(g1.out, g2.out, f);
        let c1 = run_load(f, k, g, Size::B, Reg::R0, Reg::R10, off, pc, c, c);
        let here = slot(c, at) + i;
        lemma_eight(c.mem, here);
        assert(c1.regs[0] == c.mem[here]);
        lemma_jumps_compare(JmpOp::Ne, c1.regs[0], extended(bytes[i] as i32));
        lemma_jump_runs(f, k, g1, j, no, c1);
        assert(extended(bytes[i] as i32) == bytes[i]);
        if c.mem[here] == bytes[i] {
            lemma_gets_on(
                f,
                k,
                pc,
                c,
                g1.out.code.len() as int,
                c1,
                g2.out.code.len() as int,
                c1,
            );
            let d = run_compare(f, k, g2, at, bytes, i + 1, no, c1);
            let p = if forall|j: int|
                i + 1 <= j < bytes.len() ==> c1.mem[slot(c1, at) + j] == #[trigger] bytes[j] {
                h.out.code.len() as int
            } else {
                f.labels[no]->0
            };
            lemma_gets_on(f, k, pc, c, g2.out.code.len() as int, c1, p, d);
            assert((forall|j: int|
                i + 1 <= j < bytes.len() ==> c1.mem[slot(c1, at) + j] == #[trigger] bytes[j]) == (
            forall|j: int|
                i <= j < bytes.len() ==> c.mem[slot(c, at) + j] == #[trigger] bytes[j]));
            d
        } else {
            assert(!(forall|j: int|
                i <= j < bytes.len() ==> c.mem[slot(c, at) + j] == #[trigger] bytes[j]));
            lemma_gets_on(
                f,
                k,
                pc,
                c,
                g1.out.code.len() as int,
                c1,
                f.labels[no]->0,
                c1,
            );
            c1
        }
    }
}

/// A jump that is always taken.
pub proof fn run_always(f: Asm, k: Kernel, g: Gen, label: int, pc: int, b: Cpu, c: Cpu)
    requires
        gets(f, k, pc, b, g.out.code.len() as int, c),
        goes_on(jump(g, always(), label).out, f),
        one_label(f),
    ensures
        gets(f, k, pc, b, f.labels[label]->0, c),
{
    lemma_jump_runs(f, k, g, always(), label, c);
    lemma_gets_on(f, k, pc, b, g.out.code.len() as int, c, f.labels[label]->0, c);
}

pub proof fn run_prefix(
    f: Asm,
    k: Kernel,
    g: Gen,
    receiver: tree::Expr,
    args: Seq<tree::Expr>,
    yes: int,
    no: int,
    c: Cpu,
) -> (d: Cpu)
    requires
        prefix_test(g, receiver, args, yes, no) is Ok,
        goes_on((prefix_test(g, receiver, args, yes, no)->Ok_0).out, f),
        one_label(f),
        sane(g.vars, g.depth, c),
    ensures
        only_r0(c, d),
        args.len() == 1,
        ({
            &&& receiver.kind matches tree::ExprKind::Ident(name)
            &&& args[0].kind matches tree::ExprKind::Str(s)
            &&& find(g.vars, name) matches Some(Place::Text(at, n))
            &&& encode_utf8(s).len() <= n
            &&& gets(
                f,
                k,
                g.out.code.len() as int,
                c,
                f.labels[if text_starts(c, at, encode_utf8(s)) {
                    yes
                } else {
                    no
                }]->0,
                d,
            )
        }),
{
    reveal(prefix_test);
    let name = receiver.kind->Ident_0;
    let s = args[0].kind->Str_0;
    let bytes = encode_utf8(s);
    lemma_find_sane(g.vars, g.depth, c, name);
    let at = (find(g.vars, name)->0)->Text_0;
    let g1 = compare_bytes(g, at, bytes, 0, no);
    lemma_jump_steps(g1, always(), yes);
    lemma_goes_back(g1.out, jump(g1, always(), yes).out, f);
    let d = run_compare(f, k, g, at, bytes, 0, no, c);
    if text_starts(c, at, bytes) {
        run_always(f, k, g1, yes, g.out.code.len() as int, c, d);
    }
    d
}

pub proof fn lemma_goes_on_on(a: Asm, b: Asm, f: Asm)
    requires
        goes_on(a, b),
        goes_on(b, f),
    ensures
        goes_on(a, f),
{
    assert forall|i: int| 0 <= i < a.code.len() implies #[trigger] f.code[i] == a.code[i] by {
        assert(b.code[i] == a.code[i]);
    }
    assert forall|i: int| 0 <= i < a.jumps.len() implies #[trigger] f.jumps[i] == a.jumps[i] by {
        assert(b.jumps[i] == a.jumps[i]);
    }
    assert forall|l: int| 0 <= l < a.labels.len() && (#[trigger] a.labels[l]) is Some implies f
        .labels[l] == a.labels[l] by {
        assert(b.labels[l] == a.labels[l]);
    }
}

/// Placing a label that was not placed.
pub proof fn lemma_bound_goes_on(g: Gen, label: int, f: Asm)
    requires
        0 <= label < g.out.labels.len(),
        g.out.labels[label] is None,
        goes_on(bound(g, label).out, f),
    ensures
        goes_on(g.out, f),
        f.labels[label] == Some(g.out.code.len() as int),
{
    let b = bound(g, label);
    assert(b.out.labels[label] == Some(g.out.code.len() as int));
    assert(goes_on(g.out, b.out));
    lemma_goes_on_on(g.out, b.out, f);
}

/// Two jumps: to `yes` where the first is taken, and else to `no`.
pub proof fn run_two_jumps(
    f: Asm,
    k: Kernel,
    g: Gen,
    insn: Insn,
    yes: int,
    no: int,
    taken: bool,
    pc: int,
    b: Cpu,
    c: Cpu,
)
    requires
        gets(f, k, pc, b, g.out.code.len() as int, c),
        goes_on(jump(jump(g, insn, yes), always(), no).out, f),
        one_label(f),
        jumps_somewhere(insn),
        taken == jump_taken(
            insn.opcode,
            c.regs[insn.dst as int],
            if takes_register(insn.opcode) {
                c.regs[insn.src as int]
            } else {
                extended(insn.imm)
            },
        ),
    ensures
        gets(
            f,
            k,
            pc,
            b,
            f.labels[if taken {
                yes
            } else {
                no
            }]->0,
            c,
        ),
{
    let g1 = jump(g, insn, yes);
    let g2 = jump(g1, always(), no);
    lemma_jump_steps(g1, always(), no);
    lemma_goes_back(g1.out, g2.out, f);
    lemma_jump_runs(f, k, g, insn, yes, c);
    if taken {
        lemma_gets_on(f, k, pc, b, g.out.code.len() as int, c, f.labels[yes]->0, c);
    } else {
        lemma_gets_on(f, k, pc, b, g.out.code.len() as int, c, g1.out.code.len() as int, c);
        run_always(f, k, g1, no, pc, b, c);
    }
}

/// Running the code of an expression computes it into R0.
pub proof fn lemma_value_runs(
    f: Asm,
    k: Kernel,
    x: Around,
    w: World,
    g: Gen,
    e: tree::Expr,
    c: Cpu,
) -> (d: Cpu)
    requires
        value(w, g, e) is Ok,
        goes_on((value(w, g, e)->Ok_0).0.out, f),
        one_label(f),
        faithful(w, x, k),
        sane(g.vars, g.depth, c),
    ensures
        gets(
            f,
            k,
            g.out.code.len() as int,
            c,
            (value(w, g, e)->Ok_0).0.out.code.len() as int,
            d,
        ),
        d.regs[0] == eval(w, x, g.vars, c, e),
        agree(c, d, g.depth),
    decreases
            e,
            (if is_logic(e) {
                5int
            } else {
                2int
            }),
{
    let pc = g.out.code.len() as int;
    lemma_truth_is_logic(e);
    lemma_gets_self(f, k, pc, c);
    if is_logic(e) {
        run_truth(f, k, x, w, g, e, c)
    } else {
        match e.kind {
            tree::ExprKind::Int(n) => run_literal(f, k, g, n, c),
            tree::ExprKind::Bool(b) => run_literal(
                f,
                k,
                g,
                if b {
                    1
                } else {
                    0
                },
                c,
            ),
            tree::ExprKind::Ident(name) => run_named(f, k, x, w, g, e, c),
            tree::ExprKind::Unary { op, expr } => {
                if op is Deref {
                    run_deref(f, k, x, w, g, e, c)
                } else {
                    run_unary(f, k, x, w, g, e, c)
                }
            },
            tree::ExprKind::Binary { op, lhs, rhs } => run_binary(f, k, x, w, g, e, c),
            tree::ExprKind::Call { callee, args } => {
                let d = run_called(f, k, x, w, g, e, *callee, args, c);
                lemma_answers_agree(c, d, g.depth);
                d
            },
            tree::ExprKind::MethodCall { receiver, method, args } => {
                let name = receiver.kind->Ident_0;
                match table_at(w.tables, name, 0) {
                    Some(t) => run_get(f, k, x, w, g, e, t, args[0], c),
                    None => {
                        let d = run_byte(f, k, g, name, method.name, args, c);
                        d
                    },
                }
            },
            _ => c,
        }
    }
}

pub proof fn run_number(
    f: Asm,
    k: Kernel,
    x: Around,
    w: World,
    g: Gen,
    e: tree::Expr,
    c: Cpu,
) -> (d: Cpu)
    requires
        number(w, g, e) is Ok,
        goes_on((number(w, g, e)->Ok_0).out, f),
        one_label(f),
        faithful(w, x, k),
        sane(g.vars, g.depth, c),
    ensures
        gets(f, k, g.out.code.len() as int, c, (number(w, g, e)->Ok_0).out.code.len() as int, d),
        d.regs[0] == eval(w, x, g.vars, c, e),
        agree(c, d, g.depth),
    decreases e, 6int,
{
    lemma_value_runs(f, k, x, w, g, e, c)
}

pub proof fn run_unary(
    f: Asm,
    k: Kernel,
    x: Around,
    w: World,
    g: Gen,
    e: tree::Expr,
    c: Cpu,
) -> (d: Cpu)
    requires
        e.kind is Unary,
        !is_logic(e),
        !(e.kind->Unary_op is Deref),
        value(w, g, e) is Ok,
        goes_on((value(w, g, e)->Ok_0).0.out, f),
        one_label(f),
        faithful(w, x, k),
        sane(g.vars, g.depth, c),
    ensures
        gets(
            f,
            k,
            g.out.code.len() as int,
            c,
            (value(w, g, e)->Ok_0).0.out.code.len() as int,
            d,
        ),
        d.regs[0] == eval(w, x, g.vars, c, e),
        agree(c, d, g.depth),
    decreases e, 0int,
{
    let op = e.kind->Unary_op;
    let inner = *e.kind->Unary_expr;
    let pc = g.out.code.len() as int;
    let g1 = number(w, g, inner)->Ok_0;
    let insn = if op is Neg {
        alu(AluOp::Neg, Reg::R0, 0)
    } else {
        alu(AluOp::Xor, Reg::R0, -1)
    };
    let g2 = put(g1, insn);
    let s = width_of(g.vars, e);
    let h = masked(g2, s);
    lemma_width(g.vars, e);
    lemma_masked_steps(g2, s);
    lemma_goes_back(g2.out, h.out, f);
    lemma_put_steps(g1, insn);
    lemma_goes_back(g1.out, g2.out, f);
    let c1 = run_number(f, k, x, w, g, inner, c);
    let n: i32 = if op is Neg {
        0i32
    } else {
        -1i32
    };
    let which = if op is Neg {
        AluOp::Neg
    } else {
        AluOp::Xor
    };
    let c2 = run_alu(f, k, g1, which, Reg::R0, n, pc, c, c1);
    lemma_low_bits(c1.regs[0]);
    assert(word(-1) == 0xffff_ffff_ffff_ffff);
    let d = run_masked(f, k, g2, s, pc, c, c2);
    lemma_agree_on(c, c1, d, g.depth, g.depth);
    d
}

/// The left operand in R1, the right one in R0.
pub proof fn run_operands(
    f: Asm,
    k: Kernel,
    x: Around,
    w: World,
    g: Gen,
    e: tree::Expr,
    c: Cpu,
) -> (d: Cpu)
    requires
        e.kind is Binary,
        operands(w, g, e) is Ok,
        goes_on((operands(w, g, e)->Ok_0).out, f),
        one_label(f),
        faithful(w, x, k),
        sane(g.vars, g.depth, c),
    ensures
        gets(f, k, g.out.code.len() as int, c, (operands(w, g, e)->Ok_0).out.code.len() as int, d),
        d.regs[1] == eval(w, x, g.vars, c, *e.kind->Binary_lhs),
        d.regs[0] == eval(w, x, g.vars, c, *e.kind->Binary_rhs),
        agree(c, d, g.depth),
    decreases e, 0int,
{
    let lhs = *e.kind->Binary_lhs;
    let rhs = *e.kind->Binary_rhs;
    let pc = g.out.code.len() as int;
    let g1 = number(w, g, lhs)->Ok_0;
    let g2 = grow(g1, 8)->Ok_0;
    lemma_number_steps(w, g, lhs);
    let at = g2.depth;
    let off = (-(at as int)) as i16;
    let st = store(Size::DW, Reg::R10, off as int, Reg::R0);
    let ld = load(Size::DW, Reg::R1, Reg::R10, off as int);
    let g2b = put(g2, st);
    let g3 = number(w, g2b, rhs)->Ok_0;
    let g4 = put(g3, ld);
    lemma_number_steps(w, g2b, rhs);
    lemma_put_steps(g3, ld);
    lemma_goes_back(g3.out, g4.out, f);
    lemma_goes_back(g2b.out, g3.out, f);
    lemma_put_steps(g2, st);
    lemma_goes_back(g2.out, g2b.out, f);
    let c1 = run_number(f, k, x, w, g, lhs, c);
    let c2 = run_store(f, k, g2, Size::DW, Reg::R10, off, Reg::R0, pc, c, c1);
    lemma_kept_agrees(c1, c2, g.depth, 8);
    lemma_agree_on(c, c1, c2, g.depth, g.depth);
    lemma_sane_same(g.vars, g.depth, c, c2);
    lemma_sane_deeper(g.vars, g.depth, at, c2);
    lemma_eval_same(w, x, g.vars, g.depth, c, c2, rhs);
    let c3 = run_number(f, k, x, w, g2b, rhs, c2);
    lemma_gets_on(
        f,
        k,
        pc,
        c,
        g2b.out.code.len() as int,
        c2,
        g3.out.code.len() as int,
        c3,
    );
    lemma_agree_on(c, c2, c3, g.depth, at);
    lemma_slot_same(c2, c3, at, at);
    lemma_kept_is_cut(c1.mem, slot(c1, at), Size::DW, c1.regs[0]);
    assert(slot_value(c2, at) == c1.regs[0]);
    let d = run_load(f, k, g3, Size::DW, Reg::R1, Reg::R10, off, pc, c, c3);
    lemma_agree_on(c, c3, d, g.depth, g.depth);
    d
}

pub proof fn run_binary(
    f: Asm,
    k: Kernel,
    x: Around,
    w: World,
    g: Gen,
    e: tree::Expr,
    c: Cpu,
) -> (d: Cpu)
    requires
        e.kind is Binary,
        !is_logic(e),
        value(w, g, e) is Ok,
        goes_on((value(w, g, e)->Ok_0).0.out, f),
        one_label(f),
        faithful(w, x, k),
        sane(g.vars, g.depth, c),
    ensures
        gets(
            f,
            k,
            g.out.code.len() as int,
            c,
            (value(w, g, e)->Ok_0).0.out.code.len() as int,
            d,
        ),
        d.regs[0] == eval(w, x, g.vars, c, e),
        agree(c, d, g.depth),
    decreases e, 1int,
{
    let op = e.kind->Binary_op;
    let pc = g.out.code.len() as int;
    let g1 = operands(w, g, e)->Ok_0;
    let which = arithmetic(op)->0;
    let a = alu_reg(which, Reg::R1, Reg::R0);
    let g2 = put(g1, a);
    let g3 = put(g2, copy(Reg::R0, Reg::R1));
    let s = width_of(g.vars, e);
    let h = masked(g3, s);
    lemma_width(g.vars, e);
    lemma_masked_steps(g3, s);
    lemma_goes_back(g3.out, h.out, f);
    lemma_two_puts(g1, a, copy(Reg::R0, Reg::R1));
    lemma_goes_back(g2.out, g3.out, f);
    lemma_goes_back(g1.out, g3.out, f);
    let c1 = run_operands(f, k, x, w, g, e, c);
    let c2 = run_alu_reg(f, k, g1, which, Reg::R1, Reg::R0, pc, c, c1);
    let c3 = run_copy(f, k, g2, Reg::R0, Reg::R1, pc, c, c2);
    let d = run_masked(f, k, g3, s, pc, c, c3);
    assert(c3.regs[0] == computes(op, c1.regs[1], c1.regs[0]));
    lemma_agree_on(c, c1, d, g.depth, g.depth);
    d
}

/// Looking a key up.
pub proof fn run_get(
    f: Asm,
    k: Kernel,
    x: Around,
    w: World,
    g: Gen,
    e: tree::Expr,
    t: int,
    key: tree::Expr,
    c: Cpu,
) -> (d: Cpu)
    requires
        e.kind matches tree::ExprKind::MethodCall { receiver, args, .. } && (receiver.kind matches tree::ExprKind::Ident(
            name,
        ) && table_at(w.tables, name, 0) == Some(t)) && args.len() > 0 && args[0] == key,
        !is_logic(e),
        value(w, g, e) is Ok,
        goes_on((value(w, g, e)->Ok_0).0.out, f),
        one_label(f),
        faithful(w, x, k),
        sane(g.vars, g.depth, c),
    ensures
        gets(
            f,
            k,
            g.out.code.len() as int,
            c,
            (value(w, g, e)->Ok_0).0.out.code.len() as int,
            d,
        ),
        d.regs[0] == eval(w, x, g.vars, c, e),
        agree(c, d, g.depth),
    decreases e, 0int,
{
    let pc = g.out.code.len() as int;
    let name = e.kind->MethodCall_receiver.kind->Ident_0;
    lemma_table_at(w.tables, name, 0);
    lemma_helper_numbers();
    let s = w.tables[t].key;
    let g1 = keyed(w, g, s, key)->Ok_0;
    let h = on_map(g1, t, g1.depth, Helper::MapLookupElem);
    lemma_keyed_steps(w, g, s, key);
    lemma_on_map_steps(g1, t, g1.depth, Helper::MapLookupElem);
    lemma_goes_back(g1.out, h.out, f);
    let c1 = run_keyed(f, k, x, w, g, s, key, c);
    let m = run_on_map(f, k, g1, t, g1.depth, Helper::MapLookupElem, pc, c, c1);
    let d = (k.acts)(1, m);
    assert(w.tables[t].key == s);
    lemma_answers_agree(m, d, g.depth);
    lemma_agree_on(c, c1, m, g.depth, g.depth);
    lemma_agree_on(c, m, d, g.depth, g.depth);
    d
}

/// A value in a slot of its own, as many bytes of it as the slot is wide.
pub proof fn run_keyed(
    f: Asm,
    k: Kernel,
    x: Around,
    w: World,
    g: Gen,
    size: Size,
    e: tree::Expr,
    c: Cpu,
) -> (d: Cpu)
    requires
        keyed(w, g, size, e) is Ok,
        goes_on((keyed(w, g, size, e)->Ok_0).out, f),
        one_label(f),
        faithful(w, x, k),
        sane(g.vars, g.depth, c),
    ensures
        gets(
            f,
            k,
            g.out.code.len() as int,
            c,
            (keyed(w, g, size, e)->Ok_0).out.code.len() as int,
            d,
        ),
        fetched(d.mem, slot(c, g.depth + 8), bytes_in(size)) == cut(
            eval(w, x, g.vars, c, e),
            Some(bytes_in(size)),
        ),
        agree(c, d, g.depth),
    decreases e, 7int,
{
    let pc = g.out.code.len() as int;
    let g1 = number(w, g, e)->Ok_0;
    let g2 = grow(g1, 8)->Ok_0;
    lemma_number_steps(w, g, e);
    let off = (-(g2.depth as int)) as i16;
    let st = store(size, Reg::R10, off as int, Reg::R0);
    lemma_put_steps(g2, st);
    lemma_goes_back(g2.out, put(g2, st).out, f);
    let c1 = run_number(f, k, x, w, g, e, c);
    let d = run_store(f, k, g2, size, Reg::R10, off, Reg::R0, pc, c, c1);
    lemma_kept_agrees(c1, d, g.depth, bytes_in(size));
    lemma_agree_on(c, c1, d, g.depth, g.depth);
    lemma_kept_is_cut(c1.mem, slot(c1, g2.depth), size, c1.regs[0]);
    assert(c1.regs[10] == c.regs[10]);
    d
}

/// Something true is 1, something false 0.
pub proof fn run_truth(
    f: Asm,
    k: Kernel,
    x: Around,
    w: World,
    g: Gen,
    e: tree::Expr,
    c: Cpu,
) -> (d: Cpu)
    requires
        is_logic(e),
        truth(w, g, e) is Ok,
        goes_on((truth(w, g, e)->Ok_0).out, f),
        one_label(f),
        faithful(w, x, k),
        sane(g.vars, g.depth, c),
    ensures
        gets(f, k, g.out.code.len() as int, c, (truth(w, g, e)->Ok_0).out.code.len() as int, d),
        d.regs[0] == eval(w, x, g.vars, c, e),
        agree(c, d, g.depth),
    decreases e, 4int,
{
    let pc = g.out.code.len() as int;
    let yes = g.out.labels.len() as int;
    let g1 = fresh3(g)->Ok_0;
    let g2 = branch(w, g1, e, yes, yes + 1)->Ok_0;
    lemma_branch_steps(w, g1, e, yes, yes + 1);
    assert(g1.out.labels[yes] is None && g1.out.labels[yes + 1] is None && g1.out.labels[yes
        + 2] is None);
    let one = set_num(Reg::R0, 1);
    let zero = set_num(Reg::R0, 0);
    let a = bound(g2, yes);
    let b = put(a, one);
    let g3 = jump(b, always(), yes + 2);
    let z = bound(g3, yes + 1);
    let y = put(z, zero);
    lemma_bound_goes_on(y, yes + 2, f);
    lemma_put_steps(z, zero);
    lemma_goes_back(z.out, y.out, f);
    lemma_bound_goes_on(g3, yes + 1, f);
    lemma_jump_steps(b, always(), yes + 2);
    lemma_goes_back(b.out, g3.out, f);
    lemma_put_steps(a, one);
    lemma_goes_back(a.out, b.out, f);
    lemma_bound_goes_on(g2, yes, f);
    let c1 = run_branch(f, k, x, w, g1, e, yes, yes + 1, c);
    lemma_truth_is_logic(e);
    if truly(w, x, g.vars, c, e) {
        let d = run_set_num(f, k, a, Reg::R0, 1, pc, c, c1);
        run_always(f, k, b, yes + 2, pc, c, d);
        lemma_agree_on(c, c1, d, g.depth, g.depth);
        d
    } else {
        let d = run_set_num(f, k, z, Reg::R0, 0, pc, c, c1);
        lemma_agree_on(c, c1, d, g.depth, g.depth);
        d
    }
}

/// Running the code of a condition gets to `yes` where it holds, and to `no` where
/// it does not.
pub proof fn run_branch(
    f: Asm,
    k: Kernel,
    x: Around,
    w: World,
    g: Gen,
    e: tree::Expr,
    yes: int,
    no: int,
    c: Cpu,
) -> (d: Cpu)
    requires
        branch(w, g, e, yes, no) is Ok,
        goes_on((branch(w, g, e, yes, no)->Ok_0).out, f),
        one_label(f),
        faithful(w, x, k),
        sane(g.vars, g.depth, c),
    ensures
        gets(
            f,
            k,
            g.out.code.len() as int,
            c,
            f.labels[if truly(w, x, g.vars, c, e) {
                yes
            } else {
                no
            }]->0,
            d,
        ),
        agree(c, d, g.depth),
    decreases e, 3int,
{
    let pc = g.out.code.len() as int;
    lemma_truth_is_logic(e);
    match e.kind {
        tree::ExprKind::Unary { op: UnaryOp::Not, expr } => run_branch(
            f,
            k,
            x,
            w,
            g,
            *expr,
            no,
            yes,
            c,
        ),
        tree::ExprKind::Binary { op: BinaryOp::And, lhs, rhs } => {
            let next = g.out.labels.len() as int;
            let g1 = fresh(g)->Ok_0;
            let g2 = branch(w, g1, *lhs, next, no)->Ok_0;
            let g3 = bound(g2, next);
            let h = branch(w, g3, *rhs, yes, no)->Ok_0;
            lemma_branch_steps(w, g1, *lhs, next, no);
            lemma_branch_steps(w, g3, *rhs, yes, no);
            lemma_goes_back(g3.out, h.out, f);
            assert(g1.out.labels[next] is None);
            lemma_bound_goes_on(g2, next, f);
            let c1 = run_branch(f, k, x, w, g1, *lhs, next, no, c);
            if truly(w, x, g.vars, c, *lhs) {
                lemma_sane_same(g.vars, g.depth, c, c1);
                lemma_eval_same(w, x, g.vars, g.depth, c, c1, *rhs);
                let d = run_branch(f, k, x, w, g3, *rhs, yes, no, c1);
                let p = f.labels[if truly(w, x, g.vars, c1, *rhs) {
                    yes
                } else {
                    no
                }]->0;
                lemma_gets_on(f, k, pc, c, g3.out.code.len() as int, c1, p, d);
                lemma_agree_on(c, c1, d, g.depth, g.depth);
                d
            } else {
                c1
            }
        },
        tree::ExprKind::Binary { op: BinaryOp::Or, lhs, rhs } => {
            let next = g.out.labels.len() as int;
            let g1 = fresh(g)->Ok_0;
            let g2 = branch(w, g1, *lhs, yes, next)->Ok_0;
            let g3 = bound(g2, next);
            let h = branch(w, g3, *rhs, yes, no)->Ok_0;
            lemma_branch_steps(w, g1, *lhs, yes, next);
            lemma_branch_steps(w, g3, *rhs, yes, no);
            lemma_goes_back(g3.out, h.out, f);
            assert(g1.out.labels[next] is None);
            lemma_bound_goes_on(g2, next, f);
            let c1 = run_branch(f, k, x, w, g1, *lhs, yes, next, c);
            if !truly(w, x, g.vars, c, *lhs) {
                lemma_sane_same(g.vars, g.depth, c, c1);
                lemma_eval_same(w, x, g.vars, g.depth, c, c1, *rhs);
                let d = run_branch(f, k, x, w, g3, *rhs, yes, no, c1);
                let p = f.labels[if truly(w, x, g.vars, c1, *rhs) {
                    yes
                } else {
                    no
                }]->0;
                lemma_gets_on(f, k, pc, c, g3.out.code.len() as int, c1, p, d);
                lemma_agree_on(c, c1, d, g.depth, g.depth);
                d
            } else {
                c1
            }
        },
        _ => {
            if let Some(op) = compares(e) {
                run_comparison(f, k, x, w, g, e, op, yes, no, c)
            } else if is_logic(e) {
                run_prefix(
                    f,
                    k,
                    g,
                    *e.kind->MethodCall_receiver,
                    e.kind->MethodCall_args,
                    yes,
                    no,
                    c,
                )
            } else {
                let g1 = (value(w, g, e)->Ok_0).0;
                let insn = if_num(JmpOp::Ne, Reg::R0, 0);
                lemma_value_steps(w, g, e);
                lemma_two_jumps(g, g1, insn, yes, no);
                lemma_steps_on(
                    g1,
                    jump(g1, insn, yes),
                    jump(jump(g1, insn, yes), always(), no),
                );
                lemma_goes_back(g1.out, jump(jump(g1, insn, yes), always(), no).out, f);
                let d = lemma_value_runs(f, k, x, w, g, e, c);
                lemma_jumps_compare(JmpOp::Ne, d.regs[0], extended(0));
                assert(extended(0) == 0);
                run_two_jumps(f, k, g1, insn, yes, no, d.regs[0] != 0, pc, c, d);
                d
            }
        },
    }
}

pub proof fn run_comparison(
    f: Asm,
    k: Kernel,
    x: Around,
    w: World,
    g: Gen,
    e: tree::Expr,
    op: JmpOp,
    yes: int,
    no: int,
    c: Cpu,
) -> (d: Cpu)
    requires
        compares(e) == Some(op),
        branch(w, g, e, yes, no) is Ok,
        goes_on((branch(w, g, e, yes, no)->Ok_0).out, f),
        one_label(f),
        faithful(w, x, k),
        sane(g.vars, g.depth, c),
    ensures
        gets(
            f,
            k,
            g.out.code.len() as int,
            c,
            f.labels[if truly(w, x, g.vars, c, e) {
                yes
            } else {
                no
            }]->0,
            d,
        ),
        agree(c, d, g.depth),
    decreases e, 2int,
{
    let pc = g.out.code.len() as int;
    let g1 = operands(w, g, e)->Ok_0;
    let insn = if_reg(op, Reg::R1, Reg::R0);
    let h = jump(jump(g1, insn, yes), always(), no);
    lemma_truth_is_logic(e);
    lemma_operands_steps(w, g, e);
    lemma_two_jumps(g, g1, insn, yes, no);
    lemma_steps_on(g1, jump(g1, insn, yes), h);
    lemma_goes_back(g1.out, h.out, f);
    let d = run_operands(f, k, x, w, g, e, c);
    lemma_jumps_compare(op, d.regs[1], d.regs[0]);
    let taken = compare(e.kind->Binary_op, d.regs[1], d.regs[0]);
    run_two_jumps(f, k, g1, insn, yes, no, taken, pc, c, d);
    d
}

// ---------------------------------------------------------------------- names

/// The last local of a name, among those that count.
pub open spec fn is_last_named(
    vars: Seq<Var>,
    name: Seq<char>,
    constants: bool,
    i: int,
) -> bool {
    &&& 0 <= i < vars.len()
    &&& vars[i].name == name
    &&& constants ==> vars[i].place is Const
    &&& forall|j: int|
        i < j < vars.len() && (#[trigger] vars[j]).name == name ==> constants
            && !(vars[j].place is Const)
}

/// A name means the local that was declared last; where a constant is asked for,
/// the constant.
pub proof fn lemma_names_mean_the_last(vars: Seq<Var>, name: Seq<char>)
    ensures
        match find(vars, name) {
            Some(p) => exists|i: int| #[trigger]
                is_last_named(vars, name, false, i) && vars[i].place == p,
            None => forall|j: int| 0 <= j < vars.len() ==> (#[trigger] vars[j]).name != name,
        },
        match find_const(vars, name) {
            Some(n) => exists|i: int| #[trigger]
                is_last_named(vars, name, true, i) && (vars[i].place matches Place::Const(m, _) && m
                    == n),
            None => forall|j: int|
                0 <= j < vars.len() && (#[trigger] vars[j]).name == name ==> !(
                vars[j].place is Const),
        },
    decreases vars.len(),
{
    if vars.len() > 0 {
        let rest = vars.drop_last();
        let last = vars.len() - 1;
        lemma_names_mean_the_last(rest, name);
        assert forall|j: int| 0 <= j < rest.len() implies #[trigger] vars[j] == rest[j] by {}
        if vars.last().name == name {
            assert(is_last_named(vars, name, false, last));
        } else if let Some(p) = find(rest, name) {
            let i = choose|i: int| #[trigger]
                is_last_named(rest, name, false, i) && rest[i].place == p;
            assert(is_last_named(vars, name, false, i)) by {
                assert(vars[i] == rest[i]);
                assert forall|j: int| i < j < vars.len() implies (#[trigger] vars[j]).name
                    != name by {
                    if j < last {
                        assert(vars[j] == rest[j]);
                    }
                }
            }
        } else {
            assert forall|j: int| 0 <= j < vars.len() implies (#[trigger] vars[j]).name != name by {
                if j < last {
                    assert(vars[j] == rest[j]);
                }
            }
        }
        if vars.last().name == name && vars.last().place is Const {
            assert(is_last_named(vars, name, true, last));
        } else if let Some(n) = find_const(rest, name) {
            let i = choose|i: int| #[trigger]
                is_last_named(rest, name, true, i) && (rest[i].place matches Place::Const(m, _) && m
                    == n);
            assert(is_last_named(vars, name, true, i)) by {
                assert(vars[i] == rest[i]);
                assert forall|j: int|
                    i < j < vars.len() && (#[trigger] vars[j]).name == name implies !(
                vars[j].place is Const) by {
                    if j < last {
                        assert(vars[j] == rest[j]);
                    }
                }
            }
        } else {
            assert forall|j: int|
                0 <= j < vars.len() && (#[trigger] vars[j]).name == name implies !(
            vars[j].place is Const) by {
                if j < last {
                    assert(vars[j] == rest[j]);
                }
            }
        }
    }
}

/// The name of a map means the first one that was declared.
pub proof fn lemma_maps_mean_the_first(
    tables: Seq<crate::lowering::Table>,
    name: Seq<char>,
    i: int,
)
    requires
        0 <= i,
    ensures
        match table_at(tables, name, i) {
            Some(t) => i <= t < tables.len() && tables[t].name == name && forall|j: int|
                i <= j < t ==> (#[trigger] tables[j]).name != name,
            None => forall|j: int| i <= j < tables.len() ==> (#[trigger] tables[j]).name != name,
        },
    decreases tables.len() - i,
{
    if i < tables.len() && tables[i].name != name {
        lemma_maps_mean_the_first(tables, name, i + 1);
    }
}

} // verus!
