//! What a probe does, statement by statement, and that its code does it.
//!
//! `does` says what a statement does to the machine: the locals in their slots, the
//! record that an `emit` fills, and the deeds that others see. Running the code of
//! a statement, wherever it stands, does that.

use crate::bpf::{Asm, Helper, JmpOp, Reg, Size};
use crate::doing::{
    dutiful, emitted, fitted, keeps_stack, lemma_assign_runs, lemma_emit_extends, lemma_emit_runs,
    lemma_let_runs, lemma_let_text_runs, lemma_map_stmt_runs, lemma_pointers, lemma_sane_with,
    lemma_stack_slot, local_width, only_slot, pointer_width, text_byte, text_slots,
};
use crate::layout::layout_of;
use crate::lowering::{
    always, back, block, bound, branch, checked, const_of, event_at, expr_stmt, find, fresh, fresh2,
    grow, if_num, jump, let_stmt, otherwise_part, put, stmt, stmts, store, table_at, tested,
    text_type, unroll, value, Gen, Place, Value, Var, World,
};
use crate::machine::{
    bytes_in, extended, lemma_fetched_same, lemma_jumps_compare, Cpu, Deed, Kernel,
};
use crate::meaning::{
    agree, cut, eval, extends, faithful, gets, goes_on, lemma_agree_on, lemma_bound_goes_on,
    lemma_branch_steps, lemma_extends_on, lemma_find_placed, lemma_gets_on, lemma_gets_self,
    lemma_goes_back, lemma_jump_runs, lemma_jump_steps, lemma_kept_agrees, lemma_kept_is_cut,
    lemma_put_steps, lemma_settled, lemma_steps_on, lemma_table_at, lemma_value_runs,
    lemma_value_steps, off_stack, one_label, run_always, run_branch, run_store, sane, settled, slot,
    slot_value, steps, truly, width, Around,
};
use crate::tree;
use vstd::prelude::*;

verus! {

// --------------------------------------------------------------------- locals

/// The part of the stack that a local has: from, and up to, so many bytes below
/// R10.
pub open spec fn spot(p: Place) -> Option<(int, int)> {
    match p {
        Place::Num(at, _) => Some((at - 8, at as int)),
        Place::Maybe(at, _) => Some((at - 8, at as int)),
        Place::Ref(at, _) => Some((at - 8, at as int)),
        Place::Text(at, n) => Some((at - text_slots(n as int), at as int)),
        _ => None,
    }
}

/// Locals follow one another on the stack, behind the context.
pub open spec fn lined(vars: Seq<Var>, depth: nat) -> bool {
    &&& forall|i: int|
        0 <= i < vars.len() ==> (spot((#[trigger] vars[i]).place) matches Some((low, at)) ==> 8
            <= low <= at <= depth)
    &&& forall|i: int, j: int|
        0 <= i < j < vars.len() ==> (spot((#[trigger] vars[i]).place) matches Some((_, at)) ==> (
        spot((#[trigger] vars[j]).place) matches Some((low, _)) ==> at <= low))
}

/// A pointer that may be null is null, or points to a value of a map.
pub open spec fn maybes(vars: Seq<Var>, c: Cpu) -> bool {
    forall|i: int|
        0 <= i < vars.len() ==> ((#[trigger] vars[i]).place matches Place::Maybe(at, s)
            ==> slot_value(c, at) == 0 || off_stack(
            c,
            slot_value(c, at) as int,
            8,
        ))
}

/// A machine in the middle of a probe.
pub open spec fn good(x: Around, vars: Seq<Var>, depth: nat, c: Cpu) -> bool {
    &&& sane(vars, depth, c)
    &&& lined(vars, depth)
    &&& maybes(vars, c)
    &&& c.regs[10] == x.stack
}

/// The width of so many bytes.
pub open spec fn size_for(n: nat) -> Size {
    if n == 1 {
        Size::B
    } else if n == 2 {
        Size::H
    } else if n == 4 {
        Size::W
    } else {
        Size::DW
    }
}

/// The capacity of an annotation `str<N>`.
pub open spec fn capacity(t: Option<tree::Type>) -> Option<u64> {
    match t {
        Some(t) => if t.name.name == "str"@ && t.args.len() == 1 {
            match t.args[0] {
                tree::TypeArg::Int(n) => Some(n),
                _ => None,
            }
        } else {
            None
        },
        None => None,
    }
}

/// The locals behind a statement, and how much of the stack is in use.
pub open spec fn declared(w: World, vars: Seq<Var>, depth: nat, s: tree::Stmt) -> (Seq<Var>, nat) {
    match s.kind {
        tree::StmtKind::Let { name, ty, value: e, .. } => match capacity(ty) {
            Some(n) => {
                let at = depth + text_slots(n as int);
                (vars.push(Var { name: name.name, place: Place::Text(at, n as nat) }), at)
            },
            None => {
                let at = depth + 8;
                let place = match pointer_width(w, vars, e) {
                    Some(n) => Place::Maybe(at, size_for(n)),
                    None => Place::Num(at, size_for(local_width(vars, ty, e))),
                };
                (vars.push(Var { name: name.name, place }), at)
            },
        },
        _ => (vars, depth),
    }
}

// ----------------------------------------------------------------- statements

/// A `let`: the new slot holds the value.
pub open spec fn let_done(
    w: World,
    x: Around,
    vars: Seq<Var>,
    depth: nat,
    ty: Option<tree::Type>,
    e: tree::Expr,
    c: Cpu,
    d: Cpu,
) -> bool {
    &&& agree(c, d, depth)
    &&& match capacity(ty) {
        Some(n) => forall|i: int|
            0 <= i < n ==> #[trigger] d.mem[slot(c, depth + text_slots(n as int)) + i] == text_byte(
                w,
                x,
                vars,
                c,
                n as int,
                e,
                i,
            ),
        None => slot_value(d, depth + 8) == match pointer_width(w, vars, e) {
            Some(_) => eval(w, x, vars, c, e),
            None => fitted(
                eval(w, x, vars, c, e),
                width(vars, e),
                local_width(vars, ty, e),
            ),
        },
    }
}

/// An assignment: the slot of the name holds the value.
pub open spec fn assign_done(
    w: World,
    x: Around,
    vars: Seq<Var>,
    depth: nat,
    target: tree::Expr,
    e: tree::Expr,
    c: Cpu,
    d: Cpu,
) -> bool {
    &&& target.kind matches tree::ExprKind::Ident(name)
    &&& find(vars, name) matches Some(Place::Num(at, s))
    &&& slot_value(d, at) == fitted(eval(w, x, vars, c, e), width(vars, e), bytes_in(s))
    &&& only_slot(c, d, depth, at)
}

/// The locals are as they were.
pub open spec fn same_locals(c: Cpu, d: Cpu, depth: nat) -> bool {
    &&& d.regs[10] == c.regs[10]
    &&& forall|a: int| c.regs[10] - depth <= a < c.regs[10] ==> #[trigger] d.mem[a] == c.mem[a]
}

/// A call for what it does: a map changes, or nothing does.
pub open spec fn call_done(
    w: World,
    x: Around,
    vars: Seq<Var>,
    depth: nat,
    e: tree::Expr,
    c: Cpu,
    d: Cpu,
) -> bool {
    &&& same_locals(c, d, depth)
    &&& match map_change(w, x, vars, c, e) {
        Some(deed) => d.deeds == c.deeds.push(deed),
        None => agree(c, d, depth),
    }
}

/// What an expression statement does to a map.
pub open spec fn map_change(
    w: World,
    x: Around,
    vars: Seq<Var>,
    c: Cpu,
    e: tree::Expr,
) -> Option<Deed> {
    match e.kind {
        tree::ExprKind::MethodCall { receiver, method, args } => match receiver.kind {
            tree::ExprKind::Ident(name) => match table_at(w.tables, name, 0) {
                Some(t) => {
                    let key = Some(bytes_in(w.tables[t].key));
                    let val = Some(bytes_in(w.tables[t].value));
                    if method.name == "insert"@ && args.len() == 2 {
                        Some(
                            Deed::Insert {
                                map: t,
                                key: cut(eval(w, x, vars, c, args[0]), key) as int,
                                value: cut(eval(w, x, vars, c, args[1]), val) as int,
                            },
                        )
                    } else if method.name == "delete"@ && args.len() == 1 {
                        Some(
                            Deed::Delete {
                                map: t,
                                key: cut(eval(w, x, vars, c, args[0]), key) as int,
                            },
                        )
                    } else {
                        None
                    }
                },
                None => None,
            },
            _ => None,
        },
        _ => None,
    }
}

/// The first event of a name.
pub open spec fn is_event(w: World, name: Seq<char>, q: int) -> bool {
    &&& 0 <= q < w.events.len()
    &&& w.events[q].name.name == name
    &&& forall|j: int| 0 <= j < q ==> (#[trigger] w.events[j]).name.name != name
}

/// A state of the machine between two statements.
pub open spec fn between(m: Cpu) -> bool {
    true
}

/// What a statement does, from `c` to `d`; `leaves` where the probe ends with it.
pub open spec fn does(
    w: World,
    x: Around,
    vars: Seq<Var>,
    depth: nat,
    s: tree::Stmt,
    c: Cpu,
    d: Cpu,
    leaves: bool,
) -> bool
    decreases s, 0int,
{
    match s.kind {
        tree::StmtKind::Let { ty, value: e, .. } => !leaves && let_done(
            w,
            x,
            vars,
            depth,
            ty,
            e,
            c,
            d,
        ),
        tree::StmtKind::Assign { target, value: e } => !leaves && assign_done(
            w,
            x,
            vars,
            depth,
            target,
            e,
            c,
            d,
        ),
        tree::StmtKind::If { cond, body, otherwise } => match cond {
            tree::Cond::Expr(e) => exists|m: Cpu|
                {
                    &&& #[trigger] agree(c, m, depth)
                    &&& if truly(w, x, vars, c, e) {
                        does_all(w, x, vars, depth, body.stmts, 0, m, d, leaves)
                    } else {
                        match otherwise {
                            Some(b) => does_all(w, x, vars, depth, b.stmts, 0, m, d, leaves),
                            None => d == m && !leaves,
                        }
                    }
                },
            tree::Cond::Let { pattern, value: e } => {
                let p = eval(w, x, vars, c, e);
                exists|m: Cpu|
                    {
                        &&& #[trigger] agree(c, m, depth)
                        &&& slot_value(m, depth + 8) == p
                        &&& if p != 0 {
                            does_all(
                                w,
                                x,
                                vars.push(
                                    Var {
                                        name: (pattern.binding->0).name,
                                        place: Place::Ref(
                                            depth + 8,
                                            size_for(pointer_width(w, vars, e)->0),
                                        ),
                                    },
                                ),
                                depth + 8,
                                body.stmts,
                                0,
                                m,
                                d,
                                leaves,
                            )
                        } else {
                            match otherwise {
                                Some(b) => does_all(w, x, vars, depth, b.stmts, 0, m, d, leaves),
                                None => d == m && !leaves,
                            }
                        }
                    }
            },
        },
        tree::StmtKind::For { var, start, end, body } => match (
            settled(vars, start),
            settled(vars, end),
        ) {
            (Some(lo), Some(hi)) => does_rounds(
                w,
                x,
                vars,
                depth,
                var.name,
                lo,
                hi,
                body,
                c,
                d,
                leaves,
            ),
            _ => false,
        },
        tree::StmtKind::Emit { event, fields } => !leaves && exists|q: int| #[trigger]
            is_event(w, event.name, q) && emitted(
                w,
                x,
                vars,
                depth,
                layout_of(w.events[q]),
                fields,
                c,
                d,
            ),
        tree::StmtKind::Return(_) => leaves && d == c,
        tree::StmtKind::Expr(e) => !leaves && call_done(w, x, vars, depth, e, c, d),
    }
}

/// What the statements of a list from `i` on do, one after the other.
pub open spec fn does_all(
    w: World,
    x: Around,
    vars: Seq<Var>,
    depth: nat,
    list: Seq<tree::Stmt>,
    i: int,
    c: Cpu,
    d: Cpu,
    leaves: bool,
) -> bool
    decreases list, list.len() - i,
{
    if !(0 <= i < list.len()) {
        d == c && !leaves
    } else {
        let (more, deeper) = declared(w, vars, depth, list[i]);
        ||| leaves && does(w, x, vars, depth, list[i], c, d, true)
        ||| exists|m: Cpu| #[trigger]
            between(m) && does(w, x, vars, depth, list[i], c, m, false) && does_all(
                w,
                x,
                more,
                deeper,
                list,
                i + 1,
                m,
                d,
                leaves,
            )
    }
}

/// What the rounds of a loop do, from `lo` up to but not with `hi`, one after the
/// other. The variable has the number of the round.
pub open spec fn does_rounds(
    w: World,
    x: Around,
    vars: Seq<Var>,
    depth: nat,
    var: Seq<char>,
    lo: int,
    hi: int,
    body: tree::Block,
    c: Cpu,
    d: Cpu,
    leaves: bool,
) -> bool
    decreases
            body,
            (if lo < hi {
                hi - lo
            } else {
                0
            }),
{
    if lo >= hi {
        d == c && !leaves
    } else {
        let inner = vars.push(Var { name: var, place: Place::Step(lo as u64) });
        ||| leaves && does_all(w, x, inner, depth, body.stmts, 0, c, d, true)
        ||| exists|m: Cpu| #[trigger]
            between(m) && does_all(w, x, inner, depth, body.stmts, 0, c, m, false) && does_rounds(
                w,
                x,
                vars,
                depth,
                var,
                lo + 1,
                hi,
                body,
                m,
                d,
                leaves,
            )
    }
}

// --------------------------------------------------------- what code adds

/// The names in scope start with those of `g`.
pub open spec fn keeps_names(g: Gen, h: Gen) -> bool {
    g.vars.len() <= h.vars.len() && h.vars.take(g.vars.len() as int) == g.vars
}

pub proof fn lemma_let_extends(
    w: World,
    g: Gen,
    name: Seq<char>,
    t: Option<tree::Type>,
    e: tree::Expr,
)
    ensures
        let_stmt(w, g, name, t, e) matches Ok(h) ==> extends(g.out, h.out) && keeps_names(g, h)
            && h.vars.len() == g.vars.len() + 1,
{
    reveal(let_stmt);
    reveal(crate::lowering::text_value);
    if let Ok(h) = let_stmt(w, g, name, t, e) {
        lemma_value_steps(w, g, e);
        match text_type(t) {
            Some(n) => {
                crate::doing::lemma_text_extends(w, g, n, e);
                let g1 = crate::lowering::text_value(w, g, n, e)->Ok_0;
                assert(h.vars.take(g.vars.len() as int) =~= g.vars);
            },
            None => {
                let (g0, v) = value(w, g, e)->Ok_0;
                let have = crate::lowering::width_of(g.vars, e);
                let want = crate::lowering::local_size(g.vars, t, e);
                let g1 = match v {
                    Value::Num => crate::lowering::fit(g0, have, want),
                    Value::Maybe(_) => g0,
                };
                crate::doing::lemma_fit_steps(g0, have, want);
                lemma_steps_on(g, g0, g1);
                let g2 = grow(g1, 8)->Ok_0;
                let st = store(Size::DW, Reg::R10, -(g2.depth as int), Reg::R0);
                lemma_put_steps(g2, st);
                lemma_extends_on(g.out, g2.out, put(g2, st).out);
                assert(h.vars.take(g.vars.len() as int) =~= g.vars);
            },
        }
    }
}

pub proof fn lemma_expr_stmt_steps(w: World, g: Gen, e: tree::Expr)
    ensures
        expr_stmt(w, g, e) matches Ok(h) ==> steps(g, h),
{
    reveal(expr_stmt);
    lemma_value_steps(w, g, e);
    if let tree::ExprKind::MethodCall { receiver, method, args } = e.kind {
        if let tree::ExprKind::Ident(name) = receiver.kind {
            if let Some(t) = table_at(w.tables, name, 0) {
                if method.name == "insert"@ && args.len() == 2 {
                    crate::doing::lemma_insert_steps(w, g, t, args);
                } else if method.name == "delete"@ && args.len() == 1 {
                    let ks = w.tables[t].key;
                    crate::meaning::lemma_keyed_steps(w, g, ks, args[0]);
                    if let Ok(g1) = crate::lowering::keyed(w, g, ks, args[0]) {
                        let g2 = crate::lowering::on_map(g1, t, g1.depth, Helper::MapDeleteElem);
                        crate::meaning::lemma_on_map_steps(
                            g1,
                            t,
                            g1.depth,
                            Helper::MapDeleteElem,
                        );
                        lemma_extends_on(g.out, g1.out, g2.out);
                    }
                }
            }
        }
    }
}

proof fn lemma_tested(w: World, g: Gen, e: tree::Expr)
    ensures
        tested(w, g, e) matches Ok(h) ==> steps(g, h) && h.out.labels.len() >= g.out.labels.len()
            + 2 && h.out.labels[g.out.labels.len() as int + 1] is None,
{
    reveal(tested);
    let yes = g.out.labels.len() as int;
    if let Ok(g1) = fresh2(g) {
        assert(steps(g, g1) && g1.out.labels.len() == yes + 2 && g1.out.labels[yes + 1] is None);
        lemma_branch_steps(w, g1, e, yes, yes + 1);
        if let Ok(g2) = branch(w, g1, e, yes, yes + 1) {
            lemma_steps_on(g, g1, g2);
            crate::meaning::lemma_bound_steps(g, g2, yes);
        }
    }
}

proof fn lemma_checked(w: World, g: Gen, p: tree::Pattern, e: tree::Expr)
    ensures
        checked(w, g, p, e) matches Ok(h) ==> extends(g.out, h.out) && keeps_names(g, h)
            && h.out.labels.len() > g.out.labels.len() && h.out.labels[h.out.labels.len()
            - 1] is None && h.depth == g.depth + 8 && h.depth <= 512,
{
    reveal(checked);
    lemma_value_steps(w, g, e);
    if let Ok(h) = checked(w, g, p, e) {
        let g1 = (value(w, g, e)->Ok_0).0;
        let g2 = grow(g1, 8)->Ok_0;
        let st = store(Size::DW, Reg::R10, -(g2.depth as int), Reg::R0);
        let g2b = put(g2, st);
        let no = g2.out.labels.len() as int;
        let g3 = fresh(g2b)->Ok_0;
        let g4 = jump(g3, if_num(JmpOp::Eq, Reg::R0, 0), no);
        lemma_put_steps(g2, st);
        lemma_extends_on(g.out, g2.out, g2b.out);
        assert(extends(g2b.out, g3.out));
        lemma_extends_on(g.out, g2b.out, g3.out);
        lemma_jump_steps(g3, if_num(JmpOp::Eq, Reg::R0, 0), no);
        lemma_extends_on(g.out, g3.out, g4.out);
        assert(h.vars.take(g.vars.len() as int) =~= g.vars);
    }
}

pub proof fn lemma_stmts_extend(w: World, g: Gen, list: Seq<tree::Stmt>, i: int, end: int)
    ensures
        stmts(w, g, list, i, end) matches Ok(h) ==> extends(g.out, h.out) && keeps_names(g, h),
    decreases list, list.len() - i,
{
    if 0 <= i < list.len() {
        lemma_stmt_extends(w, g, list[i], end);
        if let Ok(g1) = stmt(w, g, list[i], end) {
            lemma_stmts_extend(w, g1, list, i + 1, end);
            if let Ok(h) = stmts(w, g1, list, i + 1, end) {
                lemma_extends_on(g.out, g1.out, h.out);
                lemma_names_on(g, g1, h);
            }
        }
    } else {
        assert(g.vars.take(g.vars.len() as int) =~= g.vars);
    }
}

proof fn lemma_names_on(a: Gen, b: Gen, d: Gen)
    requires
        keeps_names(a, b),
        keeps_names(b, d),
    ensures
        keeps_names(a, d),
{
    assert(d.vars.take(a.vars.len() as int) =~= b.vars.take(a.vars.len() as int));
}

pub proof fn lemma_block_extends(w: World, g: Gen, b: tree::Block, end: int)
    ensures
        block(w, g, b, end) matches Ok(h) ==> extends(g.out, h.out) && h.vars == g.vars && h.depth
            == g.depth,
    decreases b, 0int,
{
    lemma_stmts_extend(w, g, b.stmts, 0, end);
}

/// What stands behind the body of an `if`, seen from before it.
proof fn lemma_otherwise_extends(
    w: World,
    base: Asm,
    g: Gen,
    otherwise: Option<tree::Block>,
    no: int,
    end: int,
)
    requires
        extends(base, g.out),
        base.labels.len() <= no < g.out.labels.len(),
    ensures
        otherwise_part(w, g, otherwise, no, end) matches Ok(h) ==> extends(base, h.out) && h.vars
            == g.vars && h.depth == g.depth,
    decreases otherwise, 1int,
{
    match otherwise {
        None => {},
        Some(b) => {
            let done = g.out.labels.len() as int;
            if let Ok(g1) = fresh(g) {
                let g2 = jump(g1, always(), done);
                let g3 = bound(g2, no);
                assert(extends(g.out, g1.out));
                lemma_extends_on(base, g.out, g1.out);
                lemma_jump_steps(g1, always(), done);
                lemma_extends_on(base, g1.out, g2.out);
                assert(extends(base, g3.out));
                lemma_block_extends(w, g3, b, end);
                if let Ok(g4) = block(w, g3, b, end) {
                    lemma_extends_on(base, g3.out, g4.out);
                }
            }
        },
    }
}

proof fn lemma_unroll_extends(
    w: World,
    g: Gen,
    var: Seq<char>,
    lo: int,
    hi: int,
    body: tree::Block,
    end: int,
)
    ensures
        unroll(w, g, var, lo, hi, body, end) matches Ok(h) ==> extends(g.out, h.out) && h.vars
            == g.vars && h.depth == g.depth,
    decreases body, hi - lo,
{
    if lo < hi {
        let g0 = crate::lowering::with(g, var, Place::Step(lo as u64));
        lemma_block_extends(w, g0, body, end);
        if let Ok(g1) = block(w, g0, body, end) {
            let g2 = back(g1, g);
            assert(g2.vars =~= g.vars);
            lemma_unroll_extends(w, g2, var, lo + 1, hi, body, end);
            if let Ok(h) = unroll(w, g2, var, lo + 1, hi, body, end) {
                lemma_extends_on(g.out, g2.out, h.out);
            }
        }
    }
}

/// Only code, jumps and new labels come with a statement, and names behind those
/// in scope.
pub proof fn lemma_stmt_extends(w: World, g: Gen, s: tree::Stmt, end: int)
    ensures
        stmt(w, g, s, end) matches Ok(h) ==> extends(g.out, h.out) && keeps_names(g, h),
    decreases s, 0int,
{
    assert(g.vars.take(g.vars.len() as int) =~= g.vars);
    match s.kind {
        tree::StmtKind::Let { mutable, name, ty, value: e } => {
            lemma_let_extends(w, g, name.name, ty, e);
        },
        tree::StmtKind::Assign { target, value: e } => crate::doing::lemma_assign_steps(
            w,
            g,
            target,
            e,
        ),
        tree::StmtKind::If { cond, body, otherwise } => {
            match cond {
                tree::Cond::Expr(e) => {
                    lemma_tested(w, g, e);
                    if let Ok(g1) = tested(w, g, e) {
                        lemma_block_extends(w, g1, body, end);
                        if let Ok(g2) = block(w, g1, body, end) {
                            lemma_extends_on(g.out, g1.out, g2.out);
                            lemma_otherwise_extends(
                                w,
                                g.out,
                                g2,
                                otherwise,
                                g.out.labels.len() as int + 1,
                                end,
                            );
                        }
                    }
                },
                tree::Cond::Let { pattern, value: e } => {
                    lemma_checked(w, g, pattern, e);
                    if let Ok(g1) = checked(w, g, pattern, e) {
                        lemma_block_extends(w, g1, body, end);
                        if let Ok(g2) = block(w, g1, body, end) {
                            lemma_extends_on(g.out, g1.out, g2.out);
                            lemma_otherwise_extends(
                                w,
                                g.out,
                                back(g2, g),
                                otherwise,
                                g1.out.labels.len() - 1,
                                end,
                            );
                        }
                    }
                },
            }
        },
        tree::StmtKind::For { var, start, end: stop, body } => {
            if let (Some(lo), Some(hi)) = (const_of(g.vars, start), const_of(g.vars, stop)) {
                lemma_unroll_extends(w, g, var.name, lo as int, hi as int, body, end);
            }
        },
        tree::StmtKind::Emit { event, fields } => lemma_emit_extends(w, g, event.name, fields),
        tree::StmtKind::Return(v) => lemma_jump_steps(g, always(), end),
        tree::StmtKind::Expr(e) => lemma_expr_stmt_steps(w, g, e),
    }
}

// --------------------------------------------------------------- keeping good

proof fn lemma_good_stack(x: Around, vars: Seq<Var>, depth: nat, c: Cpu, d: Cpu)
    requires
        good(x, vars, depth, c),
        same_locals(c, d, depth),
    ensures
        good(x, vars, depth, d),
{
    lemma_stack_slot(c, d, depth, 8);
    assert forall|i: int| 0 <= i < vars.len() implies ((#[trigger] vars[i]).place matches Place::Ref(
        at,
        s,
    ) ==> off_stack(d, slot_value(d, at) as int, bytes_in(s) as int)) by {
        if let Place::Ref(at, s) = vars[i].place {
            lemma_stack_slot(c, d, depth, at);
        }
    }
    assert forall|i: int| 0 <= i < vars.len() implies ((#[trigger] vars[i]).place matches Place::Maybe(
        at,
        s,
    ) ==> slot_value(d, at) == 0 || off_stack(d, slot_value(d, at) as int, 8)) by {
        if let Place::Maybe(at, s) = vars[i].place {
            lemma_stack_slot(c, d, depth, at);
        }
    }
}

proof fn lemma_good_agree(x: Around, vars: Seq<Var>, depth: nat, c: Cpu, d: Cpu)
    requires
        good(x, vars, depth, c),
        agree(c, d, depth),
    ensures
        good(x, vars, depth, d),
{
    assert(d.regs[10] == c.regs[10]);
    lemma_good_stack(x, vars, depth, c, d);
}

proof fn lemma_good_prefix(
    x: Around,
    vars: Seq<Var>,
    depth: nat,
    c: Cpu,
    more: Seq<Var>,
    deeper: nat,
    d: Cpu,
)
    requires
        good(x, vars, depth, c),
        good(x, more, deeper, d),
        vars.len() <= more.len(),
        more.take(vars.len() as int) == vars,
    ensures
        good(x, vars, depth, d),
{
    assert forall|i: int| 0 <= i < vars.len() implies #[trigger] vars[i] == more[i] by {
        assert(more.take(vars.len() as int)[i] == more[i]);
    }
    assert forall|i: int| 0 <= i < vars.len() implies ((#[trigger] vars[i]).place matches Place::Ref(
        at,
        s,
    ) ==> off_stack(d, slot_value(d, at) as int, bytes_in(s) as int)) by {
        assert(vars[i] == more[i]);
    }
    assert forall|i: int| 0 <= i < vars.len() implies ((#[trigger] vars[i]).place matches Place::Maybe(
        at,
        s,
    ) ==> slot_value(d, at) == 0 || off_stack(d, slot_value(d, at) as int, 8)) by {
        assert(vars[i] == more[i]);
    }
}

proof fn lemma_good_with(x: Around, vars: Seq<Var>, depth: nat, v: Var, deeper: nat, c: Cpu)
    requires
        good(x, vars, depth, c),
        sane(vars.push(v), deeper, c),
        depth <= deeper,
        spot(v.place) matches Some((low, at)) ==> depth <= low <= at <= deeper,
        v.place matches Place::Maybe(at, _) ==> slot_value(c, at) == 0 || off_stack(
            c,
            slot_value(c, at) as int,
            8,
        ),
    ensures
        good(x, vars.push(v), deeper, c),
{
    let more = vars.push(v);
    assert forall|i: int| 0 <= i < more.len() implies (spot((#[trigger] more[i]).place) matches Some(
        (low, at),
    ) ==> 8 <= low <= at <= deeper) by {
        if i < vars.len() {
            assert(more[i] == vars[i]);
        }
    }
    assert forall|i: int, j: int| 0 <= i < j < more.len() implies (spot(
        (#[trigger] more[i]).place,
    ) matches Some((_, at)) ==> (spot((#[trigger] more[j]).place) matches Some((low, _)) ==> at
        <= low)) by {
        assert(more[i] == vars[i]);
        if j < vars.len() {
            assert(more[j] == vars[j]);
        }
    }
    assert forall|i: int| 0 <= i < more.len() implies ((#[trigger] more[i]).place matches Place::Maybe(
        at,
        s,
    ) ==> slot_value(c, at) == 0 || off_stack(c, slot_value(c, at) as int, 8)) by {
        if i < vars.len() {
            assert(more[i] == vars[i]);
        }
    }
}

/// A slot that is written leaves the others alone.
proof fn lemma_other_slot(
    vars: Seq<Var>,
    depth: nat,
    i: int,
    j: int,
    at: nat,
    other: nat,
    c: Cpu,
    d: Cpu,
)
    requires
        lined(vars, depth),
        only_slot(c, d, depth, at),
        0 <= i < vars.len(),
        0 <= j < vars.len(),
        i != j,
        spot(vars[i].place) == Some((at - 8, at as int)),
        spot(vars[j].place) == Some((other - 8, other as int)),
    ensures
        slot_value(d, other) == slot_value(c, other),
{
    assert(d.regs[10] == c.regs[10]);
    assert(at <= other - 8 || other <= at - 8) by {
        if i < j {
            assert(spot(vars[i].place) is Some && spot(vars[j].place) is Some);
        } else {
            assert(spot(vars[j].place) is Some && spot(vars[i].place) is Some);
        }
    }
    lemma_fetched_same(d.mem, c.mem, slot(c, other), 8);
}

proof fn lemma_good_assign(
    x: Around,
    vars: Seq<Var>,
    depth: nat,
    name: Seq<char>,
    c: Cpu,
    d: Cpu,
)
    requires
        good(x, vars, depth, c),
        find(vars, name) matches Some(Place::Num(at, _)) && only_slot(c, d, depth, at),
    ensures
        good(x, vars, depth, d),
{
    lemma_find_placed(vars, name);
    let p = find(vars, name)->0;
    let at = p->Num_0;
    let n = choose|n: int| 0 <= n < vars.len() && (#[trigger] vars[n]).place == p;
    assert(vars[n].place == p);
    assert(spot(vars[n].place) == Some((at - 8, at as int)));
    assert(d.regs[10] == c.regs[10]);
    lemma_fetched_same(d.mem, c.mem, slot(c, 8), 8);
    assert forall|i: int| 0 <= i < vars.len() implies ((#[trigger] vars[i]).place matches Place::Ref(
        a,
        s,
    ) ==> off_stack(d, slot_value(d, a) as int, bytes_in(s) as int)) by {
        if let Place::Ref(a, s) = vars[i].place {
            lemma_other_slot(vars, depth, n, i, at, a, c, d);
        }
    }
    assert forall|i: int| 0 <= i < vars.len() implies ((#[trigger] vars[i]).place matches Place::Maybe(
        a,
        s,
    ) ==> slot_value(d, a) == 0 || off_stack(d, slot_value(d, a) as int, 8)) by {
        if let Place::Maybe(a, s) = vars[i].place {
            lemma_other_slot(vars, depth, n, i, at, a, c, d);
        }
    }
}

/// A pointer that an expression gives is null or points to a value of a map.
proof fn lemma_pointer_off(
    w: World,
    x: Around,
    k: Kernel,
    g: Gen,
    c: Cpu,
    e: tree::Expr,
)
    requires
        dutiful(w, x, k),
        good(x, g.vars, g.depth, c),
        value(w, g, e) is Ok,
        pointer_width(w, g.vars, e) is Some,
    ensures
        ({
            let p = eval(w, x, g.vars, c, e);
            p == 0 || off_stack(c, p as int, 8)
        }),
{
    match e.kind {
        tree::ExprKind::Ident(name) => {
            lemma_find_placed(g.vars, name);
            let p = find(g.vars, name)->0;
            let n = choose|n: int| 0 <= n < g.vars.len() && (#[trigger] g.vars[n]).place == p;
            assert(g.vars[n].place == p);
            let at = p->Maybe_0;
            assert(eval(w, x, g.vars, c, e) == slot_value(c, at));
        },
        tree::ExprKind::MethodCall { receiver, method, args } => {
            let name = receiver.kind->Ident_0;
            let t = table_at(w.tables, name, 0)->0;
            let key = cut(eval(w, x, g.vars, c, args[0]), Some(bytes_in(w.tables[t].key))) as int;
            assert(eval(w, x, g.vars, c, e) == (x.found)(c.deeds, t, key));
        },
        _ => {},
    }
}

proof fn lemma_size_for(s: Size)
    ensures
        size_for(bytes_in(s)) == s,
{
}

// ----------------------------------------------------------------- running it

proof fn run_let(
    f: Asm,
    k: Kernel,
    x: Around,
    w: World,
    g: Gen,
    s: tree::Stmt,
    name: tree::Ident,
    ty: Option<tree::Type>,
    e: tree::Expr,
    c: Cpu,
) -> (d: Cpu)
    requires
        s.kind matches tree::StmtKind::Let { name: n, ty: t, value: v, .. } && n == name && t == ty
            && v == e,
        let_stmt(w, g, name.name, ty, e) is Ok,
        goes_on((let_stmt(w, g, name.name, ty, e)->Ok_0).out, f),
        one_label(f),
        dutiful(w, x, k),
        good(x, g.vars, g.depth, c),
    ensures
        ({
            let h = let_stmt(w, g, name.name, ty, e)->Ok_0;
            &&& gets(f, k, g.out.code.len() as int, c, h.out.code.len() as int, d)
            &&& let_done(w, x, g.vars, g.depth, ty, e, c, d)
            &&& (h.vars, h.depth) == declared(w, g.vars, g.depth, s)
            &&& good(x, h.vars, h.depth, d)
        }),
{
    let h = let_stmt(w, g, name.name, ty, e)->Ok_0;
    assert(capacity(ty) == text_type(ty));
    if text_type(ty) is Some {
        let d = lemma_let_text_runs(f, k, x, w, g, name.name, ty, e, c);
        let v = Var { name: name.name, place: Place::Text(h.depth, text_type(ty)->0 as nat) };
        lemma_good_agree(x, g.vars, g.depth, c, d);
        lemma_good_with(x, g.vars, g.depth, v, h.depth, d);
        d
    } else {
        let d = lemma_let_runs(f, k, x, w, g, name.name, ty, e, c);
        let v = h.vars.last();
        lemma_good_agree(x, g.vars, g.depth, c, d);
        assert(h.vars =~= g.vars.push(v));
        assert(value(w, g, e) is Ok) by {
            reveal(let_stmt);
        }
        match v.place {
            Place::Num(at, z) => lemma_size_for(z),
            Place::Maybe(at, z) => {
                lemma_size_for(z);
                lemma_pointer_off(w, x, k, g, c, e);
                assert(d.regs[10] == c.regs[10]);
            },
            _ => {},
        }
        lemma_good_with(x, g.vars, g.depth, v, h.depth, d);
        d
    }
}

proof fn run_expr_stmt(
    f: Asm,
    k: Kernel,
    x: Around,
    w: World,
    g: Gen,
    e: tree::Expr,
    c: Cpu,
) -> (d: Cpu)
    requires
        expr_stmt(w, g, e) is Ok,
        goes_on((expr_stmt(w, g, e)->Ok_0).out, f),
        one_label(f),
        dutiful(w, x, k),
        good(x, g.vars, g.depth, c),
    ensures
        gets(f, k, g.out.code.len() as int, c, (expr_stmt(w, g, e)->Ok_0).out.code.len() as int, d),
        call_done(w, x, g.vars, g.depth, e, c, d),
{
    if map_change(w, x, g.vars, c, e) is Some {
        let m = lemma_map_stmt_runs(f, k, x, w, g, e, c);
        let name = e.kind->MethodCall_receiver.kind->Ident_0;
        lemma_table_at(w.tables, name, 0);
        let t = table_at(w.tables, name, 0)->0;
        assert(w.tables[t].name == w.tables[t].name);
        let inserts = e.kind->MethodCall_method.name == "insert"@;
        let d = if inserts {
            (k.acts)(2, m)
        } else {
            (k.acts)(3, m)
        };
        assert(keeps_stack(m, d));
        assert(m.regs[10] == c.regs[10]);
        assert(d.regs[10] == m.regs[10]);
        assert forall|a: int| c.regs[10] - g.depth <= a < c.regs[10] implies #[trigger] d.mem[a]
            == c.mem[a] by {
            assert(m.mem[a] == c.mem[a]);
        }
        lemma_insert_is_not_delete();
        d
    } else {
        reveal(expr_stmt);
        let d = lemma_value_runs(f, k, x, w, g, e, c);
        assert(d.regs[10] == c.regs[10]);
        d
    }
}

proof fn lemma_insert_is_not_delete()
    ensures
        "insert"@ != "delete"@,
{
    reveal_strlit("insert");
    reveal_strlit("delete");
    assert("insert"@[0] == 'i' && "delete"@[0] == 'd');
}

/// What is known of the code behind the body of an `if`.
proof fn lemma_otherwise(
    f: Asm,
    k: Kernel,
    w: World,
    g: Gen,
    otherwise: Option<tree::Block>,
    no: int,
    end: int,
    d: Cpu,
)
    requires
        otherwise_part(w, g, otherwise, no, end) is Ok,
        goes_on((otherwise_part(w, g, otherwise, no, end)->Ok_0).out, f),
        one_label(f),
        0 <= no < g.out.labels.len(),
        g.out.labels[no] is None,
    ensures
        ({
            let h = otherwise_part(w, g, otherwise, no, end)->Ok_0;
            let last = h.out.code.len() as int;
            &&& goes_on(g.out, f)
            &&& gets(f, k, g.out.code.len() as int, d, last, d)
            &&& match otherwise {
                None => f.labels[no] == Some(last) && h == bound(g, no),
                Some(b) => {
                    let g1 = bound(jump(fresh(g)->Ok_0, always(), g.out.labels.len() as int), no);
                    &&& g1.vars == g.vars
                    &&& g1.depth == g.depth
                    &&& f.labels[no] == Some(g1.out.code.len() as int)
                    &&& block(w, g1, b, end) is Ok
                    &&& goes_on((block(w, g1, b, end)->Ok_0).out, f)
                    &&& last == (block(w, g1, b, end)->Ok_0).out.code.len()
                    &&& h.vars == (block(w, g1, b, end)->Ok_0).vars
                    &&& h.depth == (block(w, g1, b, end)->Ok_0).depth
                },
            }
        }),
{
    let pc = g.out.code.len() as int;
    lemma_gets_self(f, k, pc, d);
    match otherwise {
        None => lemma_bound_goes_on(g, no, f),
        Some(b) => {
            let done = g.out.labels.len() as int;
            let g1 = fresh(g)->Ok_0;
            let g2 = jump(g1, always(), done);
            let g3 = bound(g2, no);
            let g4 = block(w, g3, b, end)->Ok_0;
            lemma_block_extends(w, g3, b, end);
            assert(g1.out.labels[done] is None);
            assert(g3.out.labels[done] is None);
            lemma_bound_goes_on(g4, done, f);
            lemma_goes_back(g3.out, g4.out, f);
            lemma_bound_goes_on(g2, no, f);
            lemma_jump_steps(g1, always(), done);
            lemma_goes_back(g1.out, g2.out, f);
            assert(extends(g.out, g1.out));
            lemma_goes_back(g.out, g1.out, f);
            run_always(f, k, g1, done, pc, d, d);
        },
    }
}

/// Running the statements of a list does what they do.
pub proof fn lemma_stmts_run(
    f: Asm,
    k: Kernel,
    x: Around,
    w: World,
    g: Gen,
    list: Seq<tree::Stmt>,
    i: int,
    end: int,
    c: Cpu,
) -> (r: (Cpu, bool))
    requires
        stmts(w, g, list, i, end) is Ok,
        goes_on((stmts(w, g, list, i, end)->Ok_0).out, f),
        one_label(f),
        dutiful(w, x, k),
        good(x, g.vars, g.depth, c),
    ensures
        ({
            let h = stmts(w, g, list, i, end)->Ok_0;
            &&& gets(
                f,
                k,
                g.out.code.len() as int,
                c,
                if r.1 {
                    f.labels[end]->0
                } else {
                    h.out.code.len() as int
                },
                r.0,
            )
            &&& does_all(w, x, g.vars, g.depth, list, i, c, r.0, r.1)
            &&& !r.1 ==> good(x, h.vars, h.depth, r.0)
        }),
    decreases list, list.len() - i,
{
    let pc = g.out.code.len() as int;
    if !(0 <= i < list.len()) {
        lemma_gets_self(f, k, pc, c);
        (c, false)
    } else {
        let g1 = stmt(w, g, list[i], end)->Ok_0;
        let h = stmts(w, g1, list, i + 1, end)->Ok_0;
        lemma_stmts_extend(w, g1, list, i + 1, end);
        lemma_goes_back(g1.out, h.out, f);
        let (m, left) = lemma_stmt_runs(f, k, x, w, g, list[i], end, c);
        if left {
            (m, true)
        } else {
            let (d, leaves) = lemma_stmts_run(f, k, x, w, g1, list, i + 1, end, m);
            let p = if leaves {
                f.labels[end]->0
            } else {
                h.out.code.len() as int
            };
            lemma_gets_on(f, k, pc, c, g1.out.code.len() as int, m, p, d);
            assert(between(m));
            (d, leaves)
        }
    }
}

/// Running a block does what its statements do, and its locals are gone.
pub proof fn lemma_block_runs(
    f: Asm,
    k: Kernel,
    x: Around,
    w: World,
    g: Gen,
    b: tree::Block,
    end: int,
    c: Cpu,
) -> (r: (Cpu, bool))
    requires
        block(w, g, b, end) is Ok,
        goes_on((block(w, g, b, end)->Ok_0).out, f),
        one_label(f),
        dutiful(w, x, k),
        good(x, g.vars, g.depth, c),
    ensures
        ({
            let h = block(w, g, b, end)->Ok_0;
            &&& gets(
                f,
                k,
                g.out.code.len() as int,
                c,
                if r.1 {
                    f.labels[end]->0
                } else {
                    h.out.code.len() as int
                },
                r.0,
            )
            &&& does_all(w, x, g.vars, g.depth, b.stmts, 0, c, r.0, r.1)
            &&& !r.1 ==> good(x, g.vars, g.depth, r.0)
        }),
    decreases b, 0int,
{
    let g1 = stmts(w, g, b.stmts, 0, end)->Ok_0;
    lemma_stmts_extend(w, g, b.stmts, 0, end);
    let r = lemma_stmts_run(f, k, x, w, g, b.stmts, 0, end, c);
    if !r.1 {
        lemma_good_prefix(x, g.vars, g.depth, c, g1.vars, g1.depth, r.0);
    }
    r
}

proof fn run_rounds(
    f: Asm,
    k: Kernel,
    x: Around,
    w: World,
    g: Gen,
    var: Seq<char>,
    lo: int,
    hi: int,
    body: tree::Block,
    end: int,
    c: Cpu,
) -> (r: (Cpu, bool))
    requires
        unroll(w, g, var, lo, hi, body, end) is Ok,
        goes_on((unroll(w, g, var, lo, hi, body, end)->Ok_0).out, f),
        one_label(f),
        dutiful(w, x, k),
        good(x, g.vars, g.depth, c),
    ensures
        ({
            let h = unroll(w, g, var, lo, hi, body, end)->Ok_0;
            &&& gets(
                f,
                k,
                g.out.code.len() as int,
                c,
                if r.1 {
                    f.labels[end]->0
                } else {
                    h.out.code.len() as int
                },
                r.0,
            )
            &&& does_rounds(w, x, g.vars, g.depth, var, lo, hi, body, c, r.0, r.1)
            &&& !r.1 ==> good(x, g.vars, g.depth, r.0)
        }),
    decreases
            body,
            (if lo < hi {
                hi - lo
            } else {
                0
            }) + 1,
{
    let pc = g.out.code.len() as int;
    if lo >= hi {
        lemma_gets_self(f, k, pc, c);
        (c, false)
    } else {
        let v = Var { name: var, place: Place::Step(lo as u64) };
        let g0 = crate::lowering::with(g, var, v.place);
        let g1 = block(w, g0, body, end)->Ok_0;
        let g2 = back(g1, g);
        let h = unroll(w, g2, var, lo + 1, hi, body, end)->Ok_0;
        lemma_block_extends(w, g0, body, end);
        assert(g2.vars =~= g.vars);
        lemma_unroll_extends(w, g2, var, lo + 1, hi, body, end);
        lemma_goes_back(g2.out, h.out, f);
        lemma_sane_with(g.vars, g.depth, v, g.depth, c);
        lemma_good_with(x, g.vars, g.depth, v, g.depth, c);
        let (m, left) = lemma_block_runs(f, k, x, w, g0, body, end, c);
        if left {
            (m, true)
        } else {
            assert(g0.vars.take(g.vars.len() as int) =~= g.vars);
            lemma_good_prefix(x, g.vars, g.depth, c, g0.vars, g.depth, m);
            let (d, leaves) = run_rounds(f, k, x, w, g2, var, lo + 1, hi, body, end, m);
            let p = if leaves {
                f.labels[end]->0
            } else {
                h.out.code.len() as int
            };
            lemma_gets_on(f, k, pc, c, g2.out.code.len() as int, m, p, d);
            assert(between(m));
            (d, leaves)
        }
    }
}

/// The code of the condition of an `if`: to the body where it holds, and to `no`
/// where it does not.
proof fn run_tested(
    f: Asm,
    k: Kernel,
    x: Around,
    w: World,
    g: Gen,
    e: tree::Expr,
    c: Cpu,
) -> (m: Cpu)
    requires
        tested(w, g, e) is Ok,
        goes_on((tested(w, g, e)->Ok_0).out, f),
        one_label(f),
        faithful(w, x, k),
        sane(g.vars, g.depth, c),
    ensures
        gets(
            f,
            k,
            g.out.code.len() as int,
            c,
            if truly(w, x, g.vars, c, e) {
                (tested(w, g, e)->Ok_0).out.code.len() as int
            } else {
                f.labels[g.out.labels.len() as int + 1]->0
            },
            m,
        ),
        agree(c, m, g.depth),
{
    reveal(tested);
    let yes = g.out.labels.len() as int;
    let g1 = fresh2(g)->Ok_0;
    let g2 = branch(w, g1, e, yes, yes + 1)->Ok_0;
    lemma_branch_steps(w, g1, e, yes, yes + 1);
    assert(g1.out.labels[yes] is None);
    lemma_bound_goes_on(g2, yes, f);
    run_branch(f, k, x, w, g1, e, yes, yes + 1, c)
}

/// The code of `if let`: the pointer goes into a slot; to the body where it is
/// not null, and to `no` where it is.
proof fn run_checked(
    f: Asm,
    k: Kernel,
    x: Around,
    w: World,
    g: Gen,
    p: tree::Pattern,
    e: tree::Expr,
    c: Cpu,
) -> (m: Cpu)
    requires
        checked(w, g, p, e) is Ok,
        goes_on((checked(w, g, p, e)->Ok_0).out, f),
        one_label(f),
        dutiful(w, x, k),
        good(x, g.vars, g.depth, c),
    ensures
        ({
            let h = checked(w, g, p, e)->Ok_0;
            let worth = eval(w, x, g.vars, c, e);
            &&& gets(
                f,
                k,
                g.out.code.len() as int,
                c,
                if worth != 0 {
                    h.out.code.len() as int
                } else {
                    f.labels[h.out.labels.len() - 1]->0
                },
                m,
            )
            &&& agree(c, m, g.depth)
            &&& slot_value(m, g.depth + 8) == worth
            &&& h.depth == g.depth + 8
            &&& p.binding is Some
            &&& h.vars == g.vars.push(
                Var {
                    name: (p.binding->0).name,
                    place: Place::Ref(
                        g.depth + 8,
                        size_for(pointer_width(w, g.vars, e)->0),
                    ),
                },
            )
            &&& worth != 0 ==> good(x, h.vars, h.depth, m)
        }),
{
    reveal(checked);
    let h = checked(w, g, p, e)->Ok_0;
    let pc = g.out.code.len() as int;
    let (g1, v) = value(w, g, e)->Ok_0;
    let g2 = grow(g1, 8)->Ok_0;
    let off = (-(g2.depth as int)) as i16;
    let st = store(Size::DW, Reg::R10, off as int, Reg::R0);
    let g2b = put(g2, st);
    let no = g2.out.labels.len() as int;
    let g3 = fresh(g2b)->Ok_0;
    let insn = if_num(JmpOp::Eq, Reg::R0, 0);
    let g4 = jump(g3, insn, no);
    lemma_value_steps(w, g, e);
    lemma_pointers(w, g, e);
    lemma_size_for(v->Maybe_0);
    lemma_jump_steps(g3, insn, no);
    lemma_goes_back(g3.out, g4.out, f);
    assert(extends(g2b.out, g3.out));
    lemma_goes_back(g2b.out, g3.out, f);
    lemma_put_steps(g2, st);
    lemma_goes_back(g2.out, g2b.out, f);
    let c1 = lemma_value_runs(f, k, x, w, g, e, c);
    let m = run_store(f, k, g2, Size::DW, Reg::R10, off, Reg::R0, pc, c, c1);
    lemma_kept_agrees(c1, m, g.depth, 8);
    lemma_agree_on(c, c1, m, g.depth, g.depth);
    lemma_kept_is_cut(c1.mem, slot(c1, g2.depth), Size::DW, c1.regs[0]);
    lemma_jumps_compare(JmpOp::Eq, m.regs[0], extended(0));
    assert(extended(0) == 0);
    lemma_jump_runs(f, k, g3, insn, no, m);
    let q = if m.regs[0] == 0 {
        f.labels[no]->0
    } else {
        g4.out.code.len() as int
    };
    lemma_gets_on(f, k, pc, c, g3.out.code.len() as int, m, q, m);
    lemma_good_agree(x, g.vars, g.depth, c, m);
    lemma_pointer_off(w, x, k, g, c, e);
    assert(m.regs[10] == c.regs[10]);
    if m.regs[0] != 0 {
        let var = h.vars.last();
        assert(h.vars =~= g.vars.push(var));
        lemma_sane_with(g.vars, g.depth, var, h.depth, m);
        lemma_good_with(x, g.vars, g.depth, var, h.depth, m);
    }
    m
}

/// Running the code of a statement does what the statement does.
pub proof fn lemma_stmt_runs(
    f: Asm,
    k: Kernel,
    x: Around,
    w: World,
    g: Gen,
    s: tree::Stmt,
    end: int,
    c: Cpu,
) -> (r: (Cpu, bool))
    requires
        stmt(w, g, s, end) is Ok,
        goes_on((stmt(w, g, s, end)->Ok_0).out, f),
        one_label(f),
        dutiful(w, x, k),
        good(x, g.vars, g.depth, c),
    ensures
        ({
            let h = stmt(w, g, s, end)->Ok_0;
            &&& gets(
                f,
                k,
                g.out.code.len() as int,
                c,
                if r.1 {
                    f.labels[end]->0
                } else {
                    h.out.code.len() as int
                },
                r.0,
            )
            &&& does(w, x, g.vars, g.depth, s, c, r.0, r.1)
            &&& !r.1 ==> (h.vars, h.depth) == declared(w, g.vars, g.depth, s) && good(
                x,
                h.vars,
                h.depth,
                r.0,
            )
        }),
    decreases s, 0int,
{
    let pc = g.out.code.len() as int;
    let h = stmt(w, g, s, end)->Ok_0;
    match s.kind {
        tree::StmtKind::Let { mutable, name, ty, value: e } => (
            run_let(f, k, x, w, g, s, name, ty, e, c),
            false,
        ),
        tree::StmtKind::Assign { target, value: e } => {
            let d = lemma_assign_runs(f, k, x, w, g, target, e, c);
            lemma_good_assign(x, g.vars, g.depth, target.kind->Ident_0, c, d);
            (d, false)
        },
        tree::StmtKind::If { cond, body, otherwise } => match cond {
            tree::Cond::Expr(e) => run_if(f, k, x, w, g, s, e, body, otherwise, end, c),
            tree::Cond::Let { pattern, value: e } => run_if_let(
                f,
                k,
                x,
                w,
                g,
                s,
                pattern,
                e,
                body,
                otherwise,
                end,
                c,
            ),
        },
        tree::StmtKind::For { var, start, end: stop, body } => {
            lemma_settled(g.vars, start);
            lemma_settled(g.vars, stop);
            let lo = const_of(g.vars, start)->0 as int;
            let hi = const_of(g.vars, stop)->0 as int;
            lemma_unroll_extends(w, g, var.name, lo, hi, body, end);
            run_rounds(f, k, x, w, g, var.name, lo, hi, body, end, c)
        },
        tree::StmtKind::Emit { event, fields } => {
            let d = lemma_emit_runs(f, k, x, w, g, event.name, fields, c);
            lemma_emit_extends(w, g, event.name, fields);
            lemma_chosen(w, g, event.name);
            lemma_good_stack(x, g.vars, g.depth, c, d);
            (d, false)
        },
        tree::StmtKind::Return(v) => {
            lemma_gets_self(f, k, pc, c);
            run_always(f, k, g, end, pc, c, c);
            (c, true)
        },
        tree::StmtKind::Expr(e) => {
            let d = run_expr_stmt(f, k, x, w, g, e, c);
            lemma_expr_stmt_steps(w, g, e);
            lemma_good_stack(x, g.vars, g.depth, c, d);
            (d, false)
        },
    }
}

proof fn lemma_chosen(w: World, g: Gen, name: Seq<char>)
    ensures
        crate::lowering::chosen(w, g, name) matches Ok(l) ==> exists|q: int| #[trigger]
            is_event(w, name, q) && l == layout_of(w.events[q]),
{
    reveal(crate::lowering::chosen);
    reveal(crate::lowering::event_layout);
    lemma_event_at(w, name, 0);
}

proof fn lemma_event_at(w: World, name: Seq<char>, i: int)
    requires
        0 <= i,
        forall|j: int| 0 <= j < i && j < w.events.len() ==> (#[trigger] w.events[j]).name.name != name,
    ensures
        event_at(w.events, name, i) matches Some(q) ==> is_event(w, name, q),
    decreases w.events.len() - i,
{
    if i < w.events.len() && w.events[i].name.name != name {
        lemma_event_at(w, name, i + 1);
    }
}

proof fn run_if(
    f: Asm,
    k: Kernel,
    x: Around,
    w: World,
    g: Gen,
    s: tree::Stmt,
    e: tree::Expr,
    body: tree::Block,
    otherwise: Option<tree::Block>,
    end: int,
    c: Cpu,
) -> (r: (Cpu, bool))
    requires
        s.kind == (tree::StmtKind::If { cond: tree::Cond::Expr(e), body, otherwise }),
        stmt(w, g, s, end) is Ok,
        goes_on((stmt(w, g, s, end)->Ok_0).out, f),
        one_label(f),
        dutiful(w, x, k),
        good(x, g.vars, g.depth, c),
    ensures
        ({
            let h = stmt(w, g, s, end)->Ok_0;
            &&& gets(
                f,
                k,
                g.out.code.len() as int,
                c,
                if r.1 {
                    f.labels[end]->0
                } else {
                    h.out.code.len() as int
                },
                r.0,
            )
            &&& does(w, x, g.vars, g.depth, s, c, r.0, r.1)
            &&& h.vars == g.vars
            &&& h.depth == g.depth
            &&& !r.1 ==> good(x, g.vars, g.depth, r.0)
        }),
    decreases s.kind, 1int,
{
    let pc = g.out.code.len() as int;
    let h = stmt(w, g, s, end)->Ok_0;
    let last = h.out.code.len() as int;
    let no = g.out.labels.len() as int + 1;
    let g1 = tested(w, g, e)->Ok_0;
    let g2 = block(w, g1, body, end)->Ok_0;
    lemma_tested(w, g, e);
    lemma_block_extends(w, g1, body, end);
    lemma_otherwise(f, k, w, g2, otherwise, no, end, c);
    lemma_goes_back(g1.out, g2.out, f);
    let m = run_tested(f, k, x, w, g, e, c);
    lemma_good_agree(x, g.vars, g.depth, c, m);
    if truly(w, x, g.vars, c, e) {
        let (d, left) = lemma_block_runs(f, k, x, w, g1, body, end, m);
        lemma_otherwise(f, k, w, g2, otherwise, no, end, d);
        let p = if left {
            f.labels[end]->0
        } else {
            g2.out.code.len() as int
        };
        lemma_gets_on(f, k, pc, c, g1.out.code.len() as int, m, p, d);
        if !left {
            lemma_gets_on(f, k, pc, c, p, d, last, d);
        }
        if let Some(b) = otherwise {
            lemma_else_names(w, g2, b, no, end);
        }
        (d, left)
    } else {
        match otherwise {
            None => (m, false),
            Some(b) => {
                let g3 = bound(jump(fresh(g2)->Ok_0, always(), g2.out.labels.len() as int), no);
                lemma_else_names(w, g2, b, no, end);
                let (d, left) = lemma_block_runs(f, k, x, w, g3, b, end, m);
                let p = if left {
                    f.labels[end]->0
                } else {
                    last
                };
                lemma_gets_on(f, k, pc, c, g3.out.code.len() as int, m, p, d);
                (d, left)
            },
        }
    }
}

proof fn lemma_else_names(w: World, g: Gen, b: tree::Block, no: int, end: int)
    ensures
        ({
            let g1 = bound(jump(fresh(g)->Ok_0, always(), g.out.labels.len() as int), no);
            fresh(g) is Ok ==> (block(w, g1, b, end) matches Ok(h) ==> h.vars == g.vars && h.depth
                == g.depth)
        }),
{
    let g1 = bound(jump(fresh(g)->Ok_0, always(), g.out.labels.len() as int), no);
    lemma_block_extends(w, g1, b, end);
}

proof fn run_if_let(
    f: Asm,
    k: Kernel,
    x: Around,
    w: World,
    g: Gen,
    s: tree::Stmt,
    pattern: tree::Pattern,
    e: tree::Expr,
    body: tree::Block,
    otherwise: Option<tree::Block>,
    end: int,
    c: Cpu,
) -> (r: (Cpu, bool))
    requires
        s.kind == (tree::StmtKind::If {
            cond: tree::Cond::Let { pattern, value: e },
            body,
            otherwise,
        }),
        stmt(w, g, s, end) is Ok,
        goes_on((stmt(w, g, s, end)->Ok_0).out, f),
        one_label(f),
        dutiful(w, x, k),
        good(x, g.vars, g.depth, c),
    ensures
        ({
            let h = stmt(w, g, s, end)->Ok_0;
            &&& gets(
                f,
                k,
                g.out.code.len() as int,
                c,
                if r.1 {
                    f.labels[end]->0
                } else {
                    h.out.code.len() as int
                },
                r.0,
            )
            &&& does(w, x, g.vars, g.depth, s, c, r.0, r.1)
            &&& h.vars == g.vars
            &&& h.depth == g.depth
            &&& !r.1 ==> good(x, g.vars, g.depth, r.0)
        }),
    decreases s.kind, 1int,
{
    let pc = g.out.code.len() as int;
    let h = stmt(w, g, s, end)->Ok_0;
    let last = h.out.code.len() as int;
    let g1 = checked(w, g, pattern, e)->Ok_0;
    let no = g1.out.labels.len() - 1;
    let g2 = block(w, g1, body, end)->Ok_0;
    let g2b = back(g2, g);
    lemma_checked(w, g, pattern, e);
    lemma_block_extends(w, g1, body, end);
    assert(g2b.vars == g.vars);
    lemma_otherwise(f, k, w, g2b, otherwise, no, end, c);
    lemma_goes_back(g1.out, g2.out, f);
    let m = run_checked(f, k, x, w, g, pattern, e, c);
    lemma_good_agree(x, g.vars, g.depth, c, m);
    if let Some(b) = otherwise {
        lemma_else_names(w, g2b, b, no, end);
    }
    if eval(w, x, g.vars, c, e) != 0 {
        let (d, left) = lemma_block_runs(f, k, x, w, g1, body, end, m);
        lemma_otherwise(f, k, w, g2b, otherwise, no, end, d);
        let p = if left {
            f.labels[end]->0
        } else {
            g2.out.code.len() as int
        };
        lemma_gets_on(f, k, pc, c, g1.out.code.len() as int, m, p, d);
        if !left {
            lemma_gets_on(f, k, pc, c, p, d, last, d);
            lemma_good_prefix(x, g.vars, g.depth, c, g1.vars, g1.depth, d);
        }
        (d, left)
    } else {
        match otherwise {
            None => (m, false),
            Some(b) => {
                let g3 = bound(jump(fresh(g2b)->Ok_0, always(), g2b.out.labels.len() as int), no);
                let (d, left) = lemma_block_runs(f, k, x, w, g3, b, end, m);
                let p = if left {
                    f.labels[end]->0
                } else {
                    last
                };
                lemma_gets_on(f, k, pc, c, g3.out.code.len() as int, m, p, d);
                (d, left)
            },
        }
    }
}

// ------------------------------------------------------------------ the probe

/// Around a probe there are only constants.
pub open spec fn only_constants(vars: Seq<Var>) -> bool {
    forall|i: int| 0 <= i < vars.len() ==> (#[trigger] vars[i]).place is Const
}

/// The machine as a probe finds it: the context in R1, and not on the stack.
pub open spec fn at_start(x: Around, c: Cpu) -> bool {
    &&& c.regs[10] == x.stack
    &&& x.stack >= 512
    &&& off_stack(c, c.regs[1] as int, 64)
}

/// The context is in the first slot, and nothing else changed.
pub open spec fn context_kept(c: Cpu, d: Cpu) -> bool {
    &&& slot_value(d, 8) == c.regs[1]
    &&& d.regs == c.regs
    &&& d.deeds == c.deeds
    &&& forall|a: int|
        !(c.regs[10] - 8 <= a < c.regs[10]) ==> #[trigger] d.mem[a] == c.mem[a]
}

/// A probe that runs from its first instruction does what its statements do, and
/// gets to its last one, which ends it, with 0 in R0.
pub proof fn lemma_probe_runs(
    k: Kernel,
    x: Around,
    d: crate::lowering::Declared,
    p: tree::ProbeDecl,
    c: Cpu,
) -> (r: (Cpu, Cpu, bool, Cpu))
    requires
        crate::lowering::body(d, p) is Ok,
        only_constants(d.vars),
        dutiful(World { tables: d.tables, events: d.events }, x, k),
        at_start(x, c),
    ensures
        ({
            let f = (crate::lowering::body(d, p)->Ok_0).out;
            let w = World { tables: d.tables, events: d.events };
            let last = f.code.len() - 1;
            let (c1, m, leaves, z) = r;
            &&& context_kept(c, c1)
            &&& does_all(w, x, d.vars, 8, p.body.stmts, 0, c1, m, leaves)
            &&& z.mem == m.mem
            &&& z.deeds == m.deeds
            &&& z.regs[0] == 0
            &&& gets(f, k, 0, c, last, z)
            &&& last >= 0
            &&& f.code[last].opcode == 0x95
            &&& one_label(f)
        }),
{
    let w = World { tables: d.tables, events: d.events };
    let g0 = crate::lowering::entry(d.vars);
    let g1 = block(w, g0, p.body, 0)->Ok_0;
    let g2 = bound(g1, 0);
    let zero = crate::lowering::set_num(Reg::R0, 0);
    let leave = crate::lowering::leave();
    let g3 = put(g2, zero);
    let g4 = put(g3, leave);
    let f = g4.out;
    lemma_block_extends(w, g0, p.body, 0);
    assert(crate::meaning::tidy(g0.out));
    assert(crate::meaning::tidy(g2.out));
    crate::meaning::lemma_two_puts(g2, zero, leave);
    crate::meaning::lemma_tidy(f);
    lemma_put_steps(g3, leave);
    assert(goes_on(f, f));
    lemma_goes_back(g3.out, f, f);
    lemma_goes_back(g2.out, f, f);
    assert(g0.out.labels[0] is None);
    lemma_bound_goes_on(g1, 0, f);
    lemma_goes_back(g0.out, g1.out, f);
    // The context.
    let bare = Gen {
        out: Asm { code: Seq::empty(), ..g0.out },
        ..g0
    };
    let st = store(Size::DW, Reg::R10, -8, Reg::R1);
    assert(put(bare, st).out.code =~= g0.out.code);
    lemma_gets_self(f, k, 0, c);
    let c1 = run_store(f, k, bare, Size::DW, Reg::R10, -8i16, Reg::R1, 0, c, c);
    lemma_kept_is_cut(c.mem, slot(c, 8), Size::DW, c.regs[1]);
    assert forall|a: int| !(c.regs[10] - 8 <= a < c.regs[10]) implies #[trigger] c1.mem[a]
        == c.mem[a] by {
        crate::machine::lemma_kept_elsewhere(c.mem, slot(c, 8), 8, c.regs[1] as int, a);
    }
    assert(good(x, d.vars, 8, c1));
    // The statements.
    let (m, leaves) = lemma_block_runs(f, k, x, w, g0, p.body, 0, c1);
    lemma_gets_on(f, k, 0, c, 1, c1, g2.out.code.len() as int, m);
    // The end.
    let z = crate::meaning::run_set_num(f, k, g2, Reg::R0, 0, 0, c, m);
    assert(f.code[f.code.len() - 1] == leave);
    (c1, m, leaves, z)
}

/// A map is what it is declared to be: keys and values of the widths of their
/// types, in order; an array has keys of four bytes.
pub proof fn lemma_tables_are_as_declared(m: tree::MapDecl)
    ensures
        crate::lowering::table(m) matches Ok(t) ==> {
            &&& t.name == m.name.name
            &&& t.entries == m.capacity
            &&& m.kind.name == "hash"@ || m.kind.name == "array"@
            &&& m.kind.name == "hash"@ ==> {
                &&& t.kind == crate::lowering::MapKind::Hash
                &&& m.args.len() == 2
                &&& bytes_in(t.key) == crate::doing::type_width(m.args[0])
                &&& bytes_in(t.value) == crate::doing::type_width(m.args[1])
            }
            &&& m.kind.name == "array"@ ==> {
                &&& t.kind == crate::lowering::MapKind::Array
                &&& m.args.len() == 1
                &&& bytes_in(t.key) == 4
                &&& bytes_in(t.value) == crate::doing::type_width(m.args[0])
            }
        },
{
    reveal_strlit("hash");
    reveal_strlit("array");
    assert("hash"@.len() == 4 && "array"@.len() == 5);
    if m.args.len() > 0 {
        crate::doing::lemma_type_width(m.args[0]);
    }
    if m.args.len() > 1 {
        crate::doing::lemma_type_width(m.args[1]);
    }
}

/// The declarations of the items from `i` on, in their order: each constant with
/// its value and the width of its type, and each map and event.
pub proof fn lemma_declarations_in_order(
    d: crate::lowering::Declared,
    items: Seq<tree::Item>,
    i: int,
)
    requires
        0 <= i <= items.len(),
        crate::lowering::declare(d, items, i) is Ok,
        only_constants(d.vars),
    ensures
        ({
            let all = crate::lowering::declare(d, items, i)->Ok_0;
            let rest = items.skip(i);
            &&& only_constants(all.vars)
            &&& all.events == d.events + events_in(rest)
            &&& all.vars == d.vars + constants_in(rest)
            &&& all.tables == d.tables + tables_in(rest)
        }),
    decreases items.len() - i,
{
    let rest = items.skip(i);
    if i < items.len() {
        assert(rest[0] == items[i]);
        assert(rest.drop_first() =~= items.skip(i + 1));
        match items[i] {
            tree::Item::Event(e) => {
                let more = crate::lowering::Declared { events: d.events.push(e), ..d };
                lemma_declarations_in_order(more, items, i + 1);
                assert(more.events + events_in(rest.drop_first()) =~= d.events + events_in(rest));
            },
            tree::Item::Probe(p) => {
                let more = crate::lowering::Declared { probe: Some(p), ..d };
                lemma_declarations_in_order(more, items, i + 1);
            },
            tree::Item::Const(c) => {
                let n = crate::lowering::literal_of(c.value)->0;
                let size = crate::lowering::declared_size(c.ty);
                let v = Var { name: c.name.name, place: Place::Const(n, size) };
                let more = crate::lowering::Declared { vars: d.vars.push(v), ..d };
                crate::doing::lemma_type_width(c.ty);
                lemma_size_for(size);
                lemma_declarations_in_order(more, items, i + 1);
                assert(more.vars + constants_in(rest.drop_first()) =~= d.vars + constants_in(rest));
            },
            tree::Item::MapDecl(m) => {
                let t = crate::lowering::table(m)->Ok_0;
                let more = crate::lowering::Declared { tables: d.tables.push(t), ..d };
                lemma_declarations_in_order(more, items, i + 1);
                assert(more.tables + tables_in(rest.drop_first()) =~= d.tables + tables_in(rest));
            },
        }
    } else {
        assert(d.events + events_in(rest) =~= d.events);
        assert(d.vars + constants_in(rest) =~= d.vars);
        assert(d.tables + tables_in(rest) =~= d.tables);
    }
}

/// The events among items.
pub open spec fn events_in(items: Seq<tree::Item>) -> Seq<tree::EventDecl>
    decreases items.len(),
{
    if items.len() == 0 {
        Seq::empty()
    } else {
        let rest = events_in(items.drop_first());
        match items[0] {
            tree::Item::Event(e) => seq![e] + rest,
            _ => rest,
        }
    }
}

/// The constants among items: a number, or true as 1 and false as 0.
pub open spec fn constants_in(items: Seq<tree::Item>) -> Seq<Var>
    decreases items.len(),
{
    if items.len() == 0 {
        Seq::empty()
    } else {
        let rest = constants_in(items.drop_first());
        match items[0] {
            tree::Item::Const(c) => {
                let n: u64 = match c.value.kind {
                    tree::ExprKind::Int(n) => n,
                    tree::ExprKind::Bool(true) => 1,
                    _ => 0,
                };
                seq![
                    Var {
                        name: c.name.name,
                        place: Place::Const(n, size_for(crate::doing::type_width(c.ty))),
                    },
                ] + rest
            },
            _ => rest,
        }
    }
}

/// The maps among items.
pub open spec fn tables_in(items: Seq<tree::Item>) -> Seq<crate::lowering::Table>
    decreases items.len(),
{
    if items.len() == 0 {
        Seq::empty()
    } else {
        let rest = tables_in(items.drop_first());
        match items[0] {
            tree::Item::MapDecl(m) => seq![crate::lowering::table(m)->Ok_0] + rest,
            _ => rest,
        }
    }
}

} // verus!
