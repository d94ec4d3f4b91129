//! What the code of a statement does.

use crate::bpf::{AluOp, Asm, Helper, JmpOp, Reg, Size};
use crate::layout::{FieldKind, Layout};
use crate::lowering::{
    alu, assign, copy, copy_bytes, emit_builtin, emit_field, expr_stmt, fit, fresh, grow, helper,
    if_num, insert, jump, keyed, let_stmt, load, number, on_map, point, put, reserve, set_map,
    set_num, store, submit, table_at, text_room, text_type, text_value, value, width_of, width_size,
    with, Gen, Place, Value, Var, World,
};
use crate::machine::{
    bytes_in, extended, fetched, kept, lemma_fetched_same, lemma_jumps_compare,
    lemma_kept_elsewhere, two64, word, Cpu, Deed, Kernel,
};
use crate::meaning::{
    agree, bytes_of, cut, eval, extends, faithful, gets, goes_on, lemma_agree_on, lemma_eight,
    lemma_eval_same, lemma_extends_on, lemma_find_sane, lemma_gets_on, lemma_gets_self,
    lemma_goes_back, lemma_jump_runs, lemma_jump_steps, lemma_kept_agrees, lemma_kept_is_cut,
    lemma_keyed_steps, lemma_masked_steps, lemma_number_steps, lemma_on_map_steps, lemma_put_steps,
    lemma_sane_deeper, lemma_sane_same, lemma_steps_on, lemma_table_at, lemma_two_puts,
    lemma_value_runs, lemma_value_steps, lemma_width, off_stack, one_label, only_r0, run_alu,
    run_call, run_copy, run_keyed, run_load, run_masked, run_number, run_on_map, run_point,
    run_set_map, run_set_num, run_store, sane, slot, slot_value, steps, width, Around,
};
use crate::running::{builtin_value, lemma_builtins_run, only_answers};
use crate::tree;
use vstd::prelude::*;

verus! {

// -------------------------------------------------------------------- locals

/// How many bytes a declared type is wide; whatever is no narrow integer takes
/// eight.
pub open spec fn type_width(t: tree::Type) -> nat {
    let name = t.name.name;
    if name == "u8"@ || name == "bool"@ {
        1
    } else if name == "u16"@ {
        2
    } else if name == "u32"@ {
        4
    } else {
        8
    }
}

/// How many bytes of a local count.
pub open spec fn local_width(vars: Seq<Var>, t: Option<tree::Type>, e: tree::Expr) -> nat {
    match t {
        Some(t) => type_width(t),
        None => match width(vars, e) {
            Some(n) => n,
            None => 8,
        },
    }
}

/// A value of one width, where another is wanted.
pub open spec fn fitted(n: u64, have: Option<nat>, want: nat) -> u64 {
    if have == Some(want) {
        n
    } else {
        cut(n, Some(want))
    }
}

/// The expression is a pointer to a value of a map, or null: a lookup, or a local
/// that holds one. So many bytes are there.
pub open spec fn pointer_width(w: World, vars: Seq<Var>, e: tree::Expr) -> Option<nat> {
    match e.kind {
        tree::ExprKind::Ident(name) => match crate::lowering::find(vars, name) {
            Some(Place::Maybe(_, s)) => Some(bytes_in(s)),
            _ => None,
        },
        tree::ExprKind::MethodCall { receiver, method, .. } => match receiver.kind {
            tree::ExprKind::Ident(name) => match table_at(w.tables, name, 0) {
                Some(t) => if method.name == "starts_with"@ {
                    None
                } else {
                    Some(bytes_in(w.tables[t].value))
                },
                None => None,
            },
            _ => None,
        },
        _ => None,
    }
}

pub proof fn lemma_pointers(w: World, g: Gen, e: tree::Expr)
    requires
        value(w, g, e) is Ok,
    ensures
        match (value(w, g, e)->Ok_0).1 {
            Value::Num => pointer_width(w, g.vars, e) is None,
            Value::Maybe(s) => pointer_width(w, g.vars, e) == Some(bytes_in(s)),
        },
{
    reveal(crate::lowering::named);
    reveal(crate::lowering::byte_of);
}

pub proof fn lemma_type_width(t: tree::Type)
    ensures
        bytes_in(crate::lowering::declared_size(t)) == type_width(t),
{
    reveal_strlit("u8");
    reveal_strlit("u16");
    reveal_strlit("u32");
    reveal_strlit("u64");
    reveal_strlit("bool");
    reveal_strlit("str");
    assert("u8"@.len() == 2 && "u16"@.len() == 3 && "u32"@.len() == 3 && "u64"@.len() == 3);
    assert("bool"@.len() == 4 && "str"@.len() == 3);
    assert("u16"@[1] == '1' && "u32"@[1] == '3' && "u64"@[1] == '6' && "str"@[0] == 's');
    assert("u16"@[0] == 'u' && "u32"@[0] == 'u' && "u64"@[0] == 'u');
}

pub proof fn lemma_local_width(vars: Seq<Var>, t: Option<tree::Type>, e: tree::Expr)
    ensures
        bytes_in(crate::lowering::local_size(vars, t, e)) == local_width(vars, t, e),
{
    lemma_width(vars, e);
    if let Some(t) = t {
        lemma_type_width(t);
    }
}

/// Making R0 fit.
pub proof fn run_fit(
    f: Asm,
    k: Kernel,
    g: Gen,
    have: Option<Size>,
    want: Size,
    pc: int,
    b: Cpu,
    c: Cpu,
) -> (d: Cpu)
    requires
        gets(f, k, pc, b, g.out.code.len() as int, c),
        goes_on(fit(g, have, want).out, f),
    ensures
        gets(f, k, pc, b, fit(g, have, want).out.code.len() as int, d),
        d.regs[0] == fitted(c.regs[0], bytes_of(have), bytes_in(want)),
        only_r0(c, d),
{
    if have == Some(want) {
        c
    } else {
        assert(bytes_of(have) != Some(bytes_in(want)));
        run_masked(f, k, g, Some(want), pc, b, c)
    }
}

pub proof fn lemma_fit_steps(g: Gen, have: Option<Size>, want: Size)
    ensures
        steps(g, fit(g, have, want)),
{
    lemma_masked_steps(g, Some(want));
}

/// `let` puts the value into a new slot, under the name, cut to the width of the
/// local; a pointer goes in whole.
pub proof fn lemma_let_runs(
    f: Asm,
    k: Kernel,
    x: Around,
    w: World,
    g: Gen,
    name: Seq<char>,
    t: Option<tree::Type>,
    e: tree::Expr,
    c: Cpu,
) -> (d: Cpu)
    requires
        text_type(t) is None,
        let_stmt(w, g, name, t, e) is Ok,
        goes_on((let_stmt(w, g, name, t, e)->Ok_0).out, f),
        one_label(f),
        faithful(w, x, k),
        sane(g.vars, g.depth, c),
    ensures
        ({
            let h = let_stmt(w, g, name, t, e)->Ok_0;
            let n = local_width(g.vars, t, e);
            let worth = eval(w, x, g.vars, c, e);
            &&& gets(f, k, g.out.code.len() as int, c, h.out.code.len() as int, d)
            &&& agree(c, d, g.depth)
            &&& extends(g.out, h.out)
            &&& h.event == g.event
            &&& h.depth == g.depth + 8
            &&& h.vars.len() == g.vars.len() + 1
            &&& h.vars.drop_last() == g.vars
            &&& h.vars.last().name == name
            &&& match h.vars.last().place {
                Place::Num(at, s) => {
                    &&& at == h.depth
                    &&& bytes_in(s) == n
                    &&& pointer_width(w, g.vars, e) is None
                    &&& slot_value(d, at) == fitted(worth, width(g.vars, e), n)
                },
                Place::Maybe(at, s) => {
                    &&& at == h.depth
                    &&& pointer_width(w, g.vars, e) == Some(bytes_in(s))
                    &&& slot_value(d, at) == worth
                },
                _ => false,
            }
            &&& sane(h.vars, h.depth, d)
        }),
{
    reveal(let_stmt);
    let h = let_stmt(w, g, name, t, e)->Ok_0;
    let pc = g.out.code.len() as int;
    let (g0, v) = value(w, g, e)->Ok_0;
    let have = width_of(g.vars, e);
    let want = crate::lowering::local_size(g.vars, t, e);
    let g1 = match v {
        Value::Num => fit(g0, have, want),
        Value::Maybe(_) => g0,
    };
    let g2 = grow(g1, 8)->Ok_0;
    let off = (-(g2.depth as int)) as i16;
    let st = store(Size::DW, Reg::R10, off as int, Reg::R0);
    let g3 = put(g2, st);
    lemma_pointers(w, g, e);
    lemma_local_width(g.vars, t, e);
    lemma_width(g.vars, e);
    lemma_value_steps(w, g, e);
    lemma_fit_steps(g0, have, want);
    lemma_put_steps(g2, st);
    lemma_goes_back(g2.out, g3.out, f);
    assert(steps(g0, g1));
    lemma_goes_back(g0.out, g1.out, f);
    lemma_steps_on(g, g0, g1);
    lemma_extends_on(g.out, g2.out, g3.out);
    let c0 = lemma_value_runs(f, k, x, w, g, e, c);
    let c1 = match v {
        Value::Num => run_fit(f, k, g0, have, want, pc, c, c0),
        Value::Maybe(_) => c0,
    };
    lemma_agree_on(c, c0, c1, g.depth, g.depth);
    let d = run_store(f, k, g2, Size::DW, Reg::R10, off, Reg::R0, pc, c, c1);
    lemma_kept_agrees(c1, d, g.depth, 8);
    lemma_agree_on(c, c1, d, g.depth, g.depth);
    lemma_kept_is_cut(c1.mem, slot(c1, g2.depth), Size::DW, c1.regs[0]);
    assert(slot_value(d, g2.depth) == c1.regs[0]);
    lemma_sane_same(g.vars, g.depth, c, d);
    assert(h.vars.drop_last() =~= g.vars);
    lemma_sane_with(g.vars, g.depth, h.vars.last(), h.depth, d);
    assert(h.vars =~= g.vars.push(h.vars.last()));
    d
}

pub proof fn lemma_sane_with(vars: Seq<Var>, depth: nat, v: Var, deeper: nat, c: Cpu)
    requires
        sane(vars, depth, c),
        depth <= deeper <= 512,
        match v.place {
            Place::Num(at, _) => 8 <= at <= deeper,
            Place::Maybe(at, _) => 8 <= at <= deeper,
            Place::Ref(at, s) => 8 <= at <= deeper && off_stack(
                c,
                slot_value(c, at) as int,
                bytes_in(s) as int,
            ),
            Place::Text(at, n) => n <= at <= deeper,
            _ => true,
        },
    ensures
        sane(vars.push(v), deeper, c),
{
    let more = vars.push(v);
    assert forall|i: int| 0 <= i < more.len() implies match (#[trigger] more[i]).place {
        Place::Num(at, _) => 8 <= at <= deeper,
        Place::Maybe(at, _) => 8 <= at <= deeper,
        Place::Ref(at, s) => 8 <= at <= deeper && off_stack(
            c,
            slot_value(c, at) as int,
            bytes_in(s) as int,
        ),
        Place::Text(at, n) => n <= at <= deeper,
        _ => true,
    } by {
        if i < vars.len() {
            assert(more[i] == vars[i]);
        }
    }
}

/// Nothing but a slot, the unused part of the stack and R0 to R5 changed.
pub open spec fn only_slot(c: Cpu, d: Cpu, depth: nat, at: nat) -> bool {
    &&& d.deeds == c.deeds
    &&& forall|r: int| 6 <= r <= 10 ==> #[trigger] d.regs[r] == c.regs[r]
    &&& forall|a: int|
        (a < c.regs[10] - 512 || a >= c.regs[10] - depth) && !(slot(c, at) <= a < slot(c, at) + 8)
            ==> #[trigger] d.mem[a] == c.mem[a]
}

/// Assigning puts the value into the slot of the name, cut to the width of the
/// local, and changes nothing else.
pub proof fn lemma_assign_runs(
    f: Asm,
    k: Kernel,
    x: Around,
    w: World,
    g: Gen,
    target: tree::Expr,
    e: tree::Expr,
    c: Cpu,
) -> (d: Cpu)
    requires
        assign(w, g, target, e) is Ok,
        goes_on((assign(w, g, target, e)->Ok_0).out, f),
        one_label(f),
        faithful(w, x, k),
        sane(g.vars, g.depth, c),
    ensures
        ({
            let h = assign(w, g, target, e)->Ok_0;
            &&& gets(f, k, g.out.code.len() as int, c, h.out.code.len() as int, d)
            &&& steps(g, h)
            &&& h.event == g.event
            &&& target.kind matches tree::ExprKind::Ident(name)
            &&& crate::lowering::find(g.vars, name) matches Some(Place::Num(at, s))
            &&& slot_value(d, at) == fitted(
                eval(w, x, g.vars, c, e),
                width(g.vars, e),
                bytes_in(s),
            )
            &&& only_slot(c, d, g.depth, at)
        }),
{
    reveal(assign);
    let h = assign(w, g, target, e)->Ok_0;
    let name = target.kind->Ident_0;
    let pc = g.out.code.len() as int;
    lemma_find_sane(g.vars, g.depth, c, name);
    let place = crate::lowering::find(g.vars, name)->0;
    let at = place->Num_0;
    let s = place->Num_1;
    let g0 = number(w, g, e)->Ok_0;
    let have = width_of(g.vars, e);
    let g1 = fit(g0, have, s);
    let off = (-(at as int)) as i16;
    let st = store(Size::DW, Reg::R10, off as int, Reg::R0);
    lemma_width(g.vars, e);
    lemma_number_steps(w, g, e);
    lemma_fit_steps(g0, have, s);
    lemma_put_steps(g1, st);
    lemma_goes_back(g1.out, put(g1, st).out, f);
    lemma_goes_back(g0.out, g1.out, f);
    lemma_steps_on(g, g0, g1);
    lemma_steps_on(g, g1, h);
    let c0 = run_number(f, k, x, w, g, e, c);
    let c1 = run_fit(f, k, g0, have, s, pc, c, c0);
    lemma_agree_on(c, c0, c1, g.depth, g.depth);
    let d = run_store(f, k, g1, Size::DW, Reg::R10, off, Reg::R0, pc, c, c1);
    lemma_kept_is_cut(c1.mem, slot(c1, at), Size::DW, c1.regs[0]);
    assert(c1.regs[10] == c.regs[10]);
    assert forall|a: int|
        (a < c.regs[10] - 512 || a >= c.regs[10] - g.depth) && !(slot(c, at) <= a < slot(c, at) + 8)
            implies #[trigger] d.mem[a] == c.mem[a] by {
        lemma_kept_elsewhere(c1.mem, slot(c1, at), 8, c1.regs[0] as int, a);
        assert(c1.mem[a] == c.mem[a]);
    }
    d
}

// ---------------------------------------------------------------------- maps

/// `m.insert(k, v)` calls the helper that inserts on the right map, with the
/// address of the key in R2, that of the value in R3, and no flags. Key and value
/// have the widths that the map has.
pub proof fn lemma_insert_runs(
    f: Asm,
    k: Kernel,
    x: Around,
    w: World,
    g: Gen,
    t: int,
    args: Seq<tree::Expr>,
    c: Cpu,
) -> (m: Cpu)
    requires
        args.len() == 2,
        0 <= t < w.tables.len(),
        insert(w, g, t, args) is Ok,
        goes_on((insert(w, g, t, args)->Ok_0).out, f),
        one_label(f),
        faithful(w, x, k),
        sane(g.vars, g.depth, c),
    ensures
        ({
            let h = insert(w, g, t, args)->Ok_0;
            let key = bytes_in(w.tables[t].key);
            let val = bytes_in(w.tables[t].value);
            &&& gets(f, k, g.out.code.len() as int, c, h.out.code.len() as int, (k.acts)(2, m))
            &&& steps(g, h)
            &&& h.event == g.event
            &&& agree(c, m, g.depth)
            &&& m.regs[1] == (k.map_at)(t + 1)
            &&& fetched(m.mem, m.regs[2] as int, key) == cut(
                eval(w, x, g.vars, c, args[0]),
                Some(key),
            )
            &&& fetched(m.mem, m.regs[3] as int, val) == cut(
                eval(w, x, g.vars, c, args[1]),
                Some(val),
            )
            &&& m.regs[4] == 0
        }),
{
    reveal(insert);
    crate::machine::lemma_helper_numbers();
    let h = insert(w, g, t, args)->Ok_0;
    let ks = w.tables[t].key;
    let vs = w.tables[t].value;
    let pc = g.out.code.len() as int;
    let g1 = keyed(w, g, ks, args[0])->Ok_0;
    let g2 = keyed(w, g1, vs, args[1])->Ok_0;
    let n = (t + 1) as i32;
    let ga = put(g2, set_map(Reg::R1, n as int));
    let gb = point(ga, Reg::R2, g1.depth);
    let gc = point(gb, Reg::R3, g2.depth);
    let gd = put(gc, set_num(Reg::R4, 0));
    let ge = put(gd, helper(Helper::MapUpdateElem));
    lemma_keyed_steps(w, g, ks, args[0]);
    lemma_keyed_steps(w, g1, vs, args[1]);
    lemma_put_steps(g2, set_map(Reg::R1, n as int));
    lemma_two_puts(ga, copy(Reg::R2, Reg::R10), alu(AluOp::Add, Reg::R2, -(g1.depth as int)));
    lemma_two_puts(gb, copy(Reg::R3, Reg::R10), alu(AluOp::Add, Reg::R3, -(g2.depth as int)));
    lemma_two_puts(gc, set_num(Reg::R4, 0), helper(Helper::MapUpdateElem));
    lemma_goes_back(gd.out, ge.out, f);
    lemma_goes_back(gc.out, gd.out, f);
    lemma_goes_back(gb.out, gc.out, f);
    lemma_goes_back(ga.out, gb.out, f);
    lemma_goes_back(g2.out, ga.out, f);
    lemma_goes_back(g1.out, g2.out, f);
    lemma_extends_on(g.out, g1.out, g2.out);
    lemma_extends_on(g.out, g2.out, ga.out);
    lemma_extends_on(g.out, ga.out, gb.out);
    lemma_extends_on(g.out, gb.out, gc.out);
    lemma_extends_on(g.out, gc.out, ge.out);
    let c1 = run_keyed(f, k, x, w, g, ks, args[0], c);
    lemma_sane_same(g.vars, g.depth, c, c1);
    lemma_sane_deeper(g.vars, g.depth, g1.depth, c1);
    lemma_eval_same(w, x, g.vars, g.depth, c, c1, args[1]);
    let c2 = run_keyed(f, k, x, w, g1, vs, args[1], c1);
    lemma_agree_on(c, c1, c2, g.depth, g1.depth);
    lemma_gets_on(f, k, pc, c, g1.out.code.len() as int, c1, g2.out.code.len() as int, c2);
    lemma_fetched_same(c2.mem, c1.mem, slot(c, g1.depth), bytes_in(ks));
    let c3 = run_set_map(f, k, g2, Reg::R1, n, pc, c, c2);
    let c4 = run_point(f, k, ga, Reg::R2, g1.depth, pc, c, c3);
    let c5 = run_point(f, k, gb, Reg::R3, g2.depth, pc, c, c4);
    let m = run_set_num(f, k, gc, Reg::R4, 0, pc, c, c5);
    assert(c2.regs[10] == c1.regs[10] && c1.regs[10] == c.regs[10]);
    run_call(f, k, gd, Helper::MapUpdateElem, pc, c, m);
    lemma_agree_on(c, c2, m, g.depth, g.depth);
    m
}

/// `m.insert(k, v)` and `m.delete(k)` as statements: on the map of that name, the
/// helper that does it, with the key cut to the width that the map has.
pub proof fn lemma_map_stmt_runs(
    f: Asm,
    k: Kernel,
    x: Around,
    w: World,
    g: Gen,
    e: tree::Expr,
    c: Cpu,
) -> (m: Cpu)
    requires
        expr_stmt(w, g, e) is Ok,
        goes_on((expr_stmt(w, g, e)->Ok_0).out, f),
        one_label(f),
        faithful(w, x, k),
        sane(g.vars, g.depth, c),
        e.kind matches tree::ExprKind::MethodCall { receiver, method, args } && (
        receiver.kind matches tree::ExprKind::Ident(name) && table_at(w.tables, name, 0) is Some)
            && (method.name == "insert"@ && args.len() == 2 || method.name == "delete"@
            && args.len() == 1),
    ensures
        ({
            let h = expr_stmt(w, g, e)->Ok_0;
            let args = e.kind->MethodCall_args;
            let t = table_at(w.tables, e.kind->MethodCall_receiver.kind->Ident_0, 0)->0;
            let key = bytes_in(w.tables[t].key);
            let val = bytes_in(w.tables[t].value);
            let inserts = e.kind->MethodCall_method.name == "insert"@;
            &&& gets(
                f,
                k,
                g.out.code.len() as int,
                c,
                h.out.code.len() as int,
                if inserts {
                    (k.acts)(2, m)
                } else {
                    (k.acts)(3, m)
                },
            )
            &&& steps(g, h)
            &&& h.event == g.event
            &&& agree(c, m, g.depth)
            &&& m.regs[1] == (k.map_at)(t + 1)
            &&& fetched(m.mem, m.regs[2] as int, key) == cut(
                eval(w, x, g.vars, c, args[0]),
                Some(key),
            )
            &&& inserts ==> m.regs[4] == 0 && fetched(m.mem, m.regs[3] as int, val) == cut(
                eval(w, x, g.vars, c, args[1]),
                Some(val),
            )
        }),
{
    reveal(expr_stmt);
    reveal_strlit("insert");
    reveal_strlit("delete");
    assert("insert"@[0] == 'i' && "delete"@[0] == 'd');
    crate::machine::lemma_helper_numbers();
    let name = e.kind->MethodCall_receiver.kind->Ident_0;
    let args = e.kind->MethodCall_args;
    lemma_table_at(w.tables, name, 0);
    let t = table_at(w.tables, name, 0)->0;
    let pc = g.out.code.len() as int;
    if e.kind->MethodCall_method.name == "insert"@ {
        lemma_insert_runs(f, k, x, w, g, t, args, c)
    } else {
        let ks = w.tables[t].key;
        let g1 = keyed(w, g, ks, args[0])->Ok_0;
        let g2 = on_map(g1, t, g1.depth, Helper::MapDeleteElem);
        lemma_keyed_steps(w, g, ks, args[0]);
        lemma_on_map_steps(g1, t, g1.depth, Helper::MapDeleteElem);
        lemma_goes_back(g1.out, g2.out, f);
        lemma_extends_on(g.out, g1.out, g2.out);
        let c1 = run_keyed(f, k, x, w, g, ks, args[0], c);
        let m = run_on_map(f, k, g1, t, g1.depth, Helper::MapDeleteElem, pc, c, c1);
        lemma_agree_on(c, c1, m, g.depth, g.depth);
        assert(c1.regs[10] == c.regs[10]);
        m
    }
}

// ------------------------------------------------------------ what helpers do

/// The stack and R6 to R10 are as they were.
pub open spec fn keeps_stack(c: Cpu, d: Cpu) -> bool {
    &&& forall|r: int| 6 <= r <= 10 ==> #[trigger] d.regs[r] == c.regs[r]
    &&& forall|a: int| c.regs[10] - 512 <= a < c.regs[10] ==> #[trigger] d.mem[a] == c.mem[a]
}

/// Nothing but the bytes of a buffer changed, and R0 to R5.
pub open spec fn only_buffer(c: Cpu, d: Cpu, at: int, n: int) -> bool {
    &&& d.deeds == c.deeds
    &&& forall|r: int| 6 <= r <= 10 ==> #[trigger] d.regs[r] == c.regs[r]
    &&& forall|a: int| !(at <= a < at + n) ==> #[trigger] d.mem[a] == c.mem[a]
}

/// The kernel does for a program what it is there for: maps change, texts are
/// read, records are lent and taken.
pub open spec fn dutiful(w: World, x: Around, k: Kernel) -> bool {
    &&& faithful(w, x, k)
    &&& forall|deeds: Seq<Deed>, t: int, key: int|
        {
            let p = #[trigger] (x.found)(deeds, t, key);
            p != 0 ==> p + 8 <= x.stack - 512 || p >= x.stack
        }
    &&& forall|t: int, c: Cpu|
        #![trigger w.tables[t], (k.acts)(2, c)]
        0 <= t < w.tables.len() && c.regs[1] == (k.map_at)(t + 1) && c.regs[4] == 0 ==> {
            &&& keeps_stack(c, (k.acts)(2, c))
            &&& (k.acts)(2, c).deeds == c.deeds.push(
                Deed::Insert {
                    map: t,
                    key: fetched(c.mem, c.regs[2] as int, bytes_in(w.tables[t].key)),
                    value: fetched(c.mem, c.regs[3] as int, bytes_in(w.tables[t].value)),
                },
            )
        }
    &&& forall|t: int, c: Cpu|
        #![trigger w.tables[t], (k.acts)(3, c)]
        0 <= t < w.tables.len() && c.regs[1] == (k.map_at)(t + 1) ==> {
            &&& keeps_stack(c, (k.acts)(3, c))
            &&& (k.acts)(3, c).deeds == c.deeds.push(
                Deed::Delete {
                    map: t,
                    key: fetched(c.mem, c.regs[2] as int, bytes_in(w.tables[t].key)),
                },
            )
        }
    &&& forall|c: Cpu|
        #![trigger (k.acts)(16, c)]
        {
            let d = (k.acts)(16, c);
            &&& only_buffer(c, d, c.regs[1] as int, c.regs[2] as int)
            &&& forall|i: int|
                0 <= i < c.regs[2] ==> #[trigger] d.mem[c.regs[1] + i] == (x.comm)(i)
        }
    &&& forall|c: Cpu|
        #![trigger (k.acts)(114, c)]
        {
            let d = (k.acts)(114, c);
            &&& only_buffer(c, d, c.regs[1] as int, c.regs[2] as int)
            &&& forall|i: int|
                0 <= i < c.regs[2] ==> #[trigger] d.mem[c.regs[1] + i] == (x.read)(
                    c.regs[3],
                    c.regs[2] as int,
                    i,
                )
        }
    &&& forall|c: Cpu|
        #![trigger (k.acts)(131, c)]
        c.regs[1] == (k.map_at)(0) && c.regs[3] == 0 ==> {
            let d = (k.acts)(131, c);
            &&& only_answers(c, d)
            &&& d.regs[0] == (x.record)(c.deeds, c.regs[2] as int)
            &&& d.regs[0] != 0 ==> off_stack(c, d.regs[0] as int, c.regs[2] as int) && d.regs[0]
                + c.regs[2] < two64()
        }
    &&& forall|c: Cpu|
        #![trigger (k.acts)(132, c)]
        c.regs[2] == 0 ==> {
            let d = (k.acts)(132, c);
            &&& keeps_stack(c, d)
            &&& d.mem == c.mem
            &&& d.deeds == c.deeds.push(Deed::Submit { at: c.regs[1], mem: c.mem })
        }
}

// ------------------------------------------------------------------- texts

/// The bytes that a text is filled with.
pub open spec fn text_byte(
    w: World,
    x: Around,
    vars: Seq<Var>,
    c: Cpu,
    n: int,
    e: tree::Expr,
    i: int,
) -> u8 {
    if crate::checking::call_of(e, "comm"@) is Some {
        (x.comm)(i)
    } else {
        (x.read)(eval(w, x, vars, c, e.kind->Call_args[0]), n, i)
    }
}

/// Whole slots of eight bytes for a text.
pub open spec fn text_slots(n: int) -> nat {
    (if n % 8 == 0 {
        n
    } else {
        n - n % 8 + 8
    }) as nat
}

/// `let s: str<N> = ..` fills a new buffer of N bytes on the stack, in whole
/// slots: with the name of the process, or with a read of N bytes at most from the
/// address that is given.
pub proof fn lemma_let_text_runs(
    f: Asm,
    k: Kernel,
    x: Around,
    w: World,
    g: Gen,
    name: Seq<char>,
    t: Option<tree::Type>,
    e: tree::Expr,
    c: Cpu,
) -> (d: Cpu)
    requires
        text_type(t) is Some,
        let_stmt(w, g, name, t, e) is Ok,
        goes_on((let_stmt(w, g, name, t, e)->Ok_0).out, f),
        one_label(f),
        dutiful(w, x, k),
        sane(g.vars, g.depth, c),
    ensures
        ({
            let h = let_stmt(w, g, name, t, e)->Ok_0;
            let n = text_type(t)->0;
            &&& gets(f, k, g.out.code.len() as int, c, h.out.code.len() as int, d)
            &&& agree(c, d, g.depth)
            &&& extends(g.out, h.out)
            &&& h.event == g.event
            &&& h.depth == g.depth + text_slots(n as int)
            &&& h.vars == g.vars.push(Var { name, place: Place::Text(h.depth, n as nat) })
            &&& forall|i: int|
                0 <= i < n ==> #[trigger] d.mem[slot(c, h.depth) + i] == text_byte(
                    w,
                    x,
                    g.vars,
                    c,
                    n as int,
                    e,
                    i,
                )
            &&& sane(h.vars, h.depth, d)
        }),
{
    reveal(let_stmt);
    reveal(text_value);
    reveal_strlit("comm");
    reveal_strlit("read_user_str");
    assert("comm"@.len() == 4 && "read_user_str"@.len() == 13);
    crate::machine::lemma_helper_numbers();
    let n = text_type(t)->0;
    let h = let_stmt(w, g, name, t, e)->Ok_0;
    let pc = g.out.code.len() as int;
    let args = e.kind->Call_args;
    let comm = crate::checking::call_of(e, "comm"@) is Some;
    let nn = set_num(Reg::R2, n as i32);
    lemma_gets_self(f, k, pc, c);
    let g1 = if comm {
        g
    } else {
        number(w, g, args[0])->Ok_0
    };
    let g2 = grow(g1, text_room(n as int))->Ok_0;
    let g3 = if comm {
        g2
    } else {
        put(g2, copy(Reg::R3, Reg::R0))
    };
    let g4 = point(g3, Reg::R1, g2.depth);
    let g5 = put(g4, nn);
    let which = if comm {
        Helper::GetCurrentComm
    } else {
        Helper::ProbeReadUserStr
    };
    let g6 = put(g5, helper(which));
    assert(h.out == g6.out);
    lemma_two_puts(g4, nn, helper(which));
    lemma_two_puts(g3, copy(Reg::R1, Reg::R10), alu(AluOp::Add, Reg::R1, -(g2.depth as int)));
    lemma_put_steps(g2, copy(Reg::R3, Reg::R0));
    lemma_goes_back(g5.out, g6.out, f);
    lemma_goes_back(g4.out, g5.out, f);
    lemma_goes_back(g3.out, g4.out, f);
    if !comm {
        lemma_number_steps(w, g, args[0]);
        lemma_goes_back(g2.out, g3.out, f);
        lemma_extends_on(g.out, g2.out, g3.out);
    }
    lemma_extends_on(g.out, g3.out, g4.out);
    lemma_extends_on(g.out, g4.out, g6.out);
    let c1 = if comm {
        c
    } else {
        run_number(f, k, x, w, g, args[0], c)
    };
    let c2 = if comm {
        c1
    } else {
        run_copy(f, k, g2, Reg::R3, Reg::R0, pc, c, c1)
    };
    assert(c1.regs[10] == c.regs[10]);
    let c3 = run_point(f, k, g3, Reg::R1, g2.depth, pc, c, c2);
    let m = run_set_num(f, k, g4, Reg::R2, n as i32, pc, c, c3);
    let d = run_call(f, k, g5, which, pc, c, m);
    assert(agree(c, m, g.depth)) by {
        assert(agree(c, c1, g.depth));
        lemma_agree_on(c, c1, m, g.depth, g.depth);
    }
    assert(g2.depth == g.depth + text_slots(n as int));
    assert(m.regs[1] == slot(c, g2.depth));
    assert(m.regs[2] == n);
    assert(agree(m, d, g.depth)) by {
        assert(m.regs[10] == c.regs[10]);
    }
    lemma_agree_on(c, m, d, g.depth, g.depth);
    assert forall|i: int| 0 <= i < n implies #[trigger] d.mem[slot(c, h.depth) + i] == text_byte(
        w,
        x,
        g.vars,
        c,
        n as int,
        e,
        i,
    ) by {
        assert(d.mem[m.regs[1] + i] == if comm {
            (x.comm)(i)
        } else {
            (x.read)(m.regs[3], m.regs[2] as int, i)
        });
    }
    lemma_sane_same(g.vars, g.depth, c, d);
    lemma_sane_with(
        g.vars,
        g.depth,
        Var { name, place: Place::Text(h.depth, n as nat) },
        h.depth,
        d,
    );
    d
}

// ------------------------------------------------------------------- events

/// A field of a record was set: nothing else outside the unused part of the stack
/// changed.
pub open spec fn only_field(c: Cpu, d: Cpu, depth: nat, at: int, n: int) -> bool {
    &&& d.deeds == c.deeds
    &&& forall|r: int| 6 <= r <= 10 ==> #[trigger] d.regs[r] == c.regs[r]
    &&& forall|a: int|
        (a < c.regs[10] - 512 || a >= c.regs[10] - depth) && !(at <= a < at + n)
            ==> #[trigger] d.mem[a] == c.mem[a]
}

/// How many bytes a field takes.
pub open spec fn field_bytes(kind: FieldKind) -> nat {
    match kind {
        FieldKind::Uint(n) => n as nat,
        FieldKind::Str(n) => n as nat,
        FieldKind::Bool => 1,
    }
}

/// What a field holds when the record is handed over: a number cut to the field's
/// width, or the bytes of a text.
pub open spec fn field_set(
    w: World,
    x: Around,
    vars: Seq<Var>,
    c: Cpu,
    at: int,
    kind: FieldKind,
    e: tree::Expr,
    d: Cpu,
) -> bool {
    match kind {
        FieldKind::Str(n) => forall|i: int|
            0 <= i < n ==> #[trigger] d.mem[at + i] == (match e.kind {
                tree::ExprKind::Ident(name) => match crate::lowering::find(vars, name) {
                    Some(Place::Text(s, _)) => c.mem[slot(c, s) + i],
                    _ => 0,
                },
                _ => (x.comm)(i),
            }),
        _ => fetched(d.mem, at, field_bytes(kind)) == cut(
            eval(w, x, vars, c, e),
            Some(field_bytes(kind)),
        ),
    }
}

pub proof fn lemma_copy_steps(g: Gen, at: nat, off: int, i: int, n: int)
    ensures
        steps(g, copy_bytes(g, at, off, i, n)),
    decreases n - i,
{
    if i < n {
        let a = load(Size::B, Reg::R0, Reg::R10, i - at);
        let b = store(Size::B, Reg::R6, off + i, Reg::R0);
        lemma_two_puts(g, a, b);
        lemma_copy_steps(put(put(g, a), b), at, off, i + 1, n);
        lemma_steps_on(g, put(put(g, a), b), copy_bytes(g, at, off, i, n));
    }
}

/// Copying a text into a record.
pub proof fn run_copy_bytes(
    f: Asm,
    k: Kernel,
    g: Gen,
    at: nat,
    off: int,
    i: int,
    n: int,
    pc: int,
    b: Cpu,
    c: Cpu,
) -> (d: Cpu)
    requires
        gets(f, k, pc, b, g.out.code.len() as int, c),
        goes_on(copy_bytes(g, at, off, i, n).out, f),
        0 <= i <= n <= at <= 512,
        0 <= off,
        off + n <= i16::MAX,
        c.regs[10] >= 512,
        off_stack(c, c.regs[6] + off, n),
    ensures
        gets(f, k, pc, b, copy_bytes(g, at, off, i, n).out.code.len() as int, d),
        d.deeds == c.deeds,
        forall|r: int| 6 <= r <= 10 ==> #[trigger] d.regs[r] == c.regs[r],
        forall|a: int|
            !(c.regs[6] + off + i <= a < c.regs[6] + off + n) ==> #[trigger] d.mem[a] == c.mem[a],
        forall|j: int|
            i <= j < n ==> #[trigger] d.mem[c.regs[6] + off + j] == c.mem[slot(c, at) + j],
    decreases n - i,
{
    if i >= n {
        c
    } else {
        let lo = (i - at) as i16;
        let so = (off + i) as i16;
        let a = load(Size::B, Reg::R0, Reg::R10, lo as int);
        let s = store(Size::B, Reg::R6, so as int, Reg::R0);
        let g1 = put(g, a);
        let g2 = put(g1, s);
        let h = copy_bytes(g, at, off, i, n);
        let r = c.regs[6] + off;
        lemma_two_puts(g, a, s);
        lemma_copy_steps(g2, at, off, i + 1, n);
        lemma_goes_back(g2.out, h.out, f);
        lemma_goes_back(g1.out, g2.out, f);
        let c1 = run_load(f, k, g, Size::B, Reg::R0, Reg::R10, lo, pc, b, c);
        lemma_eight(c.mem, slot(c, at) + i);
        assert(c1.regs[0] == c.mem[slot(c, at) + i]);
        let c2 = run_store(f, k, g1, Size::B, Reg::R6, so, Reg::R0, pc, b, c1);
        assert(c2.mem == c1.mem.insert(r + i, (c1.regs[0] as int % 256) as u8)) by {
            reveal_with_fuel(kept, 2);
        }
        let d = run_copy_bytes(f, k, g2, at, off, i + 1, n, pc, b, c2);
        assert forall|j: int| i <= j < n implies #[trigger] d.mem[c.regs[6] + off + j]
            == c.mem[slot(c, at) + j] by {
            if j == i {
                assert(d.mem[r + i] == c2.mem[r + i]);
            } else {
                assert(d.mem[c2.regs[6] + off + j] == c2.mem[slot(c2, at) + j]);
                assert(slot(c, at) + j != r + i);
            }
        }
        d
    }
}

/// A kind of field that a record can have.
pub open spec fn kind_fits(kind: FieldKind) -> bool {
    kind matches FieldKind::Uint(n) ==> n == 1 || n == 2 || n == 4 || n == 8
}

pub proof fn lemma_field_steps(w: World, g: Gen, off: u32, kind: FieldKind, e: tree::Expr)
    ensures
        emit_field(w, g, off, kind, e) matches Ok(h) ==> steps(g, h),
{
    reveal(emit_field);
    reveal(emit_builtin);
    reveal(crate::lowering::builtin);
    lemma_number_steps(w, g, e);
    if crate::lowering::nullary(e) {
        if let tree::ExprKind::Ident(name) = e.kind->Call_callee.kind {
            if let Some(n) = crate::lowering::builtin_width(name) {
                let g1 = crate::lowering::builtin(g, name);
                let st = store(width_size(n), Reg::R6, off as int, Reg::R0);
                assert(steps(g, g1));
                lemma_put_steps(g1, st);
                lemma_steps_on(g, g1, put(g1, st));
            } else if let FieldKind::Str(n) = kind {
                let a = copy(Reg::R1, Reg::R6);
                let b = alu(AluOp::Add, Reg::R1, off as int);
                let s = set_num(Reg::R2, n as i32);
                let h = helper(Helper::GetCurrentComm);
                lemma_two_puts(g, a, b);
                lemma_two_puts(put(put(g, a), b), s, h);
                lemma_steps_on(g, put(put(g, a), b), put(put(put(put(g, a), b), s), h));
            }
        }
    } else {
        match kind {
            FieldKind::Str(n) => {
                if let tree::ExprKind::Ident(name) = e.kind {
                    if let Some(Place::Text(at, m)) = crate::lowering::find(g.vars, name) {
                        lemma_copy_steps(g, at, off as int, 0, n as int);
                    }
                }
            },
            FieldKind::Uint(n) => {
                if let Ok(g1) = number(w, g, e) {
                    let st = store(width_size(n), Reg::R6, off as int, Reg::R0);
                    lemma_put_steps(g1, st);
                    lemma_steps_on(g, g1, put(g1, st));
                }
            },
            FieldKind::Bool => {
                if let Ok(g1) = number(w, g, e) {
                    let st = store(Size::B, Reg::R6, off as int, Reg::R0);
                    lemma_put_steps(g1, st);
                    lemma_steps_on(g, g1, put(g1, st));
                }
            },
        }
    }
}

/// A number that is stored into a record.
proof fn run_field_store(
    f: Asm,
    k: Kernel,
    g: Gen,
    size: Size,
    off: i16,
    depth: nat,
    pc: int,
    b: Cpu,
    c: Cpu,
) -> (d: Cpu)
    requires
        gets(f, k, pc, b, g.out.code.len() as int, c),
        goes_on(put(g, store(size, Reg::R6, off as int, Reg::R0)).out, f),
    ensures
        gets(f, k, pc, b, g.out.code.len() as int + 1, d),
        only_field(c, d, depth, c.regs[6] + off, bytes_in(size) as int),
        fetched(d.mem, c.regs[6] + off, bytes_in(size)) == cut(c.regs[0], Some(bytes_in(size))),
{
    let d = run_store(f, k, g, size, Reg::R6, off, Reg::R0, pc, b, c);
    let at = c.regs[6] + off;
    lemma_kept_is_cut(c.mem, at, size, c.regs[0]);
    assert forall|a: int| !(at <= a < at + bytes_in(size)) implies #[trigger] d.mem[a]
        == c.mem[a] by {
        lemma_kept_elsewhere(c.mem, at, bytes_in(size), c.regs[0] as int, a);
    }
    d
}

proof fn lemma_then_field(c: Cpu, c1: Cpu, d: Cpu, depth: nat, at: int, n: int)
    requires
        agree(c, c1, depth),
        only_field(c1, d, depth, at, n),
    ensures
        only_field(c, d, depth, at, n),
{
    assert(c1.regs[10] == c.regs[10]);
    assert forall|r: int| 6 <= r <= 10 implies #[trigger] d.regs[r] == c.regs[r] by {
        assert(c1.regs[r] == c.regs[r]);
    }
    assert forall|a: int|
        (a < c.regs[10] - 512 || a >= c.regs[10] - depth) && !(at <= a < at + n) implies #[trigger] d.mem[a]
        == c.mem[a] by {
        assert(c1.mem[a] == c.mem[a]);
    }
}

/// The code of a field sets it, in the record that R6 points at, and nothing else.
pub proof fn lemma_field_runs(
    f: Asm,
    k: Kernel,
    x: Around,
    w: World,
    g: Gen,
    off: u32,
    kind: FieldKind,
    e: tree::Expr,
    c: Cpu,
) -> (d: Cpu)
    requires
        emit_field(w, g, off, kind, e) is Ok,
        goes_on((emit_field(w, g, off, kind, e)->Ok_0).out, f),
        one_label(f),
        dutiful(w, x, k),
        sane(g.vars, g.depth, c),
        kind_fits(kind),
        off_stack(c, c.regs[6] + off, field_bytes(kind) as int),
        c.regs[6] + off + field_bytes(kind) < two64(),
        kind matches FieldKind::Str(n) ==> n <= i32::MAX,
    ensures
        gets(
            f,
            k,
            g.out.code.len() as int,
            c,
            (emit_field(w, g, off, kind, e)->Ok_0).out.code.len() as int,
            d,
        ),
        only_field(c, d, g.depth, c.regs[6] + off, field_bytes(kind) as int),
        field_set(w, x, g.vars, c, c.regs[6] + off, kind, e, d),
{
    reveal(emit_field);
    let pc = g.out.code.len() as int;
    let o = off as i16;
    lemma_gets_self(f, k, pc, c);
    if crate::lowering::nullary(e) {
        run_builtin_field(f, k, x, w, g, off, kind, e, c)
    } else {
        match kind {
            FieldKind::Str(n) => {
                let name = e.kind->Ident_0;
                lemma_find_sane(g.vars, g.depth, c, name);
                let at = (crate::lowering::find(g.vars, name)->0)->Text_0;
                run_copy_bytes(f, k, g, at, off as int, 0, n as int, pc, c, c)
            },
            FieldKind::Uint(n) => {
                let g1 = number(w, g, e)->Ok_0;
                let st = store(width_size(n), Reg::R6, o as int, Reg::R0);
                lemma_put_steps(g1, st);
                lemma_goes_back(g1.out, put(g1, st).out, f);
                let c1 = run_number(f, k, x, w, g, e, c);
                let d = run_field_store(f, k, g1, width_size(n), o, g.depth, pc, c, c1);
                assert(c1.regs[6] == c.regs[6]);
                lemma_then_field(c, c1, d, g.depth, c.regs[6] + off, n as int);
                d
            },
            FieldKind::Bool => {
                let g1 = number(w, g, e)->Ok_0;
                let st = store(Size::B, Reg::R6, o as int, Reg::R0);
                lemma_put_steps(g1, st);
                lemma_goes_back(g1.out, put(g1, st).out, f);
                let c1 = run_number(f, k, x, w, g, e, c);
                let d = run_field_store(f, k, g1, Size::B, o, g.depth, pc, c, c1);
                assert(c1.regs[6] == c.regs[6]);
                lemma_then_field(c, c1, d, g.depth, c.regs[6] + off, 1);
                d
            },
        }
    }
}

proof fn run_builtin_field(
    f: Asm,
    k: Kernel,
    x: Around,
    w: World,
    g: Gen,
    off: u32,
    kind: FieldKind,
    e: tree::Expr,
    c: Cpu,
) -> (d: Cpu)
    requires
        crate::lowering::nullary(e),
        emit_field(w, g, off, kind, e) is Ok,
        goes_on((emit_field(w, g, off, kind, e)->Ok_0).out, f),
        one_label(f),
        dutiful(w, x, k),
        sane(g.vars, g.depth, c),
        off_stack(c, c.regs[6] + off, field_bytes(kind) as int),
        c.regs[6] + off + field_bytes(kind) < two64(),
        kind matches FieldKind::Str(n) ==> n <= i32::MAX,
    ensures
        gets(
            f,
            k,
            g.out.code.len() as int,
            c,
            (emit_field(w, g, off, kind, e)->Ok_0).out.code.len() as int,
            d,
        ),
        only_field(c, d, g.depth, c.regs[6] + off, field_bytes(kind) as int),
        field_set(w, x, g.vars, c, c.regs[6] + off, kind, e, d),
{
    reveal(emit_field);
    reveal(emit_builtin);
    crate::machine::lemma_helper_numbers();
    let pc = g.out.code.len() as int;
    let o = off as i16;
    let name = e.kind->Call_callee.kind->Ident_0;
    lemma_gets_self(f, k, pc, c);
    crate::meaning::lemma_plain(name);
    match crate::lowering::builtin_width(name) {
        Some(n) => {
            let g1 = crate::lowering::builtin(g, name);
            let st = store(width_size(n), Reg::R6, o as int, Reg::R0);
            lemma_put_steps(g1, st);
            lemma_goes_back(g1.out, put(g1, st).out, f);
            let code = crate::running::added(g, g1);
            lemma_builtins_run(k, x.now, c, g, name);
            assert forall|i: int| 0 <= i < code.len() implies f.code[pc + i] == #[trigger] code[i]
                && !crate::meaning::jumps_somewhere(code[i]) by {
                assert(g1.out.code[pc + i] == code[i]);
            }
            crate::meaning::lemma_line(f, k, pc, code, c);
            let c1 = crate::machine::run(k, c, code);
            assert(eval(w, x, g.vars, c, e) == builtin_value(x.now, name));
            let d = run_field_store(f, k, g1, width_size(n), o, g.depth, pc, c, c1);
            assert(agree(c, c1, g.depth));
            assert(c1.regs[6] == c.regs[6]);
            lemma_then_field(c, c1, d, g.depth, c.regs[6] + off, n as int);
            d
        },
        None => {
            let n = kind->Str_0;
            let a = copy(Reg::R1, Reg::R6);
            let b = alu(AluOp::Add, Reg::R1, off as int);
            let s = set_num(Reg::R2, n as i32);
            let h = helper(Helper::GetCurrentComm);
            let g1 = put(g, a);
            let g2 = put(g1, b);
            let g3 = put(g2, s);
            lemma_two_puts(g, a, b);
            lemma_two_puts(g2, s, h);
            lemma_goes_back(g3.out, put(g3, h).out, f);
            lemma_goes_back(g2.out, g3.out, f);
            lemma_goes_back(g1.out, g2.out, f);
            let c1 = run_copy(f, k, g, Reg::R1, Reg::R6, pc, c, c);
            let c2 = run_alu(f, k, g1, AluOp::Add, Reg::R1, off as i32, pc, c, c1);
            assert(word(off as int) == off);
            assert(word(c.regs[6] + off) == c.regs[6] + off);
            let m = run_set_num(f, k, g2, Reg::R2, n as i32, pc, c, c2);
            let d = run_call(f, k, g3, Helper::GetCurrentComm, pc, c, m);
            assert(m.regs[1] == c.regs[6] + off);
            assert(m.regs[2] == n);
            assert(only_buffer(m, d, c.regs[6] + off, n as int));
            assert forall|i: int| 0 <= i < n implies #[trigger] d.mem[c.regs[6] + off + i]
                == (x.comm)(i) by {
                assert(d.mem[m.regs[1] + i] == (x.comm)(i));
            }
            d
        },
    }
}

/// The first field of a record that has a name.
pub open spec fn is_slot_of(l: Layout, name: Seq<char>, p: int) -> bool {
    &&& 0 <= p < l.fields.len()
    &&& l.fields[p].name == name
    &&& forall|q: int| 0 <= q < p ==> (#[trigger] l.fields[q]).name != name
}

/// One field of an `emit` was set, at the place of the event's field of that name.
pub open spec fn one_field_set(
    w: World,
    x: Around,
    vars: Seq<Var>,
    depth: nat,
    l: Layout,
    field: (tree::Ident, tree::Expr),
    c: Cpu,
    d: Cpu,
) -> bool {
    exists|p: int|
        {
            let at = c.regs[6] + l.fields[p].offset;
            let kind = l.fields[p].kind;
            &&& #[trigger] is_slot_of(l, field.0.name, p)
            &&& only_field(c, d, depth, at, field_bytes(kind) as int)
            &&& field_set(w, x, vars, c, at, kind, field.1, d)
        }
}

/// The fields of an `emit` from the `i`th on were set, one after the other.
pub open spec fn fields_set(
    w: World,
    x: Around,
    vars: Seq<Var>,
    depth: nat,
    l: Layout,
    fields: Seq<(tree::Ident, tree::Expr)>,
    i: int,
    c: Cpu,
    d: Cpu,
) -> bool
    decreases fields.len() - i,
{
    if i >= fields.len() {
        d == c
    } else {
        exists|m: Cpu| #[trigger]
            one_field_set(w, x, vars, depth, l, fields[i], c, m) && fields_set(
                w,
                x,
                vars,
                depth,
                l,
                fields,
                i + 1,
                m,
                d,
            )
    }
}

/// Every field lies inside the record.
pub open spec fn record_fits(l: Layout) -> bool {
    &&& l.size <= i32::MAX
    &&& forall|p: int|
        0 <= p < l.fields.len() ==> {
            &&& kind_fits((#[trigger] l.fields[p]).kind)
            &&& l.fields[p].offset + field_bytes(l.fields[p].kind) <= l.size
        }
}

pub proof fn lemma_slot_named(l: Layout, name: Seq<char>, i: int)
    requires
        0 <= i,
        forall|q: int| 0 <= q < i && q < l.fields.len() ==> (#[trigger] l.fields[q]).name != name,
    ensures
        crate::lowering::slot_named(l.fields, name, i) matches Some(p) ==> is_slot_of(l, name, p),
    decreases l.fields.len() - i,
{
    if i < l.fields.len() && l.fields[i].name != name {
        lemma_slot_named(l, name, i + 1);
    }
}

proof fn lemma_sane_field(vars: Seq<Var>, depth: nat, c: Cpu, d: Cpu, at: int, n: int)
    requires
        sane(vars, depth, c),
        only_field(c, d, depth, at, n),
        off_stack(c, at, n),
    ensures
        sane(vars, depth, d),
{
    assert(d.regs[10] == c.regs[10]);
    lemma_stack_slot(c, d, depth, 8);
    assert forall|i: int| 0 <= i < vars.len() implies ((#[trigger] vars[i]).place matches Place::Ref(
        a,
        s,
    ) ==> off_stack(d, slot_value(d, a) as int, bytes_in(s) as int)) by {
        if let Place::Ref(a, s) = vars[i].place {
            lemma_stack_slot(c, d, depth, a);
        }
    }
}

/// A slot in use holds the same where the stack in use is the same.
pub proof fn lemma_stack_slot(c: Cpu, d: Cpu, depth: nat, at: nat)
    requires
        d.regs[10] == c.regs[10],
        forall|a: int| c.regs[10] - depth <= a < c.regs[10] ==> #[trigger] d.mem[a] == c.mem[a],
        8 <= at <= depth,
    ensures
        slot_value(d, at) == slot_value(c, at),
{
    lemma_fetched_same(d.mem, c.mem, slot(c, at), 8);
}

pub proof fn lemma_fields_steps(
    w: World,
    g: Gen,
    l: Layout,
    fields: Seq<(tree::Ident, tree::Expr)>,
    i: int,
)
    requires
        0 <= i,
    ensures
        crate::lowering::emit_fields(w, g, l, fields, i) matches Ok(h) ==> steps(g, h),
    decreases fields.len() - i,
{
    reveal_with_fuel(crate::lowering::emit_fields, 2);
    if i < fields.len() {
        if let Some(p) = crate::lowering::slot_named(l.fields, fields[i].0.name, 0) {
            let off = l.fields[p].offset;
            let kind = l.fields[p].kind;
            lemma_field_steps(w, g, off, kind, fields[i].1);
            if let Ok(g1) = emit_field(w, g, off, kind, fields[i].1) {
                lemma_fields_steps(w, g1, l, fields, i + 1);
                if let Ok(h) = crate::lowering::emit_fields(w, g1, l, fields, i + 1) {
                    lemma_steps_on(g, g1, h);
                }
            }
        }
    }
}

/// The code of the fields sets every one of them.
pub proof fn lemma_fields_run(
    f: Asm,
    k: Kernel,
    x: Around,
    w: World,
    g: Gen,
    l: Layout,
    fields: Seq<(tree::Ident, tree::Expr)>,
    i: int,
    c: Cpu,
) -> (d: Cpu)
    requires
        0 <= i,
        crate::lowering::emit_fields(w, g, l, fields, i) is Ok,
        goes_on((crate::lowering::emit_fields(w, g, l, fields, i)->Ok_0).out, f),
        one_label(f),
        dutiful(w, x, k),
        sane(g.vars, g.depth, c),
        record_fits(l),
        off_stack(c, c.regs[6] as int, l.size as int),
        c.regs[6] + l.size < two64(),
    ensures
        gets(
            f,
            k,
            g.out.code.len() as int,
            c,
            (crate::lowering::emit_fields(w, g, l, fields, i)->Ok_0).out.code.len() as int,
            d,
        ),
        fields_set(w, x, g.vars, g.depth, l, fields, i, c, d),
        sane(g.vars, g.depth, d),
        d.regs[6] == c.regs[6],
        d.regs[10] == c.regs[10],
        d.deeds == c.deeds,
        forall|a: int|
            c.regs[10] - g.depth <= a < c.regs[10] ==> #[trigger] d.mem[a] == c.mem[a],
    decreases fields.len() - i,
{
    reveal_with_fuel(crate::lowering::emit_fields, 2);
    let pc = g.out.code.len() as int;
    if i >= fields.len() {
        lemma_gets_self(f, k, pc, c);
        c
    } else {
        let name = fields[i].0.name;
        lemma_slot_named(l, name, 0);
        let p = crate::lowering::slot_named(l.fields, name, 0)->0;
        let off = l.fields[p].offset;
        let kind = l.fields[p].kind;
        let g1 = emit_field(w, g, off, kind, fields[i].1)->Ok_0;
        let h = crate::lowering::emit_fields(w, g1, l, fields, i + 1)->Ok_0;
        lemma_field_steps(w, g, off, kind, fields[i].1);
        lemma_fields_steps(w, g1, l, fields, i + 1);
        lemma_goes_back(g1.out, h.out, f);
        let m = lemma_field_runs(f, k, x, w, g, off, kind, fields[i].1, c);
        let at = c.regs[6] + off;
        lemma_sane_field(g.vars, g.depth, c, m, at, field_bytes(kind) as int);
        assert(one_field_set(w, x, g.vars, g.depth, l, fields[i], c, m));
        assert(m.regs[6] == c.regs[6] && m.regs[10] == c.regs[10]);
        let d = lemma_fields_run(f, k, x, w, g1, l, fields, i + 1, m);
        lemma_gets_on(f, k, pc, c, g1.out.code.len() as int, m, h.out.code.len() as int, d);
        assert forall|a: int| c.regs[10] - g.depth <= a < c.regs[10] implies #[trigger] d.mem[a]
            == c.mem[a] by {
            assert(d.mem[a] == m.mem[a]);
        }
        d
    }
}

/// What an `emit` does: it asks for a record of the event's size. Where there is
/// none, nothing; else the fields are set in it, and it is handed over.
pub open spec fn emitted(
    w: World,
    x: Around,
    vars: Seq<Var>,
    depth: nat,
    l: Layout,
    fields: Seq<(tree::Ident, tree::Expr)>,
    c: Cpu,
    d: Cpu,
) -> bool {
    let r = (x.record)(c.deeds, l.size as int);
    if r == 0 {
        agree(c, d, depth)
    } else {
        exists|a: Cpu, b: Cpu|
            {
                &&& a.mem == c.mem
                &&& a.deeds == c.deeds
                &&& a.regs[6] == r
                &&& a.regs[10] == c.regs[10]
                &&& #[trigger] fields_set(w, x, vars, depth, l, fields, 0, a, b)
                &&& d.mem == b.mem
                &&& d.deeds == c.deeds.push(Deed::Submit { at: r, mem: b.mem })
                &&& d.regs[10] == c.regs[10]
            }
    }
}

proof fn lemma_layout_fits(w: World, g: Gen, name: Seq<char>)
    ensures
        crate::lowering::chosen(w, g, name) matches Ok(l) ==> record_fits(l),
{
    reveal(crate::lowering::chosen);
    reveal(crate::lowering::event_layout);
    if let Some(q) = crate::lowering::event_at(w.events, name, 0) {
        let e = w.events[q];
        if let Ok(l) = crate::lowering::event_layout(e) {
            let n = e.fields.len() as int;
            assert forall|p: int| 0 <= p < l.fields.len() implies kind_fits(
                (#[trigger] l.fields[p]).kind,
            ) && l.fields[p].offset + field_bytes(l.fields[p].kind) <= l.size by {
                assert(crate::layout::kind_at(e.fields, p) is Some);
                crate::layout::lemma_fields_in_order(e, p, n);
                assert(crate::layout::held(e.fields, p + 1));
            }
        }
    }
}

proof fn lemma_reserve_steps(g: Gen, size: u32, lost: int)
    ensures
        steps(g, reserve(g, size, lost)),
{
    let a = put(g, set_map(Reg::R1, 0));
    let b = put(a, set_num(Reg::R2, size as i32));
    let d = put(b, set_num(Reg::R3, 0));
    let e = put(d, helper(Helper::RingbufReserve));
    let j = jump(e, if_num(JmpOp::Eq, Reg::R0, 0), lost);
    lemma_two_puts(g, set_map(Reg::R1, 0), set_num(Reg::R2, size as i32));
    lemma_two_puts(b, set_num(Reg::R3, 0), helper(Helper::RingbufReserve));
    lemma_steps_on(g, b, e);
    lemma_jump_steps(e, if_num(JmpOp::Eq, Reg::R0, 0), lost);
    lemma_steps_on(g, e, j);
    lemma_put_steps(j, copy(Reg::R6, Reg::R0));
    lemma_steps_on(g, j, put(j, copy(Reg::R6, Reg::R0)));
}

/// Asking for a record: to `lost` where there is none, else on, with the record in
/// R6.
pub proof fn run_reserve(
    f: Asm,
    k: Kernel,
    x: Around,
    w: World,
    g: Gen,
    size: u32,
    lost: int,
    c: Cpu,
) -> (d: Cpu)
    requires
        goes_on(reserve(g, size, lost).out, f),
        one_label(f),
        dutiful(w, x, k),
        size <= i32::MAX,
    ensures
        ({
            let r = (x.record)(c.deeds, size as int);
            let pc = g.out.code.len() as int;
            &&& d.mem == c.mem
            &&& d.deeds == c.deeds
            &&& if r == 0 {
                &&& gets(f, k, pc, c, f.labels[lost]->0, d)
                &&& only_answers(c, d)
            } else {
                &&& gets(f, k, pc, c, reserve(g, size, lost).out.code.len() as int, d)
                &&& d.regs[6] == r
                &&& d.regs[10] == c.regs[10]
                &&& off_stack(c, r as int, size as int)
                &&& r + size < two64()
            }
        }),
{
    crate::machine::lemma_helper_numbers();
    let pc = g.out.code.len() as int;
    let s = set_num(Reg::R2, size as i32);
    let z = set_num(Reg::R3, 0);
    let hp = helper(Helper::RingbufReserve);
    let insn = if_num(JmpOp::Eq, Reg::R0, 0);
    let ga = put(g, set_map(Reg::R1, 0));
    let gb = put(ga, s);
    let gc = put(gb, z);
    let gd = put(gc, hp);
    let ge = jump(gd, insn, lost);
    let gf = put(ge, copy(Reg::R6, Reg::R0));
    lemma_put_steps(ge, copy(Reg::R6, Reg::R0));
    lemma_goes_back(ge.out, gf.out, f);
    lemma_jump_steps(gd, insn, lost);
    lemma_goes_back(gd.out, ge.out, f);
    lemma_two_puts(gb, z, hp);
    lemma_goes_back(gc.out, gd.out, f);
    lemma_goes_back(gb.out, gc.out, f);
    lemma_two_puts(g, set_map(Reg::R1, 0), s);
    lemma_goes_back(ga.out, gb.out, f);
    lemma_gets_self(f, k, pc, c);
    let c1 = run_set_map(f, k, g, Reg::R1, 0i32, pc, c, c);
    let c2 = run_set_num(f, k, ga, Reg::R2, size as i32, pc, c, c1);
    let m = run_set_num(f, k, gb, Reg::R3, 0, pc, c, c2);
    assert(m.regs[2] == size);
    assert(m.regs[3] == 0);
    let c4 = run_call(f, k, gc, Helper::RingbufReserve, pc, c, m);
    lemma_jumps_compare(JmpOp::Eq, c4.regs[0], extended(0));
    assert(extended(0) == 0);
    lemma_jump_runs(f, k, gd, insn, lost, c4);
    if c4.regs[0] == 0 {
        lemma_gets_on(f, k, pc, c, gd.out.code.len() as int, c4, f.labels[lost]->0, c4);
        c4
    } else {
        lemma_gets_on(
            f,
            k,
            pc,
            c,
            gd.out.code.len() as int,
            c4,
            ge.out.code.len() as int,
            c4,
        );
        run_copy(f, k, ge, Reg::R6, Reg::R0, pc, c, c4)
    }
}

pub proof fn lemma_emit_extends(
    w: World,
    g: Gen,
    name: Seq<char>,
    fields: Seq<(tree::Ident, tree::Expr)>,
)
    ensures
        crate::lowering::emit(w, g, name, fields) matches Ok(h) ==> extends(g.out, h.out) && h.depth
            == g.depth && h.vars == g.vars,
{
    reveal(crate::lowering::emit);
    if let Ok(l) = crate::lowering::chosen(w, g, name) {
        let lost = g.out.labels.len() as int;
        let g0 = Gen { event: Some(l), ..g };
        if let Ok(g1) = fresh(g0) {
            let ga = reserve(g1, l.size, lost);
            lemma_reserve_steps(g1, l.size, lost);
            lemma_fields_steps(w, ga, l, fields, 0);
            if let Ok(g2) = crate::lowering::emit_fields(w, ga, l, fields, 0) {
                let gb = put(g2, copy(Reg::R1, Reg::R6));
                let gc = put(gb, set_num(Reg::R2, 0));
                lemma_two_puts(g2, copy(Reg::R1, Reg::R6), set_num(Reg::R2, 0));
                lemma_put_steps(gc, helper(Helper::RingbufSubmit));
                assert(extends(g.out, g1.out));
                lemma_extends_on(g.out, g1.out, ga.out);
                lemma_extends_on(g.out, ga.out, g2.out);
                lemma_extends_on(g.out, g2.out, gc.out);
                lemma_extends_on(g.out, gc.out, submit(g2).out);
            }
        }
    }
}

/// The code of an `emit` does what it says: a record of the event that is named,
/// its fields set to their values, and handed over.
pub proof fn lemma_emit_runs(
    f: Asm,
    k: Kernel,
    x: Around,
    w: World,
    g: Gen,
    name: Seq<char>,
    fields: Seq<(tree::Ident, tree::Expr)>,
    c: Cpu,
) -> (d: Cpu)
    requires
        crate::lowering::emit(w, g, name, fields) is Ok,
        goes_on((crate::lowering::emit(w, g, name, fields)->Ok_0).out, f),
        one_label(f),
        dutiful(w, x, k),
        sane(g.vars, g.depth, c),
    ensures
        ({
            let h = crate::lowering::emit(w, g, name, fields)->Ok_0;
            &&& gets(f, k, g.out.code.len() as int, c, h.out.code.len() as int, d)
            &&& h.event matches Some(l) && crate::lowering::chosen(w, g, name) == Ok::<
                Layout,
                Seq<char>,
            >(l) && fields.len() == l.fields.len() && emitted(
                w,
                x,
                g.vars,
                g.depth,
                l,
                fields,
                c,
                d,
            )
            &&& sane(g.vars, g.depth, d)
            &&& d.regs[10] == c.regs[10]
            &&& forall|a: int|
                c.regs[10] - g.depth <= a < c.regs[10] ==> #[trigger] d.mem[a] == c.mem[a]
        }),
{
    reveal(crate::lowering::emit);
    crate::machine::lemma_helper_numbers();
    lemma_layout_fits(w, g, name);
    let h = crate::lowering::emit(w, g, name, fields)->Ok_0;
    let l = crate::lowering::chosen(w, g, name)->Ok_0;
    let lost = g.out.labels.len() as int;
    let g0 = Gen { event: Some(l), ..g };
    let g1 = fresh(g0)->Ok_0;
    let ga = reserve(g1, l.size, lost);
    let g2 = crate::lowering::emit_fields(w, ga, l, fields, 0)->Ok_0;
    let gb = put(g2, copy(Reg::R1, Reg::R6));
    let gc = put(gb, set_num(Reg::R2, 0));
    let gd = submit(g2);
    let pc = g.out.code.len() as int;
    lemma_reserve_steps(g1, l.size, lost);
    lemma_fields_steps(w, ga, l, fields, 0);
    lemma_two_puts(g2, copy(Reg::R1, Reg::R6), set_num(Reg::R2, 0));
    lemma_put_steps(gc, helper(Helper::RingbufSubmit));
    assert(g1.out.labels[lost] is None);
    lemma_steps_on(g1, ga, g2);
    lemma_steps_on(g1, g2, gc);
    lemma_steps_on(g1, gc, gd);
    crate::meaning::lemma_bound_goes_on(gd, lost, f);
    lemma_goes_back(gc.out, gd.out, f);
    lemma_goes_back(gb.out, gc.out, f);
    lemma_goes_back(g2.out, gb.out, f);
    lemma_goes_back(ga.out, g2.out, f);
    assert(h.event == Some(l));
    let r = (x.record)(c.deeds, l.size as int);
    let a = run_reserve(f, k, x, w, g1, l.size, lost, c);
    if r == 0 {
        assert(agree(c, a, g.depth));
        lemma_sane_same(g.vars, g.depth, c, a);
        a
    } else {
        lemma_sane_mem(g.vars, g.depth, c, a);
        let b = lemma_fields_run(f, k, x, w, ga, l, fields, 0, a);
        lemma_gets_on(f, k, pc, c, ga.out.code.len() as int, a, g2.out.code.len() as int, b);
        let c1 = run_copy(f, k, g2, Reg::R1, Reg::R6, pc, c, b);
        let m = run_set_num(f, k, gb, Reg::R2, 0, pc, c, c1);
        assert(m.regs[2] == 0);
        let d = run_call(f, k, gc, Helper::RingbufSubmit, pc, c, m);
        assert(m.regs[10] == c.regs[10]);
        assert(d.regs[10] == c.regs[10]);
        lemma_sane_mem(g.vars, g.depth, b, d);
        assert(fields_set(w, x, g.vars, g.depth, l, fields, 0, a, b));
        assert forall|q: int| c.regs[10] - g.depth <= q < c.regs[10] implies #[trigger] d.mem[q]
            == c.mem[q] by {
            assert(b.mem[q] == a.mem[q]);
        }
        d
    }
}

/// Whether a machine is sane is a matter of its memory and R10.
pub proof fn lemma_sane_mem(vars: Seq<Var>, depth: nat, c: Cpu, d: Cpu)
    requires
        sane(vars, depth, c),
        d.mem == c.mem,
        d.regs[10] == c.regs[10],
    ensures
        sane(vars, depth, d),
{
    assert(slot_value(d, 8) == slot_value(c, 8));
    assert forall|i: int| 0 <= i < vars.len() implies ((#[trigger] vars[i]).place matches Place::Ref(
        a,
        s,
    ) ==> off_stack(d, slot_value(d, a) as int, bytes_in(s) as int)) by {
        if let Place::Ref(a, s) = vars[i].place {
            assert(slot_value(d, a) == slot_value(c, a));
        }
    }
}

// --------------------------------------------------------- what code adds

pub proof fn lemma_assign_steps(w: World, g: Gen, target: tree::Expr, e: tree::Expr)
    ensures
        assign(w, g, target, e) matches Ok(h) ==> steps(g, h),
{
    reveal(assign);
    lemma_number_steps(w, g, e);
    if let tree::ExprKind::Ident(name) = target.kind {
        if let Some(Place::Num(at, s)) = crate::lowering::find(g.vars, name) {
            if let Ok(g0) = number(w, g, e) {
                let have = width_of(g.vars, e);
                let g1 = fit(g0, have, s);
                let st = store(Size::DW, Reg::R10, -(at as int), Reg::R0);
                lemma_fit_steps(g0, have, s);
                lemma_steps_on(g, g0, g1);
                lemma_put_steps(g1, st);
                lemma_steps_on(g, g1, put(g1, st));
            }
        }
    }
}

pub proof fn lemma_insert_steps(w: World, g: Gen, t: int, args: Seq<tree::Expr>)
    ensures
        insert(w, g, t, args) matches Ok(h) ==> steps(g, h),
{
    reveal(insert);
    let ks = w.tables[t].key;
    let vs = w.tables[t].value;
    lemma_keyed_steps(w, g, ks, args[0]);
    if let Ok(g1) = keyed(w, g, ks, args[0]) {
        lemma_keyed_steps(w, g1, vs, args[1]);
        if let Ok(g2) = keyed(w, g1, vs, args[1]) {
            let ga = put(g2, set_map(Reg::R1, t + 1));
            let gb = point(ga, Reg::R2, g1.depth);
            let gc = point(gb, Reg::R3, g2.depth);
            let ge = put(put(gc, set_num(Reg::R4, 0)), helper(Helper::MapUpdateElem));
            lemma_put_steps(g2, set_map(Reg::R1, t + 1));
            lemma_two_puts(
                ga,
                copy(Reg::R2, Reg::R10),
                alu(AluOp::Add, Reg::R2, -(g1.depth as int)),
            );
            lemma_two_puts(
                gb,
                copy(Reg::R3, Reg::R10),
                alu(AluOp::Add, Reg::R3, -(g2.depth as int)),
            );
            lemma_two_puts(gc, set_num(Reg::R4, 0), helper(Helper::MapUpdateElem));
            lemma_extends_on(g.out, g1.out, g2.out);
            lemma_extends_on(g.out, g2.out, ga.out);
            lemma_extends_on(g.out, ga.out, gb.out);
            lemma_extends_on(g.out, gb.out, gc.out);
            lemma_extends_on(g.out, gc.out, ge.out);
        }
    }
}

pub proof fn lemma_text_extends(w: World, g: Gen, n: u64, e: tree::Expr)
    ensures
        text_value(w, g, n, e) matches Ok(h) ==> extends(g.out, h.out) && h.vars == g.vars,
{
    reveal(text_value);
    if let Ok(h) = text_value(w, g, n, e) {
        let args = e.kind->Call_args;
        let nn = set_num(Reg::R2, n as i32);
        let comm = e.kind->Call_callee.kind->Ident_0 == "comm"@ && args.len() == 0;
        let which = if comm {
            Helper::GetCurrentComm
        } else {
            Helper::ProbeReadUserStr
        };
        let g1 = if comm {
            g
        } else {
            number(w, g, args[0])->Ok_0
        };
        let g2 = grow(g1, text_room(n as int))->Ok_0;
        let g3 = if comm {
            g2
        } else {
            put(g2, copy(Reg::R3, Reg::R0))
        };
        let g4 = point(g3, Reg::R1, g2.depth);
        let g6 = put(put(g4, nn), helper(which));
        if !comm {
            lemma_number_steps(w, g, args[0]);
        }
        lemma_put_steps(g2, copy(Reg::R3, Reg::R0));
        lemma_extends_on(g.out, g2.out, g3.out);
        lemma_two_puts(g3, copy(Reg::R1, Reg::R10), alu(AluOp::Add, Reg::R1, -(g2.depth as int)));
        lemma_extends_on(g.out, g3.out, g4.out);
        lemma_two_puts(g4, nn, helper(which));
        lemma_extends_on(g.out, g4.out, g6.out);
        assert(h.out == g6.out);
    }
}

} // verus!
