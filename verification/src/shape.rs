//! The shape of every compiled program.
//!
//! Whatever a probe says, its code keeps the context first and ends with
//! `exit`, every jump goes forward to a place in the code, and the stack in use
//! is a whole number of eight-byte slots within the limit. So the code always
//! ends, and no label is left open.

use crate::ast::{BinaryOp, UnaryOp};
use crate::bpf::{
    assembled, code_bytes, distance, insn_bytes, jump_fault, lemma_code_bytes,
    lemma_resolved_elsewhere, lemma_slot_at_monotone, resolved, AluOp, Asm, Helper, Insn, JmpOp,
    Reg, Size,
};
use crate::lowering::{
    alu, always, assign, back, block, bound, branch, builtin, byte_of, called, checked, chosen,
    compare_bytes, compares, const_of, copy_bytes, declare, declared_size, deref, emit,
    emit_builtin, emit_field, emit_fields, entry, event_at, event_layout, expr_stmt, find, fit,
    fresh, fresh2, fresh3, grow, helper, if_num, insert, is_logic, jump, keep_low, keyed, leave,
    let_stmt, literal_of, load, local_size, lowered, method_value, named, nullary, number, on_map,
    operands, otherwise_part, point, prefix_test, put, reserve, set_map, set_num, slot_named, stmt,
    stmt_kind, stmts, store, submit, table, table_at, tested, text_room, text_type, text_value,
    truth, unroll, up, value, width_of, with, Declared, Gen, Made, Place, STACK_BYTES, Value, Var,
    World,
};
use crate::layout::{held, layout_fits, layout_of, FieldKind, Layout, Slot};
use crate::rules::given;
use crate::tree;
use vstd::prelude::*;
use vstd::utf8::encode_utf8;

verus! {

/// A program under construction, with the labels of `open` still to be placed.
#[verifier::opaque]
pub open spec fn shaped(g: Gen, open: Set<int>) -> bool {
    &&& g.out.code.len() > 0
    &&& g.out.code[0] == store(Size::DW, Reg::R10, -8, Reg::R1)
    &&& forall|i: int| 0 <= i < g.out.jumps.len() ==> goes_forward(g.out, #[trigger] g.out.jumps[i])
    &&& forall|l: int| #[trigger] open.contains(l) ==> 0 <= l < g.out.labels.len()
    &&& forall|l: int|
        0 <= l < g.out.labels.len() ==> ((#[trigger] g.out.labels[l]) is None <==> open.contains(l))
    &&& g.depth <= g.peak <= STACK_BYTES
    &&& g.depth % 8 == 0
    &&& g.peak % 8 == 0
}

/// A jump of the code to a label that is not placed yet, or stands behind it.
pub open spec fn goes_forward(a: Asm, j: (int, int)) -> bool {
    &&& 0 <= j.0 < a.code.len()
    &&& 0 <= j.1 < a.labels.len()
    &&& match a.labels[j.1] {
        Some(at) => j.0 < at <= a.code.len(),
        None => true,
    }
}

// --------------------------------------------------------------- the steps

broadcast proof fn lemma_put(g: Gen, open: Set<int>, insn: Insn)
    requires
        shaped(g, open),
    ensures
        #[trigger] shaped(put(g, insn), open),
{
    reveal(shaped);
    let h = put(g, insn);
    assert forall|i: int| 0 <= i < h.out.jumps.len() implies goes_forward(
        h.out,
        #[trigger] h.out.jumps[i],
    ) by {
        assert(goes_forward(g.out, g.out.jumps[i]));
    }
}

broadcast proof fn lemma_jump(g: Gen, open: Set<int>, insn: Insn, label: int)
    requires
        shaped(g, open),
        open.contains(label),
    ensures
        #[trigger] shaped(jump(g, insn, label), open),
{
    reveal(shaped);
    let h = jump(g, insn, label);
    assert forall|i: int| 0 <= i < h.out.jumps.len() implies goes_forward(
        h.out,
        #[trigger] h.out.jumps[i],
    ) by {
        if i < g.out.jumps.len() {
            assert(goes_forward(g.out, g.out.jumps[i]));
        } else {
            assert(g.out.labels[label] is None);
        }
    }
}

proof fn lemma_bound(g: Gen, open: Set<int>, label: int)
    requires
        shaped(g, open),
        open.contains(label),
    ensures
        shaped(bound(g, label), open.remove(label)),
{
    reveal(shaped);
    let h = bound(g, label);
    assert forall|i: int| 0 <= i < h.out.jumps.len() implies goes_forward(
        h.out,
        #[trigger] h.out.jumps[i],
    ) by {
        assert(goes_forward(g.out, g.out.jumps[i]));
    }
    assert forall|l: int| 0 <= l < h.out.labels.len() implies ((#[trigger] h.out.labels[l]) is None
        <==> open.remove(label).contains(l)) by {
        assert(g.out.labels[l] is None <==> open.contains(l));
    }
}

proof fn lemma_fresh(g: Gen, open: Set<int>)
    requires
        shaped(g, open),
    ensures
        fresh(g) matches Ok(h) ==> {
            &&& shaped(h, open.insert(g.out.labels.len() as int))
            &&& !open.contains(g.out.labels.len() as int)
        },
{
    reveal(shaped);
    if let Ok(h) = fresh(g) {
        let n = g.out.labels.len() as int;
        assert forall|i: int| 0 <= i < h.out.jumps.len() implies goes_forward(
            h.out,
            #[trigger] h.out.jumps[i],
        ) by {
            assert(goes_forward(g.out, g.out.jumps[i]));
        }
        assert forall|l: int| 0 <= l < h.out.labels.len() implies ((
        #[trigger] h.out.labels[l]) is None <==> open.insert(n).contains(l)) by {
            if l < n {
                assert(g.out.labels[l] is None <==> open.contains(l));
            }
        }
    }
}

proof fn lemma_grow(g: Gen, open: Set<int>, n: nat)
    requires
        shaped(g, open),
        n % 8 == 0,
    ensures
        grow(g, n) matches Ok(h) ==> shaped(h, open) && h.peak >= g.peak && h.out == g.out,
{
    reveal(shaped);
    if let Ok(h) = grow(g, n) {
        assert forall|i: int| 0 <= i < h.out.jumps.len() implies goes_forward(
            h.out,
            #[trigger] h.out.jumps[i],
        ) by {
            assert(goes_forward(g.out, g.out.jumps[i]));
        }
    }
}

/// Neither the depth, if it was a depth before, nor the names matter.
proof fn lemma_reset(g: Gen, open: Set<int>, before: Gen, old_open: Set<int>, h: Gen)
    requires
        shaped(g, open),
        shaped(before, old_open),
        before.peak <= g.peak,
        h.out == g.out,
        h.peak == g.peak,
        h.depth == before.depth || h.depth == g.depth,
    ensures
        shaped(h, open),
{
    reveal(shaped);
    assert forall|i: int| 0 <= i < h.out.jumps.len() implies goes_forward(
        h.out,
        #[trigger] h.out.jumps[i],
    ) by {
        assert(goes_forward(g.out, g.out.jumps[i]));
    }
}

/// A label that is open is one of the labels.
proof fn lemma_open(g: Gen, open: Set<int>, label: int)
    requires
        shaped(g, open),
        open.contains(label),
    ensures
        0 <= label < g.out.labels.len(),
{
    reveal(shaped);
}

broadcast group group_steps {
    lemma_put,
    lemma_jump,
}

/// `r` is an error or as well shaped as `g`, with the same labels open.
spec fn keeps(g: Gen, open: Set<int>, r: Made) -> bool {
    r matches Ok(h) ==> shaped(h, open) && h.peak >= g.peak
}

/// The same, and nothing was emitted.
spec fn keeps_here(g: Gen, open: Set<int>, r: Made) -> bool {
    r matches Ok(h) ==> shaped(h, open) && h.peak >= g.peak && h.event == g.event
}

spec fn keeps_value(g: Gen, open: Set<int>, r: Result<(Gen, Value), Seq<char>>) -> bool {
    r matches Ok((h, _)) ==> shaped(h, open) && h.peak >= g.peak && h.event == g.event
}

// ------------------------------------------------------------- expressions

proof fn lemma_named(g: Gen, open: Set<int>, name: Seq<char>)
    requires
        shaped(g, open),
    ensures
        keeps_value(g, open, named(g, name)),
{
    broadcast use group_steps;

    reveal(named);
}

proof fn lemma_deref(g: Gen, open: Set<int>, e: tree::Expr)
    requires
        shaped(g, open),
    ensures
        keeps_here(g, open, deref(g, e)),
{
    broadcast use group_steps;

    reveal(deref);
}

proof fn lemma_builtin(g: Gen, open: Set<int>, name: Seq<char>)
    requires
        shaped(g, open),
    ensures
        shaped(builtin(g, name), open),
        builtin(g, name).peak == g.peak,
        builtin(g, name).event == g.event,
{
    broadcast use group_steps;

    reveal(builtin);
}

proof fn lemma_called(g: Gen, open: Set<int>, e: tree::Expr, f: tree::Expr, l: Seq<tree::Expr>)
    requires
        shaped(g, open),
    ensures
        keeps_here(g, open, called(g, e, f, l)),
{
    broadcast use group_steps;

    reveal(called);
    if let tree::ExprKind::Ident(name) = f.kind {
        lemma_builtin(g, open, name);
    }
}

proof fn lemma_byte_of(
    g: Gen,
    open: Set<int>,
    name: Seq<char>,
    method: Seq<char>,
    l: Seq<tree::Expr>,
)
    requires
        shaped(g, open),
    ensures
        keeps_here(g, open, byte_of(g, name, method, l)),
{
    broadcast use group_steps;

    reveal(byte_of);
}

proof fn lemma_compare_bytes(
    g: Gen,
    open: Set<int>,
    at: nat,
    bytes: Seq<u8>,
    i: int,
    no: int,
)
    requires
        shaped(g, open),
        open.contains(no),
    ensures
        shaped(compare_bytes(g, at, bytes, i, no), open),
        compare_bytes(g, at, bytes, i, no).peak == g.peak,
        compare_bytes(g, at, bytes, i, no).event == g.event,
    decreases bytes.len() - i,
{
    broadcast use group_steps;

    if i < bytes.len() {
        let h = jump(
            put(g, load(Size::B, Reg::R0, Reg::R10, i - at)),
            if_num(JmpOp::Ne, Reg::R0, bytes[i] as int),
            no,
        );
        assert(shaped(h, open));
        lemma_compare_bytes(h, open, at, bytes, i + 1, no);
    }
}

proof fn lemma_prefix_test(
    g: Gen,
    open: Set<int>,
    receiver: tree::Expr,
    l: Seq<tree::Expr>,
    yes: int,
    no: int,
)
    requires
        shaped(g, open),
        open.contains(yes),
        open.contains(no),
    ensures
        keeps_here(g, open, prefix_test(g, receiver, l, yes, no)),
{
    broadcast use group_steps;

    reveal(prefix_test);
    if let tree::ExprKind::Ident(name) = receiver.kind {
        if let Some(Place::Text(at, n)) = find(g.vars, name) {
            if l.len() == 1 {
                if let tree::ExprKind::Str(text) = l[0].kind {
                    lemma_compare_bytes(
                        g,
                        open,
                        at,
                        encode_utf8(text),
                        0,
                        no,
                    );
                }
            }
        }
    }
}

proof fn lemma_on_map(g: Gen, open: Set<int>, t: int, key: nat, h: Helper)
    requires
        shaped(g, open),
    ensures
        shaped(on_map(g, t, key, h), open),
        on_map(g, t, key, h).peak == g.peak,
        on_map(g, t, key, h).event == g.event,
{
    broadcast use group_steps;

}

proof fn lemma_value(w: World, g: Gen, open: Set<int>, e: tree::Expr)
    requires
        shaped(g, open),
    ensures
        keeps_value(g, open, value(w, g, e)),
    decreases
            e,
            (if is_logic(e) {
                5int
            } else {
                2int
            }),
{
    broadcast use group_steps;

    if is_logic(e) {
        lemma_truth(w, g, open, e);
    } else {
        match e.kind {
            tree::ExprKind::Ident(name) => lemma_named(g, open, name),
            tree::ExprKind::Unary { op, expr } => {
                lemma_deref(g, open, *expr);
                lemma_number(w, g, open, *expr);
            },
            tree::ExprKind::Binary { .. } => lemma_operands(w, g, open, e),
            tree::ExprKind::Call { callee, args } => lemma_called(g, open, e, *callee, args),
            tree::ExprKind::MethodCall { receiver, method, args } => {
                lemma_method_value(w, g, open, *receiver, method.name, args)
            },
            _ => {},
        }
    }
}

proof fn lemma_number(w: World, g: Gen, open: Set<int>, e: tree::Expr)
    requires
        shaped(g, open),
    ensures
        keeps_here(g, open, number(w, g, e)),
    decreases e, 6int,
{
    lemma_value(w, g, open, e);
}

proof fn lemma_operands(w: World, g: Gen, open: Set<int>, e: tree::Expr)
    requires
        shaped(g, open),
    ensures
        keeps_here(g, open, operands(w, g, e)),
    decreases e, 1int,
{
    broadcast use group_steps;

    if let tree::ExprKind::Binary { lhs, rhs, .. } = e.kind {
        lemma_number(w, g, open, *lhs);
        if let Ok(g1) = number(w, g, *lhs) {
            lemma_grow(g1, open, 8);
            if let Ok(g2) = grow(g1, 8) {
                let kept = put(g2, store(Size::DW, Reg::R10, -(g2.depth as int), Reg::R0));
                lemma_number(w, kept, open, *rhs);
                if let Ok(g3) = number(w, kept, *rhs) {
                    let g4 = put(
                        g3,
                        load(
                            Size::DW,
                            Reg::R1,
                            Reg::R10,
                            -(g2.depth as int),
                        ),
                    );
                    assert(shaped(g4, open));
                    lemma_reset(g4, open, g1, open, up(g4, g1));
                }
            }
        }
    }
}

proof fn lemma_truth(w: World, g: Gen, open: Set<int>, e: tree::Expr)
    requires
        shaped(g, open),
    ensures
        keeps_here(g, open, truth(w, g, e)),
    decreases e, 4int,
{
    broadcast use group_steps;

    let yes = g.out.labels.len() as int;
    if let Ok(g1) = fresh3(g) {
        lemma_fresh(g, open);
        let f1 = fresh(g)->Ok_0;
        let open1 = open.insert(yes);
        lemma_fresh(f1, open1);
        let f2 = fresh(f1)->Ok_0;
        let open2 = open1.insert(yes + 1);
        lemma_fresh(f2, open2);
        let open3 = open2.insert(yes + 2);
        lemma_branch(w, g1, open3, e, yes, yes + 1);
        if let Ok(g2) = branch(w, g1, e, yes, yes + 1) {
            lemma_bound(g2, open3, yes);
            let g3 = jump(
                put(bound(g2, yes), set_num(Reg::R0, 1)),
                always(),
                yes + 2,
            );
            assert(shaped(g3, open3.remove(yes)));
            lemma_bound(g3, open3.remove(yes), yes + 1);
            let g4 = put(bound(g3, yes + 1), set_num(Reg::R0, 0));
            let open4 = open3.remove(yes).remove(yes + 1);
            assert(shaped(g4, open4));
            lemma_bound(g4, open4, yes + 2);
            assert(open4.remove(yes + 2) =~= open);
        }
    }
}

proof fn lemma_branch(w: World, g: Gen, open: Set<int>, e: tree::Expr, yes: int, no: int)
    requires
        shaped(g, open),
        open.contains(yes),
        open.contains(no),
    ensures
        keeps_here(g, open, branch(w, g, e, yes, no)),
    decreases e, 3int,
{
    broadcast use group_steps;

    match e.kind {
        tree::ExprKind::Unary { op: UnaryOp::Not, expr } => {
            lemma_branch(w, g, open, *expr, no, yes);
        },
        tree::ExprKind::Binary { op, lhs, rhs } => {
            if op == BinaryOp::And || op == BinaryOp::Or {
                let next = g.out.labels.len() as int;
                lemma_fresh(g, open);
                if let Ok(g1) = fresh(g) {
                    let open1 = open.insert(next);
                    let (t, f) = if op == BinaryOp::And {
                        (next, no)
                    } else {
                        (yes, next)
                    };
                    lemma_branch(w, g1, open1, *lhs, t, f);
                    if let Ok(g2) = branch(w, g1, *lhs, t, f) {
                        lemma_bound(g2, open1, next);
                        assert(open1.remove(next) =~= open);
                        lemma_branch(w, bound(g2, next), open, *rhs, yes, no);
                    }
                }
            } else {
                lemma_operands(w, g, open, e);
                if compares(e) is None {
                    lemma_value(w, g, open, e);
                }
            }
        },
        tree::ExprKind::MethodCall { receiver, method, args } => {
            if is_logic(e) {
                lemma_prefix_test(g, open, *receiver, args, yes, no);
            } else {
                lemma_value(w, g, open, e);
            }
        },
        _ => lemma_value(w, g, open, e),
    }
}

proof fn lemma_method_value(
    w: World,
    g: Gen,
    open: Set<int>,
    receiver: tree::Expr,
    method: Seq<char>,
    l: Seq<tree::Expr>,
)
    requires
        shaped(g, open),
    ensures
        keeps_value(g, open, method_value(w, g, receiver, method, l)),
    decreases l, 0int,
{
    if let tree::ExprKind::Ident(name) = receiver.kind {
        match table_at(w.tables, name, 0) {
            Some(t) => {
                if method == "get"@ && l.len() == 1 {
                    lemma_keyed(w, g, open, w.tables[t].key, l[0]);
                    if let Ok(g1) = keyed(w, g, w.tables[t].key, l[0]) {
                        let g2 = on_map(g1, t, g1.depth, Helper::MapLookupElem);
                        lemma_on_map(g1, open, t, g1.depth, Helper::MapLookupElem);
                        lemma_reset(g2, open, g, open, up(g2, g));
                    }
                }
            },
            None => lemma_byte_of(g, open, name, method, l),
        }
    }
}

proof fn lemma_keyed(w: World, g: Gen, open: Set<int>, size: Size, e: tree::Expr)
    requires
        shaped(g, open),
    ensures
        keeps_here(g, open, keyed(w, g, size, e)),
    decreases e, 7int,
{
    broadcast use group_steps;

    lemma_number(w, g, open, e);
    if let Ok(g1) = number(w, g, e) {
        lemma_grow(g1, open, 8);
    }
}

// -------------------------------------------------------------- statements

proof fn lemma_text_value(w: World, g: Gen, open: Set<int>, n: u64, e: tree::Expr)
    requires
        shaped(g, open),
    ensures
        keeps(g, open, text_value(w, g, n, e)),
{
    broadcast use group_steps;

    reveal(text_value);
    let room = text_room(n as int);
    lemma_grow(g, open, room);
    if let tree::ExprKind::Call { callee, args } = e.kind {
        if args.len() == 1 {
            lemma_number(w, g, open, args[0]);
            if let Ok(g1) = number(w, g, args[0]) {
                lemma_grow(g1, open, room);
            }
        }
    }
}

proof fn lemma_let(
    w: World,
    g: Gen,
    open: Set<int>,
    name: Seq<char>,
    t: Option<tree::Type>,
    e: tree::Expr,
)
    requires
        shaped(g, open),
    ensures
        keeps(g, open, let_stmt(w, g, name, t, e)),
{
    broadcast use group_steps;

    reveal(let_stmt);
    match text_type(t) {
        Some(n) => {
            lemma_text_value(w, g, open, n, e);
            if let Ok(g1) = text_value(w, g, n, e) {
                lemma_reset(
                    g1,
                    open,
                    g1,
                    open,
                    with(g1, name, Place::Text(g1.depth, n as nat)),
                );
            }
        },
        None => {
            lemma_value(w, g, open, e);
            if let Ok((g0, v)) = value(w, g, e) {
                let size = local_size(g.vars, t, e);
                let g1 = match v {
                    Value::Num => fit(g0, width_of(g.vars, e), size),
                    Value::Maybe(_) => g0,
                };
                assert(shaped(g1, open));
                lemma_grow(g1, open, 8);
                if let Ok(g2) = grow(g1, 8) {
                    let g3 = put(g2, store(Size::DW, Reg::R10, -(g2.depth as int), Reg::R0));
                    assert(shaped(g3, open));
                    let place = match v {
                        Value::Num => Place::Num(g2.depth, size),
                        Value::Maybe(size) => Place::Maybe(g2.depth, size),
                    };
                    lemma_reset(g3, open, g3, open, with(g3, name, place));
                }
            }
        },
    }
}

proof fn lemma_assign(w: World, g: Gen, open: Set<int>, target: tree::Expr, e: tree::Expr)
    requires
        shaped(g, open),
    ensures
        keeps(g, open, assign(w, g, target, e)),
{
    broadcast use group_steps;

    reveal(assign);
    lemma_number(w, g, open, e);
}

proof fn lemma_insert(w: World, g: Gen, open: Set<int>, t: int, l: Seq<tree::Expr>)
    requires
        shaped(g, open),
    ensures
        keeps(g, open, insert(w, g, t, l)),
{
    broadcast use group_steps;

    reveal(insert);
    lemma_keyed(w, g, open, w.tables[t].key, l[0]);
    if let Ok(g1) = keyed(w, g, w.tables[t].key, l[0]) {
        lemma_keyed(w, g1, open, w.tables[t].value, l[1]);
        if let Ok(g2) = keyed(w, g1, w.tables[t].value, l[1]) {
            let g3 = point(put(g2, set_map(Reg::R1, t + 1)), Reg::R2, g1.depth);
            let g4 = put(point(g3, Reg::R3, g2.depth), set_num(Reg::R4, 0));
            let g5 = put(g4, helper(Helper::MapUpdateElem));
            assert(shaped(g5, open));
            lemma_reset(g5, open, g, open, up(g5, g));
        }
    }
}

proof fn lemma_expr_stmt(w: World, g: Gen, open: Set<int>, e: tree::Expr)
    requires
        shaped(g, open),
    ensures
        keeps(g, open, expr_stmt(w, g, e)),
{
    reveal(expr_stmt);
    lemma_value(w, g, open, e);
    if let tree::ExprKind::MethodCall { receiver, method, args } = e.kind {
        if let tree::ExprKind::Ident(name) = receiver.kind {
            if let Some(t) = table_at(w.tables, name, 0) {
                lemma_insert(w, g, open, t, args);
                lemma_keyed(w, g, open, w.tables[t].key, args[0]);
                if let Ok(g1) = keyed(w, g, w.tables[t].key, args[0]) {
                    let g2 = on_map(g1, t, g1.depth, Helper::MapDeleteElem);
                    lemma_on_map(g1, open, t, g1.depth, Helper::MapDeleteElem);
                    lemma_reset(g2, open, g, open, up(g2, g));
                }
            }
        }
    }
}

proof fn lemma_copy_bytes(g: Gen, open: Set<int>, at: nat, off: int, i: int, n: int)
    requires
        shaped(g, open),
    ensures
        shaped(copy_bytes(g, at, off, i, n), open),
        copy_bytes(g, at, off, i, n).peak == g.peak,
        copy_bytes(g, at, off, i, n).event == g.event,
    decreases n - i,
{
    broadcast use group_steps;

    if i < n {
        let h = put(
            put(g, load(Size::B, Reg::R0, Reg::R10, i - at)),
            store(Size::B, Reg::R6, off + i, Reg::R0),
        );
        assert(shaped(h, open));
        lemma_copy_bytes(h, open, at, off, i + 1, n);
    }
}

proof fn lemma_emit_field(
    w: World,
    g: Gen,
    open: Set<int>,
    off: u32,
    kind: FieldKind,
    e: tree::Expr,
)
    requires
        shaped(g, open),
    ensures
        keeps_here(g, open, emit_field(w, g, off, kind, e)),
{
    broadcast use group_steps;

    reveal(emit_field);
    reveal(emit_builtin);
    if nullary(e) {
        if let tree::ExprKind::Ident(name) = e.kind->Call_callee.kind {
            lemma_builtin(g, open, name);
        }
    } else {
        lemma_number(w, g, open, e);
        if let tree::ExprKind::Ident(name) = e.kind {
            if let Some(Place::Text(at, m)) = find(g.vars, name) {
                if let FieldKind::Str(n) = kind {
                    lemma_copy_bytes(g, open, at, off as int, 0, n as int);
                }
            }
        }
    }
}

proof fn lemma_emit_fields(
    w: World,
    g: Gen,
    open: Set<int>,
    l: Layout,
    fields: Seq<(tree::Ident, tree::Expr)>,
    i: int,
)
    requires
        shaped(g, open),
    ensures
        keeps_here(g, open, emit_fields(w, g, l, fields, i)),
    decreases fields.len() - i,
{
    reveal(emit_fields);
    if i < fields.len() {
        if let Some(k) = slot_named(l.fields, fields[i].0.name, 0) {
            let off = l.fields[k].offset;
            let kind = l.fields[k].kind;
            lemma_emit_field(w, g, open, off, kind, fields[i].1);
            if let Ok(g1) = emit_field(w, g, off, kind, fields[i].1) {
                lemma_emit_fields(w, g1, open, l, fields, i + 1);
            }
        }
    }
}

proof fn lemma_emit(
    w: World,
    g: Gen,
    open: Set<int>,
    name: Seq<char>,
    fields: Seq<(tree::Ident, tree::Expr)>,
)
    requires
        shaped(g, open),
    ensures
        keeps(g, open, emit(w, g, name, fields)),
{
    broadcast use group_steps;

    reveal(emit);
    if let Ok(l) = chosen(w, g, name) {
        let lost = g.out.labels.len() as int;
        let g0 = Gen { event: Some(l), ..g };
        lemma_reset(g, open, g, open, g0);
        lemma_fresh(g0, open);
        if let Ok(g1) = fresh(g0) {
            let open1 = open.insert(lost);
            let r = reserve(g1, l.size, lost);
            assert(shaped(r, open1));
            lemma_emit_fields(w, r, open1, l, fields, 0);
            if let Ok(g2) = emit_fields(w, r, l, fields, 0) {
                assert(shaped(submit(g2), open1));
                lemma_bound(submit(g2), open1, lost);
                assert(open1.remove(lost) =~= open);
            }
        }
    }
}

proof fn lemma_tested(w: World, g: Gen, open: Set<int>, e: tree::Expr)
    requires
        shaped(g, open),
    ensures
        tested(w, g, e) matches Ok(h) ==> {
            &&& shaped(h, open.insert(g.out.labels.len() as int + 1))
            &&& h.peak >= g.peak
            &&& !open.contains(g.out.labels.len() as int + 1)
        },
{
    reveal(tested);
    let yes = g.out.labels.len() as int;
    if let Ok(g1) = fresh2(g) {
        lemma_fresh(g, open);
        let f1 = fresh(g)->Ok_0;
        let open1 = open.insert(yes);
        lemma_fresh(f1, open1);
        let open2 = open1.insert(yes + 1);
        lemma_branch(w, g1, open2, e, yes, yes + 1);
        if let Ok(g2) = branch(w, g1, e, yes, yes + 1) {
            lemma_bound(g2, open2, yes);
            assert(open2.remove(yes) =~= open.insert(yes + 1));
        }
    }
}

proof fn lemma_checked(w: World, g: Gen, open: Set<int>, p: tree::Pattern, e: tree::Expr)
    requires
        shaped(g, open),
    ensures
        checked(w, g, p, e) matches Ok(h) ==> {
            let no = h.out.labels.len() - 1;
            &&& shaped(h, open.insert(no))
            &&& h.peak >= g.peak
            &&& !open.contains(no)
        },
{
    broadcast use group_steps;

    reveal(checked);
    if let Some(x) = p.binding {
        lemma_value(w, g, open, e);
        if let Ok((g1, Value::Maybe(size))) = value(w, g, e) {
            lemma_grow(g1, open, 8);
            if let Ok(g2) = grow(g1, 8) {
                let no = g2.out.labels.len() as int;
                let kept = put(g2, store(Size::DW, Reg::R10, -(g2.depth as int), Reg::R0));
                assert(shaped(kept, open));
                lemma_fresh(kept, open);
                if let Ok(g3) = fresh(kept) {
                    let open1 = open.insert(no);
                    let g4 = jump(g3, if_num(JmpOp::Eq, Reg::R0, 0), no);
                    assert(shaped(g4, open1));
                    lemma_reset(
                        g4,
                        open1,
                        g4,
                        open1,
                        with(g4, x.name, Place::Ref(g2.depth, size)),
                    );
                }
            }
        }
    }
}

proof fn lemma_stmts(
    w: World,
    g: Gen,
    open: Set<int>,
    list: Seq<tree::Stmt>,
    i: int,
    end: int,
)
    requires
        shaped(g, open),
        open.contains(end),
    ensures
        keeps(g, open, stmts(w, g, list, i, end)),
    decreases list, list.len() - i,
{
    if 0 <= i < list.len() {
        lemma_stmt(w, g, open, list[i], end);
        if let Ok(g1) = stmt(w, g, list[i], end) {
            lemma_stmts(w, g1, open, list, i + 1, end);
        }
    }
}

proof fn lemma_block(w: World, g: Gen, open: Set<int>, b: tree::Block, end: int)
    requires
        shaped(g, open),
        open.contains(end),
    ensures
        keeps(g, open, block(w, g, b, end)),
    decreases b, 0int,
{
    lemma_stmts(w, g, open, b.stmts, 0, end);
    if let Ok(g1) = stmts(w, g, b.stmts, 0, end) {
        lemma_reset(g1, open, g, open, back(g1, g));
    }
}

proof fn lemma_otherwise(
    w: World,
    g: Gen,
    open: Set<int>,
    otherwise: Option<tree::Block>,
    no: int,
    end: int,
)
    requires
        shaped(g, open.insert(no)),
        !open.contains(no),
        open.contains(end),
    ensures
        keeps(g, open, otherwise_part(w, g, otherwise, no, end)),
    decreases otherwise, 1int,
{
    broadcast use group_steps;

    let open1 = open.insert(no);
    assert(open1.remove(no) =~= open);
    match otherwise {
        None => lemma_bound(g, open1, no),
        Some(b) => {
            let done = g.out.labels.len() as int;
            lemma_fresh(g, open1);
            lemma_open(g, open1, no);
            if let Ok(g1) = fresh(g) {
                let open2 = open1.insert(done);
                let g2 = jump(g1, always(), done);
                assert(shaped(g2, open2));
                lemma_bound(g2, open2, no);
                let open3 = open2.remove(no);
                lemma_block(w, bound(g2, no), open3, b, end);
                if let Ok(g3) = block(w, bound(g2, no), b, end) {
                    lemma_bound(g3, open3, done);
                    assert(open3.remove(done) =~= open);
                }
            }
        },
    }
}

proof fn lemma_unroll(
    w: World,
    g: Gen,
    open: Set<int>,
    var: Seq<char>,
    lo: int,
    hi: int,
    b: tree::Block,
    end: int,
)
    requires
        shaped(g, open),
        open.contains(end),
    ensures
        keeps(g, open, unroll(w, g, var, lo, hi, b, end)),
    decreases b, hi - lo,
{
    if lo < hi {
        let h = with(g, var, Place::Step(lo as u64));
        lemma_reset(g, open, g, open, h);
        lemma_block(w, h, open, b, end);
        if let Ok(g1) = block(w, h, b, end) {
            lemma_reset(g1, open, g, open, back(g1, g));
            lemma_unroll(w, back(g1, g), open, var, lo + 1, hi, b, end);
        }
    }
}

proof fn lemma_stmt(w: World, g: Gen, open: Set<int>, s: tree::Stmt, end: int)
    requires
        shaped(g, open),
        open.contains(end),
    ensures
        keeps(g, open, stmt(w, g, s, end)),
    decreases s, 0int,
{
    lemma_stmt_kind(w, g, open, s.kind, end);
}

proof fn lemma_stmt_kind(w: World, g: Gen, open: Set<int>, kind: tree::StmtKind, end: int)
    requires
        shaped(g, open),
        open.contains(end),
    ensures
        keeps(g, open, stmt_kind(w, g, kind, end)),
    decreases kind, 2int,
{
    broadcast use group_steps;

    match kind {
        tree::StmtKind::Let { name, ty, value: e, .. } => lemma_let(w, g, open, name.name, ty, e),
        tree::StmtKind::Assign { target, value: e } => lemma_assign(w, g, open, target, e),
        tree::StmtKind::If { cond, body: b, otherwise } => match cond {
            tree::Cond::Expr(e) => {
                let no = g.out.labels.len() as int + 1;
                lemma_tested(w, g, open, e);
                if let Ok(g1) = tested(w, g, e) {
                    lemma_block(w, g1, open.insert(no), b, end);
                    if let Ok(g2) = block(w, g1, b, end) {
                        lemma_otherwise(w, g2, open, otherwise, no, end);
                    }
                }
            },
            tree::Cond::Let { pattern, value: e } => {
                lemma_checked(w, g, open, pattern, e);
                if let Ok(g1) = checked(w, g, pattern, e) {
                    let no = g1.out.labels.len() - 1;
                    lemma_block(w, g1, open.insert(no), b, end);
                    if let Ok(g2) = block(w, g1, b, end) {
                        lemma_reset(g2, open.insert(no), g, open, back(g2, g));
                        lemma_otherwise(w, back(g2, g), open, otherwise, no, end);
                    }
                }
            },
        },
        tree::StmtKind::For { var, start, end: stop, body: b } => {
            let lo = const_of(g.vars, start);
            let hi = const_of(g.vars, stop);
            if let (Some(x), Some(y)) = (lo, hi) {
                lemma_unroll(w, g, open, var.name, x as int, y as int, b, end);
            }
        },
        tree::StmtKind::Emit { event, fields } => lemma_emit(w, g, open, event.name, fields),
        tree::StmtKind::Return(_) => {},
        tree::StmtKind::Expr(e) => lemma_expr_stmt(w, g, open, e),
    }
}

// ---------------------------------------------------------------- the laws

/// What every compiled program is like.
pub open spec fn well_shaped(g: Gen) -> bool {
    let n = g.out.code.len() as int;
    &&& n >= 3
    &&& g.out.code[0] == store(Size::DW, Reg::R10, -8, Reg::R1)
    &&& g.out.code[n - 2] == set_num(Reg::R0, 0)
    &&& g.out.code[n - 1] == leave()
    &&& forall|i: int| 0 <= i < g.out.jumps.len() ==> lands_ahead(g.out, #[trigger] g.out.jumps[i])
    &&& g.peak <= STACK_BYTES
    &&& g.peak % 8 == 0
}

/// The label of the jump stands behind the jump, before the last two
/// instructions at the latest.
pub open spec fn lands_ahead(a: Asm, j: (int, int)) -> bool {
    &&& 0 <= j.0 < a.code.len()
    &&& 0 <= j.1 < a.labels.len()
    &&& a.labels[j.1] matches Some(at) && j.0 < at <= a.code.len() - 2
}

/// Whatever compiles keeps the context first, ends with `r0 = 0; exit`, only
/// ever jumps forward and inside the code, and uses whole slots within the
/// limit of the stack.
pub proof fn lemma_lowered_is_well_shaped(p: tree::Program)
    ensures
        lowered(p) matches Ok(l) ==> well_shaped(l.state),
{
    broadcast use group_steps;

    if let Ok(l) = lowered(p) {
        let d = l.declared;
        let w = World { tables: d.tables, events: d.events };
        let g = entry(d.vars);
        let open = Set::<int>::empty().insert(0);
        assert(shaped(g, open)) by {
            reveal(shaped);
        }
        lemma_block(w, g, open, l.probe.body, 0);
        let g1 = block(w, g, l.probe.body, 0)->Ok_0;
        lemma_bound(g1, open, 0);
        let g2 = bound(g1, 0);
        let none = open.remove(0);
        let g3 = put(put(g2, set_num(Reg::R0, 0)), leave());
        assert(shaped(g3, none));
        assert(g3 == l.state);
        reveal(shaped);
        assert forall|i: int| 0 <= i < g3.out.jumps.len() implies lands_ahead(
            g3.out,
            #[trigger] g3.out.jumps[i],
        ) by {
            let j = g3.out.jumps[i];
            assert(goes_forward(g3.out, j));
            assert(goes_forward(g2.out, g2.out.jumps[i]));
            assert(g3.out.labels[j.1] is None <==> none.contains(j.1));
        }
    }
}

/// In a compiled program no jump goes back, so the code always ends; and the
/// only thing that can be wrong with a jump is that it would go too far.
pub proof fn lemma_no_jump_goes_back(p: tree::Program)
    ensures
        lowered(p) matches Ok(l) ==> forall|i: int|
            0 <= i < l.state.out.jumps.len() ==> {
                &&& #[trigger] distance(l.state.out, i) >= 0
                &&& jump_fault(l.state.out, i) is Some <==> distance(l.state.out, i) > i16::MAX
            },
{
    lemma_lowered_is_well_shaped(p);
    if let Ok(l) = lowered(p) {
        let a = l.state.out;
        assert forall|i: int| 0 <= i < a.jumps.len() implies {
            &&& #[trigger] distance(a, i) >= 0
            &&& jump_fault(a, i) is Some <==> distance(a, i) > i16::MAX
        } by {
            assert(lands_ahead(a, a.jumps[i]));
            lemma_slot_at_monotone(a.code, a.jumps[i].0, a.labels[a.jumps[i].1]->0);
        }
    }
}

// ------------------------------------------------------------ what is emitted

/// Every field of a record is set once, and nothing else is.
pub open spec fn sets_every_slot_once(l: Layout, fields: Seq<(tree::Ident, tree::Expr)>) -> bool {
    &&& fields.len() == l.fields.len()
    &&& forall|i: int| 0 <= i < fields.len() ==> !given(fields, i, (#[trigger] fields[i]).0.name)
    &&& forall|k: int|
        0 <= k < l.fields.len() ==> given(
            fields,
            fields.len() as int,
            (#[trigger] l.fields[k]).name,
        )
}

proof fn lemma_slot_named(list: Seq<Slot>, name: Seq<char>, i: int)
    requires
        0 <= i,
    ensures
        slot_named(list, name, i) matches Some(k) ==> i <= k < list.len() && list[k].name == name,
    decreases list.len() - i,
{
    if i < list.len() && list[i].name != name {
        lemma_slot_named(list, name, i + 1);
    }
}

proof fn lemma_emitted_once(
    w: World,
    g: Gen,
    l: Layout,
    fields: Seq<(tree::Ident, tree::Expr)>,
    i: int,
)
    requires
        0 <= i,
        emit_fields(w, g, l, fields, i) is Ok,
    ensures
        forall|j: int|
            i <= j < fields.len() ==> !given(fields, j, (#[trigger] fields[j]).0.name)
                && slot_named(l.fields, fields[j].0.name, 0) is Some,
    decreases fields.len() - i,
{
    reveal(emit_fields);
    if i < fields.len() {
        if let Some(k) = slot_named(l.fields, fields[i].0.name, 0) {
            let g1 = emit_field(w, g, l.fields[k].offset, l.fields[k].kind, fields[i].1);
            lemma_emitted_once(w, g1->Ok_0, l, fields, i + 1);
        }
    }
}

/// Whatever compiles sets every field of the event exactly once, so no byte of
/// a field is left as it was in the ring buffer.
pub proof fn lemma_emit_sets_every_slot_once(
    w: World,
    g: Gen,
    name: Seq<char>,
    fields: Seq<(tree::Ident, tree::Expr)>,
)
    requires
        emit(w, g, name, fields) is Ok,
    ensures
        chosen(w, g, name) matches Ok(l) && sets_every_slot_once(l, fields),
{
    reveal(emit);
    let l = chosen(w, g, name)->Ok_0;
    let n = fields.len() as int;
    let lost = g.out.labels.len() as int;
    let g1 = fresh(Gen { event: Some(l), ..g })->Ok_0;
    lemma_emitted_once(w, reserve(g1, l.size, lost), l, fields, 0);
    let at = |j: int| slot_named(l.fields, fields[j].0.name, 0)->0;
    let all = vstd::set_lib::set_int_range(0, n);
    let hit = all.map(at);
    vstd::set_lib::lemma_int_range(0, n);
    assert forall|j: int| 0 <= j < n implies 0 <= #[trigger] at(j) < n && l.fields[at(j)].name
        == fields[j].0.name by {
        assert(!given(fields, j, fields[j].0.name));
        lemma_slot_named(l.fields, fields[j].0.name, 0);
    }
    assert(vstd::relations::injective_on(at, all)) by {
        assert forall|x: int, y: int| all.contains(x) && all.contains(y) && #[trigger] at(x)
            == #[trigger] at(y) implies x == y by {
            assert(!given(fields, x, fields[x].0.name));
            assert(!given(fields, y, fields[y].0.name));
        }
    }
    vstd::set_lib::lemma_map_size(all, hit, at);
    assert(hit.subset_of(all));
    vstd::set_lib::lemma_subset_equality(hit, all);
    assert forall|k: int| 0 <= k < l.fields.len() implies given(
        fields,
        n,
        (#[trigger] l.fields[k]).name,
    ) by {
        assert(hit.contains(k));
        let j = choose|j: int| all.contains(j) && at(j) == k;
        assert(fields[j].0.name == l.fields[k].name);
    }
}

/// A result of arithmetic that is narrower than a register is cut to its width
/// right behind the operation.
pub proof fn lemma_narrow_results_are_masked(w: World, g: Gen, e: tree::Expr)
    requires
        !is_logic(e),
        e.kind is Binary || (e.kind matches tree::ExprKind::Unary { op, .. } && op
            != UnaryOp::Deref),
    ensures
        value(w, g, e) matches Ok((h, _)) ==> match width_of(g.vars, e) {
            Some(Size::B) => h.out.code.last() == alu(AluOp::And, Reg::R0, 0xff),
            Some(Size::H) => h.out.code.last() == alu(AluOp::And, Reg::R0, 0xffff),
            Some(Size::W) => h.out.code.last() == keep_low(Reg::R0),
            _ => true,
        },
{
}

// ----------------------------------------------------- a program of one emit

/// The first event of a name among the items from `i` on.
pub open spec fn first_event(items: Seq<tree::Item>, name: Seq<char>, i: int) -> Option<
    tree::EventDecl,
>
    decreases items.len() - i,
{
    if 0 <= i < items.len() {
        match items[i] {
            tree::Item::Event(e) => if e.name.name == name {
                Some(e)
            } else {
                first_event(items, name, i + 1)
            },
            _ => first_event(items, name, i + 1),
        }
    } else {
        None
    }
}

/// The first of two lists of events that has the name.
proof fn lemma_event_at_push(
    events: Seq<tree::EventDecl>,
    e: tree::EventDecl,
    name: Seq<char>,
    i: int,
)
    requires
        0 <= i <= events.len(),
    ensures
        event_at(events, name, i) matches Some(k) ==> i <= k < events.len() && event_at(
            events.push(e),
            name,
            i,
        ) == Some(k),
        event_at(events, name, i) is None ==> event_at(events.push(e), name, i) == (if e.name.name
            == name {
            Some(events.len() as int)
        } else {
            None
        }),
    decreases events.len() - i,
{
    if i < events.len() {
        if events[i].name.name != name {
            lemma_event_at_push(events, e, name, i + 1);
        }
    } else {
        reveal_with_fuel(event_at, 3);
    }
}

proof fn lemma_declared(d: Declared, items: Seq<tree::Item>, i: int, name: Seq<char>)
    requires
        0 <= i,
        declare(d, items, i) is Ok,
    ensures
        ({
            let r = declare(d, items, i)->Ok_0;
            &&& match event_at(d.events, name, 0) {
                Some(k) => event_at(r.events, name, 0) == Some(k) && 0 <= k < d.events.len()
                    && k < r.events.len() && r.events[k] == d.events[k],
                None => match first_event(items, name, i) {
                    Some(e) => event_at(r.events, name, 0) matches Some(k) && 0 <= k
                        < r.events.len() && r.events[k] == e,
                    None => event_at(r.events, name, 0) is None,
                },
            }
            &&& d.events.len() <= r.events.len()
            &&& d.probe is Some ==> r.probe == d.probe && forall|j: int|
                i <= j < items.len() ==> !((#[trigger] items[j]) is Probe)
            &&& d.probe is None ==> (r.probe matches Some(p) ==> exists|j: int|
                i <= j < items.len() && #[trigger] items[j] == tree::Item::Probe(p))
        }),
    decreases items.len() - i,
{
    if i < items.len() {
        match items[i] {
            tree::Item::Event(e) => {
                lemma_event_at_push(d.events, e, name, 0);
                let d1 = Declared { events: d.events.push(e), ..d };
                lemma_declared(d1, items, i + 1, name);
            },
            tree::Item::Probe(p) => {
                let d1 = Declared { probe: Some(p), ..d };
                lemma_declared(d1, items, i + 1, name);
            },
            tree::Item::Const(c) => {
                let n = literal_of(c.value)->0;
                let d1 = Declared {
                    vars: d.vars.push(
                        Var { name: c.name.name, place: Place::Const(n, declared_size(c.ty)) },
                    ),
                    ..d
                };
                lemma_declared(d1, items, i + 1, name);
            },
            tree::Item::MapDecl(m) => {
                let d1 = Declared { tables: d.tables.push(table(m)->Ok_0), ..d };
                lemma_declared(d1, items, i + 1, name);
            },
        }
        assert(items[i] == items[i]);
    }
    lemma_event_in(d.events, name, 0);
}

proof fn lemma_event_in(events: Seq<tree::EventDecl>, name: Seq<char>, i: int)
    requires
        0 <= i,
    ensures
        event_at(events, name, i) matches Some(k) ==> i <= k < events.len(),
    decreases events.len() - i,
{
    if i < events.len() && events[i].name.name != name {
        lemma_event_in(events, name, i + 1);
    }
}

/// A compiled program whose probe emits once carries the two strings of the
/// probe, and the layout of the first event of the name that it emits.
pub proof fn lemma_one_emit(
    p: tree::Program,
    probe: tree::ProbeDecl,
    event: tree::Ident,
    fields: Seq<(tree::Ident, tree::Expr)>,
)
    requires
        p.items.contains(tree::Item::Probe(probe)),
        probe.body.stmts.len() == 1,
        probe.body.stmts[0].kind == (tree::StmtKind::Emit { event, fields }),
    ensures
        lowered(p) matches Ok(l) ==> {
            &&& l.probe == probe
            &&& l.probe.args.len() == 2
            &&& first_event(p.items, event.name, 0) matches Some(e) && layout_fits(e) && held(
                e.fields,
                e.fields.len() as int,
            ) && l.event == layout_of(e)
        },
{
    if let Ok(l) = lowered(p) {
        let none = Declared {
            vars: Seq::empty(),
            tables: Seq::empty(),
            events: Seq::empty(),
            probe: None,
        };
        let d = declare(none, p.items, 0)->Ok_0;
        lemma_declared(none, p.items, 0, event.name);
        lemma_only_probe(none, p.items, 0, probe);
        let w = World { tables: d.tables, events: d.events };
        let g = entry(d.vars);
        let g1 = block(w, g, probe.body, 0)->Ok_0;
        reveal_with_fuel(stmts, 2);
        assert(stmt(w, g, probe.body.stmts[0], 0) == emit(w, g, event.name, fields));
        assert(emit(w, g, event.name, fields) is Ok);
        let open = Set::<int>::empty().insert(0);
        assert(shaped(g, open)) by {
            reveal(shaped);
        }
        lemma_emit_event(w, g, open, event.name, fields);
        reveal(chosen);
        reveal(event_layout);
    }
}

proof fn lemma_only_probe(
    d: Declared,
    items: Seq<tree::Item>,
    i: int,
    probe: tree::ProbeDecl,
)
    requires
        0 <= i,
        declare(d, items, i) is Ok,
        exists|j: int| i <= j < items.len() && #[trigger] items[j] == tree::Item::Probe(probe),
    ensures
        d.probe is None,
        declare(d, items, i)->Ok_0.probe == Some(probe),
    decreases items.len() - i,
{
    let j = choose|j: int|
        i <= j < items.len() && #[trigger] items[j] == tree::Item::Probe(probe);
    if i < items.len() {
        match items[i] {
            tree::Item::Event(e) => {
                lemma_only_probe(
                    Declared { events: d.events.push(e), ..d },
                    items,
                    i + 1,
                    probe,
                );
            },
            tree::Item::Probe(p) => {
                let d1 = Declared { probe: Some(p), ..d };
                lemma_declared(d1, items, i + 1, Seq::empty());
                assert(j == i);
            },
            tree::Item::Const(c) => {
                let n = literal_of(c.value)->0;
                let d1 = Declared {
                    vars: d.vars.push(
                        Var { name: c.name.name, place: Place::Const(n, declared_size(c.ty)) },
                    ),
                    ..d
                };
                lemma_only_probe(d1, items, i + 1, probe);
            },
            tree::Item::MapDecl(m) => {
                let d1 = Declared { tables: d.tables.push(table(m)->Ok_0), ..d };
                lemma_only_probe(d1, items, i + 1, probe);
            },
        }
    }
}

/// What is emitted is the chosen event.
proof fn lemma_emit_event(
    w: World,
    g: Gen,
    open: Set<int>,
    name: Seq<char>,
    fields: Seq<(tree::Ident, tree::Expr)>,
)
    requires
        shaped(g, open),
    ensures
        emit(w, g, name, fields) matches Ok(h) ==> chosen(w, g, name) is Ok && h.event == Some(
            chosen(w, g, name)->Ok_0,
        ),
{
    broadcast use group_steps;

    reveal(emit);
    if let Ok(l) = chosen(w, g, name) {
        let lost = g.out.labels.len() as int;
        let g0 = Gen { event: Some(l), ..g };
        lemma_reset(g, open, g, open, g0);
        lemma_fresh(g0, open);
        if let Ok(g1) = fresh(g0) {
            let r = reserve(g1, l.size, lost);
            assert(shaped(r, open.insert(lost)));
            lemma_emit_fields(w, r, open.insert(lost), l, fields, 0);
        }
    }
}

/// Bytes that are whole slots, the last two of which are `r0 = 0; exit`.
pub open spec fn ends_with_exit(b: Seq<u8>) -> bool {
    &&& b.len() % 8 == 0
    &&& b.len() >= 16
    &&& b.subrange(b.len() - 16, b.len() as int) == insn_bytes(set_num(Reg::R0, 0)) + insn_bytes(
        leave(),
    )
}

/// The bytes of a compiled program are whole instructions, and the last two
/// are `r0 = 0; exit`.
pub proof fn lemma_code_ends_with_exit(p: tree::Program)
    ensures
        lowered(p) matches Ok(l) ==> (assembled(l.state.out) matches Ok(b) ==> ends_with_exit(b)),
{
    if let Ok(l) = lowered(p) {
        let a = l.state.out;
        if let Ok(code) = resolved(a) {
            lemma_lowered_is_well_shaped(p);
            let n = a.code.len() as int;
            let b = code_bytes(code, n);
            assert forall|i: int| 0 <= i < a.jumps.len() implies 0 <= (#[trigger] a.jumps[i]).0 < n
                - 2 by {
                assert(lands_ahead(a, a.jumps[i]));
            }
            lemma_resolved_elsewhere(a, n - 2);
            lemma_resolved_elsewhere(a, n - 1);
            lemma_code_bytes(code, n - 2, n);
            lemma_code_bytes(code, n - 1, n);
            let first = insn_bytes(set_num(Reg::R0, 0));
            let last = insn_bytes(leave());
            let end = b.len() as int;
            assert(first.len() == 8 && last.len() == 8);
            assert(b.subrange(end - 16, end - 8) == first);
            assert(b.subrange(end - 8, end) == last);
            assert(b.subrange(end - 16, end) =~= b.subrange(end - 16, end - 8) + b.subrange(
                end - 8,
                end,
            ));
        }
    }
}

} // verus!
