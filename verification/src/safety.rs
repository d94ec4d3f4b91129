//! What the type checker promises of a program that it accepts.
//!
//! Each law is a rule of the kernel's verifier, moved to compile time: loops
//! are bounded, a map lookup is checked before it is read, a checked pointer
//! does not leave its `if`, reads and accesses stay in bounds, and the stack
//! fits.

use crate::ast::UnaryOp;
use crate::btf::Kernel;
use crate::order::lemma_iterations_are_checked_alone;
use crate::rules::{
    alone, arg_builtin, assign, binary, block, bound_type, byte_at_method, byte_len, call,
    compatible, const_eval, const_eval_global, declare, declare_items, declared_type, emit,
    emit_field, emit_fields, expr, for_entry, given, has_probe, heard, heard_konst, if_entry,
    if_let_entry, in_loop, is_call_to, is_int, is_return_probe, iterations, let_ptr, let_read,
    let_stmt, let_value, local_in, lookup, method, missing_fields, none, note, only_if, packet_read,
    pop_scope, probe, probe_entry, probes, program, ptr_target, push_scope, put, read_arg, reader,
    say, side, sort_of, spoken, stack_bytes, start, starts_with_method, stmt, stmts, total, unsaid,
    valueless, Env, Frame, Local, Note, Out, ProbeKind, Report, Sort, State,
};
use crate::token::Span;
use crate::tree;
use crate::typing::{lemma_checker_finds_types, takes, typed};
use vstd::prelude::*;

verus! {

/// One list of notes goes on another.
pub open spec fn goes_on(a: Seq<Note>, b: Seq<Note>) -> bool {
    &&& a.len() <= b.len()
    &&& forall|i: int| 0 <= i < a.len() ==> #[trigger] b[i] == a[i]
}

/// The same declarations, whatever the locals.
pub open spec fn same_world(a: Env, b: Env) -> bool {
    &&& a.kernel == b.kernel
    &&& a.consts == b.consts
    &&& a.maps == b.maps
    &&& a.events == b.events
    &&& a.probe == b.probe
}

/// Checking went on from `s` to `t`: no note was lost, the peak did not sink,
/// and nothing but the innermost scope changed.
pub open spec fn follows(s: State, t: State) -> bool {
    &&& goes_on(s.notes, t.notes)
    &&& t.peak >= s.peak
    &&& same_world(s.env, t.env)
    &&& t.env.scopes.len() == s.env.scopes.len()
    &&& t.env.scopes.drop_last() == s.env.scopes.drop_last()
}

/// The locals in scope fit in the peak, and all of it is whole slots of eight
/// bytes.
pub open spec fn covered(s: State) -> bool {
    &&& total(s.env.scopes) <= s.peak
    &&& s.peak % 8 == 0
    &&& forall|i: int|
        0 <= i < s.env.scopes.len() ==> (#[trigger] s.env.scopes[i]).bytes % 8 == 0
}

proof fn lemma_total_slots(scopes: Seq<Frame>)
    requires
        forall|i: int| 0 <= i < scopes.len() ==> (#[trigger] scopes[i]).bytes % 8 == 0,
    ensures
        total(scopes) % 8 == 0,
    decreases scopes.len(),
{
    if scopes.len() > 0 {
        assert forall|i: int| 0 <= i < scopes.len() - 1 implies (
        #[trigger] scopes.drop_last()[i]).bytes % 8 == 0 by {
            assert(scopes[i] == scopes.drop_last()[i]);
        }
        lemma_total_slots(scopes.drop_last());
        assert(scopes[scopes.len() - 1].bytes % 8 == 0);
    }
}

// ----------------------------------------------------------- the statements

proof fn lemma_follows_trans(a: State, b: State, c: State)
    requires
        follows(a, b),
        follows(b, c),
    ensures
        follows(a, c),
{
    assert forall|i: int| 0 <= i < a.notes.len() implies #[trigger] c.notes[i] == a.notes[i] by {
        assert(b.notes[i] == a.notes[i]);
    }
}

proof fn lemma_put(s: State, name: Seq<char>, x: Local, bytes: nat)
    requires
        s.env.scopes.len() > 0,
        bytes % 8 == 0,
    ensures
        follows(s, put(s, name, x, bytes)),
        covered(s) ==> covered(put(s, name, x, bytes)),
{
    if covered(s) {
        lemma_total_slots(s.env.scopes);
        assert(s.env.scopes[s.env.scopes.len() - 1].bytes % 8 == 0);
    }
    let t = put(s, name, x, bytes);
    assert(t.env.scopes.drop_last() =~= s.env.scopes.drop_last());
    assert(total(t.env.scopes) == total(s.env.scopes) + bytes);
}

proof fn lemma_heard(s: State, o: Out)
    ensures
        follows(s, heard(s, o)),
        covered(s) ==> covered(heard(s, o)),
{
}

proof fn lemma_say(s: State, notes: Seq<Note>)
    ensures
        follows(s, say(s, notes)),
        covered(s) ==> covered(say(s, notes)),
{
}

/// Checking the value that a string is read from.
proof fn lemma_read_arg(s: State, value: tree::Expr, fname: Seq<char>, kernel: bool)
    ensures
        follows(s, read_arg(s, value, fname, kernel)),
        covered(s) ==> covered(read_arg(s, value, fname, kernel)),
{
    if let tree::ExprKind::Call { args, .. } = value.kind {
        if args.len() == 1 {
            lemma_heard(s, expr(s.env, args[0]));
        }
    }
}

proof fn lemma_let(
    s: State,
    mutable: bool,
    name: Seq<char>,
    ty: Option<tree::Type>,
    value: tree::Expr,
)
    requires
        s.env.scopes.len() > 0,
    ensures
        follows(s, let_stmt(s, mutable, name, ty, value)),
        covered(s) ==> covered(let_stmt(s, mutable, name, ty, value)),
{
    match reader(value) {
        Some((fname, kernel)) => match ty {
            None => {
                let t = State {
                    notes: let_read(s, mutable, name, ty, value, fname, kernel).notes,
                    ..s
                };
                lemma_put(
                    t,
                    name,
                    Local { ty: Sort::Unit, mutable, konst: None },
                    stack_bytes(Sort::Unit),
                );
                lemma_follows_trans(s, t, let_read(s, mutable, name, ty, value, fname, kernel));
            },
            Some(t) => {
                if let Ok(declared) = sort_of(t) {
                    if declared is Str {
                        let s1 = read_arg(s, value, fname, kernel);
                        lemma_read_arg(s, value, fname, kernel);
                        lemma_put(
                            s1,
                            name,
                            Local { ty: declared, mutable, konst: None },
                            stack_bytes(declared),
                        );
                        lemma_follows_trans(s, s1, declare(s1, name, declared, mutable));
                    }
                }
            },
        },
        None => match ty {
            Some(t) if t.name.name == "ptr"@ => lemma_let_ptr(s, mutable, name, t, value),
            _ => lemma_let_value(s, mutable, name, ty, value),
        },
    }
}

proof fn lemma_let_ptr(
    s: State,
    mutable: bool,
    name: Seq<char>,
    t: tree::Type,
    value: tree::Expr,
)
    requires
        s.env.scopes.len() > 0,
    ensures
        follows(s, let_ptr(s, mutable, name, t, value)),
        covered(s) ==> covered(let_ptr(s, mutable, name, t, value)),
{
    let after = let_ptr(s, mutable, name, t, value);
    let (target, notes) = ptr_target(s.env, t);
    let o = expr(s.env, value);
    let ty = match target {
        Some(struct_name) => Sort::KPtr(struct_name),
        None => Sort::Unit,
    };
    let s1 = State { notes: after.notes, ok: s.ok && o.ok, ..s };
    lemma_put(s1, name, Local { ty, mutable, konst: None }, stack_bytes(ty));
    lemma_follows_trans(s, s1, after);
}

proof fn lemma_let_value(
    s: State,
    mutable: bool,
    name: Seq<char>,
    ty: Option<tree::Type>,
    value: tree::Expr,
)
    requires
        s.env.scopes.len() > 0,
    ensures
        follows(s, let_value(s, mutable, name, ty, value)),
        covered(s) ==> covered(let_value(s, mutable, name, ty, value)),
{
    let after = let_value(s, mutable, name, ty, value);
    let o = expr(s.env, value);
    let (bound, notes) = bound_type(ty, value, o);
    let s1 = State { notes: after.notes, ok: s.ok && o.ok, ..s };
    lemma_put(s1, name, Local { ty: bound, mutable, konst: None }, stack_bytes(bound));
    lemma_follows_trans(s, s1, after);
}

proof fn lemma_emit_fields(
    s: State,
    event: Seq<char>,
    declared: Seq<(Seq<char>, Sort)>,
    fields: Seq<(tree::Ident, tree::Expr)>,
    i: int,
)
    ensures
        follows(s, emit_fields(s, event, declared, fields, i)),
        covered(s) ==> covered(emit_fields(s, event, declared, fields, i)),
    decreases fields.len() - i,
{
    if 0 <= i < fields.len() && s.ok {
        let s1 = heard(s, emit_field(s.env, event, declared, fields, i));
        lemma_heard(s, emit_field(s.env, event, declared, fields, i));
        lemma_emit_fields(s1, event, declared, fields, i + 1);
        lemma_follows_trans(s, s1, emit_fields(s1, event, declared, fields, i + 1));
    }
}

/// A scope that was opened and closed again, with anything in it.
pub proof fn lemma_closed(s: State, inner: State, after: State)
    requires
        goes_on(s.notes, inner.notes),
        inner.peak >= s.peak,
        same_world(s.env, inner.env),
        inner.env.scopes.len() == s.env.scopes.len() + 1,
        inner.env.scopes.drop_last() == s.env.scopes,
        follows(inner, after),
        covered(s),
        covered(after),
    ensures
        follows(s, pop_scope(after)),
        pop_scope(after).env.scopes == s.env.scopes,
        covered(pop_scope(after)),
{
    assert forall|i: int| 0 <= i < s.notes.len() implies #[trigger] after.notes[i] == s.notes[i] by {
        assert(inner.notes[i] == s.notes[i]);
    }
}

/// Entering an `if` opens one scope.
pub proof fn lemma_if_entry(s: State, c: tree::Cond)
    requires
        covered(s),
    ensures
        ({
            let t = if_entry(s, c);
            &&& goes_on(s.notes, t.notes)
            &&& t.peak >= s.peak
            &&& same_world(s.env, t.env)
            &&& t.env.scopes.len() == s.env.scopes.len() + 1
            &&& t.env.scopes.drop_last() == s.env.scopes
            &&& covered(t)
        }),
{
    let t = if_entry(s, c);
    match c {
        tree::Cond::Expr(e) => {
            assert(t.env.scopes.drop_last() =~= s.env.scopes);
        },
        tree::Cond::Let { pattern, value } => {
            let o = expr(s.env, value);
            let s1 = push_scope(heard(s, o));
            assert(s1.env.scopes.drop_last() =~= s.env.scopes);
            if let Sort::Option(inner) = o.ty {
                if let Some(b) = pattern.binding {
                    let x = Local { ty: Sort::Ref(inner), mutable: false, konst: None };
                    lemma_put(s1, b.name, x, stack_bytes(Sort::Ref(inner)));
                }
            }
        },
    }
}

/// Nothing that is checked loses a note, lowers the peak or touches an outer
/// scope, and the locals always fit in the peak.
pub proof fn lemma_stmt_follows(s: State, x: tree::Stmt)
    requires
        s.env.scopes.len() > 0,
        covered(s),
    ensures
        follows(s, stmt(s, x)),
        covered(stmt(s, x)),
    decreases x, 0int,
{
    match x.kind {
        tree::StmtKind::Let { mutable, name, ty, value } => {
            lemma_let(s, mutable, name.name, ty, value)
        },
        tree::StmtKind::Assign { target, value } => {
            if let tree::ExprKind::Ident(n) = target.kind {
                if let Some(x) = lookup(s.env.scopes, n) {
                    assert(assign(s, target, value).env == s.env);
                }
            }
        },
        tree::StmtKind::If { cond, body, otherwise } => {
            lemma_if_entry(s, cond);
            let inner = if_entry(s, cond);
            lemma_block_follows(inner, body);
            lemma_closed(s, inner, block(inner, body));
            let s1 = pop_scope(block(inner, body));
            if let Some(b) = otherwise {
                let again = push_scope(s1);
                assert(again.env.scopes.drop_last() =~= s1.env.scopes);
                lemma_block_follows(again, b);
                lemma_closed(s1, again, block(again, b));
                lemma_follows_trans(s, s1, pop_scope(block(again, b)));
            }
        },
        tree::StmtKind::For { var, start, end, body } => {
            let a = const_eval(s.env, start);
            let b = const_eval(s.env, end);
            let s1 = heard_konst(heard_konst(s, a), b);
            if let (Some(lo), Some(hi)) = (a.value, b.value) {
                let (s2, range) = for_entry(s, start, end);
                lemma_iterations_follow(
                    s2,
                    none(),
                    var.name,
                    range->Some_0.0 as int,
                    range->Some_0.1 as int,
                    body,
                );
                lemma_follows_trans(s, s2, stmt(s, x));
            }
        },
        tree::StmtKind::Emit { event, fields } => {
            if s.env.events.contains_key(event.name) {
                let declared = s.env.events[event.name];
                let s1 = emit_fields(s, event.name, declared, fields, 0);
                lemma_emit_fields(s, event.name, declared, fields, 0);
                let rest = missing_fields(event.name, declared, fields, x.span, 0);
                lemma_say(s1, rest);
                lemma_follows_trans(s, s1, say(s1, rest));
            }
        },
        tree::StmtKind::Return(_) => {},
        tree::StmtKind::Expr(e) => {
            lemma_heard(s, expr(s.env, e));
        },
    }
}

/// A loop leaves the scopes as they were.
pub proof fn lemma_iterations_follow(
    s: State,
    said: Seq<Note>,
    var: Seq<char>,
    k: int,
    hi: int,
    body: tree::Block,
)
    requires
        s.env.scopes.len() > 0,
        covered(s),
    ensures
        follows(s, iterations(s, said, var, k, hi, body)),
        covered(iterations(s, said, var, k, hi, body)),
        iterations(s, said, var, k, hi, body).env.scopes == s.env.scopes,
    decreases
            body,
            if k < hi {
                hi - k
            } else {
                0
            } + 2,
{
    let r = alone(s, var, k, body);
    let new = unsaid(said, r.notes);
    let t = State { notes: s.notes + new, ..r };
    lemma_iteration_follows(s, var, k, body);
    lemma_iterations_are_checked_alone(s, var, k, body);
    assert(follows(s, t));
    if k + 1 < hi && r.ok {
        lemma_iterations_follow(t, said + new, var, k + 1, hi, body);
        lemma_follows_trans(s, t, iterations(t, said + new, var, k + 1, hi, body));
    }
}

/// So does one iteration.
pub proof fn lemma_iteration_follows(s: State, var: Seq<char>, k: int, body: tree::Block)
    requires
        s.env.scopes.len() > 0,
        covered(s),
    ensures
        follows(s, pop_scope(block(in_loop(s, var, k), body))),
        covered(pop_scope(block(in_loop(s, var, k), body))),
        pop_scope(block(in_loop(s, var, k), body)).env == s.env,
        follows(in_loop(s, var, k), block(in_loop(s, var, k), body)),
        in_loop(s, var, k).notes == s.notes,
        in_loop(s, var, k).env.scopes.len() > 0,
        covered(in_loop(s, var, k)),
    decreases body, 1int,
{
    let s1 = push_scope(s);
    assert(s1.env.scopes.drop_last() =~= s.env.scopes);
    let x = Local { ty: Sort::U64, mutable: false, konst: Some(k as i64) };
    lemma_put(s1, var, x, 0);
    let inner = in_loop(s, var, k);
    lemma_block_follows(inner, body);
    lemma_closed(s, inner, block(inner, body));
}

pub proof fn lemma_stmts_follow(s: State, list: Seq<tree::Stmt>, i: int)
    requires
        s.env.scopes.len() > 0,
        covered(s),
    ensures
        follows(s, stmts(s, list, i)),
        covered(stmts(s, list, i)),
    decreases list, list.len() - i,
{
    if 0 <= i < list.len() && s.ok {
        let s1 = stmt(s, list[i]);
        lemma_stmt_follows(s, list[i]);
        lemma_stmts_follow(s1, list, i + 1);
        lemma_follows_trans(s, s1, stmts(s1, list, i + 1));
    }
}

pub proof fn lemma_block_follows(s: State, b: tree::Block)
    requires
        s.env.scopes.len() > 0,
        covered(s),
    ensures
        follows(s, block(s, b)),
        covered(block(s, b)),
    decreases b, 0int,
{
    lemma_stmts_follow(s, b.stmts, 0);
}

// ----------------------------------------------------------------- the laws

/// Reading through a pointer gets no note only where the pointer was checked:
/// its type is `&V`, and what is read is a `V`. (A call that has no value at
/// all gives nothing to read, and nothing is said of it.)
pub proof fn lemma_only_checked_pointers_are_read(v: Env, e: tree::Expr)
    requires
        e.kind matches tree::ExprKind::Unary { op: UnaryOp::Deref, .. },
        expr(v, e).notes.len() == 0,
    ensures
        ({
            let p = expr(v, *e.kind->Unary_expr).ty;
            ||| p matches Sort::Ref(t) && expr(v, e).ty == *t
            ||| p is Unit
        }),
{
}

/// A map lookup is an `Option<&V>`, so it cannot be read as it is.
pub proof fn lemma_lookup_may_find_nothing(v: Env, e: tree::Expr)
    requires
        ({
            &&& e.kind matches tree::ExprKind::MethodCall { receiver, method, args }
            &&& receiver.kind matches tree::ExprKind::Ident(name)
            &&& lookup(v.scopes, name) is None
            &&& v.maps.contains_key(name)
            &&& name != "pkt"@
            &&& method.name == "get"@
            &&& args.len() == 1
        }),
    ensures
        ({
            let name = e.kind->MethodCall_receiver.kind->Ident_0;
            expr(v, e).ty == Sort::Option(Box::new(v.maps[name].1))
        }),
{
    assert(expr(v, e) == method(v, e));
}

/// Reading a map lookup without a check is always noted.
pub proof fn lemma_unchecked_lookups_are_noted(v: Env, e: tree::Expr, lookup_expr: tree::Expr)
    requires
        e.kind == (tree::ExprKind::Unary { op: UnaryOp::Deref, expr: Box::new(lookup_expr) }),
        expr(v, lookup_expr).ty is Option,
    ensures
        expr(v, e).notes.len() > 0,
{
}

/// `if let Some(x)` binds a checked pointer, inside its body only: behind the
/// whole statement every name is what it was before.
pub proof fn lemma_checked_pointer_stays_in_its_if(
    s: State,
    x: tree::Stmt,
    name: Seq<char>,
)
    requires
        x.kind is If,
        s.env.scopes.len() > 0,
        covered(s),
    ensures
        stmt(s, x).env.scopes == s.env.scopes,
        lookup(stmt(s, x).env.scopes, name) == lookup(s.env.scopes, name),
{
    if let tree::StmtKind::If { cond, body, otherwise } = x.kind {
        lemma_if_entry(s, cond);
        let inner = if_entry(s, cond);
        lemma_block_follows(inner, body);
        lemma_closed(s, inner, block(inner, body));
        let s1 = pop_scope(block(inner, body));
        if let Some(b) = otherwise {
            let again = push_scope(s1);
            assert(again.env.scopes.drop_last() =~= s1.env.scopes);
            lemma_block_follows(again, b);
            lemma_closed(s1, again, block(again, b));
        }
    }
}

/// Inside the body the name is a pointer to what the map holds.
pub proof fn lemma_some_binds_a_checked_pointer(s: State, p: tree::Pattern, value: tree::Expr)
    requires
        p.name.name == "Some"@,
        p.binding is Some,
        expr(s.env, value).ty is Option,
    ensures
        ({
            let inside = lookup(if_let_entry(s, p, value).env.scopes, p.binding->0.name);
            inside matches Some(x) && x.ty == Sort::Ref(expr(s.env, value).ty->Option_0)
        }),
{
    let s1 = push_scope(heard(s, expr(s.env, value)));
    let t = if_let_entry(s, p, value);
    assert(t.env.scopes.last().vars.contains_key(p.binding->0.name));
}

/// A loop that gets no note has constant bounds and at most 64 iterations.
pub proof fn lemma_loops_are_bounded(s: State, x: tree::Stmt)
    requires
        x.kind is For,
        s.env.scopes.len() > 0,
        covered(s),
        stmt(s, x).notes == s.notes,
        stmt(s, x).ok,
    ensures
        ({
            let lo = const_eval(s.env, x.kind->For_start).value;
            let hi = const_eval(s.env, x.kind->For_end).value;
            &&& lo is Some
            &&& hi is Some
            &&& 0 <= hi->0 - lo->0 <= 64
        }),
{
    if let tree::StmtKind::For { var, start, end, body } = x.kind {
        let a = const_eval(s.env, start);
        let b = const_eval(s.env, end);
        lemma_no_value_is_noted(s.env, start);
        lemma_no_value_is_noted(s.env, end);
        let s1 = heard_konst(heard_konst(s, a), b);
        if let (Some(lo), Some(hi)) = (a.value, b.value) {
            let (s2, range) = for_entry(s, start, end);
            let (from, to) = range->0;
            lemma_iterations_follow(s2, none(), var.name, from as int, to as int, body);
            assert(stmt(s, x).notes.len() >= s2.notes.len());
        }
    }
}

/// An expression that is no constant is noted, or has no answer.
proof fn lemma_no_value_is_noted(v: Env, e: tree::Expr)
    ensures
        const_eval(v, e).value is None ==> const_eval(v, e).notes.len() > 0 || !const_eval(
            v,
            e,
        ).ok,
    decreases e,
{
    match e.kind {
        tree::ExprKind::Binary { op, lhs, rhs } => {
            lemma_no_value_is_noted(v, *lhs);
            lemma_no_value_is_noted(v, *rhs);
        },
        tree::ExprKind::Unary { op, expr } => {
            lemma_no_value_is_noted(v, *expr);
        },
        _ => {},
    }
}

/// Writing through a pointer is always noted.
pub proof fn lemma_no_write_through_a_pointer(s: State, x: tree::Stmt)
    requires
        x.kind matches tree::StmtKind::Assign { target, .. } && (target.kind matches
            tree::ExprKind::Unary { op: UnaryOp::Deref, .. }),
    ensures
        stmt(s, x).notes.len() > s.notes.len(),
{
}

/// What is assigned to without a note is a known, mutable local, and the value
/// is of its type.
pub proof fn lemma_only_mutable_locals_change(s: State, x: tree::Stmt)
    requires
        x.kind is Assign,
        stmt(s, x).notes == s.notes,
    ensures
        ({
            &&& x.kind->Assign_target.kind matches tree::ExprKind::Ident(name)
            &&& lookup(s.env.scopes, name) matches Some(local)
            &&& local.mutable
            &&& compatible(local.ty, expr(s.env, x.kind->Assign_value).ty)
        }),
{
    let target = x.kind->Assign_target;
    let value = x.kind->Assign_value;
    assert(stmt(s, x) == assign(s, target, value));
    assert(stmt(s, x).notes.len() == s.notes.len());
}

/// Integer widths never convert: where one integer type is taken for another,
/// they are the same, or one is an unsuffixed literal.
pub proof fn lemma_widths_never_convert(expected: Sort, actual: Sort)
    requires
        is_int(expected),
        is_int(actual),
        compatible(expected, actual),
    ensures
        expected == actual || expected is Int || actual is Int,
{
}

/// `byte_at(i)` gets no note only for a constant index inside the string.
pub proof fn lemma_byte_at_is_in_range(v: Env, cap: u32, index: tree::Expr)
    requires
        byte_at_method(v, cap, index).notes.len() == 0,
        byte_at_method(v, cap, index).ok,
    ensures
        const_eval(v, index).value matches Some(i) && 0 <= i < cap,
{
    lemma_no_value_is_noted(v, index);
}

/// A packet offset that gets no note is fixed: no local takes part in it.
pub proof fn lemma_packet_offsets_are_fixed(v: Env, offset: tree::Expr)
    ensures
        const_eval_global(v, offset).value is Some ==> local_in(v, offset) is None,
        local_in(v, offset) is Some ==> const_eval_global(v, offset).notes.len() == 1,
{
}

/// `starts_with` gets no note only for a literal that fits in the string.
pub proof fn lemma_starts_with_fits(name: Seq<char>, cap: u32, prefix: tree::Expr)
    requires
        starts_with_method(name, cap, prefix).notes.len() == 0,
    ensures
        prefix.kind matches tree::ExprKind::Str(text) && byte_len(text) <= cap,
{
}

/// A string is only ever read into a declared `str<N>`: the bound of the read.
pub proof fn lemma_reads_are_bounded(
    s: State,
    mutable: bool,
    name: Seq<char>,
    ty: Option<tree::Type>,
    value: tree::Expr,
)
    requires
        reader(value) is Some,
        let_stmt(s, mutable, name, ty, value).notes == s.notes,
    ensures
        is_bounded_string(ty),
{
    assert(let_stmt(s, mutable, name, ty, value).notes.len() == s.notes.len());
}

/// Arguments are gone when a function returns: `arg(n)` is noted in a return
/// probe.
pub proof fn lemma_no_arguments_in_a_return_probe(v: Env, index: tree::Expr, e: tree::Expr)
    requires
        is_return_probe(v.probe),
    ensures
        arg_builtin(v, index, e.span).notes.len() > 0,
{
}

/// An `emit` that gets no note sets every field of its event, and none twice.
pub proof fn lemma_emit_sets_every_field_once(
    s: State,
    event: tree::Ident,
    fields: Seq<(tree::Ident, tree::Expr)>,
    x: tree::Stmt,
)
    requires
        x.kind == (tree::StmtKind::Emit { event, fields }),
        stmt(s, x).notes == s.notes,
        stmt(s, x).ok,
    ensures
        s.env.events.contains_key(event.name),
        forall|i: int|
            0 <= i < s.env.events[event.name].len() ==> given(
                fields,
                fields.len() as int,
                (#[trigger] s.env.events[event.name][i]).0,
            ),
        forall|i: int|
            0 <= i < fields.len() ==> !given(fields, i, (#[trigger] fields[i]).0.name),
{
    let declared = s.env.events[event.name];
    let s1 = emit_fields(s, event.name, declared, fields, 0);
    let rest = missing_fields(event.name, declared, fields, x.span, 0);
    assert(stmt(s, x) == emit(s, event, fields, x.span));
    if s.env.events.contains_key(event.name) {
        lemma_emit_fields(s, event.name, declared, fields, 0);
        assert(s1.notes.len() >= s.notes.len());
        assert(rest.len() == 0);
        lemma_none_missing(event.name, declared, fields, x.span, 0);
        lemma_none_twice(s, event.name, declared, fields, 0);
    }
}

proof fn lemma_none_missing(
    event: Seq<char>,
    declared: Seq<(Seq<char>, Sort)>,
    fields: Seq<(tree::Ident, tree::Expr)>,
    span: Span,
    i: int,
)
    requires
        0 <= i,
        missing_fields(event, declared, fields, span, i).len() == 0,
    ensures
        forall|k: int|
            i <= k < declared.len() ==> given(
                fields,
                fields.len() as int,
                (#[trigger] declared[k]).0,
            ),
    decreases declared.len() - i,
{
    if i < declared.len() {
        lemma_none_missing(event, declared, fields, span, i + 1);
    }
}

proof fn lemma_none_twice(
    s: State,
    event: Seq<char>,
    declared: Seq<(Seq<char>, Sort)>,
    fields: Seq<(tree::Ident, tree::Expr)>,
    i: int,
)
    requires
        0 <= i,
        emit_fields(s, event, declared, fields, i).notes.len() == s.notes.len(),
        emit_fields(s, event, declared, fields, i).ok,
        s.ok,
    ensures
        forall|k: int|
            i <= k < fields.len() ==> !given(fields, k, (#[trigger] fields[k]).0.name),
    decreases fields.len() - i,
{
    if i < fields.len() {
        let s1 = heard(s, emit_field(s.env, event, declared, fields, i));
        lemma_emit_fields(s1, event, declared, fields, i + 1);
        lemma_emit_ok(s1, event, declared, fields, i + 1);
        lemma_none_twice(s1, event, declared, fields, i + 1);
    }
}

proof fn lemma_emit_ok(
    s: State,
    event: Seq<char>,
    declared: Seq<(Seq<char>, Sort)>,
    fields: Seq<(tree::Ident, tree::Expr)>,
    i: int,
)
    requires
        emit_fields(s, event, declared, fields, i).ok,
    ensures
        s.ok,
    decreases fields.len() - i,
{
    if 0 <= i < fields.len() && s.ok {
        lemma_emit_ok(
            heard(s, emit_field(s.env, event, declared, fields, i)),
            event,
            declared,
            fields,
            i + 1,
        );
    }
}

// ------------------------------------------------------ the whole program

/// Everything that an expression reads is declared, checked and in bounds:
/// names are known, what is dereferenced is a checked pointer (or a call
/// without a value), the bytes of strings and packets are inside them, the
/// arguments of builtins are constants, those of `arg` exist, and the keys and
/// values handed to a map have its types.
pub open spec fn safe_expr(v: Env, e: tree::Expr) -> bool
    decreases e,
{
    match e.kind {
        tree::ExprKind::Int(_) => true,
        tree::ExprKind::Bool(_) => true,
        tree::ExprKind::Str(_) => false,
        tree::ExprKind::Ident(name) => lookup(v.scopes, name) is Some || v.consts.contains_key(
            name,
        ),
        tree::ExprKind::Unary { op, expr: inner } => {
            let t = expr(v, *inner).ty;
            &&& safe_expr(v, *inner)
            &&& op is Deref ==> t is Ref || t is Unit
        },
        tree::ExprKind::Binary { op, lhs, rhs } => {
            &&& side(v, *lhs) is No ==> safe_expr(v, *lhs)
            &&& side(v, *rhs) is No ==> safe_expr(v, *rhs)
        },
        tree::ExprKind::Cast { .. } => false,
        tree::ExprKind::Call { args, .. } => {
            &&& forall|i: int|
                0 <= i < args.len() ==> const_eval(v, #[trigger] args[i]).value is Some
            &&& is_call_to(e, "arg"@) ==> args.len() == 1 && 0 <= const_eval(
                v,
                args[0],
            ).value->0 <= 5
        },
        tree::ExprKind::MethodCall { receiver, method, args } => {
            &&& receiver.kind matches tree::ExprKind::Ident(name)
            &&& match lookup(v.scopes, name) {
                Some(x) => x.ty matches Sort::Str(cap) && args.len() == 1 && inside_string(
                    v,
                    cap,
                    args[0],
                ),
                None => if name == "pkt"@ {
                    &&& v.probe == Some(ProbeKind::Xdp)
                    &&& args.len() > 0 ==> args.len() == 1 && inside_packet(v, method.name, args[0])
                } else {
                    &&& v.maps.contains_key(name)
                    &&& right_arguments(v, v.maps[name].0, v.maps[name].1, method.name, args)
                    &&& forall|i: int| 0 <= i < args.len() ==> safe_expr(v, #[trigger] args[i])
                },
            }
        },
        tree::ExprKind::Field { expr: inner, .. } => safe_expr(v, *inner),
        tree::ExprKind::Index { .. } => false,
    }
}

/// A value of the type that is asked for, or a literal that fits in it.
pub open spec fn right_argument(v: Env, want: Sort, e: tree::Expr) -> bool {
    typed(v, e) matches Some(t) && takes(want, e, t)
}

/// The arguments of a method of a map: a key for `get` and `delete`, a key and a
/// value for `insert`, each of its declared type.
pub open spec fn right_arguments(
    v: Env,
    key: Sort,
    val: Sort,
    method: Seq<char>,
    args: Seq<tree::Expr>,
) -> bool {
    if method == "insert"@ {
        args.len() == 2 && right_argument(v, key, args[0]) && right_argument(v, val, args[1])
    } else {
        &&& method == "get"@ || method == "delete"@
        &&& args.len() == 1
        &&& right_argument(v, key, args[0])
    }
}

/// A literal that fits in a string, or the constant index of one of its bytes.
pub open spec fn inside_string(v: Env, cap: u32, e: tree::Expr) -> bool {
    match e.kind {
        tree::ExprKind::Str(text) => byte_len(text) <= cap,
        _ => const_eval(v, e).value matches Some(i) && 0 <= i < cap,
    }
}

/// A constant offset from which a method reads inside the first 256 bytes.
pub open spec fn inside_packet(v: Env, method: Seq<char>, e: tree::Expr) -> bool {
    match (packet_read(method), const_eval_global(v, e).value) {
        (Some((width, _)), Some(o)) => 0 <= o && o + width <= 256,
        _ => false,
    }
}

/// An annotation `str<N>`.
pub open spec fn is_bounded_string(ty: Option<tree::Type>) -> bool {
    match ty {
        Some(t) => sort_of(t) is Ok && sort_of(t)->Ok_0 is Str,
        None => false,
    }
}

/// A statement that is safe where it stands, and everything inside it: loops
/// have constant bounds and at most 64 iterations, each of which is safe,
/// strings are read into bounded buffers, only mutable locals are written, with
/// values of their type, and an `emit` sets every field once, to a value of its
/// type.
pub open spec fn safe_stmt(s: State, x: tree::Stmt) -> bool
    decreases x, 0int,
{
    match x.kind {
        tree::StmtKind::Let { ty, value, .. } => if reader(value) is Some {
            &&& is_bounded_string(ty)
            &&& value.kind->Call_args.len() == 1
            &&& safe_expr(s.env, value.kind->Call_args[0])
        } else {
            safe_expr(s.env, value)
        },
        tree::StmtKind::Assign { target, value } => {
            &&& target.kind matches tree::ExprKind::Ident(name)
            &&& lookup(s.env.scopes, name) matches Some(local)
            &&& local.mutable
            &&& right_value(s.env, local.ty, value)
            &&& safe_expr(s.env, value)
        },
        tree::StmtKind::If { cond, body, otherwise } => {
            let inner = if_entry(s, cond);
            &&& match cond {
                tree::Cond::Expr(e) => safe_expr(s.env, e) && expr(s.env, e).ty is Bool,
                tree::Cond::Let { value, .. } => safe_expr(s.env, value) && expr(
                    s.env,
                    value,
                ).ty is Option,
            }
            &&& safe_block(inner, body)
            &&& match otherwise {
                Some(b) => safe_block(push_scope(pop_scope(block(inner, body))), b),
                None => true,
            }
        },
        tree::StmtKind::For { var, start, end, body } => {
            let lo = const_eval(s.env, start).value;
            let hi = const_eval(s.env, end).value;
            let s1 = for_entry(s, start, end).0;
            &&& lo is Some
            &&& hi is Some
            &&& 0 <= hi->0 - lo->0 <= 64
            &&& forall|k: int|
                lo->0 <= k < hi->0 ==> safe_block(#[trigger] in_loop(s1, var.name, k), body)
        },
        tree::StmtKind::Emit { event, fields } => {
            &&& s.env.events.contains_key(event.name)
            &&& sets_every_field_once(s.env.events[event.name], fields)
            &&& forall|i: int|
                0 <= i < fields.len() ==> right_field(
                    s.env,
                    s.env.events[event.name],
                    #[trigger] fields[i],
                )
        },
        tree::StmtKind::Return(value) => value is None,
        tree::StmtKind::Expr(e) => safe_expr(s.env, e),
    }
}

pub open spec fn safe_stmts(s: State, list: Seq<tree::Stmt>, i: int) -> bool
    decreases list, list.len() - i,
{
    0 <= i < list.len() ==> safe_stmt(s, list[i]) && safe_stmts(stmt(s, list[i]), list, i + 1)
}

pub open spec fn safe_block(s: State, b: tree::Block) -> bool
    decreases b, 0int,
{
    safe_stmts(s, b.stmts, 0)
}

/// A value of the type that is asked for; a call that gives none will not do.
pub open spec fn right_value(v: Env, expected: Sort, e: tree::Expr) -> bool {
    compatible(expected, expr(v, e).ty) && !valueless(e, expr(v, e))
}

/// A field of an `emit` that the event has, set to a value of its type.
pub open spec fn right_field(
    v: Env,
    declared: Seq<(Seq<char>, Sort)>,
    f: (tree::Ident, tree::Expr),
) -> bool {
    match declared_type(declared, f.0.name, 0) {
        Some(ty) => if is_call_to(f.1, "comm"@) {
            ty is Str
        } else {
            safe_expr(v, f.1) && right_value(v, ty, f.1)
        },
        None => false,
    }
}

pub open spec fn sets_every_field_once(
    declared: Seq<(Seq<char>, Sort)>,
    fields: Seq<(tree::Ident, tree::Expr)>,
) -> bool {
    &&& forall|i: int|
        0 <= i < declared.len() ==> given(fields, fields.len() as int, (#[trigger] declared[i]).0)
    &&& forall|i: int| 0 <= i < fields.len() ==> !given(fields, i, (#[trigger] fields[i]).0.name)
}

// ------------------------------------------------- what the peak has no say in

/// The same but for the peak.
pub open spec fn level(s: State, t: State) -> bool {
    s.env == t.env && s.notes == t.notes && s.ok == t.ok
}

proof fn lemma_emit_level(
    s: State,
    t: State,
    event: Seq<char>,
    declared: Seq<(Seq<char>, Sort)>,
    fields: Seq<(tree::Ident, tree::Expr)>,
    i: int,
)
    requires
        level(s, t),
    ensures
        level(
            emit_fields(s, event, declared, fields, i),
            emit_fields(t, event, declared, fields, i),
        ),
    decreases fields.len() - i,
{
    if 0 <= i < fields.len() && s.ok {
        let o = emit_field(s.env, event, declared, fields, i);
        lemma_emit_level(heard(s, o), heard(t, o), event, declared, fields, i + 1);
    }
}

proof fn lemma_let_level(
    s: State,
    t: State,
    mutable: bool,
    name: Seq<char>,
    ty: Option<tree::Type>,
    value: tree::Expr,
)
    requires
        level(s, t),
    ensures
        level(
            let_stmt(s, mutable, name, ty, value),
            let_stmt(t, mutable, name, ty, value),
        ),
{
    match reader(value) {
        Some((fname, kernel)) => {
            assert(level(read_arg(s, value, fname, kernel), read_arg(t, value, fname, kernel)));
            assert(level(
                let_read(s, mutable, name, ty, value, fname, kernel),
                let_read(t, mutable, name, ty, value, fname, kernel),
            ));
        },
        None => {
            if let Some(x) = ty {
                assert(level(
                    let_ptr(s, mutable, name, x, value),
                    let_ptr(t, mutable, name, x, value),
                ));
            }
            assert(level(
                let_value(s, mutable, name, ty, value),
                let_value(t, mutable, name, ty, value),
            ));
        },
    }
}

proof fn lemma_if_level(s: State, t: State, c: tree::Cond)
    requires
        level(s, t),
    ensures
        level(if_entry(s, c), if_entry(t, c)),
{
    if let tree::Cond::Let { pattern, value } = c {
        assert(level(if_let_entry(s, pattern, value), if_let_entry(t, pattern, value)));
    }
}

proof fn lemma_stmt_level(s: State, t: State, x: tree::Stmt)
    requires
        level(s, t),
    ensures
        level(stmt(s, x), stmt(t, x)),
    decreases x, 0int,
{
    match x.kind {
        tree::StmtKind::Let { mutable, name, ty, value } => {
            lemma_let_level(s, t, mutable, name.name, ty, value);
        },
        tree::StmtKind::Assign { target, value } => {
            assert(level(assign(s, target, value), assign(t, target, value)));
        },
        tree::StmtKind::If { cond, body, otherwise } => {
            lemma_if_level(s, t, cond);
            lemma_block_level(if_entry(s, cond), if_entry(t, cond), body);
            if let Some(b) = otherwise {
                lemma_block_level(
                    push_scope(pop_scope(block(if_entry(s, cond), body))),
                    push_scope(pop_scope(block(if_entry(t, cond), body))),
                    b,
                );
            }
        },
        tree::StmtKind::For { var, start, end, body } => {
            let (s1, range) = for_entry(s, start, end);
            if let Some((lo, hi)) = range {
                lemma_iterations_level(
                    s1,
                    for_entry(t, start, end).0,
                    none(),
                    var.name,
                    lo as int,
                    hi as int,
                    body,
                );
            }
        },
        tree::StmtKind::Emit { event, fields } => {
            lemma_emit_level(s, t, event.name, s.env.events[event.name], fields, 0);
        },
        _ => {},
    }
}

proof fn lemma_iterations_level(
    s: State,
    t: State,
    said: Seq<Note>,
    var: Seq<char>,
    k: int,
    hi: int,
    body: tree::Block,
)
    requires
        level(s, t),
    ensures
        level(iterations(s, said, var, k, hi, body), iterations(t, said, var, k, hi, body)),
    decreases
            body,
            if k < hi {
                hi - k
            } else {
                0
            } + 1,
{
    let s0 = State { notes: none(), ..s };
    let t0 = State { notes: none(), ..t };
    lemma_block_level(in_loop(s0, var, k), in_loop(t0, var, k), body);
    let r = alone(s, var, k, body);
    let q = alone(t, var, k, body);
    let new = unsaid(said, r.notes);
    if k + 1 < hi && r.ok {
        lemma_iterations_level(
            State { notes: s.notes + new, ..r },
            State { notes: t.notes + new, ..q },
            said + new,
            var,
            k + 1,
            hi,
            body,
        );
    }
}

proof fn lemma_stmts_level(s: State, t: State, list: Seq<tree::Stmt>, i: int)
    requires
        level(s, t),
    ensures
        level(stmts(s, list, i), stmts(t, list, i)),
    decreases list, list.len() - i,
{
    if 0 <= i < list.len() && s.ok {
        lemma_stmt_level(s, t, list[i]);
        lemma_stmts_level(stmt(s, list[i]), stmt(t, list[i]), list, i + 1);
    }
}

proof fn lemma_block_level(s: State, t: State, b: tree::Block)
    requires
        level(s, t),
    ensures
        level(block(s, b), block(t, b)),
    decreases b, 0int,
{
    lemma_stmts_level(s, t, b.stmts, 0);
}

proof fn lemma_safe_stmt_level(s: State, t: State, x: tree::Stmt)
    requires
        level(s, t),
    ensures
        safe_stmt(s, x) == safe_stmt(t, x),
    decreases x, 0int,
{
    match x.kind {
        tree::StmtKind::If { cond, body, otherwise } => {
            let s1 = if_entry(s, cond);
            let t1 = if_entry(t, cond);
            lemma_if_level(s, t, cond);
            lemma_safe_block_level(s1, t1, body);
            lemma_block_level(s1, t1, body);
            if let Some(b) = otherwise {
                lemma_safe_block_level(
                    push_scope(pop_scope(block(s1, body))),
                    push_scope(pop_scope(block(t1, body))),
                    b,
                );
            }
        },
        tree::StmtKind::For { var, start, end, body } => {
            let s1 = for_entry(s, start, end).0;
            let t1 = for_entry(t, start, end).0;
            assert forall|k: int|
                safe_block(#[trigger] in_loop(s1, var.name, k), body) == safe_block(
                    in_loop(t1, var.name, k),
                    body,
                ) by {
                lemma_safe_block_level(in_loop(s1, var.name, k), in_loop(t1, var.name, k), body);
            }
            assert forall|k: int|
                safe_block(#[trigger] in_loop(t1, var.name, k), body) == safe_block(
                    in_loop(s1, var.name, k),
                    body,
                ) by {
                lemma_safe_block_level(in_loop(s1, var.name, k), in_loop(t1, var.name, k), body);
            }
        },
        _ => {},
    }
}

proof fn lemma_safe_stmts_level(s: State, t: State, list: Seq<tree::Stmt>, i: int)
    requires
        level(s, t),
    ensures
        safe_stmts(s, list, i) == safe_stmts(t, list, i),
    decreases list, list.len() - i,
{
    if 0 <= i < list.len() {
        lemma_safe_stmt_level(s, t, list[i]);
        lemma_stmt_level(s, t, list[i]);
        lemma_safe_stmts_level(stmt(s, list[i]), stmt(t, list[i]), list, i + 1);
    }
}

proof fn lemma_safe_block_level(s: State, t: State, b: tree::Block)
    requires
        level(s, t),
    ensures
        safe_block(s, b) == safe_block(t, b),
    decreases b, 0int,
{
    lemma_safe_stmts_level(s, t, b.stmts, 0);
}

proof fn lemma_accepted_call_is_safe(v: Env, e: tree::Expr)
    requires
        e.kind is Call,
        expr(v, e).notes.len() == 0,
        expr(v, e).ok,
    ensures
        safe_expr(v, e),
{
    let args = e.kind->Call_args;
    assert(expr(v, e) == call(v, e));
    if args.len() == 1 {
        lemma_no_value_is_noted(v, args[0]);
    }
    assert(args.len() <= 1);
    if is_call_to(e, "arg"@) {
        reveal_strlit("arg");
        reveal_strlit("pid");
        reveal_strlit("tgid");
        reveal_strlit("tid");
        reveal_strlit("uid");
        reveal_strlit("gid");
        reveal_strlit("ktime");
        reveal_strlit("comm");
        reveal_strlit("retval");
        reveal_strlit("sample");
        reveal_strlit("read_user_str");
        reveal_strlit("read_kernel_str");
        reveal_strlit("drop");
        reveal_strlit("pass");
        reveal_strlit("deny");
        reveal_strlit("allow");
        assert("arg"@[0] == 'a');
        assert("arg"@ != "allow"@) by {
            assert("allow"@.len() == 5);
        }
        assert("arg"@[1] == 'r');
        assert("pid"@[0] == 'p' && "tid"@[0] == 't' && "uid"@[0] == 'u' && "gid"@[0] == 'g');
    }
}

/// A method of a string or of the packet.
proof fn lemma_accepted_method_is_safe(v: Env, e: tree::Expr)
    requires
        e.kind matches tree::ExprKind::MethodCall { receiver, .. } && (receiver.kind matches
            tree::ExprKind::Ident(name) && (lookup(v.scopes, name) is Some || name == "pkt"@)),
        expr(v, e).notes.len() == 0,
        expr(v, e).ok,
    ensures
        safe_expr(v, e),
{
    let args = e.kind->MethodCall_args;
    assert(expr(v, e) == method(v, e));
    if args.len() == 1 {
        lemma_no_value_is_noted(v, args[0]);
    }
}

proof fn lemma_accepted_sides(v: Env, e: tree::Expr)
    requires
        e.kind is Binary,
        expr(v, e).notes.len() == 0,
        expr(v, e).ok,
    ensures
        side(v, *e.kind->Binary_lhs) is No ==> quiet_and_ok(expr(v, *e.kind->Binary_lhs)),
        side(v, *e.kind->Binary_rhs) is No ==> quiet_and_ok(expr(v, *e.kind->Binary_rhs)),
{
    assert(expr(v, e) == binary(v, e));
}

spec fn quiet_and_ok(o: Out) -> bool {
    o.notes.len() == 0 && o.ok
}

/// The arguments of a method of a map.
proof fn lemma_accepted_map_method(v: Env, e: tree::Expr)
    requires
        e.kind matches tree::ExprKind::MethodCall { receiver, .. } && (receiver.kind matches
            tree::ExprKind::Ident(name) ==> lookup(v.scopes, name) is None && name != "pkt"@),
        expr(v, e).notes.len() == 0,
        expr(v, e).ok,
    ensures
        ({
            let args = e.kind->MethodCall_args;
            &&& e.kind->MethodCall_receiver.kind matches tree::ExprKind::Ident(name)
                && v.maps.contains_key(name)
            &&& args.len() <= 2
            &&& args.len() > 0 ==> quiet_and_ok(expr(v, args[0]))
            &&& args.len() > 1 ==> quiet_and_ok(expr(v, args[1]))
            &&& right_arguments(
                v,
                v.maps[e.kind->MethodCall_receiver.kind->Ident_0].0,
                v.maps[e.kind->MethodCall_receiver.kind->Ident_0].1,
                e.kind->MethodCall_method.name,
                args,
            )
        }),
{
    assert(expr(v, e) == method(v, e));
    lemma_checker_finds_types(v, e);
    lemma_map_methods_differ();
}

proof fn lemma_map_methods_differ()
    ensures
        "insert"@ != "get"@,
        "insert"@ != "delete"@,
{
    reveal_strlit("insert");
    reveal_strlit("get");
    reveal_strlit("delete");
    assert("insert"@[0] == 'i' && "delete"@[0] == 'd');
}

/// An expression that gets no note is safe.
pub proof fn lemma_accepted_expr_is_safe(v: Env, e: tree::Expr)
    requires
        expr(v, e).notes.len() == 0,
        expr(v, e).ok,
    ensures
        safe_expr(v, e),
    decreases e,
{
    match e.kind {
        tree::ExprKind::Unary { op, expr: inner } => {
            lemma_accepted_expr_is_safe(v, *inner);
        },
        tree::ExprKind::Binary { op, lhs, rhs } => {
            lemma_accepted_sides(v, e);
            if side(v, *lhs) is No {
                lemma_accepted_expr_is_safe(v, *lhs);
            }
            if side(v, *rhs) is No {
                lemma_accepted_expr_is_safe(v, *rhs);
            }
        },
        tree::ExprKind::Call { callee, args } => lemma_accepted_call_is_safe(v, e),
        tree::ExprKind::MethodCall { receiver, method: m, args } => {
            if receiver.kind matches tree::ExprKind::Ident(name) && (lookup(v.scopes, name) is Some
                || name == "pkt"@) {
                lemma_accepted_method_is_safe(v, e);
            } else {
                lemma_accepted_map_method(v, e);
                if args.len() > 0 {
                    lemma_accepted_expr_is_safe(v, args[0]);
                }
                if args.len() > 1 {
                    lemma_accepted_expr_is_safe(v, args[1]);
                }
            }
        },
        tree::ExprKind::Field { expr: inner, field } => {
            lemma_accepted_expr_is_safe(v, *inner);
        },
        _ => {},
    }
}

/// A statement that gets no note is safe, and so is everything inside it.
pub proof fn lemma_accepted_stmt_is_safe(s: State, x: tree::Stmt)
    requires
        s.env.scopes.len() > 0,
        covered(s),
        stmt(s, x).ok,
        stmt(s, x).notes.len() == s.notes.len(),
    ensures
        safe_stmt(s, x),
        s.ok,
    decreases x, 0int,
{
    match x.kind {
        tree::StmtKind::Let { mutable, name, ty, value } => {
            lemma_accepted_let_is_safe(s, mutable, name.name, ty, value);
        },
        tree::StmtKind::Assign { target, value } => {
            if let tree::ExprKind::Ident(n) = target.kind {
                if let Some(local) = lookup(s.env.scopes, n) {
                    lemma_accepted_expr_is_safe(s.env, value);
                }
            }
        },
        tree::StmtKind::If { cond, body, otherwise } => {
            lemma_if_entry(s, cond);
            let inner = if_entry(s, cond);
            let after = block(inner, body);
            lemma_block_follows(inner, body);
            lemma_closed(s, inner, after);
            let s1 = pop_scope(after);
            let again = push_scope(s1);
            if let Some(b) = otherwise {
                assert(again.env.scopes.drop_last() =~= s1.env.scopes);
                lemma_block_follows(again, b);
                lemma_block_ok(again, b);
            }
            lemma_block_ok(inner, body);
            lemma_accepted_block_is_safe(inner, body);
            match cond {
                tree::Cond::Expr(e) => lemma_accepted_expr_is_safe(s.env, e),
                tree::Cond::Let { pattern, value } => lemma_accepted_expr_is_safe(s.env, value),
            }
            if let Some(b) = otherwise {
                lemma_accepted_block_is_safe(again, b);
            }
        },
        tree::StmtKind::For { var, start, end, body } => {
            let a = const_eval(s.env, start);
            let b = const_eval(s.env, end);
            lemma_no_value_is_noted(s.env, start);
            lemma_no_value_is_noted(s.env, end);
            let s1 = heard_konst(heard_konst(s, a), b);
            if let (Some(lo), Some(hi)) = (a.value, b.value) {
                let (s2, range) = for_entry(s, start, end);
                let (from, to) = range->0;
                lemma_iterations_follow(s2, none(), var.name, from as int, to as int, body);
                lemma_accepted_iterations_are_safe(s2, var.name, from as int, to as int, body);
            }
        },
        tree::StmtKind::Emit { event, fields } => {
            lemma_accepted_emit_is_safe(s, event, fields, x);
        },
        tree::StmtKind::Return(value) => {},
        tree::StmtKind::Expr(e) => {
            lemma_accepted_expr_is_safe(s.env, e);
        },
    }
}

/// Where nothing was said, every note is news.
proof fn lemma_unsaid_of_nothing(notes: Seq<Note>)
    ensures
        unsaid(none(), notes) == notes,
    decreases notes.len(),
{
    if notes.len() > 0 {
        lemma_unsaid_of_nothing(notes.drop_first());
        assert(seq![notes[0]] + notes.drop_first() =~= notes);
    }
}

/// Every iteration of an accepted loop is safe.
proof fn lemma_accepted_iterations_are_safe(
    s: State,
    var: Seq<char>,
    k: int,
    hi: int,
    body: tree::Block,
)
    requires
        s.env.scopes.len() > 0,
        covered(s),
        iterations(s, none(), var, k, hi, body).ok,
        iterations(s, none(), var, k, hi, body).notes.len() == s.notes.len(),
    ensures
        s.ok,
        forall|j: int| k <= j < hi ==> safe_block(#[trigger] in_loop(s, var, j), body),
    decreases
            body,
            if k < hi {
                hi - k
            } else {
                0
            } + 1,
{
    let inner = in_loop(s, var, k);
    let r = alone(s, var, k, body);
    let new = unsaid(none(), r.notes);
    let t = State { notes: s.notes + new, ..r };
    lemma_unsaid_of_nothing(r.notes);
    lemma_iteration_follows(s, var, k, body);
    lemma_iterations_are_checked_alone(s, var, k, body);
    lemma_block_ok(inner, body);
    if k + 1 < hi && r.ok {
        lemma_iterations_follow(t, none() + new, var, k + 1, hi, body);
        assert(none() + new =~= none());
        lemma_accepted_iterations_are_safe(t, var, k + 1, hi, body);
        assert(t.notes =~= s.notes);
        assert forall|j: int| k < j < hi implies safe_block(
            #[trigger] in_loop(s, var, j),
            body,
        ) by {
            lemma_safe_block_level(in_loop(s, var, j), in_loop(t, var, j), body);
        }
    }
    lemma_accepted_block_is_safe(inner, body);
}

/// A note is news, or something was said of its place.
proof fn lemma_unsaid_covers(said: Seq<Note>, notes: Seq<Note>, i: int)
    requires
        0 <= i < notes.len(),
    ensures
        spoken(said + unsaid(said, notes), notes[i].span),
    decreases notes.len(),
{
    let rest = notes.drop_first();
    let all = said + unsaid(said, notes);
    if spoken(said, notes[i].span) {
        let j = choose|j: int| 0 <= j < said.len() && (#[trigger] said[j]).span == notes[i].span;
        assert(all[j].span == notes[i].span);
    } else if i == 0 {
        assert(all[said.len() as int] == notes[0]);
    } else {
        lemma_unsaid_covers(said, rest, i - 1);
        let less = said + unsaid(said, rest);
        let j = choose|j: int| 0 <= j < less.len() && (#[trigger] less[j]).span == rest[i - 1].span;
        let at = if spoken(said, notes[0].span) || j < said.len() {
            j
        } else {
            j + 1
        };
        assert(all[at] == less[j]);
    }
}

proof fn lemma_spoken_on(a: Seq<Note>, b: Seq<Note>, span: Span)
    requires
        spoken(a, span),
        goes_on(a, b),
    ensures
        spoken(b, span),
{
    let m = choose|m: int| 0 <= m < a.len() && (#[trigger] a[m]).span == span;
    assert(b[m].span == span);
}

/// The state behind the first iteration.
spec fn stepped(s: State, said: Seq<Note>, var: Seq<char>, k: int, body: tree::Block) -> State {
    let r = alone(s, var, k, body);
    State { notes: s.notes + unsaid(said, r.notes), ..r }
}

proof fn lemma_stepped(
    s: State,
    said: Seq<Note>,
    var: Seq<char>,
    k: int,
    hi: int,
    body: tree::Block,
)
    requires
        s.env.scopes.len() > 0,
        covered(s),
        iterations(s, said, var, k, hi, body).ok,
    ensures
        ({
            let t = stepped(s, said, var, k, body);
            let told = said + unsaid(said, alone(s, var, k, body).notes);
            let end = iterations(s, said, var, k, hi, body);
            &&& t.env == s.env
            &&& t.ok
            &&& s.ok
            &&& covered(t)
            &&& goes_on(t.notes, end.notes)
            &&& k + 1 < hi ==> end == iterations(t, told, var, k + 1, hi, body)
        }),
{
    let t = stepped(s, said, var, k, body);
    let told = said + unsaid(said, alone(s, var, k, body).notes);
    lemma_iteration_follows(s, var, k, body);
    lemma_iterations_are_checked_alone(s, var, k, body);
    lemma_block_ok(in_loop(State { notes: none(), ..s }, var, k), body);
    if k + 1 < hi && t.ok {
        lemma_iterations_follow(t, told, var, k + 1, hi, body);
    }
}

/// What is said of an iteration depends on nothing but the declarations and
/// locals before it.
proof fn lemma_alone_level(s: State, t: State, var: Seq<char>, k: int, body: tree::Block)
    requires
        s.env == t.env,
        s.ok == t.ok,
    ensures
        alone(s, var, k, body).notes == alone(t, var, k, body).notes,
{
    let s0 = State { notes: none(), ..s };
    let t0 = State { notes: none(), ..t };
    lemma_block_level(in_loop(s0, var, k), in_loop(t0, var, k), body);
}

/// Whatever is wrong in any iteration of a loop, its place is noted: the errors
/// of all iterations are told together.
pub proof fn lemma_every_iteration_is_noted(
    s: State,
    said: Seq<Note>,
    var: Seq<char>,
    k: int,
    hi: int,
    body: tree::Block,
    j: int,
    i: int,
)
    requires
        s.env.scopes.len() > 0,
        covered(s),
        iterations(s, said, var, k, hi, body).ok,
        j == k || k <= j < hi,
        0 <= i < alone(s, var, j, body).notes.len(),
    ensures
        spoken(
            said + iterations(s, said, var, k, hi, body).notes.skip(s.notes.len() as int),
            alone(s, var, j, body).notes[i].span,
        ),
    decreases hi - k,
{
    let new = unsaid(said, alone(s, var, k, body).notes);
    let told = said + new;
    let t = stepped(s, said, var, k, body);
    let end = iterations(s, said, var, k, hi, body).notes;
    let all = said + end.skip(s.notes.len() as int);
    let span = alone(s, var, j, body).notes[i].span;
    lemma_stepped(s, said, var, k, hi, body);
    lemma_told_together(said, s.notes, new, end);
    if j == k {
        lemma_unsaid_covers(said, alone(s, var, k, body).notes, i);
        lemma_spoken_on(told, all, span);
    } else {
        lemma_alone_level(s, t, var, j, body);
        lemma_every_iteration_is_noted(t, told, var, k + 1, hi, body, j, i);
    }
}

/// Notes that were added, and those that came behind them.
proof fn lemma_told_together(
    said: Seq<Note>,
    before: Seq<Note>,
    new: Seq<Note>,
    end: Seq<Note>,
)
    requires
        goes_on(before + new, end),
    ensures
        ({
            let all = said + end.skip(before.len() as int);
            &&& goes_on(said + new, all)
            &&& (said + new) + end.skip((before + new).len() as int) == all
        }),
{
    let all = said + end.skip(before.len() as int);
    let told = said + new;
    let next = before + new;
    assert forall|m: int| 0 <= m < told.len() implies #[trigger] all[m] == told[m] by {
        if m >= said.len() {
            let at = before.len() + (m - said.len());
            assert(end[at] == next[at]);
        }
    }
    assert(told + end.skip(next.len() as int) =~= all) by {
        assert forall|m: int| 0 <= m < all.len() implies #[trigger] (told + end.skip(
            next.len() as int,
        ))[m] == all[m] by {
            if m < told.len() {
                assert(all[m] == told[m]);
            }
        }
    }
}

/// Nothing has an answer behind what has none.
pub proof fn lemma_iterations_ok(
    s: State,
    said: Seq<Note>,
    var: Seq<char>,
    k: int,
    hi: int,
    body: tree::Block,
)
    ensures
        iterations(s, said, var, k, hi, body).ok ==> s.ok,
    decreases hi - k,
{
    let r = alone(s, var, k, body);
    let new = unsaid(said, r.notes);
    lemma_block_ok(in_loop(State { notes: none(), ..s }, var, k), body);
    if k + 1 < hi && r.ok {
        let t = State { notes: s.notes + new, ..r };
        lemma_iterations_ok(t, said + new, var, k + 1, hi, body);
    }
}

pub proof fn lemma_block_ok(s: State, b: tree::Block)
    ensures
        block(s, b).ok ==> s.ok,
{
}

proof fn lemma_accepted_stmts_are_safe(s: State, list: Seq<tree::Stmt>, i: int)
    requires
        s.env.scopes.len() > 0,
        covered(s),
        stmts(s, list, i).ok,
        stmts(s, list, i).notes.len() == s.notes.len(),
    ensures
        safe_stmts(s, list, i),
    decreases list, list.len() - i,
{
    if 0 <= i < list.len() {
        let s1 = stmt(s, list[i]);
        lemma_stmt_follows(s, list[i]);
        lemma_stmts_follow(s1, list, i + 1);
        assert(s1.ok);
        lemma_accepted_stmt_is_safe(s, list[i]);
        lemma_accepted_stmts_are_safe(s1, list, i + 1);
    }
}

/// A block that gets no note is safe.
pub proof fn lemma_accepted_block_is_safe(s: State, b: tree::Block)
    requires
        s.env.scopes.len() > 0,
        covered(s),
        block(s, b).ok,
        block(s, b).notes.len() == s.notes.len(),
    ensures
        safe_block(s, b),
    decreases b, 0int,
{
    lemma_accepted_stmts_are_safe(s, b.stmts, 0);
}

proof fn lemma_accepted_let_is_safe(
    s: State,
    mutable: bool,
    name: Seq<char>,
    ty: Option<tree::Type>,
    value: tree::Expr,
)
    requires
        let_stmt(s, mutable, name, ty, value).ok,
        let_stmt(s, mutable, name, ty, value).notes.len() == s.notes.len(),
    ensures
        s.ok,
        reader(value) is None ==> safe_expr(s.env, value),
        reader(value) is Some ==> {
            &&& is_bounded_string(ty)
            &&& value.kind->Call_args.len() == 1
            &&& safe_expr(s.env, value.kind->Call_args[0])
        },
{
    match reader(value) {
        Some((fname, kernel)) => {
            let args = value.kind->Call_args;
            if args.len() == 1 {
                lemma_accepted_expr_is_safe(s.env, args[0]);
            }
        },
        None => {
            lemma_accepted_expr_is_safe(s.env, value);
        },
    }
}

proof fn lemma_accepted_emit_is_safe(
    s: State,
    event: tree::Ident,
    fields: Seq<(tree::Ident, tree::Expr)>,
    x: tree::Stmt,
)
    requires
        x.kind == (tree::StmtKind::Emit { event, fields }),
        stmt(s, x).ok,
        stmt(s, x).notes.len() == s.notes.len(),
    ensures
        safe_stmt(s, x),
        s.ok,
{
    let declared = s.env.events[event.name];
    let s1 = emit_fields(s, event.name, declared, fields, 0);
    let rest = missing_fields(event.name, declared, fields, x.span, 0);
    assert(stmt(s, x) == emit(s, event, fields, x.span));
    if s.env.events.contains_key(event.name) {
        lemma_emit_fields(s, event.name, declared, fields, 0);
        lemma_emit_ok(s, event.name, declared, fields, 0);
        lemma_none_missing(event.name, declared, fields, x.span, 0);
        lemma_none_twice(s, event.name, declared, fields, 0);
        lemma_emitted_values_are_safe(s, event.name, declared, fields, 0);
    }
}

proof fn lemma_emitted_values_are_safe(
    s: State,
    event: Seq<char>,
    declared: Seq<(Seq<char>, Sort)>,
    fields: Seq<(tree::Ident, tree::Expr)>,
    i: int,
)
    requires
        0 <= i,
        s.ok,
        emit_fields(s, event, declared, fields, i).notes.len() == s.notes.len(),
        emit_fields(s, event, declared, fields, i).ok,
    ensures
        forall|k: int|
            i <= k < fields.len() ==> right_field(s.env, declared, #[trigger] fields[k]),
    decreases fields.len() - i,
{
    if i < fields.len() {
        let s1 = heard(s, emit_field(s.env, event, declared, fields, i));
        lemma_emit_fields(s1, event, declared, fields, i + 1);
        lemma_emit_ok(s1, event, declared, fields, i + 1);
        lemma_emitted_values_are_safe(s1, event, declared, fields, i + 1);
        if !is_call_to(fields[i].1, "comm"@) {
            lemma_accepted_expr_is_safe(s.env, fields[i].1);
        }
    }
}

/// A probe whose body is safe from the first statement to the last.
#[verifier::opaque]
pub open spec fn safe_probe(v: Env, p: tree::ProbeDecl) -> bool {
    safe_block(probe_entry(v, p, none()), p.body)
}

/// A program whose probes are safe from the first statement to the last, and
/// need at most 472 bytes for their locals, in whole slots of eight: the 512 of
/// the BPF stack without what the generated code keeps for itself.
pub open spec fn safe_program(p: tree::Program, kernel: Option<Kernel>) -> bool {
    let v = declare_items(start(kernel), p.items, 0, none()).0;
    &&& forall|i: int|
        0 <= i < p.items.len() ==> ((#[trigger] p.items[i]) matches tree::Item::Probe(x)
            ==> safe_probe(v, x))
    &&& program(p, kernel).peak <= 472
    &&& program(p, kernel).peak % 8 == 0
    &&& has_probe(p.items)
}

proof fn lemma_probe_is_safe(v: Env, p: tree::ProbeDecl, notes: Seq<Note>)
    ensures
        ({
            let s = probe(v, p, notes);
            &&& s.notes.len() >= notes.len()
            &&& s.peak % 8 == 0
            &&& s.notes.len() == 0 && s.ok ==> s.peak <= 472 && safe_probe(v, p)
        }),
{
    reveal(safe_probe);
    reveal(probe);
    let s = probe(v, p, notes);
    let entry = probe_entry(v, p, notes);
    assert(entry.env.scopes.drop_last() =~= Seq::empty());
    assert(total(entry.env.scopes.drop_last()) == 0);
    lemma_block_follows(entry, p.body);
    if s.notes.len() == 0 && s.ok {
        assert(notes =~= none());
        lemma_accepted_block_is_safe(entry, p.body);
    }
}

proof fn lemma_probes_are_safe(v: Env, items: Seq<tree::Item>, i: int, r: Report)
    requires
        0 <= i,
        r.peak % 8 == 0,
        r.notes.len() == 0 && r.ok ==> r.peak <= 472,
    ensures
        probes(v, items, i, r).peak % 8 == 0,
        probes(v, items, i, r).notes.len() >= r.notes.len(),
        probes(v, items, i, r).ok ==> r.ok,
        probes(v, items, i, r).notes.len() == 0 && probes(v, items, i, r).ok ==> {
            &&& probes(v, items, i, r).peak <= 472
            &&& forall|k: int|
                i <= k < items.len() ==> ((#[trigger] items[k]) matches tree::Item::Probe(x)
                    ==> safe_probe(v, x))
        },
    decreases items.len() - i,
{
    if i < items.len() && r.ok {
        if let tree::Item::Probe(p) = items[i] {
            let s = probe(v, p, r.notes);
            lemma_probe_is_safe(v, p, r.notes);
            let r1 = Report {
                peak: if s.peak > r.peak {
                    s.peak
                } else {
                    r.peak
                },
                notes: s.notes,
                ok: s.ok,
            };
            lemma_probes_are_safe(v, items, i + 1, r1);
        } else {
            lemma_probes_are_safe(v, items, i + 1, r);
        }
    }
}

/// A program that is accepted is safe.
pub proof fn lemma_accepted_program_is_safe(p: tree::Program, kernel: Option<Kernel>)
    requires
        program(p, kernel).notes.len() == 0,
        program(p, kernel).ok,
    ensures
        safe_program(p, kernel),
{
    let (v, notes) = declare_items(start(kernel), p.items, 0, none());
    let r = Report {
        peak: 0,
        notes: notes + only_if(
            !has_probe(p.items),
            note(Span { start: 0, end: 0 }, "program has no `probe`"@),
        ),
        ok: true,
    };
    lemma_probes_are_safe(v, p.items, 0, r);
}

} // verus!
