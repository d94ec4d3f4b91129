//! Which statements and programs are accepted.
//!
//! Like `typing`, this is the language as its users know it: where a statement
//! may stand, what it declares and how much of the stack that takes. The checker
//! agrees: it is silent exactly over the programs that are in order.

use crate::btf::Kernel;
use crate::rules::{
    alone, assign, block, emit, emit_field, emit_fields, event_fields, expr, for_entry, has_field,
    heard, if_entry, in_loop, iterations, let_stmt, lookup, missing_fields, none, pop_scope,
    push_scope, put, stmt, stmts, total, unsaid, Env, Frame, Local, ProbeKind, Sort, State,
};
use crate::safety::{
    covered, follows, lemma_block_follows, lemma_closed, lemma_if_entry, lemma_iteration_follows,
    lemma_iterations_follow, lemma_stmt_follows, lemma_stmts_follow,
};
use crate::tree;
use crate::typing::{
    fixed, integer, lemma_checker_finds_types, lemma_constants_are_what_they_are, limit, silent,
    takes, typed,
};
use vstd::prelude::*;

verus! {

// -------------------------------------------------------------------- locals

/// Where a program has got to: what is declared, and how many bytes of the stack
/// were taken at most.
pub struct World {
    pub env: Env,
    pub peak: nat,
}

/// The name of a local means the innermost one.
pub open spec fn means_local(scopes: Seq<Frame>, name: Seq<char>, x: Option<Local>) -> bool {
    match x {
        Some(local) => exists|k: int|
            {
                &&& 0 <= k < scopes.len()
                &&& (#[trigger] scopes[k]).vars.contains_key(name)
                &&& scopes[k].vars[name] == local
                &&& forall|j: int|
                    k < j < scopes.len() ==> !(#[trigger] scopes[j]).vars.contains_key(name)
            },
        None => forall|j: int|
            0 <= j < scopes.len() ==> !(#[trigger] scopes[j]).vars.contains_key(name),
    }
}

/// A name is looked up in the innermost scope that has it.
pub proof fn lemma_names_mean_the_innermost_local(scopes: Seq<Frame>, name: Seq<char>)
    ensures
        means_local(scopes, name, lookup(scopes, name)),
    decreases scopes.len(),
{
    if scopes.len() > 0 {
        let outer = scopes.drop_last();
        let last = scopes.len() - 1;
        if scopes.last().vars.contains_key(name) {
            assert(scopes[last].vars[name] == lookup(scopes, name)->0);
        } else {
            lemma_names_mean_the_innermost_local(outer, name);
            match lookup(outer, name) {
                Some(local) => {
                    let k = choose|k: int|
                        {
                            &&& 0 <= k < outer.len()
                            &&& (#[trigger] outer[k]).vars.contains_key(name)
                            &&& outer[k].vars[name] == local
                            &&& forall|j: int|
                                k < j < outer.len() ==> !(#[trigger] outer[j]).vars.contains_key(
                                    name,
                                )
                        };
                    assert(scopes[k] == outer[k]);
                    assert forall|j: int| k < j < scopes.len() implies !(
                    #[trigger] scopes[j]).vars.contains_key(name) by {
                        if j < last {
                            assert(outer[j] == scopes[j]);
                        }
                    }
                },
                None => {
                    assert forall|j: int| 0 <= j < scopes.len() implies !(
                    #[trigger] scopes[j]).vars.contains_key(name) by {
                        if j < last {
                            assert(outer[j] == scopes[j]);
                        }
                    }
                },
            }
        }
    }
}

/// The bytes of all scopes together.
pub open spec fn taken(scopes: Seq<Frame>) -> nat {
    scopes.fold_left(0nat, |n: nat, f: Frame| n + f.bytes)
}

proof fn lemma_taken(scopes: Seq<Frame>)
    ensures
        taken(scopes) == total(scopes),
    decreases scopes.len(),
{
    if scopes.len() > 0 {
        lemma_taken(scopes.drop_last());
    }
}

/// The bytes that a local takes: whole slots of eight, as many as it needs.
pub open spec fn room(t: Sort) -> nat {
    match t {
        Sort::Unit => 0,
        Sort::Ipv6 => 16,
        Sort::Str(n) => if n % 8 == 0 {
            n as nat
        } else {
            (n - n % 8 + 8) as nat
        },
        _ => 8,
    }
}

/// Inside a new scope.
pub open spec fn inside(w: World) -> World {
    World {
        env: Env {
            scopes: w.env.scopes.push(Frame { vars: Map::empty(), bytes: 0 }),
            ..w.env
        },
        ..w
    }
}

/// Outside the innermost scope again.
pub open spec fn outside(w: World) -> World {
    World { env: Env { scopes: w.env.scopes.drop_last(), ..w.env }, ..w }
}

/// With a local in the innermost scope.
pub open spec fn with_local(w: World, name: Seq<char>, x: Local, bytes: nat) -> Option<World> {
    let top = w.env.scopes.last();
    let now = taken(w.env.scopes) + bytes;
    if now > u32::MAX {
        None
    } else {
        Some(
            World {
                env: Env {
                    scopes: w.env.scopes.drop_last().push(
                        Frame { vars: top.vars.insert(name, x), bytes: top.bytes + bytes },
                    ),
                    ..w.env
                },
                peak: if now > w.peak {
                    now
                } else {
                    w.peak
                },
            },
        )
    }
}

/// With a local whose value is not known before the probe runs.
pub open spec fn with_variable(w: World, name: Seq<char>, t: Sort, mutable: bool) -> Option<
    World,
> {
    with_local(w, name, Local { ty: t, mutable, konst: None }, room(t))
}

// ---------------------------------------------------------------- statements

/// The type that an annotation names.
pub open spec fn annotated(t: tree::Type) -> Option<Sort> {
    let name = t.name.name;
    if t.args.len() == 0 {
        if name == "u8"@ {
            Some(Sort::U8)
        } else if name == "u16"@ {
            Some(Sort::U16)
        } else if name == "u32"@ || name == "ipv4"@ {
            Some(Sort::U32)
        } else if name == "u64"@ {
            Some(Sort::U64)
        } else if name == "i64"@ {
            Some(Sort::I64)
        } else if name == "bool"@ {
            Some(Sort::Bool)
        } else if name == "ipv6"@ {
            Some(Sort::Ipv6)
        } else if name == "mac"@ {
            Some(Sort::Mac)
        } else {
            None
        }
    } else if name == "str"@ && t.args.len() == 1 {
        match t.args[0] {
            tree::TypeArg::Int(n) => if 1 <= n <= 256 {
                Some(Sort::Str(n as u32))
            } else {
                None
            },
            _ => None,
        }
    } else {
        None
    }
}

/// The arguments of a call of the builtin `name`.
pub open spec fn call_of(e: tree::Expr, name: Seq<char>) -> Option<Seq<tree::Expr>> {
    match e.kind {
        tree::ExprKind::Call { callee, args } => match callee.kind {
            tree::ExprKind::Ident(n) => if n == name {
                Some(args)
            } else {
                None
            },
            _ => None,
        },
        _ => None,
    }
}

/// An address that a text can be read from.
pub open spec fn address(t: Option<Sort>, kernel: bool) -> bool {
    match t {
        Some(Sort::U64) | Some(Sort::Int) => true,
        Some(Sort::KPtr(_)) | Some(Sort::KCharPtr) => kernel,
        _ => false,
    }
}

/// The text that a `let` reads: into a buffer of the annotated length.
pub open spec fn text_read(
    w: World,
    ty: Option<tree::Type>,
    args: Seq<tree::Expr>,
    kernel: bool,
) -> Option<Sort> {
    match ty {
        Some(t) => match annotated(t) {
            Some(Sort::Str(n)) => if args.len() == 1 && address(typed(w.env, args[0]), kernel) {
                Some(Sort::Str(n))
            } else {
                None
            },
            _ => None,
        },
        None => None,
    }
}

/// The struct that `ptr<S>` points to.
pub open spec fn pointed(v: Env, t: tree::Type) -> Option<Seq<char>> {
    if t.args.len() == 1 {
        match t.args[0] {
            tree::TypeArg::Type(s) => if s.args.len() == 0 && (v.kernel matches Some(k)
                && k.structs.contains_key(s.name.name)) {
                Some(s.name.name)
            } else {
                None
            },
            _ => None,
        }
    } else {
        None
    }
}

/// The type of the local that a `let` declares.
pub open spec fn let_type(w: World, ty: Option<tree::Type>, value: tree::Expr) -> Option<Sort> {
    match (call_of(value, "read_user_str"@), call_of(value, "read_kernel_str"@), ty) {
        (Some(args), _, _) => text_read(w, ty, args, false),
        (_, Some(args), _) => text_read(w, ty, args, true),
        (_, _, Some(t)) => if t.name.name == "ptr"@ {
            match pointed(w.env, t) {
                Some(s) => if address(typed(w.env, value), true) {
                    Some(Sort::KPtr(s))
                } else {
                    None
                },
                None => None,
            }
        } else {
            match (annotated(t), typed(w.env, value)) {
                (Some(want), Some(have)) => if takes(want, value, have) && !(want is Str) {
                    Some(want)
                } else {
                    None
                },
                _ => None,
            }
        },
        _ => match typed(w.env, value) {
            Some(Sort::Int) => Some(Sort::U64),
            Some(Sort::Unit) | Some(Sort::Str(_)) | None => None,
            Some(t) => Some(t),
        },
    }
}

/// A value that a mutable local can be set to.
pub open spec fn assignable(w: World, target: tree::Expr, value: tree::Expr) -> bool {
    match target.kind {
        tree::ExprKind::Ident(n) => match lookup(w.env.scopes, n) {
            Some(x) => {
                &&& x.mutable
                &&& !(x.ty is Ipv6 || x.ty is Mac)
                &&& typed(w.env, value) matches Some(t) && takes(x.ty, value, t)
            },
            None => false,
        },
        _ => false,
    }
}

/// Inside the body of an `if`.
pub open spec fn under_condition(w: World, c: tree::Cond) -> Option<World> {
    match c {
        tree::Cond::Expr(e) => if typed(w.env, e) == Some(Sort::Bool) {
            Some(inside(w))
        } else {
            None
        },
        tree::Cond::Let { pattern, value } => match typed(w.env, value) {
            Some(Sort::Option(t)) => match pattern.binding {
                Some(b) => if pattern.name.name == "Some"@ {
                    with_variable(inside(w), b.name, Sort::Ref(t), false)
                } else {
                    None
                },
                None => if pattern.name.name == "None"@ {
                    Some(inside(w))
                } else {
                    None
                },
            },
            _ => None,
        },
    }
}

/// The first field of a name that an event declares.
pub open spec fn is_field_type(
    declared: Seq<(Seq<char>, Sort)>,
    name: Seq<char>,
    t: Sort,
) -> bool {
    exists|k: int|
        {
            &&& 0 <= k < declared.len()
            &&& (#[trigger] declared[k]).0 == name
            &&& declared[k].1 == t
            &&& forall|j: int| 0 <= j < k ==> (#[trigger] declared[j]).0 != name
        }
}

/// A value that a field of an event can be set to.
pub open spec fn field_value(v: Env, t: Sort, value: tree::Expr) -> bool {
    if call_of(value, "comm"@) is Some {
        t is Str
    } else {
        typed(v, value) matches Some(have) && takes(t, value, have)
    }
}

/// A field of an `emit` that the event has, set to a value of its type.
pub open spec fn set_right(
    v: Env,
    declared: Seq<(Seq<char>, Sort)>,
    f: (tree::Ident, tree::Expr),
) -> bool {
    exists|t: Sort| #[trigger] is_field_type(declared, f.0.name, t) && field_value(v, t, f.1)
}

/// A field of an event that an `emit` sets.
pub open spec fn is_set(fields: Seq<(tree::Ident, tree::Expr)>, name: Seq<char>) -> bool {
    exists|i: int| 0 <= i < fields.len() && (#[trigger] fields[i]).0.name == name
}

/// An `emit` sets every field of a declared event, each once and to a value of
/// its type.
pub open spec fn emits(
    v: Env,
    event: Seq<char>,
    fields: Seq<(tree::Ident, tree::Expr)>,
) -> bool {
    &&& v.events.contains_key(event)
    &&& forall|i: int, j: int|
        0 <= i < j < fields.len() ==> (#[trigger] fields[i]).0.name != (
        #[trigger] fields[j]).0.name
    &&& forall|i: int|
        0 <= i < fields.len() ==> set_right(v, v.events[event], #[trigger] fields[i])
    &&& forall|k: int|
        0 <= k < v.events[event].len() ==> is_set(fields, (#[trigger] v.events[event][k]).0)
}

/// The world behind the statements of a list from `i` on.
pub open spec fn after_all(w: World, list: Seq<tree::Stmt>, i: int) -> Option<World>
    decreases list, list.len() - i,
{
    if 0 <= i < list.len() {
        match after(w, list[i]) {
            Some(w1) => after_all(w1, list, i + 1),
            None => None,
        }
    } else {
        Some(w)
    }
}

/// The world behind a block that is entered as `w`, outside it again.
pub open spec fn after_block(w: Option<World>, b: tree::Block) -> Option<World>
    decreases b, 0int,
{
    match w {
        Some(w0) => match after_all(w0, b.stmts, 0) {
            Some(w1) => Some(outside(w1)),
            None => None,
        },
        None => None,
    }
}

/// The world behind the iterations of a loop for `k` and what follows up to
/// `hi`. Inside, the variable is a number that is known.
pub open spec fn after_iterations(
    w: World,
    var: Seq<char>,
    k: int,
    hi: int,
    body: tree::Block,
) -> Option<World>
    decreases
            body,
            if k < hi {
                hi - k
            } else {
                0
            } + 2,
{
    let x = Local { ty: Sort::U64, mutable: false, konst: Some(k as i64) };
    match after_block(with_local(inside(w), var, x, 0), body) {
        Some(w1) => if k + 1 < hi {
            after_iterations(w1, var, k + 1, hi, body)
        } else {
            Some(w1)
        },
        None => None,
    }
}

/// The world behind a statement, if it may stand in this one.
pub open spec fn after(w: World, x: tree::Stmt) -> Option<World>
    decreases x, 0int,
{
    match x.kind {
        tree::StmtKind::Let { mutable, name, ty, value } => match let_type(w, ty, value) {
            Some(t) => with_variable(w, name.name, t, mutable),
            None => None,
        },
        tree::StmtKind::Assign { target, value } => if assignable(w, target, value) {
            Some(w)
        } else {
            None
        },
        tree::StmtKind::If { cond, body, otherwise } => match after_block(
            under_condition(w, cond),
            body,
        ) {
            Some(w1) => match otherwise {
                Some(b) => after_block(Some(inside(w1)), b),
                None => Some(w1),
            },
            None => None,
        },
        tree::StmtKind::For { var, start, end, body } => match (
            fixed(w.env, start),
            fixed(w.env, end),
        ) {
            (Some(lo), Some(hi)) => if lo <= hi <= lo + 64 {
                after_iterations(w, var.name, lo, hi, body)
            } else {
                None
            },
            _ => None,
        },
        tree::StmtKind::Emit { event, fields } => if emits(w.env, event.name, fields) {
            Some(w)
        } else {
            None
        },
        tree::StmtKind::Return(value) => if value is None {
            Some(w)
        } else {
            None
        },
        tree::StmtKind::Expr(e) => match typed(w.env, e) {
            Some(t) => if e.kind is MethodCall || t is Unit {
                Some(w)
            } else {
                None
            },
            None => None,
        },
    }
}

// -------------------------------------------------------- the checker agrees

pub open spec fn world(s: State) -> World {
    World { env: s.env, peak: s.peak }
}

/// Something was said, or there is no answer.
pub open spec fn loud(s: State, t: State) -> bool {
    !t.ok || t.notes.len() > s.notes.len()
}

/// Checking went from `s` to `t` as it should.
pub open spec fn agrees(s: State, t: State, w: Option<World>) -> bool {
    match w {
        Some(w1) => t.env == w1.env && t.peak == w1.peak && t.notes == s.notes && t.ok,
        None => loud(s, t),
    }
}

proof fn lemma_with_local(s: State, name: Seq<char>, x: Local, bytes: nat)
    requires
        s.env.scopes.len() > 0,
        s.ok,
    ensures
        agrees(s, put(s, name, x, bytes), with_local(world(s), name, x, bytes)),
{
    lemma_taken(s.env.scopes);
    let top = s.env.scopes.last();
    let f = Frame { vars: top.vars.insert(name, x), bytes: top.bytes + bytes };
    assert(s.env.scopes.update(s.env.scopes.len() - 1, f) =~= s.env.scopes.drop_last().push(f));
}

proof fn lemma_annotated(t: tree::Type)
    ensures
        annotated(t) == match crate::rules::sort_of(t) {
            Ok(x) => Some(x),
            Err(_) => None,
        },
{
    reveal_strlit("str");
    reveal_strlit("u8");
    reveal_strlit("u16");
    reveal_strlit("u32");
    reveal_strlit("u64");
    reveal_strlit("i64");
    reveal_strlit("bool");
    reveal_strlit("ipv4");
    reveal_strlit("ipv6");
    reveal_strlit("mac");
    assert("str"@.len() == 3 && "u8"@.len() == 2 && "u16"@.len() == 3 && "u32"@.len() == 3);
    assert("u64"@.len() == 3 && "i64"@.len() == 3 && "bool"@.len() == 4 && "mac"@.len() == 3);
    assert("ipv4"@.len() == 4 && "ipv6"@.len() == 4);
    assert("mac"@[0] == 'm' && "str"@[0] == 's' && "u16"@[0] == 'u' && "i64"@[0] == 'i');
    assert("u32"@[0] == 'u' && "u64"@[0] == 'u' && "u16"@[1] == '1' && "u32"@[1] == '3');
    assert("u64"@[1] == '6' && "ipv4"@[3] == '4' && "ipv6"@[3] == '6' && "bool"@[0] == 'b');
    assert("ipv4"@[0] == 'i' && "ipv6"@[0] == 'i');
}

/// A note that was said, and a local declared behind it, is heard.
proof fn lemma_loud_put(s: State, t: State, name: Seq<char>, x: Local, bytes: nat)
    requires
        loud(s, t),
    ensures
        loud(s, put(t, name, x, bytes)),
{
}

proof fn lemma_readers_differ()
    ensures
        "read_user_str"@ != "read_kernel_str"@,
{
    reveal_strlit("read_user_str");
    reveal_strlit("read_kernel_str");
    assert("read_user_str"@.len() == 13 && "read_kernel_str"@.len() == 15);
}

proof fn lemma_let_agrees(
    s: State,
    mutable: bool,
    name: Seq<char>,
    ty: Option<tree::Type>,
    value: tree::Expr,
)
    requires
        s.env.scopes.len() > 0,
        s.ok,
    ensures
        agrees(
            s,
            let_stmt(s, mutable, name, ty, value),
            match let_type(world(s), ty, value) {
                Some(t) => with_variable(world(s), name, t, mutable),
                None => None,
            },
        ),
{
    lemma_readers_differ();
    match crate::rules::reader(value) {
        Some((fname, kernel)) => {
            let args = value.kind->Call_args;
            lemma_let_read_agrees(s, mutable, name, ty, value, args, fname, kernel);
        },
        None => match ty {
            Some(t) => if t.name.name == "ptr"@ {
                lemma_let_ptr_agrees(s, mutable, name, t, value);
            } else {
                lemma_let_value_agrees(s, mutable, name, ty, value);
            },
            None => lemma_let_value_agrees(s, mutable, name, ty, value),
        },
    }
}

proof fn lemma_read_arg_agrees(
    s: State,
    value: tree::Expr,
    args: Seq<tree::Expr>,
    fname: Seq<char>,
    kernel: bool,
)
    requires
        s.ok,
        value.kind matches tree::ExprKind::Call { args: a, .. } && a == args,
    ensures
        ({
            let r = crate::rules::read_arg(s, value, fname, kernel);
            if args.len() == 1 && address(typed(s.env, args[0]), kernel) {
                r == s
            } else {
                loud(s, r)
            }
        }),
{
    let r = crate::rules::read_arg(s, value, fname, kernel);
    if args.len() == 1 {
        lemma_checker_finds_types(s.env, args[0]);
        if address(typed(s.env, args[0]), kernel) {
            assert(r.notes =~= s.notes);
        }
    }
}

proof fn lemma_let_read_agrees(
    s: State,
    mutable: bool,
    name: Seq<char>,
    ty: Option<tree::Type>,
    value: tree::Expr,
    args: Seq<tree::Expr>,
    fname: Seq<char>,
    kernel: bool,
)
    requires
        s.env.scopes.len() > 0,
        s.ok,
        value.kind matches tree::ExprKind::Call { args: a, .. } && a == args,
    ensures
        agrees(
            s,
            crate::rules::let_read(s, mutable, name, ty, value, fname, kernel),
            match text_read(world(s), ty, args, kernel) {
                Some(t) => with_variable(world(s), name, t, mutable),
                None => None,
            },
        ),
{
    let arg = crate::rules::read_arg(s, value, fname, kernel);
    lemma_read_arg_agrees(s, value, args, fname, kernel);
    if let Some(t) = ty {
        lemma_annotated(t);
        if let Some(x) = annotated(t) {
            lemma_with_local(s, name, Local { ty: x, mutable, konst: None }, room(x));
        }
    }
}

proof fn lemma_let_ptr_agrees(
    s: State,
    mutable: bool,
    name: Seq<char>,
    t: tree::Type,
    value: tree::Expr,
)
    requires
        s.env.scopes.len() > 0,
        s.ok,
        crate::rules::reader(value) is None,
        t.name.name == "ptr"@,
    ensures
        agrees(
            s,
            let_stmt(s, mutable, name, Some(t), value),
            match let_type(world(s), Some(t), value) {
                Some(x) => with_variable(world(s), name, x, mutable),
                None => None,
            },
        ),
{
    lemma_checker_finds_types(s.env, value);
    let (target, notes) = crate::rules::ptr_target(s.env, t);
    assert((target == pointed(s.env, t)) && (target is Some) == (notes.len() == 0));
    match let_type(world(s), Some(t), value) {
        Some(x) => {
            lemma_with_local(s, name, Local { ty: x, mutable, konst: None }, room(x));
            let o = expr(s.env, value);
            assert(s.notes + notes + o.notes + none() =~= s.notes);
        },
        None => {},
    }
}

proof fn lemma_let_value_agrees(
    s: State,
    mutable: bool,
    name: Seq<char>,
    ty: Option<tree::Type>,
    value: tree::Expr,
)
    requires
        s.env.scopes.len() > 0,
        s.ok,
        crate::rules::reader(value) is None,
        ty matches Some(t) ==> t.name.name != "ptr"@,
    ensures
        agrees(
            s,
            let_stmt(s, mutable, name, ty, value),
            match let_type(world(s), ty, value) {
                Some(t) => with_variable(world(s), name, t, mutable),
                None => None,
            },
        ),
{
    lemma_checker_finds_types(s.env, value);
    if let Some(t) = ty {
        lemma_annotated(t);
    }
    let o = expr(s.env, value);
    let (bound, notes) = crate::rules::bound_type(ty, value, o);
    match let_type(world(s), ty, value) {
        Some(t) => {
            lemma_with_local(s, name, Local { ty: t, mutable, konst: None }, room(t));
            assert(notes.len() == 0);
            assert(s.notes + o.notes + notes + none() =~= s.notes);
        },
        None => {},
    }
}

proof fn lemma_assign_agrees(s: State, target: tree::Expr, value: tree::Expr)
    requires
        s.ok,
    ensures
        agrees(
            s,
            assign(s, target, value),
            if assignable(world(s), target, value) {
                Some(world(s))
            } else {
                None
            },
        ),
{
    lemma_checker_finds_types(s.env, value);
    if assignable(world(s), target, value) {
        let o = expr(s.env, value);
        assert(s.notes + (none() + none()) + (o.notes + none() + (none() + none())) =~= s.notes);
        assert(assign(s, target, value).notes =~= s.notes);
    }
}

proof fn lemma_condition_agrees(s: State, c: tree::Cond)
    requires
        s.ok,
    ensures
        agrees(s, if_entry(s, c), under_condition(world(s), c)),
{
    reveal_strlit("Some");
    reveal_strlit("None");
    assert("Some"@[0] == 'S' && "None"@[0] == 'N');
    match c {
        tree::Cond::Expr(e) => {
            lemma_checker_finds_types(s.env, e);
            if typed(s.env, e) == Some(Sort::Bool) {
                assert(if_entry(s, c).notes =~= s.notes);
            }
        },
        tree::Cond::Let { pattern, value } => {
            lemma_checker_finds_types(s.env, value);
            let o = expr(s.env, value);
            let s1 = push_scope(heard(s, o));
            if typed(s.env, value) matches Some(Sort::Option(t)) {
                assert(s1.notes =~= s.notes);
                assert(s1.env.scopes =~= inside(world(s)).env.scopes);
                if let Sort::Option(inner) = o.ty {
                    if let Some(b) = pattern.binding {
                        let x = Local { ty: Sort::Ref(inner), mutable: false, konst: None };
                        lemma_with_local(s1, b.name, x, 8);
                    }
                }
            }
        },
    }
}

/// Field number `k` of an `emit` is in order.
spec fn field_fits(
    v: Env,
    declared: Seq<(Seq<char>, Sort)>,
    fields: Seq<(tree::Ident, tree::Expr)>,
    k: int,
) -> bool {
    &&& !crate::rules::given(fields, k, fields[k].0.name)
    &&& crate::rules::declared_type(declared, fields[k].0.name, 0) matches Some(t) && field_value(
        v,
        t,
        fields[k].1,
    )
}

proof fn lemma_field_agrees(
    v: Env,
    event: Seq<char>,
    declared: Seq<(Seq<char>, Sort)>,
    fields: Seq<(tree::Ident, tree::Expr)>,
    k: int,
)
    requires
        0 <= k < fields.len(),
    ensures
        silent(emit_field(v, event, declared, fields, k)) == field_fits(v, declared, fields, k),
{
    lemma_checker_finds_types(v, fields[k].1);
}

proof fn lemma_fields_agree(
    s: State,
    event: Seq<char>,
    declared: Seq<(Seq<char>, Sort)>,
    fields: Seq<(tree::Ident, tree::Expr)>,
    i: int,
)
    requires
        0 <= i,
    ensures
        emit_fields(s, event, declared, fields, i).notes.len() >= s.notes.len(),
        emit_fields(s, event, declared, fields, i).ok ==> s.ok,
        s.ok && (forall|k: int|
            i <= k < fields.len() ==> #[trigger] field_fits(s.env, declared, fields, k))
            ==> emit_fields(s, event, declared, fields, i) == s,
        forall|k: int|
            i <= k < fields.len() && !(#[trigger] field_fits(s.env, declared, fields, k)) ==> loud(
                s,
                emit_fields(s, event, declared, fields, i),
            ),
    decreases fields.len() - i,
{
    if i < fields.len() && s.ok {
        let o = emit_field(s.env, event, declared, fields, i);
        let s1 = heard(s, o);
        lemma_field_agrees(s.env, event, declared, fields, i);
        lemma_fields_agree(s1, event, declared, fields, i + 1);
        if field_fits(s.env, declared, fields, i) {
            assert(s1.notes =~= s.notes);
            assert(s1 == s);
        }
    }
}

proof fn lemma_declared_type(declared: Seq<(Seq<char>, Sort)>, name: Seq<char>, i: int)
    requires
        0 <= i <= declared.len(),
        forall|j: int| 0 <= j < i ==> (#[trigger] declared[j]).0 != name,
    ensures
        match crate::rules::declared_type(declared, name, i) {
            Some(t) => is_field_type(declared, name, t),
            None => forall|t: Sort| !is_field_type(declared, name, t),
        },
        forall|t: Sort|
            #[trigger] is_field_type(declared, name, t) ==> crate::rules::declared_type(
                declared,
                name,
                i,
            ) == Some(t),
    decreases declared.len() - i,
{
    if i < declared.len() {
        if declared[i].0 == name {
            assert(is_field_type(declared, name, declared[i].1));
        } else {
            lemma_declared_type(declared, name, i + 1);
        }
    }
}

proof fn lemma_missing_agrees(
    event: Seq<char>,
    declared: Seq<(Seq<char>, Sort)>,
    fields: Seq<(tree::Ident, tree::Expr)>,
    span: crate::token::Span,
    i: int,
)
    requires
        0 <= i,
    ensures
        (missing_fields(event, declared, fields, span, i).len() == 0) == (forall|k: int|
            i <= k < declared.len() ==> crate::rules::given(
                fields,
                fields.len() as int,
                (#[trigger] declared[k]).0,
            )),
    decreases declared.len() - i,
{
    if i < declared.len() {
        lemma_missing_agrees(event, declared, fields, span, i + 1);
        let rest = missing_fields(event, declared, fields, span, i + 1);
        if crate::rules::given(fields, fields.len() as int, declared[i].0) {
            assert(missing_fields(event, declared, fields, span, i) =~= rest);
        } else {
            assert(missing_fields(event, declared, fields, span, i).len() > 0);
        }
    }
}

proof fn lemma_field_fits(
    v: Env,
    declared: Seq<(Seq<char>, Sort)>,
    fields: Seq<(tree::Ident, tree::Expr)>,
    k: int,
)
    requires
        0 <= k < fields.len(),
    ensures
        field_fits(v, declared, fields, k) == (!crate::rules::given(fields, k, fields[k].0.name)
            && set_right(v, declared, fields[k])),
{
    lemma_declared_type(declared, fields[k].0.name, 0);
}

proof fn lemma_emits(v: Env, event: Seq<char>, fields: Seq<(tree::Ident, tree::Expr)>)
    requires
        v.events.contains_key(event),
    ensures
        emits(v, event, fields) == ({
            let declared = v.events[event];
            &&& forall|k: int|
                0 <= k < fields.len() ==> #[trigger] field_fits(v, declared, fields, k)
            &&& forall|k: int|
                0 <= k < declared.len() ==> crate::rules::given(
                    fields,
                    fields.len() as int,
                    (#[trigger] declared[k]).0,
                )
        }),
{
    let declared = v.events[event];
    assert forall|k: int| 0 <= k < fields.len() implies #[trigger] field_fits(
        v,
        declared,
        fields,
        k,
    ) == (!crate::rules::given(fields, k, fields[k].0.name) && set_right(
        v,
        declared,
        fields[k],
    )) by {
        lemma_field_fits(v, declared, fields, k);
    }
    let each = forall|k: int|
        0 <= k < fields.len() ==> #[trigger] field_fits(v, declared, fields, k);
    if each {
        assert forall|i: int, j: int| 0 <= i < j < fields.len() implies (
        #[trigger] fields[i]).0.name != (#[trigger] fields[j]).0.name by {
            assert(field_fits(v, declared, fields, j));
        }
        assert forall|i: int| 0 <= i < fields.len() implies set_right(
            v,
            declared,
            #[trigger] fields[i],
        ) by {
            assert(field_fits(v, declared, fields, i));
        }
    }
    assert forall|k: int| 0 <= k < declared.len() implies crate::rules::given(
        fields,
        fields.len() as int,
        (#[trigger] declared[k]).0,
    ) == is_set(fields, declared[k].0) by {}
}

proof fn lemma_emit_agrees(
    s: State,
    event: tree::Ident,
    fields: Seq<(tree::Ident, tree::Expr)>,
    span: crate::token::Span,
)
    requires
        s.ok,
    ensures
        agrees(
            s,
            emit(s, event, fields, span),
            if emits(s.env, event.name, fields) {
                Some(world(s))
            } else {
                None
            },
        ),
{
    if s.env.events.contains_key(event.name) {
        let declared = s.env.events[event.name];
        lemma_emits(s.env, event.name, fields);
        lemma_fields_agree(s, event.name, declared, fields, 0);
        lemma_missing_agrees(event.name, declared, fields, span, 0);
        let missing = missing_fields(event.name, declared, fields, span, 0);
        if emits(s.env, event.name, fields) {
            assert(emit(s, event, fields, span).notes =~= s.notes);
        }
    }
}

proof fn lemma_expr_agrees(s: State, e: tree::Expr)
    requires
        s.ok,
    ensures
        agrees(
            s,
            crate::rules::expr_stmt(s, e),
            match typed(s.env, e) {
                Some(t) => if e.kind is MethodCall || t is Unit {
                    Some(world(s))
                } else {
                    None
                },
                None => None,
            },
        ),
{
    lemma_checker_finds_types(s.env, e);
    let o = expr(s.env, e);
    if silent(o) {
        assert(s.notes + o.notes + none() =~= s.notes);
    }
}

proof fn lemma_stmts_agree(s: State, list: Seq<tree::Stmt>, i: int)
    requires
        s.ok,
        s.env.scopes.len() > 0,
        covered(s),
    ensures
        agrees(s, stmts(s, list, i), after_all(world(s), list, i)),
    decreases list, list.len() - i,
{
    if 0 <= i < list.len() {
        let s1 = stmt(s, list[i]);
        lemma_stmt_agrees(s, list[i]);
        lemma_stmt_follows(s, list[i]);
        lemma_stmts_follow(s1, list, i + 1);
        match after(world(s), list[i]) {
            Some(w1) => {
                assert(world(s1) == w1);
                lemma_stmts_agree(s1, list, i + 1);
            },
            None => {
                lemma_stays_loud(s, s1, list, i + 1);
            },
        }
    }
}

proof fn lemma_stays_loud(s: State, s1: State, list: Seq<tree::Stmt>, i: int)
    requires
        loud(s, s1),
        s1.env.scopes.len() > 0,
        covered(s1),
    ensures
        loud(s, stmts(s1, list, i)),
{
    lemma_stmts_follow(s1, list, i);
    if !s1.ok {
        assert(stmts(s1, list, i) == s1);
    }
}

/// A block that is entered from `s` as `inner`, and left again.
proof fn lemma_block_agrees(s: State, inner: State, w: Option<World>, b: tree::Block)
    requires
        agrees(s, inner, w),
        inner.env.scopes.len() > 0,
        covered(inner),
    ensures
        agrees(s, pop_scope(block(inner, b)), after_block(w, b)),
        inner.ok ==> agrees(inner, block(inner, b), after_all(world(inner), b.stmts, 0)),
    decreases b, 1int,
{
    if inner.ok {
        lemma_stmts_agree(inner, b.stmts, 0);
    }
    match w {
        Some(w0) => {
            assert(world(inner) == w0);
        },
        None => {
            lemma_stays_loud(s, inner, b.stmts, 0);
        },
    }
}

proof fn lemma_iterations_agree(s: State, var: Seq<char>, k: int, hi: int, body: tree::Block)
    requires
        s.ok,
        s.env.scopes.len() > 0,
        covered(s),
    ensures
        agrees(
            s,
            iterations(s, none(), var, k, hi, body),
            after_iterations(world(s), var, k, hi, body),
        ),
    decreases
            body,
            if k < hi {
                hi - k
            } else {
                0
            } + 2,
{
    let s0 = State { notes: none(), ..s };
    let x = Local { ty: Sort::U64, mutable: false, konst: Some(k as i64) };
    let opened = push_scope(s0);
    let inner = in_loop(s0, var, k);
    let w = with_local(inside(world(s)), var, x, 0);
    lemma_with_local(opened, var, x, 0);
    lemma_iteration_follows(s0, var, k, body);
    assert(agrees(s0, inner, w));
    lemma_block_agrees(s0, inner, w, body);
    let r = alone(s, var, k, body);
    let new = unsaid(none(), r.notes);
    let t = State { notes: s.notes + new, ..r };
    match after_block(w, body) {
        Some(w1) => {
            assert(r.notes =~= none());
            assert(t.notes =~= s.notes);
            assert(none() + new =~= none());
            assert(world(t) == w1);
            if k + 1 < hi {
                lemma_iterations_agree(t, var, k + 1, hi, body);
            }
        },
        None => {
            if r.ok {
                assert(r.notes.len() > 0);
                assert(!crate::rules::spoken(none(), r.notes[0].span));
                assert(new.len() > 0);
                if k + 1 < hi {
                    lemma_iterations_follow(t, none() + new, var, k + 1, hi, body);
                }
            }
        },
    }
}

proof fn lemma_for_agrees(
    s: State,
    var: tree::Ident,
    start: tree::Expr,
    end: tree::Expr,
    body: tree::Block,
)
    requires
        s.ok,
        s.env.scopes.len() > 0,
        covered(s),
    ensures
        ({
            let (s1, range) = for_entry(s, start, end);
            agrees(
                s,
                match range {
                    Some((lo, hi)) => iterations(
                        s1,
                        none(),
                        var.name,
                        lo as int,
                        hi as int,
                        body,
                    ),
                    None => s1,
                },
                match (fixed(s.env, start), fixed(s.env, end)) {
                    (Some(lo), Some(hi)) => if lo <= hi <= lo + 64 {
                        after_iterations(world(s), var.name, lo, hi, body)
                    } else {
                        None
                    },
                    _ => None,
                },
            )
        }),
    decreases body, 100int,
{
    lemma_constants_are_what_they_are(s.env, start);
    lemma_constants_are_what_they_are(s.env, end);
    let (s1, range) = for_entry(s, start, end);
    if let Some((lo, hi)) = range {
        lemma_iterations_follow(s1, none(), var.name, lo as int, hi as int, body);
        crate::safety::lemma_iterations_ok(s1, none(), var.name, lo as int, hi as int, body);
    }
    match (fixed(s.env, start), fixed(s.env, end)) {
        (Some(lo), Some(hi)) => if lo <= hi <= lo + 64 {
            assert(s1.notes =~= s.notes);
            assert(s1 == s);
            lemma_iterations_agree(s1, var.name, lo, hi, body);
        },
        _ => {},
    }
}

/// The checker is silent over a statement exactly where it may stand, and goes on
/// with what it declares.
pub proof fn lemma_stmt_agrees(s: State, x: tree::Stmt)
    requires
        s.ok,
        s.env.scopes.len() > 0,
        covered(s),
    ensures
        agrees(s, stmt(s, x), after(world(s), x)),
    decreases x, 0int,
{
    match x.kind {
        tree::StmtKind::Let { mutable, name, ty, value } => {
            lemma_let_agrees(s, mutable, name.name, ty, value);
        },
        tree::StmtKind::Assign { target, value } => lemma_assign_agrees(s, target, value),
        tree::StmtKind::If { cond, body, otherwise } => {
            let inner = if_entry(s, cond);
            lemma_condition_agrees(s, cond);
            lemma_if_entry(s, cond);
            lemma_block_agrees(s, inner, under_condition(world(s), cond), body);
            lemma_block_follows(inner, body);
            lemma_closed(s, inner, block(inner, body));
            let s1 = pop_scope(block(inner, body));
            if let Some(b) = otherwise {
                let w1 = after_block(under_condition(world(s), cond), body);
                let again = push_scope(s1);
                assert(again.env.scopes.drop_last() =~= s1.env.scopes);
                let w2 = match w1 {
                    Some(w) => Some(inside(w)),
                    None => None,
                };
                assert(agrees(s, again, w2));
                lemma_block_agrees(s, again, w2, b);
            }
        },
        tree::StmtKind::For { var, start, end, body } => {
            lemma_for_agrees(s, var, start, end, body);
        },
        tree::StmtKind::Emit { event, fields } => lemma_emit_agrees(s, event, fields, x.span),
        tree::StmtKind::Return(value) => {},
        tree::StmtKind::Expr(e) => lemma_expr_agrees(s, e),
    }
}

// --------------------------------------------------------------------- items

/// A type whose values fit in a register.
pub open spec fn scalar(t: Option<Sort>) -> bool {
    match t {
        Some(x) => integer(x) || x is Bool,
        None => false,
    }
}

/// The type and the value of a constant: a literal that fits.
pub open spec fn constant(c: tree::ConstDecl) -> Option<(Sort, u64)> {
    let t = annotated(c.ty);
    if !scalar(t) {
        None
    } else {
        match c.value.kind {
            tree::ExprKind::Int(n) => if integer(t->0) ==> n < limit(t->0) {
                Some((t->0, n))
            } else {
                None
            },
            tree::ExprKind::Bool(b) => Some(
                (
                    t->0,
                    if b {
                        1
                    } else {
                        0
                    },
                ),
            ),
            _ => None,
        }
    }
}

/// The types of the keys and the values of a map. An array has numbers of 32 bits
/// for keys.
pub open spec fn table(m: tree::MapDecl) -> Option<(Sort, Sort)> {
    if m.capacity == 0 {
        None
    } else if m.kind.name == "hash"@ && m.args.len() == 2 && scalar(annotated(m.args[0]))
        && scalar(annotated(m.args[1])) {
        Some((annotated(m.args[0])->0, annotated(m.args[1])->0))
    } else if m.kind.name == "array"@ && m.args.len() == 1 && scalar(annotated(m.args[0])) {
        Some((Sort::U32, annotated(m.args[0])->0))
    } else {
        None
    }
}

/// The fields of an event: every one has a type, and a name of its own.
pub open spec fn record(e: tree::EventDecl) -> Option<Seq<(Seq<char>, Sort)>> {
    let f = e.fields;
    if (forall|i: int| 0 <= i < f.len() ==> annotated((#[trigger] f[i]).ty) is Some) && (
    forall|i: int, j: int|
        0 <= i < j < f.len() ==> (#[trigger] f[i]).name.name != (#[trigger] f[j]).name.name) {
        Some(Seq::new(f.len(), |i: int| (f[i].name.name, annotated(f[i].ty)->0)))
    } else {
        None
    }
}

/// What is declared behind an item.
pub open spec fn with_item(v: Env, item: tree::Item) -> Option<Env> {
    match item {
        tree::Item::Const(c) => match constant(c) {
            Some(x) => Some(Env { consts: v.consts.insert(c.name.name, x), ..v }),
            None => None,
        },
        tree::Item::MapDecl(m) => match table(m) {
            Some(x) => Some(Env { maps: v.maps.insert(m.name.name, x), ..v }),
            None => None,
        },
        tree::Item::Event(e) => match record(e) {
            Some(x) => Some(Env { events: v.events.insert(e.name.name, x), ..v }),
            None => None,
        },
        tree::Item::Probe(_) => Some(v),
    }
}

/// What is declared behind the items from `i` on.
pub open spec fn with_items(v: Env, items: Seq<tree::Item>, i: int) -> Option<Env>
    decreases items.len() - i,
{
    if 0 <= i < items.len() {
        match with_item(v, items[i]) {
            Some(v1) => with_items(v1, items, i + 1),
            None => None,
        }
    } else {
        Some(v)
    }
}

/// How many colons a text has.
pub open spec fn colons(s: Seq<char>) -> nat {
    s.filter(|c: char| c == ':').len()
}

/// The kind of a probe, if it can be attached where it says.
pub open spec fn attached(p: tree::ProbeDecl) -> Option<ProbeKind> {
    let name = p.kind.name;
    if exists|i: int| 0 <= i < p.args.len() && (#[trigger] p.args[i]).len() == 0 {
        None
    } else if p.args.len() == 2 {
        if name == "tracepoint"@ {
            Some(ProbeKind::Tracepoint)
        } else {
            None
        }
    } else if p.args.len() != 1 {
        None
    } else if name == "kprobe"@ {
        Some(ProbeKind::Kprobe)
    } else if name == "kretprobe"@ {
        Some(ProbeKind::Kretprobe)
    } else if name == "lsm"@ {
        Some(ProbeKind::Lsm)
    } else if name == "xdp"@ {
        Some(ProbeKind::Xdp)
    } else if name == "uprobe"@ && colons(p.args[0]) >= 1 {
        Some(ProbeKind::Uprobe)
    } else if name == "uretprobe"@ && colons(p.args[0]) >= 1 {
        Some(ProbeKind::Uretprobe)
    } else if name == "usdt"@ && colons(p.args[0]) == 2 {
        Some(ProbeKind::Usdt)
    } else {
        None
    }
}

/// The bytes of stack that a probe takes, if it is in order: at most 472.
pub open spec fn probe_room(v: Env, p: tree::ProbeDecl) -> Option<nat> {
    match attached(p) {
        None => None,
        Some(kind) => {
            let w = World {
                env: Env { scopes: Seq::empty(), probe: Some(kind), ..v },
                peak: 0,
            };
            match after_all(inside(w), p.body.stmts, 0) {
                Some(w1) => if w1.peak <= 472 {
                    Some(w1.peak)
                } else {
                    None
                },
                None => None,
            }
        },
    }
}

/// The most that any probe from `i` on takes, or `most`.
pub open spec fn probes_room(v: Env, items: Seq<tree::Item>, i: int, most: nat) -> Option<nat>
    decreases items.len() - i,
{
    if 0 <= i < items.len() {
        match items[i] {
            tree::Item::Probe(p) => match probe_room(v, p) {
                Some(n) => probes_room(
                    v,
                    items,
                    i + 1,
                    if n > most {
                        n
                    } else {
                        most
                    },
                ),
                None => None,
            },
            _ => probes_room(v, items, i + 1, most),
        }
    } else {
        Some(most)
    }
}

/// The bytes of stack that a program takes, if it is in order: its items are, it
/// has a probe, and so are its probes.
pub open spec fn program_room(p: tree::Program, kernel: Option<Kernel>) -> Option<nat> {
    let nothing = Env {
        kernel,
        consts: Map::empty(),
        maps: Map::empty(),
        events: Map::empty(),
        scopes: Seq::empty(),
        probe: None,
    };
    match with_items(nothing, p.items, 0) {
        Some(v) => if exists|i: int| 0 <= i < p.items.len() && (#[trigger] p.items[i]) is Probe {
            probes_room(v, p.items, 0, 0)
        } else {
            None
        },
        None => None,
    }
}

proof fn lemma_scalar(t: tree::Type)
    ensures
        scalar(annotated(t)) == (crate::rules::map_sort(t) is Ok),
        scalar(annotated(t)) ==> crate::rules::map_sort(t) == Ok::<Sort, Seq<char>>(
            annotated(t)->0,
        ),
{
    lemma_annotated(t);
}

proof fn lemma_fields_declared(
    f: Seq<tree::Field>,
    i: int,
    done: Seq<(Seq<char>, Sort)>,
    notes: Seq<crate::rules::Note>,
)
    requires
        0 <= i <= f.len(),
        done.len() == i,
        forall|j: int|
            0 <= j < i ==> annotated((#[trigger] f[j]).ty) is Some && done[j] == (
                f[j].name.name,
                annotated(f[j].ty)->0,
            ),
    ensures
        ({
            let (list, said) = event_fields(f, i, done, notes);
            let good = (forall|j: int|
                i <= j < f.len() ==> annotated((#[trigger] f[j]).ty) is Some) && (forall|
                j: int,
                k: int,
            |
                0 <= j < k < f.len() && i <= k ==> (#[trigger] f[j]).name.name != (
                #[trigger] f[k]).name.name);
            &&& said.len() >= notes.len()
            &&& (said.len() == notes.len()) == good
            &&& good ==> said == notes && list == Seq::new(
                f.len(),
                |j: int| (f[j].name.name, annotated(f[j].ty)->0),
            )
        }),
    decreases f.len() - i,
{
    if i < f.len() {
        lemma_annotated(f[i].ty);
        let name = f[i].name.name;
        match crate::rules::sort_of(f[i].ty) {
            Ok(ty) => {
                let more = done.push((name, ty));
                let said = notes + crate::rules::only_if(
                    has_field(done, name),
                    crate::rules::note(f[i].name.span, "duplicate field `"@ + name + "`"@),
                );
                assert forall|j: int| 0 <= j < i + 1 implies annotated(
                    (#[trigger] f[j]).ty,
                ) is Some && more[j] == (f[j].name.name, annotated(f[j].ty)->0) by {
                    if j < i {
                        assert(more[j] == done[j]);
                    }
                }
                lemma_fields_declared(f, i + 1, more, said);
                if has_field(done, name) {
                    let j = choose|j: int| 0 <= j < done.len() && (#[trigger] done[j]).0 == name;
                    assert(f[j].name.name == f[i].name.name);
                } else {
                    assert(said =~= notes);
                    assert forall|j: int| 0 <= j < i implies (#[trigger] f[j]).name.name
                        != name by {
                        assert(done[j].0 == f[j].name.name);
                    }
                }
            },
            Err(m) => {
                let said = notes + seq![crate::rules::note(f[i].ty.span, m)];
                lemma_notes_of_fields(f, i + 1, done, said);
            },
        }
    } else {
        assert(done =~= Seq::new(
            f.len(),
            |j: int| (f[j].name.name, annotated(f[j].ty)->0),
        ));
    }
}

proof fn lemma_notes_of_fields(
    f: Seq<tree::Field>,
    i: int,
    done: Seq<(Seq<char>, Sort)>,
    notes: Seq<crate::rules::Note>,
)
    ensures
        event_fields(f, i, done, notes).1.len() >= notes.len(),
    decreases f.len() - i,
{
    if 0 <= i < f.len() {
        let name = f[i].name.name;
        match crate::rules::sort_of(f[i].ty) {
            Ok(ty) => {
                let twice = notes + crate::rules::only_if(
                    has_field(done, name),
                    crate::rules::note(f[i].name.span, "duplicate field `"@ + name + "`"@),
                );
                let other = notes + seq![
                    crate::rules::note(
                        f[i].ty.span,
                        "event fields must be integers, bool or str<N>, not `"@
                            + crate::rules::sort_text(ty) + "`"@,
                    ),
                ];
                lemma_notes_of_fields(f, i + 1, done.push((name, ty)), twice);
                lemma_notes_of_fields(f, i + 1, done, other);
            },
            Err(m) => {
                lemma_notes_of_fields(
                    f,
                    i + 1,
                    done,
                    notes + seq![crate::rules::note(f[i].ty.span, m)],
                );
            },
        }
    }
}

proof fn lemma_item_agrees(v: Env, item: tree::Item)
    ensures
        ({
            let (v1, notes) = crate::rules::declare_item(v, item);
            match with_item(v, item) {
                Some(x) => v1 == x && notes.len() == 0,
                None => notes.len() > 0,
            }
        }),
{
    match item {
        tree::Item::Const(c) => lemma_annotated(c.ty),
        tree::Item::MapDecl(m) => {
            reveal_strlit("hash");
            reveal_strlit("array");
            assert("hash"@.len() == 4 && "array"@.len() == 5);
            if m.args.len() > 0 {
                lemma_scalar(m.args[0]);
            }
            if m.args.len() > 1 {
                lemma_scalar(m.args[1]);
            }
        },
        tree::Item::Event(e) => {
            lemma_fields_declared(e.fields, 0, Seq::empty(), none());
        },
        tree::Item::Probe(_) => {},
    }
}

proof fn lemma_items_agree(
    v: Env,
    items: Seq<tree::Item>,
    i: int,
    notes: Seq<crate::rules::Note>,
)
    requires
        0 <= i,
    ensures
        ({
            let (v1, said) = crate::rules::declare_items(v, items, i, notes);
            &&& said.len() >= notes.len()
            &&& match with_items(v, items, i) {
                Some(x) => v1 == x && said == notes,
                None => said.len() > notes.len(),
            }
        }),
    decreases items.len() - i,
{
    if i < items.len() {
        let (v1, n) = crate::rules::declare_item(v, items[i]);
        lemma_item_agrees(v, items[i]);
        lemma_items_agree(v1, items, i + 1, notes + n);
        if n.len() == 0 {
            assert(notes + n =~= notes);
        }
    }
}

proof fn lemma_colons(s: Seq<char>)
    ensures
        crate::rules::count(s, ':') == colons(s),
    decreases s.len(),
{
    reveal(Seq::filter);
    if s.len() > 0 {
        lemma_colons(s.drop_last());
    }
}

proof fn lemma_probe_names()
    ensures
        "tracepoint"@.len() == 10,
        "kprobe"@.len() == 6,
        "kretprobe"@.len() == 9,
        "lsm"@.len() == 3,
        "xdp"@.len() == 3,
        "uprobe"@.len() == 6,
        "uretprobe"@.len() == 9,
        "usdt"@.len() == 4,
        "lsm"@ != "xdp"@,
        "kprobe"@ != "uprobe"@,
        "kretprobe"@ != "uretprobe"@,
{
    reveal_strlit("tracepoint");
    reveal_strlit("kprobe");
    reveal_strlit("kretprobe");
    reveal_strlit("lsm");
    reveal_strlit("xdp");
    reveal_strlit("uprobe");
    reveal_strlit("uretprobe");
    reveal_strlit("usdt");
    assert("lsm"@[0] == 'l' && "xdp"@[0] == 'x');
    assert("kprobe"@[0] == 'k' && "uprobe"@[0] == 'u');
    assert("kretprobe"@[0] == 'k' && "uretprobe"@[0] == 'u');
}

proof fn lemma_attached(p: tree::ProbeDecl)
    ensures
        match attached(p) {
            Some(k) => crate::rules::probe_kind(p) == Ok::<ProbeKind, crate::rules::Note>(k)
                && crate::rules::attach_notes(p).len() == 0,
            None => crate::rules::attach_notes(p).len() > 0,
        },
{
    lemma_probe_names();
    if p.args.len() == 1 {
        lemma_colons(p.args[0]);
    }
}

proof fn lemma_probe_agrees(v: Env, p: tree::ProbeDecl, notes: Seq<crate::rules::Note>)
    ensures
        ({
            let s = crate::rules::probe(v, p, notes);
            &&& s.notes.len() >= notes.len()
            &&& match probe_room(v, p) {
                Some(n) => s.ok && s.notes == notes && s.peak == n,
                None => !s.ok || s.notes.len() > notes.len(),
            }
        }),
{
    reveal(crate::rules::probe);
    lemma_attached(p);
    let entry = crate::rules::probe_entry(v, p, notes);
    assert(covered(entry)) by {
        assert(entry.env.scopes.drop_last() =~= Seq::empty());
        assert(entry.env.scopes[0].bytes == 0);
        assert(total(entry.env.scopes) == total(entry.env.scopes.drop_last()) + 0);
    }
    lemma_stmts_follow(entry, p.body.stmts, 0);
    lemma_stmts_agree(entry, p.body.stmts, 0);
    if attached(p) is Some {
        assert(entry.notes =~= notes);
        let kind = attached(p)->0;
        let w = World { env: Env { scopes: Seq::empty(), probe: Some(kind), ..v }, peak: 0 };
        assert(world(entry) == inside(w));
        let s = block(entry, p.body);
        if probe_room(v, p) is Some {
            assert(crate::rules::probe(v, p, notes).notes =~= notes);
        }
    }
}

proof fn lemma_probes_agree(
    v: Env,
    items: Seq<tree::Item>,
    i: int,
    r: crate::rules::Report,
)
    requires
        0 <= i,
        r.ok,
    ensures
        ({
            let t = crate::rules::probes(v, items, i, r);
            &&& t.notes.len() >= r.notes.len()
            &&& match probes_room(v, items, i, r.peak) {
                Some(n) => t.ok && t.notes == r.notes && t.peak == n,
                None => !t.ok || t.notes.len() > r.notes.len(),
            }
        }),
    decreases items.len() - i,
{
    if i < items.len() {
        match items[i] {
            tree::Item::Probe(p) => {
                let s = crate::rules::probe(v, p, r.notes);
                let r1 = crate::rules::Report {
                    peak: if s.peak > r.peak {
                        s.peak
                    } else {
                        r.peak
                    },
                    notes: s.notes,
                    ok: s.ok,
                };
                lemma_probe_agrees(v, p, r.notes);
                if s.ok {
                    lemma_probes_agree(v, items, i + 1, r1);
                } else {
                    assert(crate::rules::probes(v, items, i + 1, r1) == r1);
                }
            },
            _ => lemma_probes_agree(v, items, i + 1, r),
        }
    }
}

/// The checker is silent over a program exactly where it is in order, and finds
/// how much of the stack it takes.
pub proof fn lemma_program_agrees(p: tree::Program, kernel: Option<Kernel>)
    ensures
        ({
            let r = crate::rules::program(p, kernel);
            match program_room(p, kernel) {
                Some(n) => r.ok && r.notes.len() == 0 && r.peak == n,
                None => !r.ok || r.notes.len() > 0,
            }
        }),
{
    lemma_items_agree(crate::rules::start(kernel), p.items, 0, none());
    let (v, notes) = crate::rules::declare_items(crate::rules::start(kernel), p.items, 0, none());
    let all = notes + crate::rules::only_if(
        !crate::rules::has_probe(p.items),
        crate::rules::note(
            crate::token::Span { start: 0, end: 0 },
            "program has no `probe`"@,
        ),
    );
    lemma_probes_agree(v, p.items, 0, crate::rules::Report { peak: 0, notes: all, ok: true });
    if all.len() == 0 {
        assert(all =~= none());
    }
}

} // verus!
