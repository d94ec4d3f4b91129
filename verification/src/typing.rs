//! Which expressions have a type, and which type that is.
//!
//! This is the language as its users know it, stated apart from the checker: an
//! expression has a type or it has none. The checker agrees with it: it is silent
//! exactly over the expressions that have a type, and gives that type.

use crate::addr;
use crate::ast::{BinaryOp, UnaryOp};
use crate::btf::{member_named, shape_of, Shape};
use crate::rules::{
    binary, builtin, call, const_eval, expecting, expr, exprs, from_call, is_id_builtin,
    is_process_builtin, local_in, local_method, lookup, map_method, method, operate, packet_method,
    side, Env, Out, ProbeKind, Sort,
};
use crate::tree;
use vstd::prelude::*;
use vstd::utf8::encode_utf8;

verus! {

// ----------------------------------------------------------------- constants

/// 64 bits read as a signed number.
pub open spec fn signed64(n: u64) -> int {
    if n >= 0x8000_0000_0000_0000 {
        n - 0x1_0000_0000_0000_0000
    } else {
        n as int
    }
}

/// A number that 64 bits with a sign can hold.
pub open spec fn held64(n: int) -> Option<int> {
    if -0x8000_0000_0000_0000 <= n < 0x8000_0000_0000_0000 {
        Some(n)
    } else {
        None
    }
}

/// The number that an expression is known to be before the probe runs: made of
/// literals, constants and loop variables with `+ - * | & <<`.
pub open spec fn fixed(v: Env, e: tree::Expr) -> Option<int>
    decreases e,
{
    match e.kind {
        tree::ExprKind::Int(n) => Some(signed64(n)),
        tree::ExprKind::Ident(name) => if v.consts.contains_key(name) {
            Some(signed64(v.consts[name].1))
        } else {
            match lookup(v.scopes, name) {
                Some(x) => match x.konst {
                    Some(k) => Some(k as int),
                    None => None,
                },
                None => None,
            }
        },
        tree::ExprKind::Binary { op, lhs, rhs } => match (fixed(v, *lhs), fixed(v, *rhs)) {
            (Some(a), Some(b)) => if op is Add {
                held64(a + b)
            } else if op is Sub {
                held64(a - b)
            } else if op is Mul {
                held64(a * b)
            } else if op is BitOr {
                Some((a as i64 | b as i64) as int)
            } else if op is BitAnd {
                Some((a as i64 & b as i64) as int)
            } else if op is Shl && 0 <= b < 64 {
                Some(((a as i64) << (b as i64)) as int)
            } else {
                None
            },
            _ => None,
        },
        _ => None,
    }
}

/// No local takes part in a constant expression.
pub open spec fn without_locals(v: Env, e: tree::Expr) -> bool
    decreases e,
{
    match e.kind {
        tree::ExprKind::Ident(name) => lookup(v.scopes, name) is None,
        tree::ExprKind::Binary { lhs, rhs, .. } => without_locals(v, *lhs) && without_locals(
            v,
            *rhs,
        ),
        _ => true,
    }
}

pub proof fn lemma_signed64(n: u64)
    ensures
        n as i64 == signed64(n),
{
    if n >= 0x8000_0000_0000_0000 {
        assert(n as i64 == n - 0x1_0000_0000_0000_0000) by (bit_vector)
            requires
                n >= 0x8000_0000_0000_0000,
        ;
    }
}

/// The checker evaluates a constant expression to the number that it is, and is
/// silent over no other.
pub proof fn lemma_constants_are_what_they_are(v: Env, e: tree::Expr)
    ensures
        match fixed(v, e) {
            Some(n) => {
                &&& const_eval(v, e).ok
                &&& const_eval(v, e).notes.len() == 0
                &&& const_eval(v, e).value matches Some(x) && x == n
            },
            None => const_eval(v, e).notes.len() > 0 || !const_eval(v, e).ok,
        },
    decreases e,
{
    match e.kind {
        tree::ExprKind::Int(n) => lemma_signed64(n),
        tree::ExprKind::Ident(name) => {
            if v.consts.contains_key(name) {
                lemma_signed64(v.consts[name].1);
            }
        },
        tree::ExprKind::Binary { op, lhs, rhs } => {
            lemma_constants_are_what_they_are(v, *lhs);
            lemma_constants_are_what_they_are(v, *rhs);
            lemma_no_value(v, *lhs);
            lemma_no_value(v, *rhs);
        },
        _ => {},
    }
}

proof fn lemma_no_value(v: Env, e: tree::Expr)
    ensures
        const_eval(v, e).value is None ==> const_eval(v, e).notes.len() > 0 || !const_eval(
            v,
            e,
        ).ok,
    decreases e,
{
    if let tree::ExprKind::Binary { op, lhs, rhs } = e.kind {
        lemma_no_value(v, *lhs);
        lemma_no_value(v, *rhs);
    }
}

proof fn lemma_without_locals(v: Env, e: tree::Expr)
    ensures
        without_locals(v, e) == (local_in(v, e) is None),
    decreases e,
{
    if let tree::ExprKind::Binary { op, lhs, rhs } = e.kind {
        lemma_without_locals(v, *lhs);
        lemma_without_locals(v, *rhs);
    }
}

// --------------------------------------------------------------------- types

pub open spec fn integer(t: Sort) -> bool {
    match t {
        Sort::U8 | Sort::U16 | Sort::U32 | Sort::U64 | Sort::I64 | Sort::Int => true,
        _ => false,
    }
}

/// The numbers below which a literal of a type stays.
pub open spec fn limit(t: Sort) -> int {
    match t {
        Sort::U8 => 0x100,
        Sort::U16 => 0x1_0000,
        Sort::U32 => 0x1_0000_0000,
        Sort::I64 => 0x8000_0000_0000_0000,
        _ => 0x1_0000_0000_0000_0000,
    }
}

/// A value of type `t` will do where `want` is asked for: it has that type, or it
/// is a literal that has no width of its own yet. What has no type has had its
/// error told, unless it is a call that gives nothing.
pub open spec fn takes(want: Sort, e: tree::Expr, t: Sort) -> bool {
    &&& t == want || (t is Int && integer(want)) || (want is Int && integer(t)) || t is Unit
        || want is Unit
    &&& t is Unit ==> !from_call(e)
    &&& integer(want) ==> (e.kind matches tree::ExprKind::Int(n) ==> n < limit(want))
}

/// A value that a call gives, or that is computed from one.
pub open spec fn comes_from_call(e: tree::Expr) -> bool
    decreases e,
{
    match e.kind {
        tree::ExprKind::Call { .. } | tree::ExprKind::MethodCall { .. } => true,
        tree::ExprKind::Unary { expr: inner, .. } => comes_from_call(*inner),
        tree::ExprKind::Field { expr: inner, .. } => comes_from_call(*inner),
        tree::ExprKind::Binary { lhs, rhs, .. } => comes_from_call(*lhs) || comes_from_call(*rhs),
        _ => false,
    }
}

/// The checker knows which values come from calls.
pub proof fn lemma_calls_are_known(e: tree::Expr)
    ensures
        from_call(e) == comes_from_call(e),
    decreases e,
{
    match e.kind {
        tree::ExprKind::Unary { op, expr: inner } => lemma_calls_are_known(*inner),
        tree::ExprKind::Field { expr: inner, field } => lemma_calls_are_known(*inner),
        tree::ExprKind::Binary { op, lhs, rhs } => {
            lemma_calls_are_known(*lhs);
            lemma_calls_are_known(*rhs);
        },
        _ => {},
    }
}

/// The text that a literal is.
pub open spec fn literal_text(e: tree::Expr) -> Option<Seq<char>> {
    match e.kind {
        tree::ExprKind::Str(s) => Some(s),
        _ => None,
    }
}

/// The type of a local that holds a text or an address.
pub open spec fn buffer(v: Env, e: tree::Expr) -> Option<Sort> {
    match e.kind {
        tree::ExprKind::Ident(n) => match lookup(v.scopes, n) {
            Some(x) => match x.ty {
                Sort::Str(_) | Sort::Ipv6 | Sort::Mac => Some(x.ty),
                _ => None,
            },
            None => None,
        },
        _ => None,
    }
}

pub open spec fn is_text(v: Env, e: tree::Expr) -> bool {
    literal_text(e) is Some || buffer(v, e) is Some
}

/// A literal that a buffer can be compared with.
pub open spec fn literal_for(t: Sort, s: Seq<char>) -> bool {
    match t {
        Sort::Str(cap) => encode_utf8(s).len() <= cap,
        Sort::Ipv6 => addr::ipv6(s) is Some,
        _ => addr::mac(s) is Some,
    }
}

/// Two sides, at least one of which is a text or an address, that can be tested
/// for equality. `l` and `r` are the types of those that are neither.
pub open spec fn texts_compare(
    v: Env,
    lhs: tree::Expr,
    rhs: tree::Expr,
    l: Option<Sort>,
    r: Option<Sort>,
) -> bool {
    match (literal_text(lhs), literal_text(rhs), buffer(v, lhs), buffer(v, rhs)) {
        (Some(_), Some(_), _, _) => false,
        (_, Some(s), Some(t), _) => literal_for(t, s),
        (Some(s), _, _, Some(t)) => literal_for(t, s),
        (_, _, Some(t), Some(u)) => match (t, u) {
            (Sort::Str(_), Sort::Str(_)) => true,
            _ => t == u,
        },
        (_, _, Some(_), None) => r == Some(Sort::Unit) && !from_call(rhs),
        (_, _, None, Some(_)) => l == Some(Sort::Unit) && !from_call(lhs),
        (Some(s), _, _, _) => (r == Some(Sort::U32) && addr::ipv4(s) is Some) || (r == Some(
            Sort::Unit,
        ) && !from_call(rhs)),
        (_, Some(s), _, _) => (l == Some(Sort::U32) && addr::ipv4(s) is Some) || (l == Some(
            Sort::Unit,
        ) && !from_call(lhs)),
        _ => false,
    }
}

pub open spec fn is_truth_op(op: BinaryOp) -> bool {
    match op {
        BinaryOp::And | BinaryOp::Or => true,
        BinaryOp::Eq | BinaryOp::Ne | BinaryOp::Lt | BinaryOp::Le | BinaryOp::Gt | BinaryOp::Ge => {
            true
        },
        _ => false,
    }
}

/// The type of two values under an operator.
pub open spec fn under(
    op: BinaryOp,
    lhs: tree::Expr,
    rhs: tree::Expr,
    l: Sort,
    r: Sort,
) -> Option<Sort> {
    if l is Unit || r is Unit {
        if !is_truth_op(op) {
            Some(Sort::Unit)
        } else if (l is Unit && from_call(lhs)) || (r is Unit && from_call(rhs)) {
            None
        } else {
            Some(Sort::Bool)
        }
    } else {
        let same_int = integer(l) && integer(r) && (l == r || l is Int || r is Int);
        match op {
            BinaryOp::And | BinaryOp::Or => if l is Bool && r is Bool {
                Some(Sort::Bool)
            } else {
                None
            },
            BinaryOp::Eq
            | BinaryOp::Ne
            | BinaryOp::Lt
            | BinaryOp::Le
            | BinaryOp::Gt
            | BinaryOp::Ge => if same_int || (l is Bool && r is Bool) {
                Some(Sort::Bool)
            } else {
                None
            },
            _ => if !same_int {
                None
            } else if l is Int {
                Some(r)
            } else {
                Some(l)
            },
        }
    }
}

/// The type of a builtin that is called.
pub open spec fn builtin_type(v: Env, name: Seq<char>, args: Seq<tree::Expr>) -> Option<Sort> {
    let returning = v.probe == Some(ProbeKind::Kretprobe) || v.probe == Some(ProbeKind::Uretprobe);
    let packet = v.probe == Some(ProbeKind::Xdp);
    if name == "pid"@ || name == "tgid"@ || name == "tid"@ || name == "uid"@ || name == "gid"@ {
        if args.len() == 0 && !packet {
            Some(Sort::U32)
        } else {
            None
        }
    } else if name == "ktime"@ {
        if args.len() == 0 {
            Some(Sort::U64)
        } else {
            None
        }
    } else if name == "comm"@ {
        None
    } else if name == "arg"@ {
        if args.len() == 1 && !packet && !returning && (fixed(v, args[0]) matches Some(n) && 0 <= n
            <= 5) {
            Some(Sort::U64)
        } else {
            None
        }
    } else if name == "retval"@ {
        if args.len() == 0 && returning {
            Some(Sort::I64)
        } else {
            None
        }
    } else if name == "sample"@ {
        if args.len() == 1 && (fixed(v, args[0]) matches Some(n) && n >= 1) {
            Some(Sort::Bool)
        } else {
            None
        }
    } else if name == "drop"@ || name == "pass"@ {
        if args.len() == 0 && packet {
            Some(Sort::Unit)
        } else {
            None
        }
    } else if name == "deny"@ || name == "allow"@ {
        if args.len() == 0 && v.probe == Some(ProbeKind::Lsm) {
            Some(Sort::Unit)
        } else {
            None
        }
    } else {
        None
    }
}

/// A read of so many bytes of the packet, at a place that is known.
pub open spec fn read_at(v: Env, args: Seq<tree::Expr>, width: int, t: Sort) -> Option<Sort> {
    if args.len() == 1 && without_locals(v, args[0]) && (fixed(v, args[0]) matches Some(o) && 0
        <= o && o + width <= 256) {
        Some(t)
    } else {
        None
    }
}

/// The type of a method of the packet.
pub open spec fn packet_type(v: Env, m: Seq<char>, args: Seq<tree::Expr>) -> Option<Sort> {
    if m == "len"@ && args.len() == 0 {
        Some(Sort::U32)
    } else if m == "u8"@ {
        read_at(v, args, 1, Sort::U8)
    } else if m == "u16"@ {
        read_at(v, args, 2, Sort::U16)
    } else if m == "u32"@ {
        read_at(v, args, 4, Sort::U32)
    } else if m == "ipv6"@ {
        read_at(v, args, 16, Sort::Ipv6)
    } else if m == "mac"@ {
        read_at(v, args, 6, Sort::Mac)
    } else {
        None
    }
}

/// The type of a method of a text.
pub open spec fn text_method_type(
    v: Env,
    cap: u32,
    m: Seq<char>,
    args: Seq<tree::Expr>,
) -> Option<Sort> {
    if m == "starts_with"@ && args.len() == 1 {
        match literal_text(args[0]) {
            Some(s) => if encode_utf8(s).len() <= cap {
                Some(Sort::Bool)
            } else {
                None
            },
            None => None,
        }
    } else if m == "byte_at"@ && args.len() == 1 {
        if fixed(v, args[0]) matches Some(i) && 0 <= i < cap {
            Some(Sort::U8)
        } else {
            None
        }
    } else {
        None
    }
}

/// The type of a method of a map, for the types of its arguments.
pub open spec fn map_method_type(
    key: Sort,
    val: Sort,
    m: Seq<char>,
    args: Seq<tree::Expr>,
    first: Option<Sort>,
    second: Option<Sort>,
) -> Option<Sort> {
    if m == "get"@ && args.len() == 1 {
        if first matches Some(t) && takes(key, args[0], t) {
            Some(Sort::Option(Box::new(val)))
        } else {
            None
        }
    } else if m == "insert"@ && args.len() == 2 {
        if (first matches Some(t) && takes(key, args[0], t)) && (second matches Some(u) && takes(
            val,
            args[1],
            u,
        )) {
            Some(Sort::Unit)
        } else {
            None
        }
    } else if m == "delete"@ && args.len() == 1 {
        if first matches Some(t) && takes(key, args[0], t) {
            Some(Sort::Unit)
        } else {
            None
        }
    } else {
        None
    }
}

/// The type of a member of a kernel struct.
pub open spec fn member_type(v: Env, name: Seq<char>, field: Seq<char>) -> Option<Sort> {
    match v.kernel {
        None => None,
        Some(k) => match member_named(k, name, field) {
            Some(Some(m)) => match shape_of(k, m.type_id) {
                Shape::Int { bytes, .. } => if bytes == 1 {
                    Some(Sort::U8)
                } else if bytes == 2 {
                    Some(Sort::U16)
                } else if bytes == 4 {
                    Some(Sort::U32)
                } else {
                    Some(Sort::U64)
                },
                Shape::Struct { name: n, .. } => Some(Sort::KPtr(n)),
                Shape::PtrToStruct { name: n, .. } => Some(Sort::KPtr(n)),
                Shape::PtrToChar => Some(Sort::KCharPtr),
                Shape::PtrToOther => Some(Sort::U64),
                _ => None,
            },
            _ => None,
        },
    }
}

/// The type of an expression, if it has one.
pub open spec fn typed(v: Env, e: tree::Expr) -> Option<Sort>
    decreases e,
{
    match e.kind {
        tree::ExprKind::Int(_) => Some(Sort::Int),
        tree::ExprKind::Bool(_) => Some(Sort::Bool),
        tree::ExprKind::Ident(name) => match lookup(v.scopes, name) {
            Some(x) => Some(x.ty),
            None => if v.consts.contains_key(name) {
                Some(v.consts[name].0)
            } else {
                None
            },
        },
        tree::ExprKind::Unary { op, expr: inner } => match typed(v, *inner) {
            None => None,
            Some(t) => match op {
                UnaryOp::Deref => match t {
                    Sort::Ref(x) => Some(*x),
                    Sort::Unit => Some(Sort::Unit),
                    _ => None,
                },
                UnaryOp::Not => if t is Bool || (t is Unit && !from_call(*inner)) {
                    Some(Sort::Bool)
                } else {
                    None
                },
                _ => if integer(t) || t is Unit {
                    Some(t)
                } else {
                    None
                },
            },
        },
        tree::ExprKind::Binary { op, lhs, rhs } => if is_text(v, *lhs) || is_text(v, *rhs) {
            if (op is Eq || op is Ne) && texts_compare(
                v,
                *lhs,
                *rhs,
                typed(v, *lhs),
                typed(v, *rhs),
            ) {
                Some(Sort::Bool)
            } else {
                None
            }
        } else {
            match (typed(v, *lhs), typed(v, *rhs)) {
                (Some(l), Some(r)) => under(op, *lhs, *rhs, l, r),
                _ => None,
            }
        },
        tree::ExprKind::Call { callee, args } => match callee.kind {
            tree::ExprKind::Ident(name) => builtin_type(v, name, args),
            _ => None,
        },
        tree::ExprKind::MethodCall { receiver, method: m, args } => match receiver.kind {
            tree::ExprKind::Ident(name) => match lookup(v.scopes, name) {
                Some(x) => match x.ty {
                    Sort::Str(cap) => text_method_type(v, cap, m.name, args),
                    _ => None,
                },
                None => if name == "pkt"@ {
                    if v.probe == Some(ProbeKind::Xdp) {
                        packet_type(v, m.name, args)
                    } else {
                        None
                    }
                } else if v.maps.contains_key(name) {
                    map_method_type(
                        v.maps[name].0,
                        v.maps[name].1,
                        m.name,
                        args,
                        if args.len() > 0 {
                            typed(v, args[0])
                        } else {
                            None
                        },
                        if args.len() > 1 {
                            typed(v, args[1])
                        } else {
                            None
                        },
                    )
                } else {
                    None
                },
            },
            _ => None,
        },
        tree::ExprKind::Field { expr: inner, field } => match typed(v, *inner) {
            Some(Sort::KPtr(name)) => member_type(v, name, field.name),
            Some(Sort::Unit) => Some(Sort::Unit),
            _ => None,
        },
        _ => None,
    }
}

// -------------------------------------------------------- the checker agrees

/// Nothing was said, and there is an answer.
pub open spec fn silent(o: Out) -> bool {
    o.ok && o.notes.len() == 0
}

/// What the checker found, if nothing was wrong.
pub open spec fn found(o: Out) -> Option<Sort> {
    if silent(o) {
        Some(o.ty)
    } else {
        None
    }
}

proof fn lemma_builtin_names()
    ensures
        "pid"@ != "ktime"@,
        "tgid"@ != "ktime"@,
        "tid"@ != "ktime"@,
        "uid"@ != "ktime"@,
        "gid"@ != "ktime"@,
        !is_process_builtin("ktime"@),
        !is_process_builtin("sample"@),
        !is_process_builtin("drop"@),
        !is_process_builtin("pass"@),
        !is_process_builtin("deny"@),
        !is_process_builtin("allow"@),
        !is_id_builtin("comm"@),
        !is_id_builtin("arg"@),
        !is_id_builtin("retval"@),
        "comm"@ != "ktime"@,
        "arg"@ != "ktime"@,
        "arg"@ != "comm"@,
        "retval"@ != "ktime"@,
        "retval"@ != "comm"@,
        "retval"@ != "arg"@,
        "sample"@ != "ktime"@,
        "drop"@ != "ktime"@,
        "pass"@ != "ktime"@,
        "deny"@ != "ktime"@,
        "allow"@ != "ktime"@,
        "read_user_str"@.len() == 13,
        "read_kernel_str"@.len() == 15,
        "sample"@.len() == 6,
        "retval"@.len() == 6,
        "ktime"@.len() == 5,
        "allow"@.len() == 5,
        "comm"@.len() == 4,
        "arg"@.len() == 3,
        "pid"@.len() == 3,
        "tid"@.len() == 3,
        "uid"@.len() == 3,
        "gid"@.len() == 3,
        "tgid"@.len() == 4,
        "drop"@.len() == 4,
        "pass"@.len() == 4,
        "deny"@.len() == 4,
        "drop"@ != "deny"@,
        "pass"@ != "deny"@,
        "sample"@ != "retval"@,
{
    reveal_strlit("pid");
    reveal_strlit("tgid");
    reveal_strlit("tid");
    reveal_strlit("uid");
    reveal_strlit("gid");
    reveal_strlit("ktime");
    reveal_strlit("comm");
    reveal_strlit("arg");
    reveal_strlit("retval");
    reveal_strlit("sample");
    reveal_strlit("drop");
    reveal_strlit("pass");
    reveal_strlit("deny");
    reveal_strlit("allow");
    reveal_strlit("read_user_str");
    reveal_strlit("read_kernel_str");
    assert("pid"@[0] == 'p' && "tid"@[0] == 't' && "uid"@[0] == 'u' && "gid"@[0] == 'g');
    assert("arg"@[0] == 'a' && "tgid"@[0] == 't' && "comm"@[0] == 'c');
    assert("drop"@[0] == 'd' && "pass"@[0] == 'p' && "deny"@[0] == 'd' && "drop"@[1] == 'r');
    assert("deny"@[1] == 'e');
    assert("ktime"@[0] == 'k' && "allow"@[0] == 'a' && "pass"@[1] == 'a' && "allow"@[1] == 'l');
    assert("sample"@[0] == 's' && "retval"@[0] == 'r');
}

proof fn lemma_builtin_agrees(
    v: Env,
    name: Seq<char>,
    args: Seq<tree::Expr>,
    callee: crate::token::Span,
    span: crate::token::Span,
    rest: Out,
)
    ensures
        found(builtin(v, name, args, callee, span, rest)) == builtin_type(v, name, args),
{
    lemma_builtin_names();
    if args.len() == 1 {
        lemma_constants_are_what_they_are(v, args[0]);
        lemma_no_value(v, args[0]);
    }
}

proof fn lemma_packet_agrees(
    v: Env,
    m: tree::Ident,
    args: Seq<tree::Expr>,
    span: crate::token::Span,
)
    ensures
        found(packet_method(v, m, args, span)) == packet_type(v, m.name, args),
{
    reveal_strlit("len");
    reveal_strlit("u8");
    reveal_strlit("u16");
    reveal_strlit("u32");
    reveal_strlit("ipv6");
    reveal_strlit("mac");
    assert("len"@[0] == 'l' && "mac"@[0] == 'm');
    if args.len() == 1 {
        lemma_constants_are_what_they_are(v, args[0]);
        lemma_no_value(v, args[0]);
        lemma_without_locals(v, args[0]);
    }
}

proof fn lemma_text_method_agrees(
    v: Env,
    name: Seq<char>,
    ty: Sort,
    m: tree::Ident,
    args: Seq<tree::Expr>,
    span: crate::token::Span,
)
    ensures
        found(local_method(v, name, ty, m, args, span)) == match ty {
            Sort::Str(cap) => text_method_type(v, cap, m.name, args),
            _ => None,
        },
{
    if args.len() == 1 {
        lemma_constants_are_what_they_are(v, args[0]);
        lemma_no_value(v, args[0]);
    }
}

proof fn lemma_expecting_agrees(want: Sort, e: tree::Expr, o: Out)
    ensures
        silent(expecting(want, e, o)) == (silent(o) && takes(want, e, o.ty)),
{
}

proof fn lemma_operate_agrees(
    op: BinaryOp,
    lhs: tree::Expr,
    rhs: tree::Expr,
    l: Sort,
    r: Sort,
    span: crate::token::Span,
)
    requires
        is_truth_op(op) ==> !(l is Unit && from_call(lhs)) && !(r is Unit && from_call(rhs)),
    ensures
        found(operate(op, lhs, rhs, l, r, span)) == under(op, lhs, rhs, l, r),
{
}

proof fn lemma_sides_agree(v: Env, e: tree::Expr)
    requires
        e.kind is Binary,
        is_text(v, *e.kind->Binary_lhs) || is_text(v, *e.kind->Binary_rhs),
        typed(v, *e.kind->Binary_lhs) == found(expr(v, *e.kind->Binary_lhs)),
        typed(v, *e.kind->Binary_rhs) == found(expr(v, *e.kind->Binary_rhs)),
    ensures
        found(binary(v, e)) == typed(v, e),
{
    let op = e.kind->Binary_op;
    let lhs = *e.kind->Binary_lhs;
    let rhs = *e.kind->Binary_rhs;
    let l = side(v, lhs);
    let r = side(v, rhs);
    assert(l is No == !is_text(v, lhs));
    assert(r is No == !is_text(v, rhs));
}

proof fn lemma_binary_agrees(v: Env, e: tree::Expr)
    requires
        e.kind is Binary,
        typed(v, *e.kind->Binary_lhs) == found(expr(v, *e.kind->Binary_lhs)),
        typed(v, *e.kind->Binary_rhs) == found(expr(v, *e.kind->Binary_rhs)),
    ensures
        found(binary(v, e)) == typed(v, e),
{
    let op = e.kind->Binary_op;
    let lhs = *e.kind->Binary_lhs;
    let rhs = *e.kind->Binary_rhs;
    if is_text(v, lhs) || is_text(v, rhs) {
        lemma_sides_agree(v, e);
    } else {
        let a = expr(v, lhs);
        let b = expr(v, rhs);
        assert(side(v, lhs) is No && side(v, rhs) is No);
        if silent(a) && silent(b) {
            if is_truth_op(op) && ((a.ty is Unit && from_call(lhs)) || (b.ty is Unit && from_call(
                rhs,
            ))) {
            } else {
                lemma_operate_agrees(op, lhs, rhs, a.ty, b.ty, e.span);
            }
        }
    }
}

proof fn lemma_map_agrees(
    key: Sort,
    val: Sort,
    m: tree::Ident,
    args: Seq<tree::Expr>,
    k: Out,
    x: Out,
    rest: Out,
)
    ensures
        found(map_method(key, val, m, args, k, x, rest)) == map_method_type(
            key,
            val,
            m.name,
            args,
            found(k),
            found(x),
        ),
{
    if args.len() > 0 {
        lemma_expecting_agrees(key, args[0], k);
    }
    if args.len() > 1 {
        lemma_expecting_agrees(val, args[1], x);
    }
}

proof fn lemma_method_agrees(v: Env, e: tree::Expr)
    requires
        e.kind is MethodCall,
        forall|i: int|
            0 <= i < e.kind->MethodCall_args.len() ==> typed(
                v,
                #[trigger] e.kind->MethodCall_args[i],
            ) == found(expr(v, e.kind->MethodCall_args[i])),
    ensures
        found(method(v, e)) == typed(v, e),
{
    let args = e.kind->MethodCall_args;
    let m = e.kind->MethodCall_method;
    let receiver = *e.kind->MethodCall_receiver;
    if let tree::ExprKind::Ident(name) = receiver.kind {
        match lookup(v.scopes, name) {
            Some(x) => lemma_text_method_agrees(v, name, x.ty, m, args, e.span),
            None => if name == "pkt"@ {
                lemma_packet_agrees(v, m, args, e.span);
            } else if v.maps.contains_key(name) {
                let k = if args.len() > 0 {
                    expr(v, args[0])
                } else {
                    crate::rules::quiet(Sort::Unit)
                };
                let x = if args.len() > 1 {
                    expr(v, args[1])
                } else {
                    crate::rules::quiet(Sort::Unit)
                };
                lemma_map_agrees(
                    v.maps[name].0,
                    v.maps[name].1,
                    m,
                    args,
                    k,
                    x,
                    exprs(v, args, 0, Sort::Unit),
                );
            },
        }
    }
}

/// The checker is silent over an expression exactly where it has a type, and
/// finds that type.
pub proof fn lemma_checker_finds_types(v: Env, e: tree::Expr)
    ensures
        found(expr(v, e)) == typed(v, e),
    decreases e,
{
    match e.kind {
        tree::ExprKind::Unary { op, expr: inner } => {
            lemma_checker_finds_types(v, *inner);
        },
        tree::ExprKind::Binary { op, lhs, rhs } => {
            lemma_checker_finds_types(v, *lhs);
            lemma_checker_finds_types(v, *rhs);
            lemma_binary_agrees(v, e);
        },
        tree::ExprKind::Call { callee, args } => {
            if let tree::ExprKind::Ident(name) = callee.kind {
                lemma_builtin_agrees(
                    v,
                    name,
                    args,
                    callee.span,
                    e.span,
                    exprs(v, args, 0, Sort::Unit),
                );
            }
            assert(expr(v, e) == call(v, e));
        },
        tree::ExprKind::MethodCall { receiver, method: m, args } => {
            assert forall|i: int| 0 <= i < args.len() implies typed(v, #[trigger] args[i]) == found(
                expr(v, args[i]),
            ) by {
                lemma_checker_finds_types(v, args[i]);
            }
            lemma_method_agrees(v, e);
        },
        tree::ExprKind::Field { expr: inner, field } => {
            lemma_checker_finds_types(v, *inner);
        },
        _ => {},
    }
}

} // verus!
