//! The verifier-aware type checker: `rules`, carried out.
//!
//! A program that passes is one that the kernel's verifier accepts, and a
//! program that would be rejected fails here, with a message that points at
//! the offending source line.
//!
//! The result is a list of diagnostics (all errors, not just the first) so a
//! user fixes a file in one pass. On success it is the stack that is used.

use crate::addr::{parse_ipv4, parse_ipv6, parse_mac};
use crate::ast::{
    emit_fields, exprs, fields, items, lemma_exprs, lemma_stmts, lemma_type_args, opt_type, stmts,
    strings, types, BinaryOp, Block, Cond, ConstDecl, EventDecl, Expr, ExprKind, Field, Ident, Item,
    MapDecl, Pattern, ProbeDecl, Program, Stmt, StmtKind, Type, TypeArg, UnaryOp,
};
use crate::btf::{Btf, Kernel, Resolved};
use crate::pretty;
use crate::rules;
use crate::rules::{
    note, hint, Env, Frame, Konst, Local, Note, Out, ProbeKind, Report, Side, Sort, State,
};
use crate::safety::{
    lemma_accepted_program_is_safe, lemma_block_ok, lemma_iterations_ok, safe_program,
};
use crate::text::{cat2, cat3, cat4, cat5, cat7, chars_of, dec_text, owned, same, signed_text};
use crate::token::Span;
use crate::tree;
use vstd::hash_map::StringHashMap;
use vstd::prelude::*;

verus! {

// ------------------------------------------------------------------- types

#[derive(Debug, PartialEq, Eq)]
pub enum Ty {
    U8,
    U16,
    U32,
    U64,
    /// Signed 64-bit: the type of `retval()`. Compared with signed jumps.
    I64,
    Bool,
    /// Fixed-capacity byte string.
    Str(u32),
    /// A 16-byte address, straight from a packet.
    Ipv6,
    /// A 6-byte hardware address, straight from a packet.
    Mac,
    /// The result of `map.get`: maybe a pointer, must be checked.
    Option(Box<Ty>),
    /// A checked pointer into a map value.
    Ref(Box<Ty>),
    /// A kernel pointer to a named struct (from `arg(n)` typed `ptr<S>`).
    KPtr(String),
    /// A kernel pointer to a char: a string address for `read_kernel_str`.
    KCharPtr,
    /// Statements-as-expressions (`map.insert`) produce this.
    Unit,
    /// An integer literal that has not yet picked a width.
    Int,
}

impl Ty {
    pub open spec fn model(self) -> Sort
        decreases self,
    {
        match self {
            Ty::U8 => Sort::U8,
            Ty::U16 => Sort::U16,
            Ty::U32 => Sort::U32,
            Ty::U64 => Sort::U64,
            Ty::I64 => Sort::I64,
            Ty::Bool => Sort::Bool,
            Ty::Str(n) => Sort::Str(n),
            Ty::Ipv6 => Sort::Ipv6,
            Ty::Mac => Sort::Mac,
            Ty::Option(inner) => Sort::Option(Box::new(inner.model())),
            Ty::Ref(inner) => Sort::Ref(Box::new(inner.model())),
            Ty::KPtr(name) => Sort::KPtr(name@),
            Ty::KCharPtr => Sort::KCharPtr,
            Ty::Unit => Sort::Unit,
            Ty::Int => Sort::Int,
        }
    }
}

impl View for Ty {
    type V = Sort;

    open spec fn view(&self) -> Sort {
        self.model()
    }
}

impl Ty {
    pub fn from_ast(t: &Type) -> (r: Result<Ty, String>)
        ensures
            match (r, rules::sort_of(t@)) {
                (Ok(ty), Ok(s)) => ty@ == s,
                (Err(e), Err(m)) => e@ == m,
                _ => false,
            },
    {
        proof {
            lemma_type_args(t.args@);
        }
        let name = t.name.name.as_str();
        let bare = t.args.len() == 0;
        if same(name, "u8") && bare {
            Ok(Ty::U8)
        } else if same(name, "u16") && bare {
            Ok(Ty::U16)
        } else if same(name, "u32") && bare {
            Ok(Ty::U32)
        } else if same(name, "u64") && bare {
            Ok(Ty::U64)
        } else if same(name, "i64") && bare {
            Ok(Ty::I64)
        } else if same(name, "bool") && bare {
            Ok(Ty::Bool)
        } else if same(name, "ipv4") && bare {
            Ok(Ty::U32)
        } else if same(name, "ipv6") && bare {
            Ok(Ty::Ipv6)
        } else if same(name, "mac") && bare {
            Ok(Ty::Mac)
        } else if same(name, "str") {
            if t.args.len() == 1 {
                assert(t@.args[0] == t.args@[0]@);
                match &t.args[0] {
                    TypeArg::Int(n) => {
                        if *n == 0 || *n > 256 {
                            let shown = dec_text(*n);
                            Err(
                                cat3(
                                    "`str<",
                                    &shown,
                                    ">`: capacity must be between 1 and 256",
                                ),
                            )
                        } else {
                            Ok(Ty::Str(*n as u32))
                        }
                    },
                    TypeArg::Type(_) => Err(owned("`str` needs a capacity, e.g. `str<64>`")),
                }
            } else {
                Err(owned("`str` needs a capacity, e.g. `str<64>`"))
            }
        } else {
            Err(cat3("unknown type `", name, "`"))
        }
    }

    pub fn is_int(&self) -> (r: bool)
        ensures
            r == rules::is_int(self@),
    {
        match self {
            Ty::U8 | Ty::U16 | Ty::U32 | Ty::U64 | Ty::I64 | Ty::Int => true,
            _ => false,
        }
    }

    /// Bytes this value occupies on the BPF stack as a local.
    pub fn stack_bytes(&self) -> (r: u32)
        requires
            rules::stack_bytes(self@) <= u32::MAX,
        ensures
            r == rules::stack_bytes(self@),
    {
        match self {
            Ty::Str(n) => ((*n as u64 + 7) / 8 * 8) as u32,
            Ty::Ipv6 => 16,
            Ty::Unit => 0,
            _ => 8,
        }
    }

    /// The same without a bound on the capacity of a string.
    fn frame_bytes(&self) -> (r: u64)
        ensures
            r == rules::stack_bytes(self@),
    {
        match self {
            Ty::Str(n) => (*n as u64 + 7) / 8 * 8,
            Ty::Ipv6 => 16,
            Ty::Unit => 0,
            _ => 8,
        }
    }

    /// Largest value a width can hold (for literal range checks).
    fn max_value(&self) -> (r: Option<u64>)
        ensures
            r == rules::max_value(self@),
    {
        match self {
            Ty::U8 => Some(0xff),
            Ty::U16 => Some(0xffff),
            Ty::U32 => Some(0xffff_ffff),
            Ty::U64 | Ty::Int => Some(u64::MAX),
            Ty::I64 => Some(0x7fff_ffff_ffff_ffff),
            _ => None,
        }
    }

    /// How the type is written in a message.
    pub fn text(&self) -> (r: String)
        ensures
            r@ == rules::sort_text(self@),
        decreases self,
    {
        match self {
            Ty::U8 => owned("u8"),
            Ty::U16 => owned("u16"),
            Ty::U32 => owned("u32"),
            Ty::U64 => owned("u64"),
            Ty::I64 => owned("i64"),
            Ty::Bool => owned("bool"),
            Ty::Str(n) => {
                let shown = dec_text(*n as u64);
                cat3("str<", &shown, ">")
            },
            Ty::Ipv6 => owned("ipv6"),
            Ty::Mac => owned("mac"),
            Ty::Option(inner) => {
                let shown = inner.text();
                cat3("Option<&", &shown, ">")
            },
            Ty::Ref(inner) => {
                let shown = inner.text();
                cat2("&", &shown)
            },
            Ty::KPtr(name) => cat3("ptr<", name, ">"),
            Ty::KCharPtr => owned("ptr<char>"),
            Ty::Unit => owned("()"),
            Ty::Int => owned("{integer}"),
        }
    }

    /// Whether two types are the same.
    fn same_as(&self, other: &Ty) -> (r: bool)
        ensures
            r == (self@ == other@),
        decreases self,
    {
        match (self, other) {
            (Ty::U8, Ty::U8) => true,
            (Ty::U16, Ty::U16) => true,
            (Ty::U32, Ty::U32) => true,
            (Ty::U64, Ty::U64) => true,
            (Ty::I64, Ty::I64) => true,
            (Ty::Bool, Ty::Bool) => true,
            (Ty::Str(a), Ty::Str(b)) => *a == *b,
            (Ty::Ipv6, Ty::Ipv6) => true,
            (Ty::Mac, Ty::Mac) => true,
            (Ty::Option(a), Ty::Option(b)) => a.same_as(b),
            (Ty::Ref(a), Ty::Ref(b)) => a.same_as(b),
            (Ty::KPtr(a), Ty::KPtr(b)) => same(a, b),
            (Ty::KCharPtr, Ty::KCharPtr) => true,
            (Ty::Unit, Ty::Unit) => true,
            (Ty::Int, Ty::Int) => true,
            _ => false,
        }
    }

    fn is_scalar(&self) -> (r: bool)
        ensures
            r == rules::is_scalar(self@),
    {
        self.is_int() || matches!(self, Ty::Bool)
    }

    fn is_unit(&self) -> (r: bool)
        ensures
            r == (self@ is Unit),
    {
        matches!(self, Ty::Unit)
    }
}

/// `actual` is acceptable where `expected` is required.
fn compatible(expected: &Ty, actual: &Ty) -> (r: bool)
    ensures
        r == rules::compatible(expected@, actual@),
{
    expected.same_as(actual) || (matches!(actual, Ty::Int) && expected.is_int()) || (matches!(
        expected,
        Ty::Int
    ) && actual.is_int()) || actual.is_unit() || expected.is_unit()
}

/// Another copy of a type.
fn copy_ty(t: &Ty) -> (r: Ty)
    ensures
        r@ == t@,
    decreases t,
{
    match t {
        Ty::U8 => Ty::U8,
        Ty::U16 => Ty::U16,
        Ty::U32 => Ty::U32,
        Ty::U64 => Ty::U64,
        Ty::I64 => Ty::I64,
        Ty::Bool => Ty::Bool,
        Ty::Str(n) => Ty::Str(*n),
        Ty::Ipv6 => Ty::Ipv6,
        Ty::Mac => Ty::Mac,
        Ty::Option(inner) => Ty::Option(Box::new(copy_ty(inner))),
        Ty::Ref(inner) => Ty::Ref(Box::new(copy_ty(inner))),
        Ty::KPtr(name) => Ty::KPtr(name.clone()),
        Ty::KCharPtr => Ty::KCharPtr,
        Ty::Unit => Ty::Unit,
        Ty::Int => Ty::Int,
    }
}

impl Clone for Ty {
    fn clone(&self) -> (r: Self)
        ensures
            r@ == self@,
    {
        copy_ty(self)
    }
}

// ------------------------------------------------------------- diagnostics

#[derive(Debug, Clone, PartialEq, Eq)]
pub struct Diag {
    pub message: String,
    pub span: Span,
    pub help: Option<String>,
}

impl View for Diag {
    type V = Note;

    open spec fn view(&self) -> Note {
        Note {
            message: self.message@,
            span: self.span,
            help: match self.help {
                Some(h) => Some(h@),
                None => None,
            },
        }
    }
}

/// The models of a list of diagnostics.
pub open spec fn notes(v: Seq<Diag>) -> Seq<Note> {
    v.map_values(|d: Diag| d@)
}

/// Adding notes, in whatever order they are put together.
broadcast proof fn lemma_notes_glue(a: Seq<Note>, b: Seq<Note>, c: Seq<Note>)
    ensures
        #[trigger] ((a + b) + c) == a + (b + c),
{
    assert(((a + b) + c) =~= a + (b + c));
}

broadcast proof fn lemma_notes_nothing(a: Seq<Note>)
    ensures
        #[trigger] (a + Seq::<Note>::empty()) == a,
{
    assert((a + Seq::<Note>::empty()) =~= a);
}

broadcast proof fn lemma_notes_onto_nothing(a: Seq<Note>)
    ensures
        #[trigger] (Seq::<Note>::empty() + a) == a,
{
    assert((Seq::<Note>::empty() + a) =~= a);
}

broadcast group group_notes {
    lemma_notes_glue,
    lemma_notes_nothing,
    lemma_notes_onto_nothing,
}

/// What a successful check tells the next stage.
#[derive(Debug, Clone, Copy, PartialEq, Eq, Structural)]
pub struct Checked {
    /// Peak bytes of BPF stack any probe's locals need.
    pub stack_bytes: u32,
}

/// The BPF stack is 512 bytes. The code generator needs a little for the saved
/// context pointer and spill slots; the rest is the user's.
pub const STACK_LIMIT: u32 = 512;

pub const STACK_RESERVED: u32 = 40;

/// How often a loop may run.
pub const MAX_UNROLL: i64 = 64;

/// Syscall tracepoints and kprobes expose at most six arguments.
pub const MAX_ARG: i64 = 5;

/// The furthest byte an XDP probe may read; the entry bounds check covers it.
pub const MAX_PKT_BOUND: u32 = 256;

/// Add a diagnostic.
fn error(out: &mut Vec<Diag>, span: Span, message: String)
    ensures
        notes(final(out)@) == notes(old(out)@) + seq![note(span, message@)],
{
    let d = Diag { message, span, help: None };
    let ghost before = notes(out@);
    out.push(d);
    assert(notes(out@) =~= before + seq![d@]);
}

/// Add a diagnostic with a hint.
fn error_help(out: &mut Vec<Diag>, span: Span, message: String, help: &str)
    ensures
        notes(final(out)@) == notes(old(out)@) + seq![hint(span, message@, help@)],
{
    let d = Diag { message, span, help: Some(owned(help)) };
    let ghost before = notes(out@);
    out.push(d);
    assert(notes(out@) =~= before + seq![d@]);
}

// ----------------------------------------------------------------- checker

struct Var {
    ty: Ty,
    mutable: bool,
    /// Compile-time value, for loop variables (used in `byte_at(i)`).
    konst: Option<i64>,
}

struct Scope {
    vars: StringHashMap<Var>,
    bytes: u32,
}

struct MapInfo {
    key: Ty,
    value: Ty,
}

struct EventInfo {
    fields: Vec<(String, Ty)>,
}

struct Checker<'a> {
    btf: Option<&'a Btf>,
    consts: StringHashMap<(Ty, u64)>,
    maps: StringHashMap<MapInfo>,
    events: StringHashMap<EventInfo>,
    scopes: Vec<Scope>,
    stack_now: u32,
    stack_peak: u32,
    /// The kind of the probe whose body is being checked.
    probe_kind: Option<ProbeKind>,
}

impl View for Var {
    type V = Local;

    closed spec fn view(&self) -> Local {
        Local { ty: self.ty@, mutable: self.mutable, konst: self.konst }
    }
}

impl View for Scope {
    type V = Frame;

    closed spec fn view(&self) -> Frame {
        Frame { vars: self.vars@.map_values(|v: Var| v@), bytes: self.bytes as nat }
    }
}

spec fn frames(v: Seq<Scope>) -> Seq<Frame> {
    v.map_values(|s: Scope| s@)
}

/// The declared fields of an event.
spec fn field_sorts(v: Seq<(String, Ty)>) -> Seq<(Seq<char>, Sort)> {
    v.map_values(|f: (String, Ty)| (f.0@, f.1@))
}

impl Checker<'_> {
    /// What the rules can look at.
    spec fn env(self) -> Env {
        Env {
            kernel: match self.btf {
                Some(b) => Some(b@),
                None => None,
            },
            consts: self.consts@.map_values(|c: (Ty, u64)| (c.0@, c.1)),
            maps: self.maps@.map_values(|m: MapInfo| (m.key@, m.value@)),
            events: self.events@.map_values(|e: EventInfo| field_sorts(e.fields@)),
            scopes: frames(self.scopes@),
            probe: self.probe_kind,
        }
    }

    /// Where checking has got to, behind the diagnostics so far.
    spec fn state(self, out: Seq<Diag>) -> State {
        State { env: self.env(), peak: self.stack_peak as nat, notes: notes(out), ok: true }
    }

    /// The running total is that of the open scopes.
    spec fn wf(self) -> bool {
        self.stack_now == rules::total(frames(self.scopes@))
    }

    // ---- scopes ----------------------------------------------------------

    fn push_scope(&mut self, Ghost(out): Ghost<Seq<Diag>>)
        requires
            old(self).wf(),
        ensures
            final(self).wf(),
            final(self).state(out) == rules::push_scope(old(self).state(out)),
            final(self).scopes@.len() == old(self).scopes@.len() + 1,
            same_world(*final(self), *old(self)),
    {
        let ghost before = *self;
        let s = Scope { vars: StringHashMap::new(), bytes: 0 };
        self.scopes.push(s);
        proof {
            assert(s@.vars =~= Map::empty());
            assert(frames(self.scopes@) =~= frames(before.scopes@).push(s@));
            assert(frames(self.scopes@).drop_last() =~= frames(before.scopes@));
        }
    }

    fn pop_scope(&mut self, Ghost(out): Ghost<Seq<Diag>>)
        requires
            old(self).wf(),
            old(self).scopes@.len() > 0,
        ensures
            final(self).wf(),
            final(self).state(out) == rules::pop_scope(old(self).state(out)),
            final(self).scopes@.len() == old(self).scopes@.len() - 1,
            same_world(*final(self), *old(self)),
    {
        let ghost before = *self;
        match self.scopes.pop() {
            Some(s) => {
                proof {
                    assert(frames(self.scopes@) =~= frames(before.scopes@).drop_last());
                    assert(s@ == frames(before.scopes@).last());
                }
                self.stack_now = self.stack_now - s.bytes;
            },
            None => {},
        }
    }

    /// Put a local that takes `bytes` bytes into the innermost scope; false
    /// where the running total does not fit.
    fn put(&mut self, name: &str, var: Var, bytes: u64, Ghost(out): Ghost<Seq<Diag>>) -> (r: bool)
        requires
            old(self).wf(),
            old(self).scopes@.len() > 0,
        ensures
            ({
                let s = rules::put(old(self).state(out), name@, var@, bytes as nat);
                if r {
                    &&& s.ok
                    &&& final(self).wf()
                    &&& final(self).state(out) == s
                    &&& final(self).scopes@.len() == old(self).scopes@.len()
                    &&& same_world(*final(self), *old(self))
                } else {
                    !s.ok
                }
            }),
    {
        let ghost before = *self;
        let ghost old_frames = frames(self.scopes@);
        if bytes > (u32::MAX - self.stack_now) as u64 {
            return false;
        }
        let bytes: u32 = bytes as u32;
        let now: u32 = self.stack_now + bytes;
        match self.scopes.pop() {
            Some(s) => {
                let mut top = s;
                let ghost old_top = s@;
                proof {
                    assert(frames(self.scopes@) =~= old_frames.drop_last());
                    assert(old_top == old_frames.last());
                    assert(rules::total(old_frames) == rules::total(old_frames.drop_last())
                        + old_top.bytes);
                }
                top.vars.insert(owned(name), var);
                top.bytes = top.bytes + bytes;
                let ghost new_top = top@;
                assert(new_top.vars =~= old_top.vars.insert(name@, var@));
                self.scopes.push(top);
                proof {
                    let new_frames = frames(self.scopes@);
                    assert(new_frames =~= old_frames.update(old_frames.len() - 1, new_top));
                    assert(new_frames.drop_last() =~= old_frames.drop_last());
                }
            },
            None => {},
        }
        self.stack_now = now;
        if now > self.stack_peak {
            self.stack_peak = now;
        }
        true
    }

    /// Declare a local on the stack.
    fn declare(&mut self, name: &str, ty: Ty, mutable: bool, Ghost(out): Ghost<Seq<Diag>>) -> (r:
        bool)
        requires
            old(self).wf(),
            old(self).scopes@.len() > 0,
        ensures
            ({
                let s = rules::declare(old(self).state(out), name@, ty@, mutable);
                if r {
                    &&& s.ok
                    &&& final(self).wf()
                    &&& final(self).state(out) == s
                    &&& final(self).scopes@.len() == old(self).scopes@.len()
                    &&& same_world(*final(self), *old(self))
                } else {
                    !s.ok
                }
            }),
    {
        let bytes: u64 = ty.frame_bytes();
        self.put(name, Var { ty, mutable, konst: None }, bytes, Ghost(out))
    }

    fn lookup(&self, name: &str) -> (r: Option<&Var>)
        ensures
            match r {
                Some(v) => rules::lookup(self.env().scopes, name@) == Some(v@),
                None => rules::lookup(self.env().scopes, name@) is None,
            },
    {
        let ghost all = frames(self.scopes@);
        let mut i: usize = self.scopes.len();
        assert(all.take(i as int) =~= all);
        while i > 0
            invariant
                i <= self.scopes@.len(),
                all == frames(self.scopes@),
                rules::lookup(all, name@) == rules::lookup(all.take(i as int), name@),
            decreases i,
        {
            i -= 1;
            let ghost part = all.take(i + 1);
            proof {
                assert(part.drop_last() =~= all.take(i as int));
                assert(part.last() == self.scopes@[i as int]@);
            }
            if let Some(v) = self.scopes[i].vars.get(name) {
                return Some(v);
            }
        }
        assert(all.take(0).len() == 0);
        None
    }
}

/// What checking an expression did: its type and the notes are those of the
/// rules, or the rules have no answer.
spec fn told(r: Option<Ty>, before: Seq<Diag>, after: Seq<Diag>, o: Out) -> bool {
    match r {
        Some(t) => o.ok && t@ == o.ty && notes(after) == notes(before) + o.notes,
        None => !o.ok,
    }
}

/// What evaluating a constant did.
spec fn told_konst(r: Option<Option<i64>>, before: Seq<Diag>, after: Seq<Diag>, k: Konst) -> bool {
    match r {
        Some(v) => k.ok && v == k.value && notes(after) == notes(before) + k.notes,
        None => !k.ok,
    }
}

/// How an operand takes part in a string or address comparison.
enum StrSide {
    /// A `str<N>` variable with this capacity.
    Local(u32),
    /// A string literal.
    Lit(String),
    /// An address variable of this type.
    Addr(Ty),
    No,
}

impl View for StrSide {
    type V = Side;

    closed spec fn view(&self) -> Side {
        match *self {
            StrSide::Local(cap) => Side::Local(cap),
            StrSide::Lit(s) => Side::Lit(s@),
            StrSide::Addr(t) => Side::Addr(t@),
            StrSide::No => Side::No,
        }
    }
}

fn is_call_to(e: &Expr, name: &str) -> (r: bool)
    ensures
        r == rules::is_call_to(e@, name@),
{
    proof {
        reveal_with_fuel(Expr::model, 3);
        reveal_with_fuel(ExprKind::model, 3);
    }
    match &e.kind {
        ExprKind::Call { callee, .. } => match &callee.kind {
            ExprKind::Ident(n) => same(n, name),
            _ => false,
        },
        _ => false,
    }
}

/// Whether an expression is a call, or made of one.
fn from_call(e: &Expr) -> (r: bool)
    ensures
        r == rules::from_call(e@),
    decreases e,
{
    match &e.kind {
        ExprKind::Call { .. } | ExprKind::MethodCall { .. } => true,
        ExprKind::Unary { expr, .. } => from_call(expr),
        ExprKind::Binary { lhs, rhs, .. } => from_call(lhs) || from_call(rhs),
        ExprKind::Field { expr, .. } => from_call(expr),
        _ => false,
    }
}

/// An integer literal must fit the width it is being used at.
fn literal_fits(expected: &Ty, e: &Expr, out: &mut Vec<Diag>)
    ensures
        notes(final(out)@) == notes(old(out)@) + rules::literal_fits(expected@, e@),
{
    broadcast use group_notes;

    if let ExprKind::Int(n) = &e.kind {
        if let Some(max) = expected.max_value() {
            if *n > max {
                let shown = dec_text(*n);
                let ty = expected.text();
                error(out, e.span, cat4(&shown, " does not fit in `", &ty, "`"));
            }
        }
    }
}

/// Check that `actual` can be used where `expected` is required.
fn expect(expected: &Ty, actual: &Ty, span: Span, out: &mut Vec<Diag>)
    ensures
        notes(final(out)@) == notes(old(out)@) + rules::expect(expected@, actual@, span),
{
    broadcast use group_notes;

    if !compatible(expected, actual) {
        let want = expected.text();
        let found = actual.text();
        let message = cat5("mismatched types: expected `", &want, "`, found `", &found, "`");
        if expected.is_int() && actual.is_int() {
            error_help(
                out,
                span,
                message,
                "integer widths must match exactly; honey has no implicit conversions",
            );
        } else if !matches!(expected, Ty::Ref(_)) && matches!(actual, Ty::Option(_)) {
            error_help(
                out,
                span,
                message,
                "check the lookup first: `if let Some(v) = map.get(key) { ... }`",
            );
        } else {
            error(out, span, message);
        }
    }
}

/// How many bytes a literal has.
fn byte_len(s: &str) -> (r: usize)
    ensures
        r == rules::byte_len(s@),
{
    s.as_bytes().len()
}

fn error_compare(out: &mut Vec<Diag>, span: Span, a: &Ty, b: &Ty)
    ensures
        notes(final(out)@) == notes(old(out)@) + seq![
            rules::cannot_compare(span, rules::sort_text(a@), rules::sort_text(b@)),
        ],
{
    let x = a.text();
    let y = b.text();
    error(out, span, cat5("cannot compare `", &x, "` with `", &y, "`"));
}

fn str_with_literal(cap: u32, lit: &str, span: Span, out: &mut Vec<Diag>)
    ensures
        notes(final(out)@) == notes(old(out)@) + rules::str_with_literal(cap, lit@, span),
{
    broadcast use group_notes;

    let n: usize = byte_len(lit);
    if n as u64 > cap as u64 {
        let len = dec_text(n as u64);
        let shown = dec_text(cap as u64);
        error_help(
            out,
            span,
            cat5(
                "this literal is ",
                &len,
                " bytes but the string is only `str<",
                &shown,
                ">`; they can never be equal",
            ),
            "enlarge the `str<N>` or shorten the literal",
        );
    }
}

fn addr_with_literal(ty: &Ty, lit: &str, span: Span, out: &mut Vec<Diag>)
    ensures
        notes(final(out)@) == notes(old(out)@) + rules::addr_with_literal(ty@, lit@, span),
{
    broadcast use group_notes;

    let good = match ty {
        Ty::Ipv6 => parse_ipv6(lit).is_some(),
        _ => parse_mac(lit).is_some(),
    };
    if !good {
        let shown = ty.text();
        error(out, span, cat5("`", lit, "` is not a valid `", &shown, "` literal"));
    }
}

fn literal_with_value(lit: &str, other: &Ty, span: Span, out: &mut Vec<Diag>)
    ensures
        notes(final(out)@) == notes(old(out)@) + rules::literal_with_value(lit@, other@, span),
{
    broadcast use group_notes;

    if matches!(other, Ty::U32) {
        if parse_ipv4(lit).is_none() {
            error_help(
                out,
                span,
                cat3("`", lit, "` is not an IPv4 address literal"),
                "a `u32` can be compared with a literal of the form `a.b.c.d`",
            );
        }
    } else if !other.is_unit() {
        let shown = other.text();
        error_help(
            out,
            span,
            cat3("cannot compare a string literal with `", &shown, "`"),
            "only a `str<N>` variable can be compared with a literal",
        );
    }
}

fn is_equality(op: BinaryOp) -> (r: bool)
    ensures
        r == rules::is_equality(op),
{
    matches!(op, BinaryOp::Eq | BinaryOp::Ne)
}

fn is_comparison(op: BinaryOp) -> (r: bool)
    ensures
        r == rules::is_comparison(op),
{
    matches!(
        op,
        BinaryOp::Eq | BinaryOp::Ne | BinaryOp::Lt | BinaryOp::Le | BinaryOp::Gt | BinaryOp::Ge
    )
}

fn is_logical(op: BinaryOp) -> (r: bool)
    ensures
        r == rules::is_logical(op),
{
    matches!(op, BinaryOp::And | BinaryOp::Or)
}

fn needs_operands(out: &mut Vec<Diag>, span: Span, op: BinaryOp, what: &str, found: &Ty)
    ensures
        notes(final(out)@) == notes(old(out)@) + seq![
            note(
                span,
                "`"@ + crate::ast::binary_symbol(op) + what@ + rules::sort_text(found@) + "`"@,
            ),
        ],
{
    let shown = found.text();
    error(out, span, cat5("`", op.symbol(), what, &shown, "`"));
}

/// A binary operator on two values.
fn operate(
    op: BinaryOp,
    lhs: &Expr,
    rhs: &Expr,
    l: Ty,
    r: Ty,
    span: Span,
    out: &mut Vec<Diag>,
) -> (ty: Ty)
    ensures
        ({
            let o = rules::operate(op, lhs@, rhs@, l@, r@, span);
            &&& ty@ == o.ty
            &&& notes(final(out)@) == notes(old(out)@) + o.notes
        }),
{
    broadcast use group_notes;

    // Errors in operands already reported; don't cascade.
    if l.is_unit() || r.is_unit() {
        return if is_logical(op) || is_comparison(op) {
            Ty::Bool
        } else {
            Ty::Unit
        };
    }
    if is_logical(op) {
        if !matches!(l, Ty::Bool) {
            needs_operands(out, lhs.span, op, "` needs `bool` operands, found `", &l);
        }
        if !matches!(r, Ty::Bool) {
            needs_operands(out, rhs.span, op, "` needs `bool` operands, found `", &r);
        }
        return Ty::Bool;
    }
    if is_comparison(op) {
        if !compatible(&l, &r) && !compatible(&r, &l) {
            let x = l.text();
            let y = r.text();
            error_help(
                out,
                span,
                cat5("cannot compare `", &x, "` with `", &y, "`"),
                "both sides must have the same type",
            );
        } else if !l.is_scalar() {
            let x = l.text();
            error(out, span, cat3("cannot compare values of type `", &x, "`"));
        }
        return Ty::Bool;
    }
    if !l.is_int() {
        needs_operands(out, lhs.span, op, "` needs integer operands, found `", &l);
        return Ty::Unit;
    }
    if !r.is_int() {
        needs_operands(out, rhs.span, op, "` needs integer operands, found `", &r);
        return Ty::Unit;
    }
    if matches!(l, Ty::Int) {
        return r;
    }
    if matches!(r, Ty::Int) || l.same_as(&r) {
        return l;
    }
    let x = l.text();
    let y = r.text();
    error_help(
        out,
        span,
        cat7("mismatched integer widths: `", &x, "` ", op.symbol(), " `", &y, "`"),
        "honey has no implicit conversions; give both sides the same declared type",
    );
    l
}

/// A prefix operator on a value.
fn unary_type(op: UnaryOp, t: Ty, span: Span, out: &mut Vec<Diag>) -> (ty: Ty)
    ensures
        ({
            let o = rules::unary_type(op, t@, span);
            &&& ty@ == o.ty
            &&& notes(final(out)@) == notes(old(out)@) + o.notes
        }),
{
    broadcast use group_notes;

    match op {
        UnaryOp::Deref => match t {
            Ty::Ref(inner) => *inner,
            Ty::Option(inner) => {
                let shown = inner.text();
                error_help(
                    out,
                    span,
                    cat3(
                        "cannot dereference `Option<&",
                        &shown,
                        ">`: the lookup may have found nothing",
                    ),
                    "check it first: `if let Some(v) = map.get(key) { ... *v ... }`",
                );
                *inner
            },
            other => {
                if !other.is_unit() {
                    let shown = other.text();
                    error(out, span, cat3("cannot dereference `", &shown, "`"));
                }
                Ty::Unit
            },
        },
        UnaryOp::Not => {
            if !matches!(t, Ty::Bool) && !t.is_unit() {
                let shown = t.text();
                error(out, span, cat3("`!` needs a `bool`, found `", &shown, "`"));
            }
            Ty::Bool
        },
        _ => {
            if !t.is_int() && !t.is_unit() {
                let shown = t.text();
                error(
                    out,
                    span,
                    cat5("`", op.symbol(), "` needs an integer, found `", &shown, "`"),
                );
            }
            t
        },
    }
}

/// Two constants under an operator. Nothing where the value does not fit.
fn fold(op: BinaryOp, a: i64, b: i64, e: &Expr, out: &mut Vec<Diag>) -> (r: Option<Option<i64>>)
    ensures
        told_konst(r, old(out)@, final(out)@, rules::fold(op, a, b, e@)),
{
    broadcast use group_notes;

    match op {
        BinaryOp::Add => match a.checked_add(b) {
            Some(n) => Some(Some(n)),
            None => None,
        },
        BinaryOp::Sub => match a.checked_sub(b) {
            Some(n) => Some(Some(n)),
            None => None,
        },
        BinaryOp::Mul => match a.checked_mul(b) {
            Some(n) => Some(Some(n)),
            None => None,
        },
        BinaryOp::BitOr => Some(Some(a | b)),
        BinaryOp::BitAnd => Some(Some(a & b)),
        BinaryOp::Shl => {
            if 0 <= b && b < 64 {
                Some(Some(a << b))
            } else {
                None
            }
        },
        _ => {
            error(out, e.span, owned("this operator is not allowed in a constant expression"));
            Some(None)
        },
    }
}

/// Whether a read of the packet stays in the part that is checked on entry.
fn packet_offset(o: i64, width: i64, span: Span, out: &mut Vec<Diag>)
    requires
        0 <= width <= 16,
    ensures
        notes(final(out)@) == notes(old(out)@) + rules::packet_offset(o, width as int, span),
{
    broadcast use group_notes;

    if o < 0 {
        error(out, span, owned("packet offset must not be negative"));
    } else if o > MAX_PKT_BOUND as i64 - width {
        let shown = signed_text(o);
        error_help(
            out,
            span,
            cat3(
                "packet read at offset ",
                &shown,
                " ends past 256 bytes, the most an XDP probe may inspect",
            ),
            "honey checks the packet is at least that long once, on entry; keep reads within the first 256 bytes",
        );
    }
}

/// What a method of the packet reads.
fn packet_read(m: &str) -> (r: Option<(i64, Ty)>)
    ensures
        match r {
            Some((w, t)) => rules::packet_read(m@) == Some((w as int, t@)) && 0 <= w <= 16,
            None => rules::packet_read(m@) is None,
        },
{
    if same(m, "u8") {
        Some((1, Ty::U8))
    } else if same(m, "u16") {
        Some((2, Ty::U16))
    } else if same(m, "u32") {
        Some((4, Ty::U32))
    } else if same(m, "ipv6") {
        Some((16, Ty::Ipv6))
    } else if same(m, "mac") {
        Some((6, Ty::Mac))
    } else {
        None
    }
}

/// `s.starts_with(arg)` on a `str<cap>` named `name`.
fn starts_with_method(name: &str, cap: u32, arg: &Expr, out: &mut Vec<Diag>)
    ensures
        notes(final(out)@) == notes(old(out)@) + rules::starts_with_method(name@, cap, arg@).notes,
{
    broadcast use group_notes;

    match &arg.kind {
        ExprKind::Str(lit) => {
            let n: usize = byte_len(lit);
            if n as u64 > cap as u64 {
                let len = dec_text(n as u64);
                let shown = dec_text(cap as u64);
                error(
                    out,
                    arg.span,
                    cat7(
                        "prefix is ",
                        &len,
                        " bytes but `",
                        name,
                        "` is only `str<",
                        &shown,
                        ">`",
                    ),
                );
            }
        },
        _ => error(out, arg.span, owned("`starts_with` takes a string literal")),
    }
}

fn is_process_builtin(name: &str) -> (r: bool)
    ensures
        r == rules::is_process_builtin(name@),
{
    is_id_builtin(name) || same(name, "comm") || same(name, "arg") || same(name, "retval")
}

fn is_id_builtin(name: &str) -> (r: bool)
    ensures
        r == rules::is_id_builtin(name@),
{
    same(name, "pid") || same(name, "tgid") || same(name, "tid") || same(name, "uid") || same(
        name,
        "gid",
    )
}

impl Checker<'_> {
    // ---- constants -------------------------------------------------------

    fn is_return_probe(&self) -> (r: bool)
        ensures
            r == rules::is_return_probe(self.env().probe),
    {
        match self.probe_kind {
            Some(ProbeKind::Kretprobe) | Some(ProbeKind::Uretprobe) => true,
            _ => false,
        }
    }

    fn is_xdp(&self) -> (r: bool)
        ensures
            r == (self.env().probe == Some(ProbeKind::Xdp)),
    {
        match self.probe_kind {
            Some(ProbeKind::Xdp) => true,
            _ => false,
        }
    }

    fn is_lsm(&self) -> (r: bool)
        ensures
            r == (self.env().probe == Some(ProbeKind::Lsm)),
    {
        match self.probe_kind {
            Some(ProbeKind::Lsm) => true,
            _ => false,
        }
    }

    /// Evaluate a compile-time constant, reporting (once) if it isn't one.
    /// Nothing where the value does not fit.
    fn const_eval(&self, e: &Expr, out: &mut Vec<Diag>) -> (r: Option<Option<i64>>)
        ensures
            told_konst(r, old(out)@, final(out)@, rules::const_eval(self.env(), e@)),
        decreases e,
    {
        broadcast use group_notes;

        match &e.kind {
            ExprKind::Int(n) => Some(Some(*n as i64)),
            ExprKind::Ident(name) => {
                if let Some(c) = self.consts.get(name) {
                    return Some(Some(c.1 as i64));
                }
                match self.lookup(name) {
                    Some(v) => {
                        if let Some(k) = v.konst {
                            return Some(Some(k));
                        }
                        error_help(
                            out,
                            e.span,
                            cat3("`", name, "` is a runtime value, not a constant"),
                            "loop bounds and indices must be known at compile time so the verifier can prove them bounded; use a literal or a `const`",
                        );
                        Some(None)
                    },
                    None => {
                        error(out, e.span, cat3("unknown name `", name, "`"));
                        Some(None)
                    },
                }
            },
            ExprKind::Binary { op, lhs, rhs } => {
                let a = match self.const_eval(lhs, out) {
                    None => {
                        return None;
                    },
                    Some(None) => {
                        return Some(None);
                    },
                    Some(Some(n)) => n,
                };
                let b = match self.const_eval(rhs, out) {
                    None => {
                        return None;
                    },
                    Some(None) => {
                        return Some(None);
                    },
                    Some(Some(n)) => n,
                };
                fold(*op, a, b, e, out)
            },
            _ => {
                error_help(
                    out,
                    e.span,
                    owned("expected a compile-time constant"),
                    "loop bounds and indices must be literals or `const` names",
                );
                Some(None)
            },
        }
    }

    /// The first local that takes part in a constant expression, and where.
    fn local_in(&self, e: &Expr) -> (r: Option<(String, Span)>)
        ensures
            match (r, rules::local_in(self.env(), e@)) {
                (Some(x), Some(y)) => x.0@ == y.0 && x.1 == y.1,
                (None, None) => true,
                _ => false,
            },
        decreases e,
    {
        match &e.kind {
            ExprKind::Ident(name) => {
                if self.lookup(name).is_some() {
                    Some((name.clone(), e.span))
                } else {
                    None
                }
            },
            ExprKind::Binary { lhs, rhs, .. } => match self.local_in(lhs) {
                Some(x) => Some(x),
                None => self.local_in(rhs),
            },
            _ => None,
        }
    }

    /// Like `const_eval` but without loop variables: for packet offsets, which
    /// must be fixed so the single entry bounds check can cover them all.
    fn const_eval_global(&self, e: &Expr, out: &mut Vec<Diag>) -> (r: Option<Option<i64>>)
        ensures
            told_konst(r, old(out)@, final(out)@, rules::const_eval_global(self.env(), e@)),
    {
        broadcast use group_notes;

        if let Some((name, span)) = self.local_in(e) {
            error_help(
                out,
                span,
                cat3("packet offset `", &name, "` is a variable"),
                "packet offsets must be literals or `const`s so honey can bounds-check the packet once on entry",
            );
            return Some(None);
        }
        self.const_eval(e, out)
    }

    // ---- expressions -----------------------------------------------------

    /// How an operand takes part in a string comparison, decided without
    /// evaluating it (a bare literal is an error everywhere else).
    fn str_side(&self, e: &Expr) -> (r: StrSide)
        ensures
            r@ == rules::side(self.env(), e@),
    {
        match &e.kind {
            ExprKind::Str(lit) => StrSide::Lit(lit.clone()),
            ExprKind::Ident(n) => match self.lookup(n) {
                Some(v) => match &v.ty {
                    Ty::Str(cap) => StrSide::Local(*cap),
                    Ty::Ipv6 => StrSide::Addr(Ty::Ipv6),
                    Ty::Mac => StrSide::Addr(Ty::Mac),
                    _ => StrSide::No,
                },
                None => StrSide::No,
            },
            _ => StrSide::No,
        }
    }

    /// Type of `base.field` where `base` is a kernel struct pointer.
    fn field_type(&self, struct_name: &str, field: &Ident, out: &mut Vec<Diag>) -> (r: Option<Ty>)
        ensures
            told(
                r,
                old(out)@,
                final(out)@,
                rules::field_type(self.env(), struct_name@, field@),
            ),
    {
        broadcast use group_notes;

        let btf = match self.btf {
            Some(b) => b,
            None => {
                error(out, field.span, owned("kernel field access needs `--btf`"));
                return Some(Ty::Unit);
            },
        };
        let member = match btf.find_member(struct_name, &field.name) {
            None => {
                return None;
            },
            Some(None) => {
                error(
                    out,
                    field.span,
                    cat5("`struct ", struct_name, "` has no field `", &field.name, "`"),
                );
                return Some(Ty::Unit);
            },
            Some(Some(m)) => m,
        };
        match btf.resolve(member.type_id) {
            Resolved::Int { bytes, .. } => Some(
                if bytes == 1 {
                    Ty::U8
                } else if bytes == 2 {
                    Ty::U16
                } else if bytes == 4 {
                    Ty::U32
                } else {
                    Ty::U64
                },
            ),
            Resolved::Struct { name, .. } => Some(Ty::KPtr(name)),
            Resolved::PtrToStruct { name, .. } => Some(Ty::KPtr(name)),
            Resolved::PtrToChar => Some(Ty::KCharPtr),
            Resolved::PtrToOther => Some(Ty::U64),
            _ => {
                error_help(
                    out,
                    field.span,
                    cat3(
                        "field `",
                        &field.name,
                        "` has a type honey can't read yet (array, enum, or function pointer)",
                    ),
                    "read a scalar, an embedded struct, or a pointer field instead",
                );
                Some(Ty::Unit)
            },
        }
    }

    /// A name used as a value.
    fn name_type(&self, name: &str, span: Span, out: &mut Vec<Diag>) -> (r: Ty)
        ensures
            ({
                let o = rules::name_type(self.env(), name@, span);
                &&& o.ok
                &&& r@ == o.ty
                &&& notes(final(out)@) == notes(old(out)@) + o.notes
            }),
    {
        broadcast use group_notes;

        if let Some(v) = self.lookup(name) {
            return v.ty.clone();
        }
        if let Some(c) = self.consts.get(name) {
            return c.0.clone();
        }
        if self.maps.contains_key(name) {
            error_help(
                out,
                span,
                cat3("`", name, "` is a map, not a value"),
                "use `.get(key)` or `.insert(key, value)`",
            );
            return Ty::Unit;
        }
        error(out, span, cat3("unknown name `", name, "`"));
        Ty::Unit
    }

    fn expr(&self, e: &Expr, out: &mut Vec<Diag>) -> (r: Option<Ty>)
        ensures
            told(r, old(out)@, final(out)@, rules::expr(self.env(), e@)),
        decreases e, 2int,
    {
        broadcast use group_notes;

        match &e.kind {
            ExprKind::Int(_) => Some(Ty::Int),
            ExprKind::Bool(_) => Some(Ty::Bool),
            ExprKind::Str(_) => {
                error_help(
                    out,
                    e.span,
                    owned("string literals can only be used as `starts_with` arguments in v1"),
                    "there is no string type you can hold in a variable except `str<N>` from `read_user_str`",
                );
                Some(Ty::Unit)
            },
            ExprKind::Ident(name) => Some(self.name_type(name, e.span, out)),
            ExprKind::Unary { op, expr: inner } => {
                let t = if matches!(op, UnaryOp::Not) {
                    self.value(inner, out)?
                } else {
                    self.expr(inner, out)?
                };
                Some(unary_type(*op, t, e.span, out))
            },
            ExprKind::Binary { .. } => self.binary(e, out),
            ExprKind::Cast { expr: inner, ty } => {
                let _ = self.expr(inner, out)?;
                let shown = pretty::ty(ty);
                let help = cat3(
                    "declare the value with the width you need, e.g. `let x: ",
                    &shown,
                    " = ...`",
                );
                error_help(out, e.span, owned("`as` casts are not supported in v1"), &help);
                match Ty::from_ast(ty) {
                    Ok(t) => Some(t),
                    Err(_) => Some(Ty::Unit),
                }
            },
            ExprKind::Call { .. } => self.call(e, out),
            ExprKind::MethodCall { .. } => self.method(e, out),
            ExprKind::Field { expr: inner, field } => {
                let base = self.expr(inner, out)?;
                match base {
                    Ty::KPtr(name) => self.field_type(&name, field, out),
                    Ty::Unit => Some(Ty::Unit),
                    other => {
                        let shown = other.text();
                        error_help(
                            out,
                            e.span,
                            cat5(
                                "`.",
                                &field.name,
                                "` needs a kernel struct pointer, found `",
                                &shown,
                                "`",
                            ),
                            "get one with `let p: ptr<Struct> = arg(n);`",
                        );
                        Some(Ty::Unit)
                    },
                }
            },
            ExprKind::Index { .. } => {
                error_help(
                    out,
                    e.span,
                    owned("indexing is not supported in v1"),
                    "use `map.get(key)` for maps and `s.byte_at(i)` for strings",
                );
                Some(Ty::Unit)
            },
        }
    }

    /// Check every argument for its diagnostics alone.
    fn exprs(&self, args: &Vec<Expr>, out: &mut Vec<Diag>, Ghost(ty): Ghost<Sort>) -> (r: Option<
        (),
    >)
        ensures
            ({
                let o = rules::exprs(self.env(), exprs(args@), 0, ty);
                match r {
                    Some(_) => o.ok && notes(final(out)@) == notes(old(out)@) + o.notes,
                    None => !o.ok,
                }
            }),
        decreases args, 0int,
    {
        let ghost all = exprs(args@);
        let ghost v = self.env();
        let ghost start = notes(out@);
        let ghost whole = rules::exprs(v, all, 0, ty);
        proof {
            lemma_exprs(args@);
        }
        let mut i: usize = 0;
        while i < args.len()
            invariant
                0 <= i <= args@.len(),
                all == exprs(args@),
                all.len() == args@.len(),
                forall|k: int| 0 <= k < all.len() ==> #[trigger] all[k] == args@[k]@,
                v == self.env(),
                whole == rules::exprs(v, all, 0, ty),
                start == notes(old(out)@),
                notes(out@) + rules::exprs(v, all, i as int, ty).notes == start + whole.notes,
                rules::exprs(v, all, i as int, ty).ok == whole.ok,
            decreases args@.len() - i,
        {
            let ghost before = notes(out@);
            assert(all[i as int] == args@[i as int]@);
            let r = self.expr(&args[i], out);
            match r {
                None => {
                    return None;
                },
                Some(_) => {
                    proof {
                        let a = rules::expr(v, all[i as int]);
                        let b = rules::exprs(v, all, i + 1, ty);
                        assert((before + a.notes) + b.notes =~= before + (a.notes + b.notes));
                    }
                },
            }
            i += 1;
        }
        assert(notes(out@) + rules::none() =~= notes(out@));
        Some(())
    }

    fn binary(&self, e: &Expr, out: &mut Vec<Diag>) -> (r: Option<Ty>)
        ensures
            told(r, old(out)@, final(out)@, rules::binary(self.env(), e@)),
        decreases e, 1int,
    {
        broadcast use group_notes;

        let (op, lhs, rhs) = match &e.kind {
            ExprKind::Binary { op, lhs, rhs } => (*op, lhs, rhs),
            _ => {
                return Some(Ty::Unit);
            },
        };
        // String and address comparisons: only `==` / `!=`.
        let ls = self.str_side(lhs);
        let rs = self.str_side(rhs);
        let l_no = matches!(ls, StrSide::No);
        let r_no = matches!(rs, StrSide::No);
        if !l_no || !r_no {
            if !is_equality(op) {
                error_help(
                    out,
                    e.span,
                    cat3("strings and addresses do not support `", op.symbol(), "`"),
                    "strings can only be compared with `==` and `!=`, or tested with `starts_with`",
                );
                return Some(Ty::Bool);
            }
            if l_no {
                let other = self.value(lhs, out)?;
                compare_with_value(&rs, &other, e.span, out);
            } else if r_no {
                let other = self.value(rhs, out)?;
                compare_with_value(&ls, &other, e.span, out);
            } else {
                compare_sides(&ls, &rs, e.span, out);
            }
            return Some(Ty::Bool);
        }
        let l = self.operand(op, lhs, out)?;
        let r = self.operand(op, rhs, out)?;
        Some(operate(op, lhs, rhs, l, r, e.span, out))
    }

    // ---- builtins --------------------------------------------------------

    /// `arg(n)`
    fn arg_builtin(&self, idx: &Expr, span: Span, out: &mut Vec<Diag>) -> (r: Option<Ty>)
        ensures
            told(r, old(out)@, final(out)@, rules::arg_builtin(self.env(), idx@, span)),
    {
        broadcast use group_notes;

        if self.is_return_probe() {
            error_help(
                out,
                span,
                owned(
                    "`arg()` is not available in a return probe: the arguments are gone by the time the function returns",
                ),
                "record what you need in the entry probe and share it through a map keyed by `tid()`",
            );
        }
        match self.const_eval(idx, out) {
            None => {
                return None;
            },
            Some(Some(n)) => {
                if n < 0 || n > MAX_ARG {
                    let shown = signed_text(n);
                    error(
                        out,
                        idx.span,
                        cat3("`arg(", &shown, ")`: probes expose arguments 0 to 5"),
                    );
                }
            },
            Some(None) => {},
        }
        Some(Ty::U64)
    }

    /// `sample(n)`
    fn sample_builtin(&self, n: &Expr, out: &mut Vec<Diag>) -> (r: Option<Ty>)
        ensures
            told(r, old(out)@, final(out)@, rules::sample_builtin(self.env(), n@)),
    {
        broadcast use group_notes;

        match self.const_eval(n, out) {
            None => {
                return None;
            },
            Some(Some(x)) => {
                if x < 1 {
                    let shown = signed_text(x);
                    error(
                        out,
                        n.span,
                        cat3("`sample(", &shown, ")`: the rate must be at least 1"),
                    );
                }
            },
            Some(None) => {},
        }
        Some(Ty::Bool)
    }

    fn call(&self, e: &Expr, out: &mut Vec<Diag>) -> (r: Option<Ty>)
        ensures
            told(r, old(out)@, final(out)@, rules::call(self.env(), e@)),
        decreases e, 1int,
    {
        broadcast use group_notes;

        proof {
            reveal_with_fuel(Expr::model, 3);
            reveal_with_fuel(ExprKind::model, 3);
        }
        let (callee, args) = match &e.kind {
            ExprKind::Call { callee, args } => (callee, args),
            _ => {
                return Some(Ty::Unit);
            },
        };
        let name = match &callee.kind {
            ExprKind::Ident(name) => name,
            _ => {
                error(out, callee.span, owned("only builtins can be called"));
                return Some(Ty::Unit);
            },
        };
        let span = e.span;
        proof {
            lemma_exprs(args@);
        }
        if self.is_xdp() && is_process_builtin(name) {
            error_help(
                out,
                span,
                cat3(
                    "`",
                    name,
                    "()` is not available in an `xdp` probe: a packet has no process context",
                ),
                "use `pkt.u8/u16/u32(offset)`, `pkt.len()`, and `ktime()` here",
            );
            let _ = self.exprs(args, out, Ghost(Sort::Unit))?;
            return if same(name, "comm") {
                Some(Ty::Str(16))
            } else {
                Some(Ty::U64)
            };
        }
        let bare = args.len() == 0;
        if is_id_builtin(name) && bare {
            return Some(Ty::U32);
        }
        if same(name, "ktime") && bare {
            return Some(Ty::U64);
        }
        if same(name, "comm") && bare {
            error_help(
                out,
                span,
                owned("`comm()` can only be used directly as an `emit` field value"),
                "e.g. `emit Exec { comm: comm() }` with `comm: str<16>` in the event",
            );
            return Some(Ty::Str(16));
        }
        if same(name, "arg") && args.len() == 1 {
            assert(exprs(args@)[0] == args@[0]@);
            return self.arg_builtin(&args[0], span, out);
        }
        if same(name, "retval") && bare {
            if !self.is_return_probe() {
                error_help(
                    out,
                    span,
                    owned("`retval()` is only available in a return probe"),
                    "a return value only exists when the function returns; use `kretprobe(\"fn\")` or `uretprobe(\"path:sym\")`",
                );
            }
            return Some(Ty::I64);
        }
        if same(name, "sample") {
            if args.len() == 1 {
                assert(exprs(args@)[0] == args@[0]@);
                return self.sample_builtin(&args[0], out);
            }
            error(out, span, owned("`sample(N)` takes one constant rate"));
            return Some(Ty::Unit);
        }
        self.call_action(e, callee.span, name, args, out)
    }

    /// The builtins that act, and the calls that are wrong.
    fn call_action(
        &self,
        e: &Expr,
        callee: Span,
        name: &String,
        args: &Vec<Expr>,
        out: &mut Vec<Diag>,
    ) -> (r: Option<Ty>)
        requires
            e.kind matches ExprKind::Call { callee: c, args: a } && *args == a,
            self.env().probe == Some(ProbeKind::Xdp) ==> !rules::is_process_builtin(name@),
            !(rules::is_id_builtin(name@) && args@.len() == 0),
            !(name@ == "ktime"@ && args@.len() == 0),
            !(name@ == "comm"@ && args@.len() == 0),
            !(name@ == "arg"@ && args@.len() == 1),
            !(name@ == "retval"@ && args@.len() == 0),
            name@ != "sample"@,
        ensures
            told(
                r,
                old(out)@,
                final(out)@,
                rules::builtin(
                    self.env(),
                    name@,
                    exprs(args@),
                    callee,
                    e.span,
                    rules::exprs(self.env(), exprs(args@), 0, Sort::Unit),
                ),
            ),
        decreases e, 0int,
    {
        broadcast use group_notes;

        proof {
            lemma_exprs(args@);
        }
        let span = e.span;
        if same(name, "read_user_str") || same(name, "read_kernel_str") {
            let help = cat3("write `let s: str<N> = ", name, "(ptr);`");
            error_help(out, span, cat3("`", name, "` must initialise a bounded string"), &help);
            return Some(Ty::Unit);
        }
        let packet = same(name, "drop") || same(name, "pass");
        let verdict = same(name, "deny") || same(name, "allow");
        if packet && args.len() == 0 {
            if !self.is_xdp() {
                error_help(
                    out,
                    span,
                    cat3("`", name, "()` is only available in an `xdp` probe"),
                    "only an XDP program decides a packet's fate; use `probe xdp(\"iface\") { ... }`",
                );
            }
            return Some(Ty::Unit);
        }
        if verdict && args.len() == 0 {
            if !self.is_lsm() {
                error_help(
                    out,
                    span,
                    cat3("`", name, "()` is only available in an `lsm` probe"),
                    "only an LSM hook can allow or deny an action; use `probe lsm(\"hook\") { ... }`",
                );
            }
            return Some(Ty::Unit);
        }
        if packet || verdict {
            error(out, span, cat3("`", name, "()` takes no arguments"));
            return Some(Ty::Unit);
        }
        if is_id_builtin(name) || same(name, "ktime") || same(name, "arg") || same(name, "retval") {
            error(out, span, cat3("wrong number of arguments to `", name, "()`"));
        } else {
            error(out, callee, cat3("unknown builtin `", name, "`"));
        }
        let _ = self.exprs(args, out, Ghost(Sort::Unit))?;
        Some(Ty::Unit)
    }

    // ---- methods ---------------------------------------------------------

    /// A method of the packet, inside an `xdp` probe.
    fn packet_method(&self, m: &Ident, args: &Vec<Expr>, span: Span, out: &mut Vec<Diag>) -> (r:
        Option<Ty>)
        ensures
            told(
                r,
                old(out)@,
                final(out)@,
                rules::packet_method(self.env(), m@, exprs(args@), span),
            ),
    {
        broadcast use group_notes;

        proof {
            lemma_exprs(args@);
        }
        if same(&m.name, "len") && args.len() == 0 {
            return Some(Ty::U32);
        }
        match packet_read(&m.name) {
            Some((width, ty)) => {
                if args.len() != 1 {
                    error(out, span, cat3("`pkt.", &m.name, "` takes one constant offset"));
                    return Some(Ty::Unit);
                }
                assert(exprs(args@)[0] == args@[0]@);
                match self.const_eval_global(&args[0], out) {
                    None => {
                        return None;
                    },
                    Some(Some(o)) => packet_offset(o, width, args[0].span, out),
                    Some(None) => {},
                }
                Some(ty)
            },
            None => {
                error(
                    out,
                    m.span,
                    cat3(
                        "`pkt` has no method `",
                        &m.name,
                        "`; use `u8(off)`, `u16(off)`, `u32(off)`, or `len()`",
                    ),
                );
                Some(Ty::Unit)
            },
        }
    }

    /// `s.byte_at(arg)` on a `str<cap>`.
    fn byte_at_method(&self, cap: u32, arg: &Expr, out: &mut Vec<Diag>) -> (r: Option<Ty>)
        ensures
            told(r, old(out)@, final(out)@, rules::byte_at_method(self.env(), cap, arg@)),
    {
        broadcast use group_notes;

        match self.const_eval(arg, out) {
            None => {
                return None;
            },
            Some(Some(i)) => {
                if i < 0 || i >= cap as i64 {
                    let shown = signed_text(i);
                    let size = dec_text(cap as u64);
                    error_help(
                        out,
                        arg.span,
                        cat5("`byte_at(", &shown, ")` is outside `str<", &size, ">`"),
                        "the index must be a constant below the string's capacity so the read is bounded",
                    );
                }
            },
            Some(None) => {},
        }
        Some(Ty::U8)
    }

    /// A method of a local.
    fn local_method(
        &self,
        name: &str,
        ty: &Ty,
        m: &Ident,
        args: &Vec<Expr>,
        span: Span,
        out: &mut Vec<Diag>,
    ) -> (r: Option<Ty>)
        ensures
            told(
                r,
                old(out)@,
                final(out)@,
                rules::local_method(self.env(), name@, ty@, m@, exprs(args@), span),
            ),
    {
        broadcast use group_notes;

        proof {
            lemma_exprs(args@);
        }
        match ty {
            Ty::Str(cap) => {
                if same(&m.name, "starts_with") && args.len() == 1 {
                    assert(exprs(args@)[0] == args@[0]@);
                    starts_with_method(name, *cap, &args[0], out);
                    return Some(Ty::Bool);
                }
                if same(&m.name, "byte_at") && args.len() == 1 {
                    assert(exprs(args@)[0] == args@[0]@);
                    return self.byte_at_method(*cap, &args[0], out);
                }
                error(
                    out,
                    m.span,
                    cat3(
                        "string has no method `",
                        &m.name,
                        "`; try `starts_with(\"...\")` or `byte_at(i)`",
                    ),
                );
                Some(Ty::Unit)
            },
            other => {
                let shown = other.text();
                error(
                    out,
                    span,
                    cat5("`", name, "` is a `", &shown, "`, which has no methods"),
                );
                Some(Ty::Unit)
            },
        }
    }

    /// Check `e` where a value is required.
    fn value(&self, e: &Expr, out: &mut Vec<Diag>) -> (r: Option<Ty>)
        ensures
            told(
                r,
                old(out)@,
                final(out)@,
                rules::valued(e@, rules::expr(self.env(), e@)),
            ),
        decreases e, 3int,
    {
        broadcast use group_notes;

        let before: usize = out.len();
        assert(notes(out@).len() == before);
        let t = self.expr(e, out)?;
        assert(notes(out@).len() == out@.len());
        if out.len() == before && t.is_unit() && from_call(e) {
            error(out, e.span, owned("this expression has no value"));
        }
        Some(t)
    }

    fn operand(&self, op: BinaryOp, e: &Expr, out: &mut Vec<Diag>) -> (r: Option<Ty>)
        ensures
            told(
                r,
                old(out)@,
                final(out)@,
                rules::operand(op, e@, rules::expr(self.env(), e@)),
            ),
        decreases e, 4int,
    {
        if is_logical(op) || is_comparison(op) {
            self.value(e, out)
        } else {
            self.expr(e, out)
        }
    }

    /// Check `e` where `expected` is required.
    fn expecting(&self, expected: &Ty, e: &Expr, out: &mut Vec<Diag>) -> (r: Option<()>)
        ensures
            ({
                let o = rules::expecting(expected@, e@, rules::expr(self.env(), e@));
                match r {
                    Some(_) => o.ok && notes(final(out)@) == notes(old(out)@) + o.notes,
                    None => !o.ok,
                }
            }),
        decreases e, 4int,
    {
        broadcast use group_notes;

        let t = self.value(e, out)?;
        expect(expected, &t, e.span, out);
        literal_fits(expected, e, out);
        Some(())
    }

    fn method(&self, e: &Expr, out: &mut Vec<Diag>) -> (r: Option<Ty>)
        ensures
            told(r, old(out)@, final(out)@, rules::method(self.env(), e@)),
        decreases e, 1int,
    {
        broadcast use group_notes;

        proof {
            reveal_with_fuel(Expr::model, 3);
            reveal_with_fuel(ExprKind::model, 3);
        }
        let (receiver, method, args) = match &e.kind {
            ExprKind::MethodCall { receiver, method, args } => (receiver, method, args),
            _ => {
                return Some(Ty::Unit);
            },
        };
        let name = match &receiver.kind {
            ExprKind::Ident(name) => name,
            _ => {
                error(
                    out,
                    receiver.span,
                    owned("methods can only be called on maps and strings"),
                );
                return Some(Ty::Unit);
            },
        };
        // Strings.
        if let Some(var) = self.lookup(name) {
            return self.local_method(name, &var.ty, method, args, e.span, out);
        }
        // The packet view, only in xdp probes.
        if same(name, "pkt") {
            if self.is_xdp() {
                return self.packet_method(method, args, e.span, out);
            }
            error_help(
                out,
                e.span,
                owned("`pkt` is only available in an `xdp` probe"),
                "packets exist only in `probe xdp(\"iface\")`",
            );
            let _ = self.exprs(args, out, Ghost(Sort::Unit))?;
            return Some(Ty::Unit);
        }
        // Maps.
        match self.maps.get(name) {
            Some(info) => self.map_method(e, info, method, args, out),
            None => {
                error(out, receiver.span, cat3("unknown map or string `", name, "`"));
                let _ = self.exprs(args, out, Ghost(Sort::Unit))?;
                Some(Ty::Unit)
            },
        }
    }

    fn map_method(
        &self,
        e: &Expr,
        info: &MapInfo,
        method: &Ident,
        args: &Vec<Expr>,
        out: &mut Vec<Diag>,
    ) -> (r: Option<Ty>)
        requires
            e.kind matches ExprKind::MethodCall { receiver: _, method: _, args: a } && *args == a,
        ensures
            ({
                let v = self.env();
                let list = exprs(args@);
                told(
                    r,
                    old(out)@,
                    final(out)@,
                    rules::map_method(
                        info.key@,
                        info.value@,
                        method@,
                        list,
                        if list.len() > 0 {
                            rules::expr(v, list[0])
                        } else {
                            rules::quiet(Sort::Unit)
                        },
                        if list.len() > 1 {
                            rules::expr(v, list[1])
                        } else {
                            rules::quiet(Sort::Unit)
                        },
                        rules::exprs(v, list, 0, Sort::Unit),
                    ),
                )
            }),
        decreases e, 0int,
    {
        broadcast use group_notes;

        proof {
            lemma_exprs(args@);
        }
        if same(&method.name, "get") && args.len() == 1 {
            assert(exprs(args@)[0] == args@[0]@);
            let _ = self.expecting(&info.key, &args[0], out)?;
            return Some(Ty::Option(Box::new(info.value.clone())));
        }
        if same(&method.name, "insert") && args.len() == 2 {
            assert(exprs(args@)[0] == args@[0]@);
            assert(exprs(args@)[1] == args@[1]@);
            let _ = self.expecting(&info.key, &args[0], out)?;
            let _ = self.expecting(&info.value, &args[1], out)?;
            return Some(Ty::Unit);
        }
        if same(&method.name, "delete") && args.len() == 1 {
            assert(exprs(args@)[0] == args@[0]@);
            let _ = self.expecting(&info.key, &args[0], out)?;
            return Some(Ty::Unit);
        }
        let n = dec_text(args.len() as u64);
        error(
            out,
            method.span,
            cat5(
                "map has no method `",
                &method.name,
                "` with ",
                &n,
                " argument(s); use `get(k)`, `insert(k, v)`, `delete(k)`",
            ),
        );
        let _ = self.exprs(args, out, Ghost(Sort::Unit))?;
        Some(Ty::Unit)
    }
}

/// `==` or `!=` of a string or an address variable, or of a literal, with a
/// value that is none of them.
fn compare_with_value(s: &StrSide, other: &Ty, span: Span, out: &mut Vec<Diag>)
    requires
        !(s@ is No),
    ensures
        notes(final(out)@) == notes(old(out)@) + (match s@ {
            Side::Lit(lit) => rules::literal_with_value(lit, other@, span),
            Side::Local(cap) => rules::only_if(
                !(other@ is Unit),
                rules::cannot_compare(
                    span,
                    rules::sort_text(Sort::Str(cap)),
                    rules::sort_text(other@),
                ),
            ),
            Side::Addr(a) => rules::only_if(
                !(other@ is Unit),
                rules::cannot_compare(span, rules::sort_text(a), rules::sort_text(other@)),
            ),
            Side::No => rules::none(),
        }),
{
    broadcast use group_notes;

    match s {
        StrSide::Lit(lit) => literal_with_value(lit, other, span, out),
        StrSide::Local(cap) => {
            if !other.is_unit() {
                error_compare(out, span, &Ty::Str(*cap), other);
            }
        },
        StrSide::Addr(a) => {
            if !other.is_unit() {
                error_compare(out, span, a, other);
            }
        },
        StrSide::No => {},
    }
}

/// `==` or `!=` of two that are each a string or an address variable, or a
/// literal.
fn compare_sides(l: &StrSide, r: &StrSide, span: Span, out: &mut Vec<Diag>)
    requires
        !(l@ is No),
        !(r@ is No),
    ensures
        forall|v: Env, e: tree::Expr, other: Out|
            e.span == span ==> notes(final(out)@) == notes(old(out)@)
                + (#[trigger] rules::compare_sides(v, e, l@, r@, other)).notes,
{
    broadcast use group_notes;

    match (l, r) {
        (StrSide::Lit(_), StrSide::Lit(_)) => {
            error(
                out,
                span,
                owned("comparing two string literals; compare a `str<N>` variable with a literal"),
            );
        },
        (StrSide::Local(cap), StrSide::Lit(lit)) => str_with_literal(*cap, lit, span, out),
        (StrSide::Lit(lit), StrSide::Local(cap)) => str_with_literal(*cap, lit, span, out),
        (StrSide::Addr(a), StrSide::Lit(lit)) => addr_with_literal(a, lit, span, out),
        (StrSide::Lit(lit), StrSide::Addr(a)) => addr_with_literal(a, lit, span, out),
        (StrSide::Addr(a), StrSide::Addr(b)) => {
            if !a.same_as(b) {
                error_compare(out, span, a, b);
            }
        },
        (StrSide::Addr(a), StrSide::Local(cap)) => {
            error_compare(out, span, a, &Ty::Str(*cap));
        },
        (StrSide::Local(cap), StrSide::Addr(b)) => {
            error_compare(out, span, &Ty::Str(*cap), b);
        },
        _ => {},
    }
}

/// Nothing but the scopes and the running totals differs.
spec fn same_world(a: Checker<'_>, b: Checker<'_>) -> bool {
    &&& a.btf == b.btf
    &&& a.consts == b.consts
    &&& a.maps == b.maps
    &&& a.events == b.events
    &&& a.probe_kind == b.probe_kind
}

/// What checking a statement did: the state is that of the rules, or the rules
/// have no answer.
spec fn did(r: bool, before: Checker<'_>, after: Checker<'_>, out: Seq<Diag>, s: State) -> bool {
    if r {
        &&& s.ok
        &&& after.wf()
        &&& after.state(out) == s
        &&& after.scopes@.len() == before.scopes@.len()
        &&& same_world(after, before)
    } else {
        !s.ok
    }
}

/// What checking a loop gives.
spec fn looped(
    s: State,
    var: Seq<char>,
    start: tree::Expr,
    end: tree::Expr,
    body: tree::Block,
) -> State {
    let (s1, range) = rules::for_entry(s, start, end);
    match range {
        Some((lo, hi)) => rules::iterations(s1, rules::none(), var, lo as int, hi as int, body),
        None => s1,
    }
}

/// A loop has no answer where its bounds have none.
proof fn lemma_looped_ok(
    s: State,
    var: Seq<char>,
    start: tree::Expr,
    end: tree::Expr,
    body: tree::Block,
)
    ensures
        looped(s, var, start, end, body).ok ==> rules::for_entry(s, start, end).0.ok,
{
    let (s1, range) = rules::for_entry(s, start, end);
    if let Some((lo, hi)) = range {
        lemma_iterations_ok(s1, rules::none(), var, lo as int, hi as int, body);
    }
}

/// Whether there is a note over a place among those from `from` up to `to`.
fn spoken(out: &Vec<Diag>, from: usize, to: usize, span: Span) -> (r: bool)
    requires
        from <= to <= out@.len(),
    ensures
        r == rules::spoken(notes(out@).subrange(from as int, to as int), span),
{
    let ghost said = notes(out@).subrange(from as int, to as int);
    let mut i: usize = from;
    while i < to
        invariant
            from <= i <= to <= out@.len(),
            said == notes(out@).subrange(from as int, to as int),
            forall|k: int| 0 <= k < i - from ==> (#[trigger] said[k]).span != span,
        decreases to - i,
    {
        assert(said[i - from] == out@[i as int]@);
        if out[i].span.start == span.start && out[i].span.end == span.end {
            return true;
        }
        i += 1;
    }
    false
}

/// Add the notes over places that have no note from `from` on.
fn tell_unsaid(mine: Vec<Diag>, from: usize, out: &mut Vec<Diag>)
    requires
        from <= old(out)@.len(),
    ensures
        notes(final(out)@) == notes(old(out)@) + rules::unsaid(
            notes(old(out)@).skip(from as int),
            notes(mine@),
        ),
{
    let told: usize = out.len();
    let ghost said = notes(out@).skip(from as int);
    let ghost whole = notes(out@) + rules::unsaid(said, notes(mine@));
    let mut mine = mine;
    assert(notes(out@).subrange(from as int, told as int) =~= said);
    while mine.len() > 0
        invariant
            from <= told <= out@.len(),
            notes(out@).subrange(from as int, told as int) == said,
            notes(out@) + rules::unsaid(said, notes(mine@)) == whole,
        decreases mine@.len(),
    {
        broadcast use group_notes;

        let ghost left = notes(mine@);
        let ghost before = notes(out@);
        let d = mine.remove(0);
        assert(left[0] == d@);
        assert(notes(mine@) =~= left.drop_first());
        if !spoken(out, from, told, d.span) {
            out.push(d);
            assert(notes(out@) =~= before + seq![d@]);
            assert(notes(out@).subrange(from as int, told as int) =~= said);
        }
    }
    assert(notes(out@) =~= whole);
}

/// Whether a name is among the first `n` fields of an `emit`.
pub(crate) fn given(fields: &Vec<(Ident, Expr)>, n: usize, name: &str) -> (r: bool)
    requires
        n <= fields@.len(),
    ensures
        r == rules::given(emit_fields(fields@), n as int, name@),
{
    let ghost all = emit_fields(fields@);
    let mut i: usize = 0;
    while i < n
        invariant
            0 <= i <= n <= fields@.len(),
            all == emit_fields(fields@),
            forall|k: int| 0 <= k < i ==> (#[trigger] all[k]).0.name != name@,
        decreases n - i,
    {
        let f = &fields[i];
        assert(all[i as int].0 == f.0@);
        if same(&f.0.name, name) {
            return true;
        }
        i += 1;
    }
    false
}

/// The type of the first declared field of a name.
fn declared_type<'b>(declared: &'b Vec<(String, Ty)>, name: &str) -> (r: Option<&'b Ty>)
    ensures
        match r {
            Some(t) => rules::declared_type(field_sorts(declared@), name@, 0) == Some(t@),
            None => rules::declared_type(field_sorts(declared@), name@, 0) is None,
        },
{
    let ghost all = field_sorts(declared@);
    let mut i: usize = 0;
    while i < declared.len()
        invariant
            0 <= i <= declared@.len(),
            all == field_sorts(declared@),
            rules::declared_type(all, name@, 0) == rules::declared_type(all, name@, i as int),
        decreases declared@.len() - i,
    {
        let f = &declared[i];
        assert(all[i as int] == (f.0@, f.1@));
        if same(&f.0, name) {
            return Some(&f.1);
        }
        i += 1;
    }
    None
}

/// What is wrong with the range of a loop.
fn loop_range(lo: i64, hi: i64, span: Span, out: &mut Vec<Diag>)
    ensures
        notes(final(out)@) == notes(old(out)@) + rules::loop_range(lo, hi, span),
{
    broadcast use group_notes;

    if hi < lo {
        let x = signed_text(lo);
        let y = signed_text(hi);
        error(
            out,
            span,
            cat5("loop runs from ", &x, " to ", &y, ": end is before start"),
        );
        return;
    }
    let n: i128 = hi as i128 - lo as i128;
    if n > MAX_UNROLL as i128 {
        let shown = dec_text(n as u64);
        error_help(
            out,
            span,
            cat3("loop would run ", &shown, " times; the limit is 64"),
            "the verifier needs every loop to be provably bounded; honey unrolls them",
        );
    }
}

impl Checker<'_> {
    // ---- statements ------------------------------------------------------

    /// The argument of a string read.
    fn read_arg(&self, value: &Expr, fname: &str, kernel: bool, out: &mut Vec<Diag>) -> (r: bool)
        ensures
            ({
                let s = rules::read_arg(self.state(old(out)@), value@, fname@, kernel);
                if r {
                    s.ok && self.state(final(out)@) == s
                } else {
                    !s.ok
                }
            }),
    {
        broadcast use group_notes;

        if let ExprKind::Call { args, .. } = &value.kind {
            proof {
                lemma_exprs(args@);
            }
            if args.len() == 1 {
                let p = &args[0];
                assert(exprs(args@)[0] == p@);
                let pt = match self.expr(p, out) {
                    Some(t) => t,
                    None => {
                        return false;
                    },
                };
                let good = match &pt {
                    Ty::U64 | Ty::Int => true,
                    Ty::KCharPtr | Ty::KPtr(_) => kernel,
                    _ => false,
                };
                if !good {
                    let want = if kernel {
                        "a kernel pointer"
                    } else {
                        "a user pointer (`u64`)"
                    };
                    let shown = pt.text();
                    error(
                        out,
                        p.span,
                        cat7("`", fname, "` takes ", want, ", found `", &shown, "`"),
                    );
                }
            } else {
                error(out, value.span, cat3("`", fname, "` takes exactly one argument"));
            }
        }
        true
    }

    /// `let s: str<N> = read_user_str(p);`
    fn let_read(
        &mut self,
        mutable: bool,
        name: &str,
        ty: &Option<Type>,
        value: &Expr,
        fname: &str,
        kernel: bool,
        out: &mut Vec<Diag>,
    ) -> (r: bool)
        requires
            old(self).wf(),
            old(self).scopes@.len() > 0,
        ensures
            did(
                r,
                *old(self),
                *final(self),
                final(out)@,
                rules::let_read(
                    old(self).state(old(out)@),
                    mutable,
                    name@,
                    opt_type(*ty),
                    value@,
                    fname@,
                    kernel,
                ),
            ),
    {
        broadcast use group_notes;

        match ty {
            None => {
                let help = cat5(
                    "write `let ",
                    name,
                    ": str<N> = ",
                    fname,
                    "(...)` so the read has a known length",
                );
                error_help(
                    out,
                    value.span,
                    cat3("`", fname, "` needs a bounded destination"),
                    &help,
                );
                self.declare(name, Ty::Unit, mutable, Ghost(out@))
            },
            Some(t) => match Ty::from_ast(t) {
                Err(m) => {
                    error(out, t.span, m);
                    true
                },
                Ok(declared) => {
                    if !matches!(declared, Ty::Str(_)) {
                        let shown = declared.text();
                        error(
                            out,
                            t.span,
                            cat5("`", fname, "` produces a `str<N>`, not `", &shown, "`"),
                        );
                        return true;
                    }
                    if !self.read_arg(value, fname, kernel, out) {
                        return false;
                    }
                    self.declare(name, declared, mutable, Ghost(out@))
                },
            },
        }
    }

    /// Validate `ptr<S>` and return the struct name, or report and return None.
    fn ptr_target(&self, t: &Type, out: &mut Vec<Diag>) -> (r: Option<String>)
        ensures
            ({
                let (target, n) = rules::ptr_target(self.env(), t@);
                &&& notes(final(out)@) == notes(old(out)@) + n
                &&& match (r, target) {
                    (Some(a), Some(b)) => a@ == b,
                    (None, None) => true,
                    _ => false,
                }
            }),
    {
        broadcast use group_notes;

        proof {
            lemma_type_args(t.args@);
            reveal_with_fuel(Type::model, 3);
            reveal_with_fuel(TypeArg::model, 3);
        }
        let mut name: Option<String> = None;
        if t.args.len() == 1 {
            assert(t@.args[0] == t.args@[0]@);
            if let TypeArg::Type(inner) = &t.args[0] {
                proof {
                    lemma_type_args(inner.args@);
                }
                if inner.args.len() == 0 {
                    name = Some(inner.name.name.clone());
                }
            }
        }
        let name = match name {
            Some(n) => n,
            None => {
                error_help(
                    out,
                    t.span,
                    owned("`ptr<...>` needs a struct name"),
                    "for example `ptr<file>` or `ptr<task_struct>`",
                );
                return None;
            },
        };
        let btf = match self.btf {
            Some(b) => b,
            None => {
                error_help(
                    out,
                    t.span,
                    owned("reading kernel struct fields needs the kernel's type information"),
                    "pass `--btf /path/to/vmlinux.btf` (export it with `linux/export-btf`)",
                );
                return None;
            },
        };
        if !btf.is_struct(&name) {
            error(
                out,
                t.span,
                cat3("`", &name, "` is not a kernel struct in the provided BTF"),
            );
            return None;
        }
        Some(name)
    }

    /// `let f: ptr<S> = arg(n);`
    fn let_ptr(
        &mut self,
        mutable: bool,
        name: &str,
        t: &Type,
        value: &Expr,
        out: &mut Vec<Diag>,
    ) -> (r: bool)
        requires
            old(self).wf(),
            old(self).scopes@.len() > 0,
        ensures
            did(
                r,
                *old(self),
                *final(self),
                final(out)@,
                rules::let_ptr(old(self).state(old(out)@), mutable, name@, t@, value@),
            ),
    {
        broadcast use group_notes;

        let target = self.ptr_target(t, out);
        let at = match self.expr(value, out) {
            Some(t) => t,
            None => {
                return false;
            },
        };
        let good = match &at {
            Ty::U64 | Ty::Int | Ty::KPtr(_) | Ty::KCharPtr => true,
            _ => false,
        };
        if !good {
            let shown = at.text();
            error(
                out,
                value.span,
                cat3(
                    "`ptr<...>` must come from an argument or another pointer, found `",
                    &shown,
                    "`",
                ),
            );
        }
        let ty = match target {
            Some(struct_name) => Ty::KPtr(struct_name),
            None => Ty::Unit,
        };
        self.declare(name, ty, mutable, Ghost(out@))
    }

    /// `let x [: T] = value;` for anything but strings and kernel pointers.
    fn let_value(
        &mut self,
        mutable: bool,
        name: &str,
        ty: &Option<Type>,
        value: &Expr,
        out: &mut Vec<Diag>,
    ) -> (r: bool)
        requires
            old(self).wf(),
            old(self).scopes@.len() > 0,
        ensures
            did(
                r,
                *old(self),
                *final(self),
                final(out)@,
                rules::let_value(
                    old(self).state(old(out)@),
                    mutable,
                    name@,
                    opt_type(*ty),
                    value@,
                ),
            ),
    {
        broadcast use group_notes;

        let before: usize = out.len();
        assert(notes(out@).len() == before);
        let actual = match self.expr(value, out) {
            Some(t) => t,
            None => {
                return false;
            },
        };
        assert(notes(out@).len() == out@.len());
        let value_had_errors = out.len() > before;
        let bound = match ty {
            Some(t) => match Ty::from_ast(t) {
                Ok(declared) => {
                    if !value_had_errors && actual.is_unit() && from_call(value) {
                        error(out, value.span, owned("this expression has no value to bind"));
                    }
                    expect(&declared, &actual, value.span, out);
                    literal_fits(&declared, value, out);
                    declared
                },
                Err(m) => {
                    error(out, t.span, m);
                    actual
                },
            },
            None => match actual {
                Ty::Int => Ty::U64,
                Ty::Unit => {
                    if !value_had_errors {
                        error(out, value.span, owned("this expression has no value to bind"));
                    }
                    Ty::Unit
                },
                t => t,
            },
        };
        if matches!(bound, Ty::Str(_)) {
            error_help(
                out,
                value.span,
                owned("strings can only come from `read_user_str`"),
                "declare `let s: str<N> = read_user_str(ptr);`",
            );
        }
        self.declare(name, bound, mutable, Ghost(out@))
    }

    fn let_stmt(
        &mut self,
        mutable: bool,
        name: &str,
        ty: &Option<Type>,
        value: &Expr,
        out: &mut Vec<Diag>,
    ) -> (r: bool)
        requires
            old(self).wf(),
            old(self).scopes@.len() > 0,
        ensures
            did(
                r,
                *old(self),
                *final(self),
                final(out)@,
                rules::let_stmt(
                    old(self).state(old(out)@),
                    mutable,
                    name@,
                    opt_type(*ty),
                    value@,
                ),
            ),
    {
        // The annotation of a string is the bound of the read, which is why it
        // is mandatory.
        if is_call_to(value, "read_user_str") {
            return self.let_read(mutable, name, ty, value, "read_user_str", false, out);
        }
        if is_call_to(value, "read_kernel_str") {
            return self.let_read(mutable, name, ty, value, "read_kernel_str", true, out);
        }
        if let Some(t) = ty {
            if same(&t.name.name, "ptr") {
                return self.let_ptr(mutable, name, t, value, out);
            }
        }
        self.let_value(mutable, name, ty, value, out)
    }

    fn assign(&self, target: &Expr, value: &Expr, out: &mut Vec<Diag>) -> (r: bool)
        ensures
            ({
                let s = rules::assign(self.state(old(out)@), target@, value@);
                if r {
                    s.ok && self.state(final(out)@) == s
                } else {
                    !s.ok
                }
            }),
    {
        broadcast use group_notes;

        match &target.kind {
            ExprKind::Ident(n) => {
                let var = match self.lookup(n) {
                    Some(v) => v,
                    None => {
                        error(out, target.span, cat3("unknown variable `", n, "`"));
                        return true;
                    },
                };
                if !var.mutable {
                    let help = cat3("declare it with `let mut ", n, " = ...`");
                    error_help(
                        out,
                        target.span,
                        cat3("cannot assign to `", n, "`: it is not mutable"),
                        &help,
                    );
                }
                if matches!(var.ty, Ty::Ipv6 | Ty::Mac) {
                    let shown = var.ty.text();
                    error(
                        out,
                        target.span,
                        cat5("`", n, "` is a `", &shown, "` buffer and cannot be reassigned"),
                    );
                }
                self.expecting(&var.ty, value, out).is_some()
            },
            ExprKind::Unary { op, .. } => {
                if matches!(op, UnaryOp::Deref) {
                    error_help(
                        out,
                        target.span,
                        owned("writing through a map pointer is not supported in v1"),
                        "use `map.insert(key, value)` to update the map",
                    );
                    self.expr(value, out).is_some()
                } else {
                    error(out, target.span, owned("invalid assignment target"));
                    true
                }
            },
            _ => {
                error(out, target.span, owned("invalid assignment target"));
                true
            },
        }
    }

    /// One field of an `emit`.
    fn emit_field(
        &self,
        event: &str,
        declared: &Vec<(String, Ty)>,
        fields: &Vec<(Ident, Expr)>,
        i: usize,
        out: &mut Vec<Diag>,
    ) -> (r: bool)
        requires
            i < fields@.len(),
        ensures
            ({
                let o = rules::emit_field(
                    self.env(),
                    event@,
                    field_sorts(declared@),
                    emit_fields(fields@),
                    i as int,
                );
                if r {
                    o.ok && notes(final(out)@) == notes(old(out)@) + o.notes
                } else {
                    !o.ok
                }
            }),
    {
        broadcast use group_notes;

        let f = &fields[i];
        assert(emit_fields(fields@)[i as int] == (f.0@, f.1@));
        let name = &f.0;
        let value = &f.1;
        if given(fields, i, &name.name) {
            error(out, name.span, cat3("field `", &name.name, "` given twice"));
            return true;
        }
        match declared_type(declared, &name.name) {
            None => {
                error(
                    out,
                    name.span,
                    cat5("event `", event, "` has no field `", &name.name, "`"),
                );
                self.expr(value, out).is_some()
            },
            Some(ty) => {
                // `comm()` is the one builtin that produces a string.
                if is_call_to(value, "comm") {
                    if !matches!(ty, Ty::Str(_)) {
                        let shown = ty.text();
                        error(
                            out,
                            value.span,
                            cat5(
                                "`comm()` is a string; field `",
                                &name.name,
                                "` is `",
                                &shown,
                                "`",
                            ),
                        );
                    }
                    return true;
                }
                self.expecting(ty, value, out).is_some()
            },
        }
    }

    fn emit(&self, event: &Ident, fields: &Vec<(Ident, Expr)>, span: Span, out: &mut Vec<Diag>) -> (r:
        bool)
        ensures
            ({
                let s = rules::emit(self.state(old(out)@), event@, emit_fields(fields@), span);
                if r {
                    s.ok && self.state(final(out)@) == s
                } else {
                    !s.ok
                }
            }),
    {
        broadcast use group_notes;

        let info = match self.events.get(&event.name) {
            Some(info) => info,
            None => {
                error(out, event.span, cat3("unknown event `", &event.name, "`"));
                return true;
            },
        };
        let ghost declared = field_sorts(info.fields@);
        let ghost list = emit_fields(fields@);
        let ghost s0 = self.state(out@);
        let mut i: usize = 0;
        while i < fields.len()
            invariant
                0 <= i <= fields@.len(),
                list == emit_fields(fields@),
                declared == field_sorts(info.fields@),
                rules::emit_fields(s0, event.name@, declared, list, 0) == rules::emit_fields(
                    self.state(out@),
                    event.name@,
                    declared,
                    list,
                    i as int,
                ),
                s0 == self.state(old(out)@),
                self.env().events.contains_key(event.name@),
                self.env().events[event.name@] == declared,
            decreases fields@.len() - i,
        {
            let ghost o = rules::emit_field(self.env(), event.name@, declared, list, i as int);
            let ghost before = self.state(out@);
            if !self.emit_field(&event.name, &info.fields, fields, i, out) {
                assert(!rules::emit_fields(
                    rules::heard(before, o),
                    event.name@,
                    declared,
                    list,
                    i + 1,
                ).ok);
                return false;
            }
            assert(self.state(out@) == rules::heard(before, o));
            i += 1;
        }
        let ghost after = notes(out@);
        let mut j: usize = 0;
        while j < info.fields.len()
            invariant
                0 <= j <= info.fields@.len(),
                list == emit_fields(fields@),
                declared == field_sorts(info.fields@),
                notes(out@) + rules::missing_fields(event.name@, declared, list, span, j as int)
                    == after + rules::missing_fields(event.name@, declared, list, span, 0),
            decreases info.fields@.len() - j,
        {
            broadcast use group_notes;

            let f = &info.fields[j];
            assert(declared[j as int].0 == f.0@);
            if !given(fields, fields.len(), &f.0) {
                error_help(
                    out,
                    span,
                    cat5("`emit ", &event.name, "` is missing field `", &f.0, "`"),
                    "every field of the event must be set",
                );
            }
            j += 1;
        }
        true
    }

    /// The condition of an `if`; leaves the scope of its body open.
    fn if_entry(&mut self, cond: &Cond, out: &mut Vec<Diag>) -> (r: bool)
        requires
            old(self).wf(),
        ensures
            ({
                let s = rules::if_entry(old(self).state(old(out)@), cond@);
                if r {
                    &&& s.ok
                    &&& final(self).wf()
                    &&& final(self).state(final(out)@) == s
                    &&& final(self).scopes@.len() == old(self).scopes@.len() + 1
                    &&& same_world(*final(self), *old(self))
                } else {
                    !s.ok
                }
            }),
    {
        broadcast use group_notes;

        match cond {
            Cond::Expr(e) => {
                let t = match self.expr(e, out) {
                    Some(t) => t,
                    None => {
                        return false;
                    },
                };
                if !matches!(t, Ty::Bool) {
                    let shown = t.text();
                    error(
                        out,
                        e.span,
                        cat3("`if` condition must be `bool`, found `", &shown, "`"),
                    );
                }
                self.push_scope(Ghost(out@));
                true
            },
            Cond::Let { pattern, value } => self.if_let_entry(pattern, value, out),
        }
    }

    fn if_let_entry(&mut self, pattern: &Pattern, value: &Expr, out: &mut Vec<Diag>) -> (r: bool)
        requires
            old(self).wf(),
        ensures
            ({
                let s = rules::if_let_entry(old(self).state(old(out)@), pattern@, value@);
                if r {
                    &&& s.ok
                    &&& final(self).wf()
                    &&& final(self).state(final(out)@) == s
                    &&& final(self).scopes@.len() == old(self).scopes@.len() + 1
                    &&& same_world(*final(self), *old(self))
                } else {
                    !s.ok
                }
            }),
    {
        broadcast use group_notes;

        let t = match self.expr(value, out) {
            Some(t) => t,
            None => {
                return false;
            },
        };
        self.push_scope(Ghost(out@));
        match t {
            Ty::Option(inner) => {
                let name = &pattern.name.name;
                if same(name, "Some") {
                    match &pattern.binding {
                        // The checked pointer exists only inside this block.
                        Some(b) => {
                            return self.declare(&b.name, Ty::Ref(inner), false, Ghost(out@));
                        },
                        None => {
                            error(
                                out,
                                pattern.span,
                                owned("`Some` needs a binding: `Some(name)`"),
                            );
                        },
                    }
                } else if same(name, "None") {
                    if pattern.binding.is_some() {
                        error(out, pattern.span, owned("`None` takes no binding"));
                    }
                } else {
                    error(
                        out,
                        pattern.span,
                        cat3("unknown pattern `", name, "`; use `Some(x)` or `None`"),
                    );
                }
            },
            other => {
                let shown = other.text();
                error_help(
                    out,
                    value.span,
                    cat3(
                        "`if let` needs an `Option<&V>` from `map.get`, found `",
                        &shown,
                        "`",
                    ),
                    "only map lookups can be `None`",
                );
            },
        }
        true
    }

    fn expr_stmt(&self, e: &Expr, out: &mut Vec<Diag>) -> (r: bool)
        ensures
            ({
                let s = rules::expr_stmt(self.state(old(out)@), e@);
                if r {
                    s.ok && self.state(final(out)@) == s
                } else {
                    !s.ok
                }
            }),
    {
        broadcast use group_notes;

        let t = match self.expr(e, out) {
            Some(t) => t,
            None => {
                return false;
            },
        };
        if !matches!(e.kind, ExprKind::MethodCall { .. }) && !t.is_unit() {
            error(out, e.span, owned("expression statement has no effect"));
        }
        true
    }

    fn block(&mut self, b: &Block, out: &mut Vec<Diag>) -> (r: bool)
        requires
            old(self).wf(),
            old(self).scopes@.len() > 0,
        ensures
            did(
                r,
                *old(self),
                *final(self),
                final(out)@,
                rules::block(old(self).state(old(out)@), b@),
            ),
        decreases b, 0int,
    {
        let ghost all = stmts(b.stmts@);
        let ghost s0 = self.state(out@);
        proof {
            lemma_stmts(b.stmts@);
        }
        let mut i: usize = 0;
        while i < b.stmts.len()
            invariant
                0 <= i <= b.stmts@.len(),
                all == stmts(b.stmts@),
                all.len() == b.stmts@.len(),
                forall|k: int| 0 <= k < all.len() ==> #[trigger] all[k] == b.stmts@[k]@,
                self.wf(),
                self.scopes@.len() == old(self).scopes@.len(),
                self.scopes@.len() > 0,
                same_world(*self, *old(self)),
                s0 == old(self).state(old(out)@),
                rules::stmts(s0, all, 0) == rules::stmts(self.state(out@), all, i as int),
            decreases b.stmts@.len() - i,
        {
            let ghost before = self.state(out@);
            assert(all[i as int] == b.stmts@[i as int]@);
            if !self.stmt(&b.stmts[i], out) {
                assert(!rules::stmts(rules::stmt(before, all[i as int]), all, i + 1).ok);
                return false;
            }
            i += 1;
        }
        true
    }

    /// The body of a loop for the values from `lo` on, up to `hi`. A place is
    /// noted for the first value for which it is wrong.
    fn iterations(&mut self, var: &str, lo: i64, hi: i64, body: &Block, out: &mut Vec<Diag>) -> (r:
        bool)
        requires
            old(self).wf(),
            old(self).scopes@.len() > 0,
        ensures
            did(
                r,
                *old(self),
                *final(self),
                final(out)@,
                rules::iterations(
                    old(self).state(old(out)@),
                    rules::none(),
                    var@,
                    lo as int,
                    hi as int,
                    body@,
                ),
            ),
        decreases body, 1int,
    {
        let ghost all = rules::iterations(
            self.state(out@),
            rules::none(),
            var@,
            lo as int,
            hi as int,
            body@,
        );
        let from: usize = out.len();
        let mut k: i64 = lo;
        assert(notes(out@).skip(from as int) =~= rules::none());
        loop
            invariant
                lo <= k,
                k == lo || k < hi,
                from <= out@.len(),
                self.wf(),
                self.scopes@.len() == old(self).scopes@.len(),
                self.scopes@.len() > 0,
                same_world(*self, *old(self)),
                all == rules::iterations(
                    self.state(out@),
                    notes(out@).skip(from as int),
                    var@,
                    k as int,
                    hi as int,
                    body@,
                ),
                all == rules::iterations(
                    old(self).state(old(out)@),
                    rules::none(),
                    var@,
                    lo as int,
                    hi as int,
                    body@,
                ),
            decreases hi - k,
        {
            let ghost before = self.state(out@);
            let ghost said = notes(out@).skip(from as int);
            let mut mine: Vec<Diag> = Vec::new();
            assert(notes(mine@) =~= rules::none());
            self.push_scope(Ghost(mine@));
            // The loop variable is a constant inside the body: no size on stack.
            let v = Var { ty: Ty::U64, mutable: false, konst: Some(k) };
            if !self.put(var, v, 0, Ghost(mine@)) {
                proof {
                    let alone = State { notes: rules::none(), ..before };
                    lemma_block_ok(rules::in_loop(alone, var@, k as int), body@);
                }
                return false;
            }
            if !self.block(body, &mut mine) {
                return false;
            }
            self.pop_scope(Ghost(mine@));
            assert(self.state(mine@) == rules::alone(before, var@, k as int, body@));
            let ghost new = rules::unsaid(said, notes(mine@));
            tell_unsaid(mine, from, out);
            assert(notes(out@).skip(from as int) =~= said + new);
            if k >= hi || k + 1 >= hi {
                return true;
            }
            k += 1;
        }
    }

    fn for_stmt(
        &mut self,
        var: &str,
        start: &Expr,
        end: &Expr,
        body: &Block,
        out: &mut Vec<Diag>,
    ) -> (r: bool)
        requires
            old(self).wf(),
            old(self).scopes@.len() > 0,
        ensures
            did(
                r,
                *old(self),
                *final(self),
                final(out)@,
                looped(old(self).state(old(out)@), var@, start@, end@, body@),
            ),
        decreases body, 2int,
    {
        broadcast use group_notes;

        let ghost s0 = self.state(out@);
        let lo = match self.const_eval(start, out) {
            Some(k) => k,
            None => {
                proof {
                    lemma_looped_ok(s0, var@, start@, end@, body@);
                }
                return false;
            },
        };
        let hi = match self.const_eval(end, out) {
            Some(k) => k,
            None => {
                proof {
                    lemma_looped_ok(s0, var@, start@, end@, body@);
                }
                return false;
            },
        };
        match (lo, hi) {
            (Some(lo), Some(hi)) => {
                loop_range(lo, hi, end.span, out);
                let n: i128 = hi as i128 - lo as i128;
                let stop: i64 = if 0 <= n && n <= MAX_UNROLL as i128 {
                    hi
                } else {
                    lo
                };
                assert(self.state(out@) == rules::for_entry(s0, start@, end@).0);
                self.iterations(var, lo, stop, body, out)
            },
            // What is not constant has been reported.
            _ => true,
        }
    }

    fn stmt(&mut self, s: &Stmt, out: &mut Vec<Diag>) -> (r: bool)
        requires
            old(self).wf(),
            old(self).scopes@.len() > 0,
        ensures
            did(
                r,
                *old(self),
                *final(self),
                final(out)@,
                rules::stmt(old(self).state(old(out)@), s@),
            ),
        decreases s, 0int,
    {
        broadcast use group_notes;

        match &s.kind {
            StmtKind::Let { mutable, name, ty, value } => self.let_stmt(
                *mutable,
                &name.name,
                ty,
                value,
                out,
            ),
            StmtKind::Assign { target, value } => self.assign(target, value, out),
            StmtKind::If { cond, body, otherwise } => {
                if !self.if_entry(cond, out) {
                    return false;
                }
                if !self.block(body, out) {
                    return false;
                }
                self.pop_scope(Ghost(out@));
                if let Some(b) = otherwise {
                    self.push_scope(Ghost(out@));
                    if !self.block(b, out) {
                        return false;
                    }
                    self.pop_scope(Ghost(out@));
                }
                true
            },
            StmtKind::For { var, start, end, body } => self.for_stmt(&var.name, start, end, body, out),
            StmtKind::Emit { event, fields } => self.emit(event, fields, s.span, out),
            StmtKind::Return(value) => {
                if let Some(e) = value {
                    error(out, e.span, owned("probes always return 0; use a bare `return;`"));
                }
                true
            },
            StmtKind::Expr(e) => self.expr_stmt(e, out),
        }
    }
}

/// How often a character occurs in a text.
fn count(s: &str, c: char) -> (r: usize)
    ensures
        r == rules::count(s@, c),
{
    let chars = chars_of(s);
    let mut n: usize = 0;
    let mut i: usize = 0;
    while i < chars.len()
        invariant
            0 <= i <= chars@.len(),
            n <= i,
            n == rules::count(chars@.take(i as int), c),
        decreases chars@.len() - i,
    {
        assert(chars@.take(i + 1).drop_last() =~= chars@.take(i as int));
        if chars[i] == c {
            n += 1;
        }
        i += 1;
    }
    assert(chars@.take(i as int) =~= chars@);
    n
}

fn has_empty(args: &Vec<String>) -> (r: bool)
    ensures
        r == rules::has_empty(strings(args@)),
{
    let ghost all = strings(args@);
    let mut i: usize = 0;
    while i < args.len()
        invariant
            0 <= i <= args@.len(),
            all == strings(args@),
            forall|k: int| 0 <= k < i ==> (#[trigger] all[k]).len() > 0,
        decreases args@.len() - i,
    {
        assert(all[i as int] == args@[i as int]@);
        if args[i].as_str().is_empty() {
            return true;
        }
        i += 1;
    }
    false
}

/// The kind of a probe, or the diagnostic over what is wrong with it.
fn probe_kind(p: &ProbeDecl) -> (r: Result<ProbeKind, Diag>)
    ensures
        match (r, rules::probe_kind(p@)) {
            (Ok(k), Ok(m)) => k == m,
            (Err(d), Err(n)) => d@ == n,
            _ => false,
        },
{
    let name = p.kind.name.as_str();
    assert(p@.args.len() == p.args@.len());
    let one = p.args.len() == 1;
    let span = p.span;
    if same(name, "tracepoint") {
        if p.args.len() == 2 {
            return Ok(ProbeKind::Tracepoint);
        }
        let message = owned("`tracepoint` takes two string arguments: category and name");
        return Err(Diag { message, span, help: None });
    }
    let kprobe = same(name, "kprobe");
    if kprobe || same(name, "kretprobe") {
        if !one {
            let message = cat3("`", name, "` takes one string argument: the kernel function name");
            return Err(Diag { message, span, help: None });
        }
        return if kprobe {
            Ok(ProbeKind::Kprobe)
        } else {
            Ok(ProbeKind::Kretprobe)
        };
    }
    if same(name, "lsm") {
        if one {
            return Ok(ProbeKind::Lsm);
        }
        let message = owned(
            "`lsm` takes one string argument: the hook name, e.g. `lsm(\"file_open\")`",
        );
        return Err(Diag { message, span, help: None });
    }
    if same(name, "xdp") {
        if one {
            return Ok(ProbeKind::Xdp);
        }
        let message = owned(
            "`xdp` takes one string argument: the interface name, e.g. `xdp(\"eth0\")`",
        );
        return Err(Diag { message, span, help: None });
    }
    let uprobe = same(name, "uprobe");
    if uprobe || same(name, "uretprobe") {
        if !one {
            let message = cat3(
                "`",
                name,
                "` takes one string argument: `\"/path/to/binary:symbol\"`",
            );
            return Err(Diag { message, span, help: None });
        }
        return if uprobe {
            Ok(ProbeKind::Uprobe)
        } else {
            Ok(ProbeKind::Uretprobe)
        };
    }
    if same(name, "usdt") {
        if one {
            return Ok(ProbeKind::Usdt);
        }
        let message = owned(
            "`usdt` takes one string argument: `\"/path/to/binary:provider:name\"`",
        );
        return Err(Diag { message, span, help: None });
    }
    let help = owned(
        "use `tracepoint`, `kprobe`, `kretprobe`, `lsm`, `xdp`, `uprobe`, `uretprobe`, or `usdt`",
    );
    Err(
        Diag {
            message: cat3("unsupported probe kind `", name, "`"),
            span: p.kind.span,
            help: Some(help),
        },
    )
}

/// What is wrong with where a probe attaches; gives its kind.
fn attach(p: &ProbeDecl, out: &mut Vec<Diag>) -> (r: Option<ProbeKind>)
    ensures
        notes(final(out)@) == notes(old(out)@) + rules::attach_notes(p@),
        r == (match rules::probe_kind(p@) {
            Ok(k) => Some(k),
            Err(_) => None,
        }),
{
    broadcast use group_notes;

    let ghost before = notes(out@);
    let kind = match probe_kind(p) {
        Ok(k) => Some(k),
        Err(d) => {
            out.push(d);
            assert(notes(out@) =~= before + seq![d@]);
            None
        },
    };
    if has_empty(&p.args) {
        error(out, p.span, owned("probe target must not be empty"));
    }
    match kind {
        Some(ProbeKind::Uprobe) | Some(ProbeKind::Uretprobe) => {
            assert(p@.args[0] == p.args@[0]@);
            if count(&p.args[0], ':') == 0 {
                error_help(
                    out,
                    p.span,
                    owned("uprobe target must be `path:symbol`"),
                    "for example `uprobe(\"/lib/x86_64-linux-gnu/libc.so.6:getenv\")`",
                );
            }
        },
        Some(ProbeKind::Usdt) => {
            assert(p@.args[0] == p.args@[0]@);
            if count(&p.args[0], ':') != 2 {
                error_help(
                    out,
                    p.span,
                    owned("usdt target must be `path:provider:name`"),
                    "for example `usdt(\"/usr/bin/python3:python:function__entry\")`",
                );
            }
        },
        _ => {},
    }
    kind
}

/// The type of a key or a value of a map.
fn map_sort(t: &Type) -> (r: Result<Ty, String>)
    ensures
        match (r, rules::map_sort(t@)) {
            (Ok(ty), Ok(s)) => ty@ == s,
            (Err(e), Err(m)) => e@ == m,
            _ => false,
        },
{
    match Ty::from_ast(t) {
        Err(m) => Err(m),
        Ok(ty) => {
            if ty.is_scalar() {
                Ok(ty)
            } else {
                let shown = ty.text();
                Err(cat3("map keys and values must be integers or bool in v1, not `", &shown, "`"))
            }
        },
    }
}

/// The type and the value of a constant.
fn const_info(c: &ConstDecl) -> (r: Result<(Ty, u64), Diag>)
    ensures
        match (r, rules::const_info(c@)) {
            (Ok(x), Ok(k)) => (x.0@, x.1) == k,
            (Err(d), Err(n)) => d@ == n,
            _ => false,
        },
{
    let ty = match Ty::from_ast(&c.ty) {
        Ok(t) => t,
        Err(message) => {
            return Err(Diag { message, span: c.ty.span, help: None });
        },
    };
    if !ty.is_scalar() {
        let message = cat3(
            "const `",
            &c.name.name,
            "`: only integers and bool can be constants",
        );
        return Err(Diag { message, span: c.ty.span, help: None });
    }
    let value: u64 = match &c.value.kind {
        ExprKind::Int(n) => *n,
        ExprKind::Bool(b) => if *b {
            1
        } else {
            0
        },
        _ => {
            let message = owned("const initialiser must be a literal");
            let help = owned(
                "constants are baked into the bytecode, so they have to be known here",
            );
            return Err(Diag { message, span: c.value.span, help: Some(help) });
        },
    };
    if let Some(max) = ty.max_value() {
        if value > max {
            let n = dec_text(value);
            let shown = ty.text();
            let message = cat4(&n, " does not fit in `", &shown, "`");
            return Err(Diag { message, span: c.value.span, help: None });
        }
    }
    Ok((ty, value))
}

/// The key and value types of a map, or the diagnostic over it.
fn map_info(m: &MapDecl) -> (r: Result<MapInfo, Diag>)
    ensures
        match (r, rules::map_info(m@)) {
            (Ok(i), Ok(k)) => (i.key@, i.value@) == k,
            (Err(d), Err(n)) => d@ == n,
            _ => false,
        },
{
    let kind = m.kind.name.as_str();
    assert(m@.args.len() == m.args@.len());
    if same(kind, "hash") && m.args.len() == 2 {
        assert(m@.args[0] == m.args@[0]@);
        assert(m@.args[1] == m.args@[1]@);
        let key = match map_sort(&m.args[0]) {
            Ok(t) => t,
            Err(message) => {
                return Err(Diag { message, span: m.args[0].span, help: None });
            },
        };
        return match map_sort(&m.args[1]) {
            Ok(value) => Ok(MapInfo { key, value }),
            Err(message) => Err(Diag { message, span: m.args[1].span, help: None }),
        };
    }
    if same(kind, "array") && m.args.len() == 1 {
        assert(m@.args[0] == m.args@[0]@);
        return match map_sort(&m.args[0]) {
            Ok(value) => Ok(MapInfo { key: Ty::U32, value }),
            Err(message) => Err(Diag { message, span: m.args[0].span, help: None }),
        };
    }
    let help = owned("use `hash<K, V>` or `array<V>`");
    Err(
        Diag {
            message: cat3("unknown map kind `", kind, "`"),
            span: m.kind.span,
            help: Some(help),
        },
    )
}

fn has_field(list: &Vec<(String, Ty)>, name: &str) -> (r: bool)
    ensures
        r == rules::has_field(field_sorts(list@), name@),
{
    let ghost all = field_sorts(list@);
    let mut i: usize = 0;
    while i < list.len()
        invariant
            0 <= i <= list@.len(),
            all == field_sorts(list@),
            forall|k: int| 0 <= k < i ==> (#[trigger] all[k]).0 != name@,
        decreases list@.len() - i,
    {
        let f = &list[i];
        assert(all[i as int] == (f.0@, f.1@));
        if same(&f.0, name) {
            return true;
        }
        i += 1;
    }
    false
}

/// The fields of an event.
fn event_fields(list: &Vec<Field>, out: &mut Vec<Diag>) -> (r: Vec<(String, Ty)>)
    ensures
        (field_sorts(r@), notes(final(out)@)) == rules::event_fields(
            fields(list@),
            0,
            Seq::empty(),
            notes(old(out)@),
        ),
{
    broadcast use group_notes;

    let ghost all = fields(list@);
    let mut done: Vec<(String, Ty)> = Vec::new();
    assert(field_sorts(done@) =~= Seq::empty());
    let mut i: usize = 0;
    while i < list.len()
        invariant
            0 <= i <= list@.len(),
            all == fields(list@),
            rules::event_fields(all, 0, Seq::empty(), notes(old(out)@)) == rules::event_fields(
                all,
                i as int,
                field_sorts(done@),
                notes(out@),
            ),
        decreases list@.len() - i,
    {
        broadcast use group_notes;

        let f = &list[i];
        assert(all[i as int] == f@);
        match Ty::from_ast(&f.ty) {
            Ok(ty) => {
                if ty.is_scalar() || matches!(ty, Ty::Str(_) | Ty::Ipv6 | Ty::Mac) {
                    if has_field(&done, &f.name.name) {
                        error(
                            out,
                            f.name.span,
                            cat3("duplicate field `", &f.name.name, "`"),
                        );
                    }
                    let entry = (f.name.name.clone(), ty);
                    assert(field_sorts(done@.push(entry)) =~= field_sorts(done@).push(
                        (entry.0@, entry.1@),
                    ));
                    done.push(entry);
                } else {
                    let shown = ty.text();
                    error(
                        out,
                        f.ty.span,
                        cat3(
                            "event fields must be integers, bool or str<N>, not `",
                            &shown,
                            "`",
                        ),
                    );
                }
            },
            Err(m) => error(out, f.ty.span, m),
        }
        i += 1;
    }
    done
}

/// Notes behind other notes: the fields of an event do not look at them.
proof fn lemma_event_fields_notes(
    f: Seq<tree::Field>,
    i: int,
    done: Seq<(Seq<char>, Sort)>,
    first: Seq<Note>,
    more: Seq<Note>,
)
    requires
        0 <= i,
    ensures
        rules::event_fields(f, i, done, first + more) == (
            rules::event_fields(f, i, done, more).0,
            first + rules::event_fields(f, i, done, more).1,
        ),
    decreases f.len() - i,
{
    broadcast use group_notes;

    if i < f.len() {
        let name = f[i].name.name;
        match rules::sort_of(f[i].ty) {
            Ok(ty) => {
                if rules::is_scalar(ty) || ty is Str || rules::is_blob(ty) {
                    lemma_event_fields_notes(
                        f,
                        i + 1,
                        done.push((name, ty)),
                        first,
                        more + rules::only_if(
                            rules::has_field(done, name),
                            note(f[i].name.span, "duplicate field `"@ + name + "`"@),
                        ),
                    );
                } else {
                    lemma_event_fields_notes(
                        f,
                        i + 1,
                        done,
                        first,
                        more + seq![
                            note(
                                f[i].ty.span,
                                "event fields must be integers, bool or str<N>, not `"@
                                    + rules::sort_text(ty) + "`"@,
                            ),
                        ],
                    );
                }
            },
            Err(m) => {
                lemma_event_fields_notes(
                    f,
                    i + 1,
                    done,
                    first,
                    more + seq![note(f[i].ty.span, m)],
                );
            },
        }
    }
}

impl Checker<'_> {
    // ---- items -----------------------------------------------------------

    fn const_decl(&mut self, c: &ConstDecl, out: &mut Vec<Diag>)
        ensures
            final(self).env() == rules::const_decl(old(self).env(), c@).0,
            notes(final(out)@) == notes(old(out)@) + rules::const_decl(old(self).env(), c@).1,
            final(self).scopes == old(self).scopes,
    {
        let ghost start = notes(out@);
        let (ty, value) = match const_info(c) {
            Ok(x) => x,
            Err(d) => {
                out.push(d);
                assert(notes(out@) =~= start + seq![d@]);
                return;
            },
        };
        let ghost before = self.env();
        let ghost entry = (ty@, value);
        self.consts.insert(c.name.name.clone(), (ty, value));
        assert(self.env().consts =~= before.consts.insert(c.name.name@, entry));
        assert(start + rules::none() =~= start);
    }

    fn map_decl(&mut self, m: &MapDecl, out: &mut Vec<Diag>)
        ensures
            final(self).env() == rules::map_decl(old(self).env(), m@).0,
            notes(final(out)@) == notes(old(out)@) + rules::map_decl(old(self).env(), m@).1,
            final(self).scopes == old(self).scopes,
    {
        broadcast use group_notes;

        let ghost start = notes(out@);
        let info = match map_info(m) {
            Ok(i) => i,
            Err(d) => {
                out.push(d);
                assert(notes(out@) =~= start + seq![d@]);
                return;
            },
        };
        if m.capacity == 0 {
            error(out, m.span, owned("map capacity must be at least 1"));
        }
        let ghost before = self.env();
        let ghost entry = (info.key@, info.value@);
        self.maps.insert(m.name.name.clone(), info);
        assert(self.env().maps =~= before.maps.insert(m.name.name@, entry));
    }

    fn event_decl(&mut self, e: &EventDecl, out: &mut Vec<Diag>)
        ensures
            final(self).env() == rules::event_decl(old(self).env(), e@).0,
            notes(final(out)@) == notes(old(out)@) + rules::event_decl(old(self).env(), e@).1,
            final(self).scopes == old(self).scopes,
    {
        let ghost start = notes(out@);
        let list = event_fields(&e.fields, out);
        proof {
            lemma_event_fields_notes(e@.fields, 0, Seq::empty(), start, rules::none());
            assert(start + rules::none() =~= start);
        }
        let ghost before = self.env();
        let ghost entry = field_sorts(list@);
        self.events.insert(e.name.name.clone(), EventInfo { fields: list });
        assert(self.env().events =~= before.events.insert(e.name.name@, entry));
    }

    /// Declarations first, so order in the file doesn't matter.
    fn declare_items(&mut self, list: &Vec<Item>, out: &mut Vec<Diag>)
        ensures
            (final(self).env(), notes(final(out)@)) == rules::declare_items(
                old(self).env(),
                items(list@),
                0,
                notes(old(out)@),
            ),
            final(self).scopes == old(self).scopes,
    {
        broadcast use group_notes;

        let ghost all = items(list@);
        let mut i: usize = 0;
        while i < list.len()
            invariant
                0 <= i <= list@.len(),
                all == items(list@),
                self.scopes == old(self).scopes,
                rules::declare_items(old(self).env(), all, 0, notes(old(out)@))
                    == rules::declare_items(self.env(), all, i as int, notes(out@)),
            decreases list@.len() - i,
        {
            broadcast use group_notes;

            let item = &list[i];
            assert(all[i as int] == item@);
            match item {
                Item::Const(c) => self.const_decl(c, out),
                Item::MapDecl(m) => self.map_decl(m, out),
                Item::Event(e) => self.event_decl(e, out),
                Item::Probe(_) => {},
            }
            i += 1;
        }
    }

    /// The body of a probe, which starts with an empty stack.
    fn probe_body(&mut self, p: &ProbeDecl, out: &mut Vec<Diag>) -> (r: bool)
        requires
            old(self).scopes@.len() == 0,
            old(self).probe_kind is None,
        ensures
            ({
                let entry = rules::probe_entry(old(self).env(), p@, notes(old(out)@));
                let s = rules::block(entry, p@.body);
                if r {
                    &&& s.ok
                    &&& notes(final(out)@) == s.notes
                    &&& final(self).stack_peak == s.peak
                    &&& final(self).env() == old(self).env()
                    &&& final(self).scopes@.len() == 0
                    &&& final(self).probe_kind is None
                } else {
                    !s.ok
                }
            }),
    {
        broadcast use group_notes;

        let ghost before = *self;
        self.stack_now = 0;
        self.stack_peak = 0;
        let kind = attach(p, out);
        self.probe_kind = kind;
        proof {
            assert(frames(self.scopes@) =~= Seq::empty());
        }
        self.push_scope(Ghost(out@));
        if !self.block(&p.body, out) {
            return false;
        }
        self.pop_scope(Ghost(out@));
        self.probe_kind = None;
        proof {
            assert(frames(self.scopes@) =~= Seq::empty());
            assert(frames(before.scopes@) =~= Seq::empty());
        }
        true
    }

    fn probe(&mut self, p: &ProbeDecl, out: &mut Vec<Diag>) -> (r: bool)
        requires
            old(self).scopes@.len() == 0,
            old(self).probe_kind is None,
        ensures
            ({
                let s = rules::probe(old(self).env(), p@, notes(old(out)@));
                if r {
                    &&& s.ok
                    &&& notes(final(out)@) == s.notes
                    &&& final(self).stack_peak == s.peak
                    &&& final(self).env() == old(self).env()
                    &&& final(self).scopes@.len() == 0
                    &&& final(self).probe_kind is None
                } else {
                    !s.ok
                }
            }),
    {
        if !self.probe_body(p, out) {
            proof {
                reveal(rules::probe);
            }
            return false;
        }
        over_budget(self.stack_peak, p.body.span, out);
        proof {
            reveal(rules::probe);
        }
        true
    }

    /// Check a program; gives the stack that it needs, or nothing where the
    /// rules have no answer.
    fn program(&mut self, p: &Program, out: &mut Vec<Diag>) -> (r: Option<u32>)
        requires
            old(self).env() == rules::start(old(self).env().kernel),
            old(self).scopes@.len() == 0,
            old(self).probe_kind is None,
            old(out)@.len() == 0,
        ensures
            ({
                let report = rules::program(p@, old(self).env().kernel);
                match r {
                    Some(peak) => {
                        &&& report.ok
                        &&& peak == report.peak
                        &&& notes(final(out)@) == report.notes
                    },
                    None => !report.ok,
                }
            }),
    {
        broadcast use group_notes;

        let ghost all = items(p.items@);
        assert(notes(out@) =~= rules::none());
        self.declare_items(&p.items, out);
        if !has_probe(&p.items) {
            error(out, Span::new(0, 0), owned("program has no `probe`"));
        }
        let ghost v = self.env();
        let ghost first = Report { peak: 0, notes: notes(out@), ok: true };
        proof {
            lemma_declare_keeps(old(self).env(), all, 0, rules::none());
        }
        let mut peak: u32 = 0;
        let mut i: usize = 0;
        while i < p.items.len()
            invariant
                0 <= i <= p.items@.len(),
                all == items(p.items@),
                self.env() == v,
                self.scopes@.len() == 0,
                self.probe_kind is None,
                rules::program(p@, old(self).env().kernel) == rules::probes(v, all, 0, first),
                rules::probes(v, all, 0, first) == rules::probes(
                    v,
                    all,
                    i as int,
                    Report { peak: peak as nat, notes: notes(out@), ok: true },
                ),
            decreases p.items@.len() - i,
        {
            let item = &p.items[i];
            assert(all[i as int] == item@);
            let ghost before = Report { peak: peak as nat, notes: notes(out@), ok: true };
            if let Item::Probe(pr) = item {
                let ghost s = rules::probe(v, pr@, notes(out@));
                let ghost next = Report {
                    peak: if s.peak > peak {
                        s.peak
                    } else {
                        peak as nat
                    },
                    notes: s.notes,
                    ok: s.ok,
                };
                if !self.probe(pr, out) {
                    assert(!rules::probes(v, all, i + 1, next).ok);
                    return None;
                }
                if self.stack_peak > peak {
                    peak = self.stack_peak;
                }
            }
            i += 1;
        }
        Some(peak)
    }
}

/// Note where a probe needs more stack than there is.
fn over_budget(peak: u32, span: Span, out: &mut Vec<Diag>)
    ensures
        notes(final(out)@) == notes(old(out)@) + rules::budget_notes(peak as nat, span),
{
    broadcast use group_notes;

    let budget: u32 = STACK_LIMIT - STACK_RESERVED;
    if peak > budget {
        let shown = dec_text(peak as u64);
        error_help(
            out,
            span,
            cat3(
                "probe needs ",
                &shown,
                " bytes of stack for its locals; the BPF limit leaves 472",
            ),
            "shrink a `str<N>` buffer or narrow a scope",
        );
    }
}

/// Declaring items leaves the kernel, the scopes and the probe as they are.
proof fn lemma_declare_keeps(v: Env, list: Seq<tree::Item>, i: int, n: Seq<Note>)
    requires
        0 <= i,
    ensures
        rules::declare_items(v, list, i, n).0.kernel == v.kernel,
        rules::declare_items(v, list, i, n).0.scopes == v.scopes,
        rules::declare_items(v, list, i, n).0.probe == v.probe,
    decreases list.len() - i,
{
    if i < list.len() {
        let (v1, m) = rules::declare_item(v, list[i]);
        lemma_declare_keeps(v1, list, i + 1, n + m);
    }
}

fn has_probe(list: &Vec<Item>) -> (r: bool)
    ensures
        r == rules::has_probe(items(list@)),
{
    let ghost all = items(list@);
    let mut i: usize = 0;
    while i < list.len()
        invariant
            0 <= i <= list@.len(),
            all == items(list@),
            forall|k: int| 0 <= k < i ==> !((#[trigger] all[k]) is Probe),
        decreases list@.len() - i,
    {
        assert(all[i as int] == list@[i as int]@);
        if matches!(list[i], Item::Probe(_)) {
            return true;
        }
        i += 1;
    }
    false
}

/// What is known of the kernel's types.
pub open spec fn kernel_of(btf: Option<&Btf>) -> Option<Kernel> {
    match btf {
        Some(b) => Some(b@),
        None => None,
    }
}

/// Check a program without the kernel's types.
pub fn check(program: &Program) -> (r: Result<Checked, Vec<Diag>>)
    requires
        rules::program(program@, None).ok,
    ensures
        verdict(r, rules::program(program@, None)),
        r is Ok ==> safe_program(program@, None),
        r matches Ok(c) ==> c.stack_bytes % 8 == 0 && c.stack_bytes <= STACK_LIMIT - STACK_RESERVED,
        r matches Err(d) ==> d@.len() > 0,
        !rules::has_probe(program@.items) ==> r is Err,
{
    check_with_btf(program, None)
}

/// Check a program.
pub fn check_with_btf(program: &Program, btf: Option<&Btf>) -> (r: Result<Checked, Vec<Diag>>)
    requires
        rules::program(program@, kernel_of(btf)).ok,
    ensures
        verdict(r, rules::program(program@, kernel_of(btf))),
        r is Ok ==> safe_program(program@, kernel_of(btf)),
        r matches Ok(c) ==> c.stack_bytes % 8 == 0 && c.stack_bytes <= STACK_LIMIT - STACK_RESERVED,
        r matches Err(d) ==> d@.len() > 0,
        !rules::has_probe(program@.items) ==> r is Err,
{
    match try_check(program, btf) {
        Some(r) => r,
        None => Err(Vec::new()),
    }
}

/// A program passes if there are no notes over it.
pub open spec fn verdict(r: Result<Checked, Vec<Diag>>, report: Report) -> bool {
    match r {
        Ok(c) => report.notes.len() == 0 && c.stack_bytes == report.peak,
        Err(d) => report.notes.len() > 0 && notes(d@) == report.notes,
    }
}

/// [`check_with_btf`], or nothing where the rules have no answer: where a
/// constant does not fit in 64 bits, or a search in the kernel's types does
/// not end.
pub fn try_check(program: &Program, btf: Option<&Btf>) -> (r: Option<
    Result<Checked, Vec<Diag>>,
>)
    ensures
        match r {
            Some(r) => {
                &&& rules::program(program@, kernel_of(btf)).ok
                &&& verdict(r, rules::program(program@, kernel_of(btf)))
                &&& r is Ok ==> safe_program(program@, kernel_of(btf))
            },
            None => !rules::program(program@, kernel_of(btf)).ok,
        },
{
    let mut c = Checker {
        btf,
        consts: StringHashMap::new(),
        maps: StringHashMap::new(),
        events: StringHashMap::new(),
        scopes: Vec::new(),
        stack_now: 0,
        stack_peak: 0,
        probe_kind: None,
    };
    proof {
        let v = c.env();
        assert(v.consts =~= Map::empty());
        assert(v.maps =~= Map::empty());
        assert(v.events =~= Map::empty());
        assert(v.scopes =~= Seq::empty());
    }
    let mut out: Vec<Diag> = Vec::new();
    let peak: u32 = c.program(program, &mut out)?;
    assert(notes(out@).len() == out@.len());
    if out.len() == 0 {
        proof {
            lemma_accepted_program_is_safe(program@, kernel_of(btf));
        }
        Some(Ok(Checked { stack_bytes: peak }))
    } else {
        Some(Err(out))
    }
}

} // verus!
