//! Compile a probe to BPF bytecode, and say what the loader needs to install it.
//!
//! One probe on a tracepoint, with whatever constants, maps and events it
//! uses; `lowering` says which instructions each part becomes. What cannot be
//! compiled is refused with an error, so that the kernel never sees code that
//! it would have to refuse.

use crate::ast::{
    emit_fields, exprs, items, lemma_exprs, lemma_stmts, lemma_type_args, opt_type, stmts,
    type_args, BinaryOp, Block, Cond, EventDecl, Expr, ExprKind, Ident, Item, MapDecl, Pattern,
    ProbeDecl, Program, Stmt, StmtKind, Type, TypeArg, UnaryOp,
};
use crate::bpf::{
    alu32_reg, alu64_imm, alu64_reg, asm_wf, call, code_bytes, exit, jumps_known, ld_imm64,
    ld_map_fd, ldx_mem, mov64_imm, mov64_reg, resolved, slot_at, stx_mem, AluOp, Helper, Insn,
    JmpOp, Label, Prog, Reg, Size,
};
use crate::layout::{
    fits, held, kind_of, layout_event, layout_fits, layout_of, lemma_first_unheld, slots,
    EventLayout, FieldKind, FieldLayout, Layout,
};
pub use crate::lowering::MapKind;
use crate::lowering::{
    self, Declared, Gen, Made, Place, Table, Value, Var, World, LAST_ARG, MAX_INSNS, MAX_ITERATIONS,
    MAX_LABELS, MAX_MAPS, STACK_BYTES,
};
use crate::pretty;
use crate::shape::{
    ends_with_exit, first_event, lemma_code_ends_with_exit, lemma_lowered_is_well_shaped,
    lemma_one_emit,
};
use crate::text::{cat2, cat3, cat4, cat5, dec_text, owned, same};
use crate::tree;
use crate::typeck::given;
use vstd::prelude::*;
use vstd::utf8::encode_utf8;

verus! {

/// A map that the loader has to create.
#[derive(Debug, PartialEq, Eq)]
pub struct MapSpec {
    pub name: String,
    pub kind: MapKind,
    pub key_size: u32,
    pub value_size: u32,
    pub max_entries: u32,
}

/// Two maps with the same name, kind and sizes.
pub open spec fn same_map(a: MapSpec, b: MapSpec) -> bool {
    &&& a.name@ == b.name@
    &&& a.kind == b.kind
    &&& a.key_size == b.key_size
    &&& a.value_size == b.value_size
    &&& a.max_entries == b.max_entries
}

impl Clone for MapSpec {
    fn clone(&self) -> (r: Self)
        ensures
            same_map(r, *self),
    {
        MapSpec {
            name: self.name.clone(),
            kind: self.kind,
            key_size: self.key_size,
            value_size: self.value_size,
            max_entries: self.max_entries,
        }
    }
}

/// A compiled probe plus everything the loader needs to install it.
#[derive(Debug)]
pub struct Compiled {
    pub bytecode: Vec<u8>,
    /// `("syscalls", "sys_enter_execve")`.
    pub tracepoint: (String, String),
    /// The one ring-buffer map this program writes to. It is map number 0.
    pub ringbuf_bytes: u32,
    /// The declared maps, from map number 1 on.
    pub maps: Vec<MapSpec>,
    /// Layout of the record the loader will read back.
    pub event: EventLayout,
    /// How much of the BPF stack the probe uses.
    pub stack_bytes: u32,
    pub license: String,
}

impl Clone for Compiled {
    fn clone(&self) -> (r: Self)
        ensures
            r.bytecode@ == self.bytecode@,
            r.tracepoint.0@ == self.tracepoint.0@,
            r.tracepoint.1@ == self.tracepoint.1@,
            r.ringbuf_bytes == self.ringbuf_bytes,
            r.maps@.len() == self.maps@.len(),
            forall|i: int|
                0 <= i < r.maps@.len() ==> same_map(#[trigger] r.maps@[i], self.maps@[i]),
            r.event@ == self.event@,
            r.stack_bytes == self.stack_bytes,
            r.license@ == self.license@,
    {
        let bytecode = self.bytecode.clone();
        assert(bytecode@ =~= self.bytecode@);
        let maps = self.maps.clone();
        assert forall|i: int| 0 <= i < maps@.len() implies same_map(
            #[trigger] maps@[i],
            self.maps@[i],
        ) by {
            assert(cloned(self.maps@[i], maps@[i]));
        }
        Compiled {
            bytecode,
            tracepoint: (self.tracepoint.0.clone(), self.tracepoint.1.clone()),
            ringbuf_bytes: self.ringbuf_bytes,
            maps,
            event: self.event.clone(),
            stack_bytes: self.stack_bytes,
            license: self.license.clone(),
        }
    }
}

/// 64 KiB: a power of two, and a whole number of pages.
pub const RINGBUF_BYTES: u32 = 65536;

// ------------------------------------------------------------------ builder

/// Where a name is kept.
#[derive(Clone, Copy)]
enum Spot {
    Const(u64, Size),
    Step(u64),
    Num(u32, Size),
    Maybe(u32, Size),
    Ref(u32, Size),
    Text(u32, u32),
}

impl Spot {
    spec fn model(self) -> Place {
        match self {
            Spot::Const(n, size) => Place::Const(n, size),
            Spot::Step(n) => Place::Step(n),
            Spot::Num(at, size) => Place::Num(at as nat, size),
            Spot::Maybe(at, size) => Place::Maybe(at as nat, size),
            Spot::Ref(at, size) => Place::Ref(at as nat, size),
            Spot::Text(at, n) => Place::Text(at as nat, n as nat),
        }
    }

    /// On the stack, if anywhere.
    spec fn wf(self) -> bool {
        match self {
            Spot::Const(..) | Spot::Step(_) => true,
            Spot::Num(at, _) | Spot::Maybe(at, _) | Spot::Ref(at, _) => at <= STACK_BYTES,
            Spot::Text(at, n) => n <= at <= STACK_BYTES,
        }
    }
}

struct Local {
    name: String,
    spot: Spot,
}

impl Local {
    spec fn model(self) -> Var {
        Var { name: self.name@, place: self.spot.model() }
    }
}

spec fn locals(v: Seq<Local>) -> Seq<Var> {
    v.map_values(|l: Local| l.model())
}

/// A declared map.
struct Known {
    name: String,
    kind: MapKind,
    key: Size,
    value: Size,
    entries: u32,
}

impl Known {
    spec fn model(self) -> Table {
        Table {
            name: self.name@,
            kind: self.kind,
            key: self.key,
            value: self.value,
            entries: self.entries,
        }
    }
}

spec fn tables(v: Seq<Known>) -> Seq<Table> {
    v.map_values(|k: Known| k.model())
}

spec fn events<'a>(v: Seq<&'a EventDecl>) -> Seq<tree::EventDecl> {
    v.map_values(|e: &EventDecl| e@)
}

/// What stands around the probe.
struct Around<'a> {
    tables: Vec<Known>,
    events: Vec<&'a EventDecl>,
}

impl<'a> Around<'a> {
    spec fn model(&self) -> World {
        World { tables: tables(self.tables@), events: events(self.events@) }
    }

    spec fn wf(&self) -> bool {
        self.tables@.len() <= MAX_MAPS
    }

    /// The map of a name.
    fn table(&self, name: &str) -> (r: Option<usize>)
        ensures
            match r {
                Some(i) => i < self.tables@.len() && lowering::table_at(
                    self.model().tables,
                    name@,
                    0,
                ) == Some(i as int),
                None => lowering::table_at(self.model().tables, name@, 0) is None,
            },
    {
        let mut i: usize = 0;
        while i < self.tables.len()
            invariant
                0 <= i <= self.tables@.len(),
                lowering::table_at(self.model().tables, name@, 0) == lowering::table_at(
                    self.model().tables,
                    name@,
                    i as int,
                ),
            decreases self.tables@.len() - i,
        {
            assert(self.model().tables[i as int] == self.tables@[i as int].model());
            if same(self.tables[i].name.as_str(), name) {
                return Some(i);
            }
            i += 1;
        }
        None
    }

    /// The event of a name.
    fn event(&self, name: &str) -> (r: Option<usize>)
        ensures
            match r {
                Some(i) => i < self.events@.len() && lowering::event_at(
                    self.model().events,
                    name@,
                    0,
                ) == Some(i as int),
                None => lowering::event_at(self.model().events, name@, 0) is None,
            },
    {
        let mut i: usize = 0;
        while i < self.events.len()
            invariant
                0 <= i <= self.events@.len(),
                lowering::event_at(self.model().events, name@, 0) == lowering::event_at(
                    self.model().events,
                    name@,
                    i as int,
                ),
            decreases self.events@.len() - i,
        {
            assert(self.model().events[i as int] == self.events@[i as int]@);
            if same(self.events[i].name.name.as_str(), name) {
                return Some(i);
            }
            i += 1;
        }
        None
    }
}

/// The program under construction.
struct Builder {
    prog: Prog,
    labels: u32,
    depth: u32,
    peak: u32,
    vars: Vec<Local>,
    event: Option<EventLayout>,
}

spec fn opt_layout(e: Option<EventLayout>) -> Option<Layout> {
    match e {
        Some(l) => Some(l@),
        None => None,
    }
}

impl View for Builder {
    type V = Gen;

    closed spec fn view(&self) -> Gen {
        Gen {
            out: self.prog@,
            depth: self.depth as nat,
            peak: self.peak as nat,
            vars: locals(self.vars@),
            event: opt_layout(self.event),
        }
    }
}

/// What making a part of the program did: `want`, or its error.
spec fn made(r: Result<(), String>, before: Builder, after: Builder, want: Made) -> bool {
    match r {
        Ok(_) => {
            &&& want == Ok::<Gen, Seq<char>>(after@)
            &&& after.wf()
            &&& after.more(before)
        },
        Err(m) => want == Err::<Gen, Seq<char>>(m@),
    }
}

/// The same of something that leaves a value.
spec fn made_value(
    r: Result<Value, String>,
    before: Builder,
    after: Builder,
    want: Result<(Gen, Value), Seq<char>>,
) -> bool {
    match r {
        Ok(v) => {
            &&& want == Ok::<(Gen, Value), Seq<char>>((after@, v))
            &&& after.wf()
            &&& after.more(before)
        },
        Err(m) => want == Err::<(Gen, Value), Seq<char>>(m@),
    }
}

impl Builder {
    spec fn wf(&self) -> bool {
        &&& asm_wf(self.prog@)
        &&& jumps_known(self.prog@)
        &&& self.labels == self.prog@.labels.len()
        &&& self.labels <= MAX_LABELS
        &&& self.depth <= self.peak <= STACK_BYTES
        &&& forall|i: int| 0 <= i < self.vars@.len() ==> (#[trigger] self.vars@[i]).spot.wf()
    }

    /// No label is given up, the most stack there was stays, and no name is
    /// forgotten.
    spec fn more(&self, before: Builder) -> bool {
        &&& self.labels >= before.labels
        &&& self.peak >= before.peak
        &&& self.vars@.len() >= before.vars@.len()
    }

    spec fn knows(&self, label: Label) -> bool {
        0 <= label.id() < self.labels
    }

    fn put(&mut self, insn: Insn)
        requires
            old(self).wf(),
        ensures
            final(self)@ == lowering::put(old(self)@, insn),
            final(self).wf(),
            final(self).more(*old(self)),
    {
        self.prog.push(insn);
    }

    fn jump_num(&mut self, op: JmpOp, dst: Reg, n: i32, label: Label)
        requires
            old(self).wf(),
            old(self).knows(label),
        ensures
            final(self)@ == lowering::jump(
                old(self)@,
                lowering::if_num(op, dst, n as int),
                label.id(),
            ),
            final(self).wf(),
            final(self).more(*old(self)),
    {
        self.prog.jmp_imm_to(op, dst, n, label);
    }

    fn jump_reg(&mut self, op: JmpOp, dst: Reg, src: Reg, label: Label)
        requires
            old(self).wf(),
            old(self).knows(label),
        ensures
            final(self)@ == lowering::jump(
                old(self)@,
                lowering::if_reg(op, dst, src),
                label.id(),
            ),
            final(self).wf(),
            final(self).more(*old(self)),
    {
        self.prog.jmp_reg_to(op, dst, src, label);
    }

    fn jump(&mut self, label: Label)
        requires
            old(self).wf(),
            old(self).knows(label),
        ensures
            final(self)@ == lowering::jump(old(self)@, lowering::always(), label.id()),
            final(self).wf(),
            final(self).more(*old(self)),
    {
        self.prog.ja_to(label);
    }

    fn bind(&mut self, label: Label)
        requires
            old(self).wf(),
            old(self).knows(label),
        ensures
            final(self)@ == lowering::bound(old(self)@, label.id()),
            final(self).wf(),
            final(self).more(*old(self)),
    {
        self.prog.bind(label);
    }

    fn fresh(&mut self) -> (r: Result<Label, String>)
        requires
            old(self).wf(),
        ensures
            match r {
                Ok(l) => {
                    &&& lowering::fresh(old(self)@) == Ok::<Gen, Seq<char>>(final(self)@)
                    &&& l.id() == old(self)@.out.labels.len()
                    &&& final(self).wf()
                    &&& final(self).labels == old(self).labels + 1
                    &&& final(self).more(*old(self))
                },
                Err(m) => lowering::fresh(old(self)@) == Err::<Gen, Seq<char>>(m@),
            },
    {
        if self.labels >= MAX_LABELS {
            return Err(owned("program too large"));
        }
        let l = self.prog.new_label();
        self.labels = self.labels + 1;
        Ok(l)
    }

    /// Take a slot of so many bytes.
    fn grow(&mut self, n: u32) -> (r: Result<(), String>)
        requires
            old(self).wf(),
            n <= 1024,
        ensures
            made(r, *old(self), *final(self), lowering::grow(old(self)@, n as nat)),
            r is Ok ==> final(self).depth == old(self).depth + n,
    {
        if self.depth + n > STACK_BYTES {
            return Err(owned("probe needs more than 512 bytes of stack"));
        }
        self.depth = self.depth + n;
        if self.depth > self.peak {
            self.peak = self.depth;
        }
        Ok(())
    }

    /// Give slots up again.
    fn up(&mut self, depth: u32)
        requires
            old(self).wf(),
            depth <= old(self).peak,
        ensures
            final(self)@ == (Gen { depth: depth as nat, ..old(self)@ }),
            final(self).wf(),
            final(self).more(*old(self)),
            final(self).depth == depth,
    {
        self.depth = depth;
    }

    /// Forget the names from the `n`th on.
    fn forget(&mut self, n: usize)
        requires
            old(self).wf(),
            n <= old(self).vars@.len(),
        ensures
            final(self)@ == (Gen { vars: old(self)@.vars.take(n as int), ..old(self)@ }),
            final(self).wf(),
            final(self).labels == old(self).labels,
            final(self).peak == old(self).peak,
            final(self).vars@.len() == n,
    {
        let ghost before = self.vars@;
        self.vars.truncate(n);
        assert(locals(self.vars@) =~= locals(before).take(n as int));
        assert forall|i: int| 0 <= i < self.vars@.len() implies (
        #[trigger] self.vars@[i]).spot.wf() by {
            assert(self.vars@[i] == before[i]);
        }
    }

    fn name(&mut self, name: String, spot: Spot)
        requires
            old(self).wf(),
            spot.wf(),
        ensures
            final(self)@ == lowering::with(old(self)@, name@, spot.model()),
            final(self).wf(),
            final(self).more(*old(self)),
    {
        let ghost before = self.vars@;
        let l = Local { name, spot };
        self.vars.push(l);
        assert(locals(self.vars@) =~= locals(before).push(l.model()));
    }

    /// Where a name is kept.
    fn find(&self, name: &str) -> (r: Option<Spot>)
        requires
            self.wf(),
        ensures
            match r {
                Some(s) => lowering::find(self@.vars, name@) == Some(s.model()) && s.wf(),
                None => lowering::find(self@.vars, name@) is None,
            },
    {
        find(&self.vars, name)
    }
}

fn find(vars: &Vec<Local>, name: &str) -> (r: Option<Spot>)
    requires
        forall|i: int| 0 <= i < vars@.len() ==> (#[trigger] vars@[i]).spot.wf(),
    ensures
        match r {
            Some(s) => lowering::find(locals(vars@), name@) == Some(s.model()) && s.wf(),
            None => lowering::find(locals(vars@), name@) is None,
        },
{
    let mut i: usize = vars.len();
    assert(locals(vars@).take(i as int) =~= locals(vars@));
    while i > 0
        invariant
            0 <= i <= vars@.len(),
            forall|i: int| 0 <= i < vars@.len() ==> (#[trigger] vars@[i]).spot.wf(),
            lowering::find(locals(vars@), name@) == lowering::find(
                locals(vars@).take(i as int),
                name@,
            ),
        decreases i,
    {
        i -= 1;
        proof {
            let t = locals(vars@).take(i + 1);
            assert(t.last() == vars@[i as int].model());
            assert(t.drop_last() =~= locals(vars@).take(i as int));
        }
        if same(vars[i].name.as_str(), name) {
            return Some(vars[i].spot);
        }
    }
    None
}

fn find_const(vars: &Vec<Local>, name: &str) -> (r: Option<u64>)
    ensures
        r == lowering::find_const(locals(vars@), name@),
{
    let mut i: usize = vars.len();
    assert(locals(vars@).take(i as int) =~= locals(vars@));
    while i > 0
        invariant
            0 <= i <= vars@.len(),
            lowering::find_const(locals(vars@), name@) == lowering::find_const(
                locals(vars@).take(i as int),
                name@,
            ),
        decreases i,
    {
        i -= 1;
        proof {
            let t = locals(vars@).take(i + 1);
            assert(t.last() == vars@[i as int].model());
            assert(t.drop_last() =~= locals(vars@).take(i as int));
        }
        if let Spot::Const(n, _) = vars[i].spot {
            if same(vars[i].name.as_str(), name) {
                return Some(n);
            }
        }
    }
    None
}

/// So many bytes below R10.
fn below(at: u32) -> (r: i16)
    requires
        at <= STACK_BYTES,
    ensures
        r == -(at as int),
{
    -(at as i16)
}

// -------------------------------------------------------------- expressions

fn literal_of(e: &Expr) -> (r: Option<u64>)
    ensures
        r == lowering::literal_of(e@),
{
    match &e.kind {
        ExprKind::Int(n) => Some(*n),
        ExprKind::Bool(b) => if *b {
            Some(1)
        } else {
            Some(0)
        },
        _ => None,
    }
}

fn folded(op: BinaryOp, a: i64, b: i64) -> (r: Option<i64>)
    ensures
        r == lowering::folded(op, a, b),
{
    match op {
        BinaryOp::Add => a.checked_add(b),
        BinaryOp::Sub => a.checked_sub(b),
        BinaryOp::Mul => a.checked_mul(b),
        BinaryOp::BitOr => Some(a | b),
        BinaryOp::BitAnd => Some(a & b),
        BinaryOp::Shl => if 0 <= b && b < 64 {
            Some(a << b)
        } else {
            None
        },
        _ => None,
    }
}

fn const_of(vars: &Vec<Local>, e: &Expr) -> (r: Option<i64>)
    requires
        forall|i: int| 0 <= i < vars@.len() ==> (#[trigger] vars@[i]).spot.wf(),
    ensures
        r == lowering::const_of(locals(vars@), e@),
    decreases e,
{
    match &e.kind {
        ExprKind::Int(n) => Some(*n as i64),
        ExprKind::Ident(name) => match find_const(vars, name.as_str()) {
            Some(n) => Some(n as i64),
            None => match find(vars, name.as_str()) {
                Some(Spot::Step(n)) => Some(n as i64),
                _ => None,
            },
        },
        ExprKind::Binary { op, lhs, rhs } => match (const_of(vars, lhs), const_of(vars, rhs)) {
            (Some(a), Some(b)) => folded(*op, a, b),
            _ => None,
        },
        _ => None,
    }
}

fn builtin_width(name: &str) -> (r: Option<u32>)
    ensures
        r == lowering::builtin_width(name@),
{
    if same(name, "pid") || same(name, "tgid") || same(name, "tid") || same(name, "uid") || same(
        name,
        "gid",
    ) {
        Some(4)
    } else if same(name, "ktime") {
        Some(8)
    } else {
        None
    }
}

fn width_of(vars: &Vec<Local>, e: &Expr) -> (r: Option<Size>)
    requires
        forall|i: int| 0 <= i < vars@.len() ==> (#[trigger] vars@[i]).spot.wf(),
    ensures
        r == lowering::width_of(locals(vars@), e@),
    decreases e,
{
    if is_logic(e) {
        return Some(Size::B);
    }
    match &e.kind {
        ExprKind::Bool(_) => Some(Size::B),
        ExprKind::Ident(name) => match find(vars, name.as_str()) {
            Some(Spot::Const(_, size)) => Some(size),
            Some(Spot::Step(_)) => Some(Size::DW),
            Some(Spot::Num(_, size)) => Some(size),
            _ => None,
        },
        ExprKind::Unary { op, expr } => match *op {
            UnaryOp::Deref => pointed_size(vars, expr),
            _ => width_of(vars, expr),
        },
        ExprKind::Binary { lhs, rhs, .. } => match width_of(vars, lhs) {
            Some(size) => Some(size),
            None => width_of(vars, rhs),
        },
        ExprKind::Call { callee, .. } => called_size(callee),
        ExprKind::MethodCall { .. } => Some(Size::B),
        _ => None,
    }
}

fn pointed_size(vars: &Vec<Local>, e: &Expr) -> (r: Option<Size>)
    requires
        forall|i: int| 0 <= i < vars@.len() ==> (#[trigger] vars@[i]).spot.wf(),
    ensures
        r == lowering::pointed_size(locals(vars@), e@),
{
    match &e.kind {
        ExprKind::Ident(name) => match find(vars, name.as_str()) {
            Some(Spot::Ref(_, size)) => Some(size),
            _ => None,
        },
        _ => None,
    }
}

fn called_size(callee: &Expr) -> (r: Option<Size>)
    ensures
        r == lowering::called_size(callee@),
{
    match &callee.kind {
        ExprKind::Ident(name) => match builtin_width(name.as_str()) {
            Some(n) => Some(width_size(n)),
            None => Some(Size::DW),
        },
        _ => None,
    }
}

fn is_logic(e: &Expr) -> (r: bool)
    ensures
        r == lowering::is_logic(e@),
{
    match &e.kind {
        ExprKind::Unary { op, .. } => *op == UnaryOp::Not,
        ExprKind::Binary { op, .. } => comparison(*op).is_some() || *op == BinaryOp::And || *op
            == BinaryOp::Or,
        ExprKind::MethodCall { method, .. } => same(method.name.as_str(), "starts_with"),
        _ => false,
    }
}

fn comparison(op: BinaryOp) -> (r: Option<JmpOp>)
    ensures
        r == lowering::comparison(op),
{
    match op {
        BinaryOp::Eq => Some(JmpOp::Eq),
        BinaryOp::Ne => Some(JmpOp::Ne),
        BinaryOp::Lt => Some(JmpOp::Lt),
        BinaryOp::Le => Some(JmpOp::Le),
        BinaryOp::Gt => Some(JmpOp::Gt),
        BinaryOp::Ge => Some(JmpOp::Ge),
        _ => None,
    }
}

/// The instruction that an operator is.
fn arithmetic(op: BinaryOp) -> (r: AluOp)
    requires
        lowering::arithmetic(op) is Some,
    ensures
        lowering::arithmetic(op) == Some(r),
{
    match op {
        BinaryOp::BitOr => AluOp::Or,
        BinaryOp::BitXor => AluOp::Xor,
        BinaryOp::BitAnd => AluOp::And,
        BinaryOp::Shl => AluOp::Lsh,
        BinaryOp::Shr => AluOp::Rsh,
        BinaryOp::Add => AluOp::Add,
        BinaryOp::Sub => AluOp::Sub,
        BinaryOp::Mul => AluOp::Mul,
        BinaryOp::Div => AluOp::Div,
        _ => AluOp::Mod,
    }
}

fn unchecked(e: &Expr) -> (r: String)
    ensures
        r@ == lowering::unchecked(e@),
{
    let shown = pretty::expr(e);
    cat3("`", &shown, "` may be null: check it with `if let Some(x) = ..` first")
}

impl Builder {
    fn literal(&mut self, n: u64)
        requires
            old(self).wf(),
        ensures
            final(self)@ == lowering::literal(old(self)@, n),
            final(self).wf(),
            final(self).more(*old(self)),
    {
        if n <= i32::MAX as u64 {
            self.put(mov64_imm(Reg::R0, n as i32));
        } else {
            let signed: i64 = if n > i64::MAX as u64 {
                (n as i128 - 0x1_0000_0000_0000_0000) as i64
            } else {
                n as i64
            };
            self.put(ld_imm64(Reg::R0, signed));
        }
    }

    fn builtin(&mut self, name: &str)
        requires
            old(self).wf(),
        ensures
            final(self)@ == lowering::builtin(old(self)@, name@),
            final(self).wf(),
            final(self).more(*old(self)),
    {
        proof {
            reveal(lowering::builtin);
        }
        if same(name, "pid") || same(name, "tgid") {
            self.put(call(Helper::GetCurrentPidTgid));
            self.put(alu64_imm(AluOp::Rsh, Reg::R0, 32));
        } else if same(name, "tid") {
            self.put(call(Helper::GetCurrentPidTgid));
            self.put(alu32_reg(AluOp::Mov, Reg::R0, Reg::R0));
        } else if same(name, "uid") {
            self.put(call(Helper::GetCurrentUidGid));
            self.put(alu32_reg(AluOp::Mov, Reg::R0, Reg::R0));
        } else if same(name, "gid") {
            self.put(call(Helper::GetCurrentUidGid));
            self.put(alu64_imm(AluOp::Rsh, Reg::R0, 32));
        } else {
            self.put(call(Helper::KtimeGetNs));
        }
    }

    fn masked(&mut self, width: Option<Size>)
        requires
            old(self).wf(),
        ensures
            final(self)@ == lowering::masked(old(self)@, width),
            final(self).wf(),
            final(self).more(*old(self)),
    {
        match width {
            Some(Size::B) => self.put(alu64_imm(AluOp::And, Reg::R0, 0xff)),
            Some(Size::H) => self.put(alu64_imm(AluOp::And, Reg::R0, 0xffff)),
            Some(Size::W) => self.put(alu32_reg(AluOp::Mov, Reg::R0, Reg::R0)),
            _ => {},
        }
    }

    fn fit(&mut self, have: Option<Size>, want: Size)
        requires
            old(self).wf(),
        ensures
            final(self)@ == lowering::fit(old(self)@, have, want),
            final(self).wf(),
            final(self).more(*old(self)),
    {
        match have {
            Some(size) => {
                if size != want {
                    self.masked(Some(want));
                }
            },
            None => self.masked(Some(want)),
        }
    }

    fn point(&mut self, r: Reg, at: u32)
        requires
            old(self).wf(),
            at <= STACK_BYTES,
        ensures
            final(self)@ == lowering::point(old(self)@, r, at as nat),
            final(self).wf(),
            final(self).more(*old(self)),
    {
        self.put(mov64_reg(r, Reg::R10));
        self.put(alu64_imm(AluOp::Add, r, -(at as i32)));
    }

    fn named(&mut self, name: &str) -> (r: Result<Value, String>)
        requires
            old(self).wf(),
        ensures
            made_value(r, *old(self), *final(self), lowering::named(old(self)@, name@)),
    {
        proof {
            reveal(lowering::named);
        }
        match self.find(name) {
            None => Err(cat3("unknown name `", name, "`")),
            Some(Spot::Const(n, _)) | Some(Spot::Step(n)) => {
                self.literal(n);
                Ok(Value::Num)
            },
            Some(Spot::Num(at, _)) => {
                self.put(ldx_mem(Size::DW, Reg::R0, Reg::R10, below(at)));
                Ok(Value::Num)
            },
            Some(Spot::Maybe(at, size)) => {
                self.put(ldx_mem(Size::DW, Reg::R0, Reg::R10, below(at)));
                Ok(Value::Maybe(size))
            },
            Some(Spot::Ref(..)) => Err(
                cat5("`", name, "` is a pointer: read it with `*", name, "`"),
            ),
            Some(Spot::Text(..)) => Err(
                cat3(
                    "`",
                    name,
                    "` is a string: only `starts_with`, `byte_at` and `emit` can use it",
                ),
            ),
        }
    }

    fn deref(&mut self, e: &Expr) -> (r: Result<(), String>)
        requires
            old(self).wf(),
        ensures
            made(r, *old(self), *final(self), lowering::deref(old(self)@, e@)),
    {
        proof {
            reveal(lowering::deref);
        }
        match &e.kind {
            ExprKind::Ident(name) => match self.find(name.as_str()) {
                Some(Spot::Ref(at, size)) => {
                    self.put(ldx_mem(Size::DW, Reg::R0, Reg::R10, below(at)));
                    self.put(ldx_mem(size, Reg::R0, Reg::R0, 0));
                    Ok(())
                },
                Some(Spot::Maybe(..)) => Err(unchecked(e)),
                _ => Err(cat3("cannot dereference `", name, "`")),
            },
            ExprKind::MethodCall { .. } => Err(unchecked(e)),
            _ => {
                let shown = pretty::expr(e);
                Err(cat3("cannot dereference `", &shown, "`"))
            },
        }
    }

    fn called(&mut self, e: &Expr, callee: &Expr, args: &Vec<Expr>) -> (r: Result<(), String>)
        requires
            old(self).wf(),
        ensures
            made(
                r,
                *old(self),
                *final(self),
                lowering::called(old(self)@, e@, callee@, exprs(args@)),
            ),
    {
        proof {
            reveal(lowering::called);
        }
        proof {
            lemma_exprs(args@);
        }
        match &callee.kind {
            ExprKind::Ident(name) => {
                if builtin_width(name.as_str()).is_some() && args.len() == 0 {
                    self.builtin(name.as_str());
                    Ok(())
                } else if same(name.as_str(), "arg") && args.len() == 1 {
                    assert(exprs(args@)[0] == args@[0]@);
                    match const_of(&self.vars, &args[0]) {
                        Some(n) => {
                            if n < 0 || n > LAST_ARG {
                                return Err(owned("`arg(n)` takes a constant from 0 to 5"));
                            }
                            self.put(ldx_mem(Size::DW, Reg::R0, Reg::R10, -8));
                            self.put(ldx_mem(Size::DW, Reg::R0, Reg::R0, 16 + 8 * n as i16));
                            Ok(())
                        },
                        None => Err(owned("`arg(n)` takes a constant from 0 to 5")),
                    }
                } else if same(name.as_str(), "comm") || same(name.as_str(), "read_user_str") {
                    Err(cat3("`", name, "` can only fill a `str<N>`"))
                } else {
                    Err(cat3("unknown builtin `", name, "()`"))
                }
            },
            _ => Err(owned("expected a builtin name")),
        }
    }

    fn byte_of(&mut self, name: &str, method: &str, args: &Vec<Expr>) -> (r: Result<(), String>)
        requires
            old(self).wf(),
        ensures
            made(
                r,
                *old(self),
                *final(self),
                lowering::byte_of(old(self)@, name@, method@, exprs(args@)),
            ),
    {
        proof {
            reveal(lowering::byte_of);
        }
        proof {
            lemma_exprs(args@);
        }
        match self.find(name) {
            Some(Spot::Text(at, n)) => {
                if same(method, "byte_at") && args.len() == 1 {
                    assert(exprs(args@)[0] == args@[0]@);
                    match const_of(&self.vars, &args[0]) {
                        Some(i) => {
                            if 0 <= i && i < n as i64 {
                                let off: i16 = i as i16 - at as i16;
                                self.put(ldx_mem(Size::B, Reg::R0, Reg::R10, off));
                                Ok(())
                            } else {
                                Err(cat3("`byte_at` is out of range of `", name, "`"))
                            }
                        },
                        None => Err(owned("`byte_at` takes a constant")),
                    }
                } else {
                    Err(cat3("string has no method `", method, "`"))
                }
            },
            _ => Err(cat3("unknown map `", name, "`")),
        }
    }

    fn on_map(&mut self, table: usize, key: u32, h: Helper)
        requires
            old(self).wf(),
            table < MAX_MAPS,
            key <= STACK_BYTES,
        ensures
            final(self)@ == lowering::on_map(old(self)@, table as int, key as nat, h),
            final(self).wf(),
            final(self).more(*old(self)),
    {
        self.put(ld_map_fd(Reg::R1, table as i32 + 1));
        self.point(Reg::R2, key);
        self.put(call(h));
    }

    fn compare_bytes(&mut self, at: u32, bytes: &[u8], no: Label)
        requires
            old(self).wf(),
            old(self).knows(no),
            bytes@.len() <= at <= STACK_BYTES,
        ensures
            final(self)@ == lowering::compare_bytes(old(self)@, at as nat, bytes@, 0, no.id()),
            final(self).wf(),
            final(self).more(*old(self)),
    {
        let ghost want = lowering::compare_bytes(self@, at as nat, bytes@, 0, no.id());
        let mut i: usize = 0;
        while i < bytes.len()
            invariant
                0 <= i <= bytes@.len(),
                bytes@.len() <= at <= STACK_BYTES,
                self.wf(),
                self.knows(no),
                self.more(*old(self)),
                want == lowering::compare_bytes(self@, at as nat, bytes@, i as int, no.id()),
            decreases bytes@.len() - i,
        {
            let off: i16 = i as i16 - at as i16;
            self.put(ldx_mem(Size::B, Reg::R0, Reg::R10, off));
            self.jump_num(JmpOp::Ne, Reg::R0, bytes[i] as i32, no);
            i += 1;
        }
    }

    fn prefix_test(&mut self, receiver: &Expr, args: &Vec<Expr>, yes: Label, no: Label) -> (r: Result<
        (),
        String,
    >)
        requires
            old(self).wf(),
            old(self).knows(yes),
            old(self).knows(no),
        ensures
            made(
                r,
                *old(self),
                *final(self),
                lowering::prefix_test(old(self)@, receiver@, exprs(args@), yes.id(), no.id()),
            ),
    {
        proof {
            reveal(lowering::prefix_test);
        }
        proof {
            lemma_exprs(args@);
        }
        match &receiver.kind {
            ExprKind::Ident(name) => match self.find(name.as_str()) {
                Some(Spot::Text(at, n)) => {
                    if args.len() != 1 {
                        return Err(owned("`starts_with` takes a string literal"));
                    }
                    assert(exprs(args@)[0] == args@[0]@);
                    match &args[0].kind {
                        ExprKind::Str(text) => {
                            let bytes: &[u8] = text.as_str().as_bytes();
                            assert(bytes@ == encode_utf8(text@));
                            if bytes.len() > n as usize {
                                return Err(cat3("`starts_with` is longer than `", name, "`"));
                            }
                            self.compare_bytes(at, bytes, no);
                            self.jump(yes);
                            Ok(())
                        },
                        _ => Err(owned("`starts_with` takes a string literal")),
                    }
                },
                _ => Err(cat3("`", name, "` is not a string")),
            },
            _ => Err(owned("`starts_with` is a method of a string")),
        }
    }

    fn value(&mut self, w: &Around, e: &Expr) -> (r: Result<Value, String>)
        requires
            old(self).wf(),
            w.wf(),
        ensures
            made_value(r, *old(self), *final(self), lowering::value(w.model(), old(self)@, e@)),
        decreases
                e,
                (if lowering::is_logic(e@) {
                    6int
                } else {
                    2int
                }),
    {
        if is_logic(e) {
            self.truth(w, e)?;
            return Ok(Value::Num);
        }
        match &e.kind {
            ExprKind::Int(n) => {
                self.literal(*n);
                Ok(Value::Num)
            },
            ExprKind::Bool(b) => {
                if *b {
                    self.literal(1);
                } else {
                    self.literal(0);
                }
                Ok(Value::Num)
            },
            ExprKind::Str(_) => Err(owned("a string can only be used by `starts_with`")),
            ExprKind::Ident(name) => self.named(name.as_str()),
            ExprKind::Unary { op, expr } => {
                let width = width_of(&self.vars, e);
                match *op {
                    UnaryOp::Deref => self.deref(expr)?,
                    UnaryOp::Neg => {
                        self.number(w, expr)?;
                        self.put(alu64_imm(AluOp::Neg, Reg::R0, 0));
                        self.masked(width);
                    },
                    _ => {
                        self.number(w, expr)?;
                        self.put(alu64_imm(AluOp::Xor, Reg::R0, -1));
                        self.masked(width);
                    },
                }
                Ok(Value::Num)
            },
            ExprKind::Binary { op, .. } => {
                let width = width_of(&self.vars, e);
                self.operands(w, e)?;
                self.put(alu64_reg(arithmetic(*op), Reg::R1, Reg::R0));
                self.put(mov64_reg(Reg::R0, Reg::R1));
                self.masked(width);
                Ok(Value::Num)
            },
            ExprKind::Cast { .. } => Err(owned("`as` casts are not supported yet")),
            ExprKind::Call { callee, args } => {
                self.called(e, callee, args)?;
                Ok(Value::Num)
            },
            ExprKind::MethodCall { receiver, method, args } => self.method_value(
                w,
                receiver,
                method.name.as_str(),
                args,
            ),
            ExprKind::Field { .. } => Err(owned("field access is not supported yet")),
            ExprKind::Index { .. } => Err(owned("indexing is not supported yet")),
        }
    }

    fn number(&mut self, w: &Around, e: &Expr) -> (r: Result<(), String>)
        requires
            old(self).wf(),
            w.wf(),
        ensures
            made(r, *old(self), *final(self), lowering::number(w.model(), old(self)@, e@)),
        decreases e, 7int,
    {
        match self.value(w, e)? {
            Value::Num => Ok(()),
            Value::Maybe(_) => Err(unchecked(e)),
        }
    }

    fn operands(&mut self, w: &Around, e: &Expr) -> (r: Result<(), String>)
        requires
            old(self).wf(),
            w.wf(),
            e.kind is Binary,
        ensures
            made(r, *old(self), *final(self), lowering::operands(w.model(), old(self)@, e@)),
        decreases e, 1int,
    {
        match &e.kind {
            ExprKind::Binary { lhs, rhs, .. } => {
                self.number(w, lhs)?;
                let depth: u32 = self.depth;
                self.grow(8)?;
                let at: u32 = self.depth;
                self.put(stx_mem(Size::DW, Reg::R10, below(at), Reg::R0));
                self.number(w, rhs)?;
                self.put(ldx_mem(Size::DW, Reg::R1, Reg::R10, below(at)));
                self.up(depth);
                Ok(())
            },
            _ => Err(String::new()),
        }
    }

    fn truth(&mut self, w: &Around, e: &Expr) -> (r: Result<(), String>)
        requires
            old(self).wf(),
            w.wf(),
        ensures
            made(r, *old(self), *final(self), lowering::truth(w.model(), old(self)@, e@)),
        decreases e, 5int,
    {
        let yes = self.fresh()?;
        let no = self.fresh()?;
        let done = self.fresh()?;
        self.branch(w, e, yes, no)?;
        self.bind(yes);
        self.put(mov64_imm(Reg::R0, 1));
        self.jump(done);
        self.bind(no);
        self.put(mov64_imm(Reg::R0, 0));
        self.bind(done);
        Ok(())
    }

    fn branch(&mut self, w: &Around, e: &Expr, yes: Label, no: Label) -> (r: Result<(), String>)
        requires
            old(self).wf(),
            w.wf(),
            old(self).knows(yes),
            old(self).knows(no),
        ensures
            made(
                r,
                *old(self),
                *final(self),
                lowering::branch(w.model(), old(self)@, e@, yes.id(), no.id()),
            ),
        decreases e, 4int,
    {
        match &e.kind {
            ExprKind::Unary { op: UnaryOp::Not, expr } => self.branch(w, expr, no, yes),
            ExprKind::Binary { op: BinaryOp::And, lhs, rhs } => {
                let next = self.fresh()?;
                self.branch(w, lhs, next, no)?;
                self.bind(next);
                self.branch(w, rhs, yes, no)
            },
            ExprKind::Binary { op: BinaryOp::Or, lhs, rhs } => {
                let next = self.fresh()?;
                self.branch(w, lhs, yes, next)?;
                self.bind(next);
                self.branch(w, rhs, yes, no)
            },
            ExprKind::Binary { op, .. } => {
                match comparison(*op) {
                    Some(c) => {
                        self.operands(w, e)?;
                        self.jump_reg(c, Reg::R1, Reg::R0, yes);
                        self.jump(no);
                        Ok(())
                    },
                    None => self.test(w, e, yes, no),
                }
            },
            ExprKind::MethodCall { receiver, args, .. } => if is_logic(e) {
                self.prefix_test(receiver, args, yes, no)
            } else {
                self.test(w, e, yes, no)
            },
            _ => self.test(w, e, yes, no),
        }
    }

    /// Go by whether a number is zero.
    fn test(&mut self, w: &Around, e: &Expr, yes: Label, no: Label) -> (r: Result<(), String>)
        requires
            old(self).wf(),
            w.wf(),
            old(self).knows(yes),
            old(self).knows(no),
            !lowering::is_logic(e@),
        ensures
            made(
                r,
                *old(self),
                *final(self),
                lowering::branch(w.model(), old(self)@, e@, yes.id(), no.id()),
            ),
        decreases e, 3int,
    {
        match self.value(w, e)? {
            Value::Num => {
                self.jump_num(JmpOp::Ne, Reg::R0, 0, yes);
                self.jump(no);
                Ok(())
            },
            Value::Maybe(_) => Err(unchecked(e)),
        }
    }

    fn method_value(&mut self, w: &Around, receiver: &Expr, method: &str, args: &Vec<Expr>) -> (r:
        Result<Value, String>)
        requires
            old(self).wf(),
            w.wf(),
        ensures
            made_value(
                r,
                *old(self),
                *final(self),
                lowering::method_value(w.model(), old(self)@, receiver@, method@, exprs(args@)),
            ),
        decreases args@, 0int,
    {
        proof {
            lemma_exprs(args@);
        }
        match &receiver.kind {
            ExprKind::Ident(name) => match w.table(name.as_str()) {
                Some(t) => {
                    if same(method, "get") && args.len() == 1 {
                        assert(exprs(args@)[0] == args@[0]@);
                        assert(w.model().tables[t as int] == w.tables@[t as int].model());
                        let depth: u32 = self.depth;
                        self.keyed(w, w.tables[t].key, &args[0])?;
                        let at: u32 = self.depth;
                        self.on_map(t, at, Helper::MapLookupElem);
                        self.up(depth);
                        Ok(Value::Maybe(w.tables[t].value))
                    } else {
                        Err(cat5("`", name, ".", method, "` gives no value"))
                    }
                },
                None => {
                    self.byte_of(name.as_str(), method, args)?;
                    Ok(Value::Num)
                },
            },
            _ => Err(owned("methods need a name in front")),
        }
    }

    fn keyed(&mut self, w: &Around, size: Size, e: &Expr) -> (r: Result<(), String>)
        requires
            old(self).wf(),
            w.wf(),
        ensures
            made(r, *old(self), *final(self), lowering::keyed(w.model(), old(self)@, size, e@)),
        decreases e, 8int,
    {
        self.number(w, e)?;
        self.grow(8)?;
        self.put(stx_mem(size, Reg::R10, below(self.depth), Reg::R0));
        Ok(())
    }
}

// --------------------------------------------------------------- statements

fn text_type(t: &Option<Type>) -> (r: Option<u64>)
    ensures
        r == lowering::text_type(opt_type(*t)),
{
    match t {
        Some(t) => {
            proof {
                lemma_type_args(t.args@);
            }
            if same(t.name.name.as_str(), "str") && t.args.len() == 1 {
                assert(type_args(t.args@)[0] == t.args@[0]@);
                match &t.args[0] {
                    TypeArg::Int(n) => Some(*n),
                    TypeArg::Type(_) => None,
                }
            } else {
                None
            }
        },
        None => None,
    }
}

fn kind_text(k: FieldKind) -> (r: String)
    ensures
        r@ == lowering::kind_text(k),
{
    match k {
        FieldKind::Uint(n) => cat3("Uint(", &dec_text(n as u64), ")"),
        FieldKind::Str(n) => cat3("Str(", &dec_text(n as u64), ")"),
        FieldKind::Bool => owned("Bool"),
    }
}

fn width_size(n: u32) -> (r: Size)
    ensures
        r == lowering::width_size(n),
{
    if n == 1 {
        Size::B
    } else if n == 2 {
        Size::H
    } else if n == 4 {
        Size::W
    } else {
        Size::DW
    }
}

fn bad_field(e: &Expr, kind: FieldKind) -> (r: String)
    ensures
        r@ == lowering::bad_field(e@, kind),
{
    let shown = pretty::expr(e);
    let what = kind_text(kind);
    cat4("unsupported field value `", &shown, "` for a field ", &what)
}

/// Check that a builtin gives what a field holds.
fn expect_uint(kind: FieldKind, builtin: &str, width: u32) -> (r: Result<(), String>)
    requires
        width == 4 || width == 8,
    ensures
        match r {
            Ok(_) => kind == FieldKind::Uint(width),
            Err(m) => kind != FieldKind::Uint(width) && m@ == "`"@ + builtin@ + "()` produces a u"@
                + crate::text::dec((width * 8) as nat) + ", field is "@ + lowering::kind_text(kind),
        },
{
    if kind == FieldKind::Uint(width) {
        return Ok(());
    }
    let what = kind_text(kind);
    let bits = dec_text(width as u64 * 8);
    let mut m = cat4("`", builtin, "()` produces a u", &bits);
    m.append(", field is ");
    m.append(&what);
    Err(m)
}

/// The field of a name.
fn slot_named(fields: &Vec<FieldLayout>, name: &str) -> (r: Option<usize>)
    ensures
        match r {
            Some(i) => i < fields@.len() && lowering::slot_named(slots(fields@), name@, 0) == Some(
                i as int,
            ),
            None => lowering::slot_named(slots(fields@), name@, 0) is None,
        },
{
    let mut i: usize = 0;
    while i < fields.len()
        invariant
            0 <= i <= fields@.len(),
            lowering::slot_named(slots(fields@), name@, 0) == lowering::slot_named(
                slots(fields@),
                name@,
                i as int,
            ),
        decreases fields@.len() - i,
    {
        assert(slots(fields@)[i as int] == fields@[i as int]@);
        if same(fields[i].name.as_str(), name) {
            return Some(i);
        }
        i += 1;
    }
    None
}

/// The layout of an event, or why it has none.
fn event_layout(e: &EventDecl) -> (r: Result<EventLayout, String>)
    ensures
        match r {
            Ok(l) => lowering::event_layout(e@) == Ok::<Layout, Seq<char>>(l@),
            Err(m) => lowering::event_layout(e@) == Err::<Layout, Seq<char>>(m@),
        },
{
    proof {
        reveal(lowering::event_layout);
    }
    if !fits(e) {
        return Err(cat3("event `", &e.name.name, "` is too large"));
    }
    match layout_event(e) {
        Err(m) => {
            proof {
                let i = choose|i: int|
                    {
                        &&& 0 <= i < e@.fields.len()
                        &&& held(e@.fields, i)
                        &&& crate::layout::kind_at(e@.fields, i) is None
                        &&& m@ == #[trigger] crate::layout::unsupported(e@, i)
                    };
                lemma_first_unheld(e@.fields, 0, i);
                assert(!held(e@.fields, e@.fields.len() as int)) by {
                    assert(crate::layout::kind_at(e@.fields, i) is None);
                }
            }
            Err(m)
        },
        Ok(l) => {
            if l.size > i32::MAX as u32 {
                return Err(cat3("event `", &e.name.name, "` is too large"));
            }
            Ok(l)
        },
    }
}

impl Builder {
    fn text_value(&mut self, w: &Around, n: u32, e: &Expr) -> (r: Result<(), String>)
        requires
            old(self).wf(),
            w.wf(),
            1 <= n <= STACK_BYTES,
        ensures
            made(
                r,
                *old(self),
                *final(self),
                lowering::text_value(w.model(), old(self)@, n as u64, e@),
            ),
            r is Ok ==> n <= final(self).depth,
    {
        proof {
            reveal(lowering::text_value);
        }
        let room: u32 = (n + 7) / 8 * 8;
        proof {
            reveal_with_fuel(Expr::model, 3);
            reveal_with_fuel(ExprKind::model, 3);
        }
        match &e.kind {
            ExprKind::Call { callee, args } => match &callee.kind {
                ExprKind::Ident(name) => {
                    proof {
                        lemma_exprs(args@);
                    }
                    if same(name.as_str(), "comm") && args.len() == 0 {
                        self.grow(room)?;
                        let at: u32 = self.depth;
                        self.point(Reg::R1, at);
                        self.put(mov64_imm(Reg::R2, n as i32));
                        self.put(call(Helper::GetCurrentComm));
                        Ok(())
                    } else if same(name.as_str(), "read_user_str") && args.len() == 1 {
                        assert(exprs(args@)[0] == args@[0]@);
                        self.number(w, &args[0])?;
                        self.grow(room)?;
                        let at: u32 = self.depth;
                        self.put(mov64_reg(Reg::R3, Reg::R0));
                        self.point(Reg::R1, at);
                        self.put(mov64_imm(Reg::R2, n as i32));
                        self.put(call(Helper::ProbeReadUserStr));
                        Ok(())
                    } else {
                        Err(owned("a string comes from `comm()` or `read_user_str(p)`"))
                    }
                },
                _ => Err(owned("a string comes from `comm()` or `read_user_str(p)`")),
            },
            _ => Err(owned("a string comes from `comm()` or `read_user_str(p)`")),
        }
    }

    fn let_stmt(&mut self, w: &Around, name: &str, t: &Option<Type>, e: &Expr) -> (r: Result<
        (),
        String,
    >)
        requires
            old(self).wf(),
            w.wf(),
        ensures
            made(
                r,
                *old(self),
                *final(self),
                lowering::let_stmt(w.model(), old(self)@, name@, opt_type(*t), e@),
            ),
    {
        proof {
            reveal(lowering::let_stmt);
        }
        match text_type(t) {
            Some(n) => {
                if n == 0 {
                    return Err(owned("`str<0>` holds nothing"));
                }
                if n > STACK_BYTES as u64 {
                    return Err(owned("probe needs more than 512 bytes of stack"));
                }
                self.text_value(w, n as u32, e)?;
                let at: u32 = self.depth;
                self.name(owned(name), Spot::Text(at, n as u32));
                Ok(())
            },
            None => {
                let have = width_of(&self.vars, e);
                let want = match t {
                    Some(t) => declared_size(t),
                    None => match have {
                        Some(size) => size,
                        None => Size::DW,
                    },
                };
                let v = self.value(w, e)?;
                if let Value::Num = v {
                    self.fit(have, want);
                }
                self.grow(8)?;
                let at: u32 = self.depth;
                self.put(stx_mem(Size::DW, Reg::R10, below(at), Reg::R0));
                let spot = match v {
                    Value::Num => Spot::Num(at, want),
                    Value::Maybe(size) => Spot::Maybe(at, size),
                };
                self.name(owned(name), spot);
                Ok(())
            },
        }
    }

    fn assign(&mut self, w: &Around, target: &Expr, e: &Expr) -> (r: Result<(), String>)
        requires
            old(self).wf(),
            w.wf(),
        ensures
            made(
                r,
                *old(self),
                *final(self),
                lowering::assign(w.model(), old(self)@, target@, e@),
            ),
    {
        proof {
            reveal(lowering::assign);
        }
        match &target.kind {
            ExprKind::Ident(name) => match self.find(name.as_str()) {
                Some(Spot::Num(at, size)) => {
                    let have = width_of(&self.vars, e);
                    self.number(w, e)?;
                    self.fit(have, size);
                    self.put(stx_mem(Size::DW, Reg::R10, below(at), Reg::R0));
                    Ok(())
                },
                Some(_) => Err(cat3("cannot assign to `", name, "`")),
                None => Err(cat3("unknown name `", name, "`")),
            },
            ExprKind::Unary { .. } => Err(
                owned("writing through a map pointer is not supported yet"),
            ),
            _ => Err(owned("field access is not supported yet")),
        }
    }

    fn expr_stmt(&mut self, w: &Around, e: &Expr) -> (r: Result<(), String>)
        requires
            old(self).wf(),
            w.wf(),
        ensures
            made(r, *old(self), *final(self), lowering::expr_stmt(w.model(), old(self)@, e@)),
    {
        proof {
            reveal(lowering::expr_stmt);
        }
        proof {
            reveal_with_fuel(Expr::model, 3);
            reveal_with_fuel(ExprKind::model, 3);
        }
        if let ExprKind::MethodCall { receiver, method, args } = &e.kind {
            if let ExprKind::Ident(name) = &receiver.kind {
                if let Some(t) = w.table(name.as_str()) {
                    proof {
                        lemma_exprs(args@);
                    }
                    if same(method.name.as_str(), "insert") && args.len() == 2 {
                        return self.insert(w, t, args);
                    }
                    if same(method.name.as_str(), "delete") && args.len() == 1 {
                        assert(exprs(args@)[0] == args@[0]@);
                        assert(w.model().tables[t as int] == w.tables@[t as int].model());
                        let depth: u32 = self.depth;
                        self.keyed(w, w.tables[t].key, &args[0])?;
                        let at: u32 = self.depth;
                        self.on_map(t, at, Helper::MapDeleteElem);
                        self.up(depth);
                        return Ok(());
                    }
                }
            }
        }
        let _ = self.value(w, e)?;
        Ok(())
    }

    fn insert(&mut self, w: &Around, t: usize, args: &Vec<Expr>) -> (r: Result<(), String>)
        requires
            old(self).wf(),
            w.wf(),
            t < w.tables@.len(),
            args@.len() == 2,
        ensures
            made(
                r,
                *old(self),
                *final(self),
                lowering::insert(w.model(), old(self)@, t as int, exprs(args@)),
            ),
    {
        proof {
            reveal(lowering::insert);
        }
        proof {
            lemma_exprs(args@);
            assert(exprs(args@)[0] == args@[0]@);
            assert(exprs(args@)[1] == args@[1]@);
            assert(w.model().tables[t as int] == w.tables@[t as int].model());
        }
        let depth: u32 = self.depth;
        self.keyed(w, w.tables[t].key, &args[0])?;
        let key: u32 = self.depth;
        self.keyed(w, w.tables[t].value, &args[1])?;
        let value: u32 = self.depth;
        self.put(ld_map_fd(Reg::R1, t as i32 + 1));
        self.point(Reg::R2, key);
        self.point(Reg::R3, value);
        self.put(mov64_imm(Reg::R4, 0));
        self.put(call(Helper::MapUpdateElem));
        self.up(depth);
        Ok(())
    }

    /// A builtin without arguments, stored in a field.
    fn emit_builtin(&mut self, off: i16, kind: FieldKind, name: &str) -> (r: Result<(), String>)
        requires
            old(self).wf(),
            off >= 0,
        ensures
            made(
                r,
                *old(self),
                *final(self),
                lowering::emit_builtin(old(self)@, off as int, kind, name@),
            ),
    {
        proof {
            reveal(lowering::emit_builtin);
        }
        match builtin_width(name) {
            Some(width) => {
                expect_uint(kind, name, width)?;
                self.builtin(name);
                self.put(stx_mem(width_size(width), Reg::R6, off, Reg::R0));
                Ok(())
            },
            None => {
                if same(name, "comm") {
                    match kind {
                        FieldKind::Str(n) => {
                            self.put(mov64_reg(Reg::R1, Reg::R6));
                            self.put(alu64_imm(AluOp::Add, Reg::R1, off as i32));
                            self.put(mov64_imm(Reg::R2, n as i32));
                            self.put(call(Helper::GetCurrentComm));
                            Ok(())
                        },
                        _ => {
                            let what = kind_text(kind);
                            Err(cat2("`comm()` must fill a `str<N>` field, not ", &what))
                        },
                    }
                } else {
                    Err(cat3("unknown builtin `", name, "()`"))
                }
            },
        }
    }

    fn copy_bytes(&mut self, at: u32, off: u32, n: u32)
        requires
            old(self).wf(),
            n <= at <= STACK_BYTES,
            off + n <= i16::MAX,
        ensures
            final(self)@ == lowering::copy_bytes(
                old(self)@,
                at as nat,
                off as int,
                0,
                n as int,
            ),
            final(self).wf(),
            final(self).more(*old(self)),
    {
        let ghost want = lowering::copy_bytes(self@, at as nat, off as int, 0, n as int);
        let mut i: u32 = 0;
        while i < n
            invariant
                0 <= i <= n <= at <= STACK_BYTES,
                off + n <= i16::MAX,
                self.wf(),
                self.more(*old(self)),
                want == lowering::copy_bytes(self@, at as nat, off as int, i as int, n as int),
            decreases n - i,
        {
            let from: i16 = i as i16 - at as i16;
            let to: i16 = (off + i) as i16;
            self.put(ldx_mem(Size::B, Reg::R0, Reg::R10, from));
            self.put(stx_mem(Size::B, Reg::R6, to, Reg::R0));
            i += 1;
        }
    }

    /// Store a value in the field at `[r6 + off]`.
    fn emit_field(&mut self, w: &Around, off: u32, kind: FieldKind, e: &Expr) -> (r: Result<
        (),
        String,
    >)
        requires
            old(self).wf(),
            w.wf(),
        ensures
            made(
                r,
                *old(self),
                *final(self),
                lowering::emit_field(w.model(), old(self)@, off, kind, e@),
            ),
    {
        proof {
            reveal(lowering::emit_field);
        }
        proof {
            reveal_with_fuel(Expr::model, 3);
            reveal_with_fuel(ExprKind::model, 3);
        }
        if off > i16::MAX as u32 {
            return Err(owned("field offset too large"));
        }
        if let ExprKind::Call { callee, args } = &e.kind {
            proof {
                lemma_exprs(args@);
            }
            if args.len() == 0 {
                return match &callee.kind {
                    ExprKind::Ident(name) => self.emit_builtin(off as i16, kind, name.as_str()),
                    _ => Err(owned("expected a builtin name")),
                };
            }
        }
        assert(!lowering::nullary(e@));
        match kind {
            FieldKind::Str(n) => match &e.kind {
                ExprKind::Ident(name) => match self.find(name.as_str()) {
                    Some(Spot::Text(at, m)) => {
                        if m != n {
                            return Err(bad_field(e, kind));
                        }
                        if off + n > i16::MAX as u32 {
                            return Err(owned("field offset too large"));
                        }
                        self.copy_bytes(at, off, n);
                        Ok(())
                    },
                    _ => Err(bad_field(e, kind)),
                },
                _ => Err(bad_field(e, kind)),
            },
            FieldKind::Uint(n) => {
                self.number(w, e)?;
                self.put(stx_mem(width_size(n), Reg::R6, off as i16, Reg::R0));
                Ok(())
            },
            FieldKind::Bool => {
                self.number(w, e)?;
                self.put(stx_mem(Size::B, Reg::R6, off as i16, Reg::R0));
                Ok(())
            },
        }
    }

    fn emit_fields(&mut self, w: &Around, l: &EventLayout, fields: &Vec<(Ident, Expr)>) -> (r: Result<
        (),
        String,
    >)
        requires
            old(self).wf(),
            w.wf(),
        ensures
            made(
                r,
                *old(self),
                *final(self),
                lowering::emit_fields(w.model(), old(self)@, l@, emit_fields(fields@), 0),
            ),
    {
        proof {
            reveal(lowering::emit_fields);
        }
        let ghost want = lowering::emit_fields(w.model(), self@, l@, emit_fields(fields@), 0);
        let mut i: usize = 0;
        while i < fields.len()
            invariant
                0 <= i <= fields@.len(),
                w.wf(),
                self.wf(),
                self.more(*old(self)),
                want == lowering::emit_fields(
                    w.model(),
                    self@,
                    l@,
                    emit_fields(fields@),
                    i as int,
                ),
                want == lowering::emit_fields(
                    w.model(),
                    old(self)@,
                    l@,
                    emit_fields(fields@),
                    0,
                ),
            decreases fields@.len() - i,
        {
            proof {
                reveal(lowering::emit_fields);
            }
            let ghost f = emit_fields(fields@);
            assert(f[i as int] == (fields@[i as int].0@, fields@[i as int].1@));
            if given(fields, i, fields[i].0.name.as_str()) {
                return Err(cat3("field `", &fields[i].0.name, "` given twice"));
            }
            match slot_named(&l.fields, fields[i].0.name.as_str()) {
                None => {
                    return Err(
                        cat5("event `", &l.name, "` has no field `", &fields[i].0.name, "`"),
                    );
                },
                Some(k) => {
                    assert(l@.fields[k as int] == l.fields@[k as int]@);
                    self.emit_field(w, l.fields[k].offset, l.fields[k].kind, &fields[i].1)?;
                },
            }
            i += 1;
        }
        Ok(())
    }

    /// The event to emit, and that it is the only one.
    fn chosen(&self, w: &Around, name: &str) -> (r: Result<EventLayout, String>)
        requires
            w.wf(),
        ensures
            match r {
                Ok(l) => lowering::chosen(w.model(), self@, name@) == Ok::<Layout, Seq<char>>(l@),
                Err(m) => lowering::chosen(w.model(), self@, name@) == Err::<Layout, Seq<char>>(m@),
            },
    {
        proof {
            reveal(lowering::chosen);
        }
        match w.event(name) {
            None => Err(cat3("unknown event `", name, "`")),
            Some(k) => {
                assert(w.model().events[k as int] == w.events@[k as int]@);
                let l = event_layout(w.events[k])?;
                match &self.event {
                    Some(first) => if same(first.name.as_str(), l.name.as_str()) {
                        Ok(l)
                    } else {
                        Err(owned("only one event per program is supported"))
                    },
                    None => Ok(l),
                }
            },
        }
    }

    fn emit(&mut self, w: &Around, name: &str, fields: &Vec<(Ident, Expr)>) -> (r: Result<
        (),
        String,
    >)
        requires
            old(self).wf(),
            w.wf(),
        ensures
            made(
                r,
                *old(self),
                *final(self),
                lowering::emit(w.model(), old(self)@, name@, emit_fields(fields@)),
            ),
    {
        proof {
            reveal(lowering::emit);
        }
        let l = self.chosen(w, name)?;
        if fields.len() != l.fields.len() {
            let has = dec_text(l.fields.len() as u64);
            let given = dec_text(fields.len() as u64);
            let mut m = cat4("event `", &l.name, "` has ", &has);
            m.append(" fields but `emit` provides ");
            m.append(&given);
            return Err(m);
        }
        let again = self.chosen(w, name)?;
        self.event = Some(again);
        let lost = self.fresh()?;
        // r0 = bpf_ringbuf_reserve(&ringbuf, size, 0)
        self.put(ld_map_fd(Reg::R1, 0));
        self.put(mov64_imm(Reg::R2, l.size as i32));
        self.put(mov64_imm(Reg::R3, 0));
        self.put(call(Helper::RingbufReserve));
        self.jump_num(JmpOp::Eq, Reg::R0, 0, lost);
        self.put(mov64_reg(Reg::R6, Reg::R0));
        self.emit_fields(w, &l, fields)?;
        // bpf_ringbuf_submit(r6, 0)
        self.put(mov64_reg(Reg::R1, Reg::R6));
        self.put(mov64_imm(Reg::R2, 0));
        self.put(call(Helper::RingbufSubmit));
        self.bind(lost);
        Ok(())
    }

    fn stmts(&mut self, w: &Around, list: &Vec<Stmt>, end: Label) -> (r: Result<(), String>)
        requires
            old(self).wf(),
            w.wf(),
            old(self).knows(end),
        ensures
            made(
                r,
                *old(self),
                *final(self),
                lowering::stmts(w.model(), old(self)@, stmts(list@), 0, end.id()),
            ),
        decreases list@, list@.len() + 1,
    {
        let ghost want = lowering::stmts(w.model(), self@, stmts(list@), 0, end.id());
        let mut i: usize = 0;
        proof {
            lemma_stmts(list@);
        }
        while i < list.len()
            invariant
                0 <= i <= list@.len(),
                stmts(list@).len() == list@.len(),
                forall|k: int| 0 <= k < list@.len() ==> #[trigger] stmts(list@)[k] == list@[k]@,
                w.wf(),
                self.wf(),
                self.knows(end),
                self.more(*old(self)),
                want == lowering::stmts(w.model(), self@, stmts(list@), i as int, end.id()),
                want == lowering::stmts(w.model(), old(self)@, stmts(list@), 0, end.id()),
            decreases list@.len() - i,
        {
            assert(stmts(list@)[i as int] == list@[i as int]@);
            self.stmt(w, &list[i], end)?;
            i += 1;
        }
        Ok(())
    }

    fn block(&mut self, w: &Around, b: &Block, end: Label) -> (r: Result<(), String>)
        requires
            old(self).wf(),
            w.wf(),
            old(self).knows(end),
        ensures
            made(
                r,
                *old(self),
                *final(self),
                lowering::block(w.model(), old(self)@, b@, end.id()),
            ),
        decreases b, 0int,
    {
        let depth: u32 = self.depth;
        let n: usize = self.vars.len();
        self.stmts(w, &b.stmts, end)?;
        self.up(depth);
        self.forget(n);
        Ok(())
    }

    fn otherwise(&mut self, w: &Around, b: &Option<Block>, no: Label, end: Label) -> (r: Result<
        (),
        String,
    >)
        requires
            old(self).wf(),
            w.wf(),
            old(self).knows(no),
            old(self).knows(end),
        ensures
            made(
                r,
                *old(self),
                *final(self),
                lowering::otherwise_part(
                    w.model(),
                    old(self)@,
                    (match *b {
                        Some(b) => Some(b@),
                        None => None,
                    }),
                    no.id(),
                    end.id(),
                ),
            ),
        decreases b, 1int,
    {
        match b {
            None => {
                self.bind(no);
                Ok(())
            },
            Some(b) => {
                let done = self.fresh()?;
                self.jump(done);
                self.bind(no);
                self.block(w, b, end)?;
                self.bind(done);
                Ok(())
            },
        }
    }

    fn unroll(&mut self, w: &Around, var: &str, lo: i64, hi: i64, body: &Block, end: Label) -> (r:
        Result<(), String>)
        requires
            old(self).wf(),
            w.wf(),
            old(self).knows(end),
        ensures
            made(
                r,
                *old(self),
                *final(self),
                lowering::unroll(
                    w.model(),
                    old(self)@,
                    var@,
                    lo as int,
                    hi as int,
                    body@,
                    end.id(),
                ),
            ),
        decreases body, 1int,
    {
        let ghost want = lowering::unroll(
            w.model(),
            self@,
            var@,
            lo as int,
            hi as int,
            body@,
            end.id(),
        );
        let mut i: i64 = lo;
        while i < hi
            invariant
                lo <= i,
                w.wf(),
                self.wf(),
                self.knows(end),
                self.more(*old(self)),
                want == lowering::unroll(
                    w.model(),
                    self@,
                    var@,
                    i as int,
                    hi as int,
                    body@,
                    end.id(),
                ),
                want == lowering::unroll(
                    w.model(),
                    old(self)@,
                    var@,
                    lo as int,
                    hi as int,
                    body@,
                    end.id(),
                ),
            decreases hi - i,
        {
            let depth: u32 = self.depth;
            let n: usize = self.vars.len();
            self.name(owned(var), Spot::Step(i as u64));
            self.block(w, body, end)?;
            self.up(depth);
            self.forget(n);
            i += 1;
        }
        Ok(())
    }

    fn stmt(&mut self, w: &Around, s: &Stmt, end: Label) -> (r: Result<(), String>)
        requires
            old(self).wf(),
            w.wf(),
            old(self).knows(end),
        ensures
            made(r, *old(self), *final(self), lowering::stmt(w.model(), old(self)@, s@, end.id())),
        decreases s, 0int,
    {
        match &s.kind {
            StmtKind::Let { name, ty, value, .. } => self.let_stmt(w, name.name.as_str(), ty, value),
            StmtKind::Assign { target, value } => self.assign(w, target, value),
            StmtKind::If { cond, body, otherwise } => {
                match cond {
                    Cond::Expr(e) => {
                        let no = self.tested(w, e)?;
                        self.block(w, body, end)?;
                        self.otherwise(w, otherwise, no, end)
                    },
                    Cond::Let { pattern, value } => {
                        let depth: u32 = self.depth;
                        let n: usize = self.vars.len();
                        let no = self.checked(w, pattern, value)?;
                        self.block(w, body, end)?;
                        self.up(depth);
                        self.forget(n);
                        self.otherwise(w, otherwise, no, end)
                    },
                }
            },
            StmtKind::For { var, start, end: stop, body } => {
                match (const_of(&self.vars, start), const_of(&self.vars, stop)) {
                    (Some(lo), Some(hi)) => {
                        if hi > lo && hi as i128 - lo as i128 > MAX_ITERATIONS as i128 {
                            return Err(owned("loop has more than 64 iterations"));
                        }
                        self.unroll(w, var.name.as_str(), lo, hi, body, end)
                    },
                    _ => Err(owned("`for` bounds must be constant")),
                }
            },
            StmtKind::Emit { event, fields } => self.emit(w, event.name.as_str(), fields),
            StmtKind::Return(v) => match v {
                Some(_) => Err(owned("`return` in a probe takes no value")),
                None => {
                    self.jump(end);
                    Ok(())
                },
            },
            StmtKind::Expr(e) => self.expr_stmt(w, e),
        }
    }

    /// `if e`; the label is where to go if it fails.
    fn tested(&mut self, w: &Around, e: &Expr) -> (r: Result<Label, String>)
        requires
            old(self).wf(),
            w.wf(),
        ensures
            match r {
                Ok(no) => {
                    &&& lowering::tested(w.model(), old(self)@, e@) == Ok::<Gen, Seq<char>>(
                        final(self)@,
                    )
                    &&& no.id() == old(self)@.out.labels.len() + 1
                    &&& final(self).wf()
                    &&& final(self).knows(no)
                    &&& final(self).more(*old(self))
                },
                Err(m) => lowering::tested(w.model(), old(self)@, e@) == Err::<Gen, Seq<char>>(m@),
            },
    {
        proof {
            reveal(lowering::tested);
        }
        let yes = self.fresh()?;
        let no = self.fresh()?;
        self.branch(w, e, yes, no)?;
        self.bind(yes);
        Ok(no)
    }

    /// `if let Some(x) = e`; the label is where to go if there is nothing.
    fn checked(&mut self, w: &Around, p: &Pattern, e: &Expr) -> (r: Result<Label, String>)
        requires
            old(self).wf(),
            w.wf(),
        ensures
            match r {
                Ok(no) => {
                    &&& lowering::checked(w.model(), old(self)@, p@, e@) == Ok::<Gen, Seq<char>>(
                        final(self)@,
                    )
                    &&& no.id() == final(self)@.out.labels.len() - 1
                    &&& final(self).wf()
                    &&& final(self).knows(no)
                    &&& final(self).more(*old(self))
                },
                Err(m) => lowering::checked(w.model(), old(self)@, p@, e@) == Err::<Gen, Seq<char>>(
                    m@,
                ),
            },
    {
        proof {
            reveal(lowering::checked);
        }
        match &p.binding {
            Some(x) => {
                if !same(p.name.name.as_str(), "Some") {
                    return Err(owned("only `if let Some(x) = ..` is supported"));
                }
                match self.value(w, e)? {
                    Value::Num => {
                        let shown = pretty::expr(e);
                        Err(cat3("`if let Some(x)` needs `map.get(k)`, not `", &shown, "`"))
                    },
                    Value::Maybe(size) => {
                        self.grow(8)?;
                        let at: u32 = self.depth;
                        self.put(stx_mem(Size::DW, Reg::R10, below(at), Reg::R0));
                        let no = self.fresh()?;
                        self.jump_num(JmpOp::Eq, Reg::R0, 0, no);
                        self.name(x.name.clone(), Spot::Ref(at, size));
                        Ok(no)
                    },
                }
            },
            None => Err(owned("only `if let Some(x) = ..` is supported")),
        }
    }
}

// ------------------------------------------------------------------ program

fn declared_size(t: &Type) -> (r: Size)
    ensures
        r == lowering::declared_size(t@),
{
    match map_size(t) {
        Some(size) => size,
        None => Size::DW,
    }
}

fn map_size(t: &Type) -> (r: Option<Size>)
    ensures
        r == lowering::map_size(t@),
{
    match kind_of(t.name.name.as_str(), &t.args) {
        Some(FieldKind::Uint(n)) => Some(width_size(n)),
        Some(FieldKind::Bool) => Some(Size::B),
        _ => None,
    }
}

fn size_bytes(s: Size) -> (r: u32)
    ensures
        r == lowering::size_bytes(s),
{
    match s {
        Size::B => 1,
        Size::H => 2,
        Size::W => 4,
        Size::DW => 8,
    }
}

fn table(m: &MapDecl) -> (r: Result<Known, String>)
    ensures
        match r {
            Ok(k) => lowering::table(m@) == Ok::<Table, Seq<char>>(k.model()),
            Err(e) => lowering::table(m@) == Err::<Table, Seq<char>>(e@),
        },
{
    if m.capacity > u32::MAX as u64 {
        return Err(cat3("map `", &m.name.name, "` is too large"));
    }
    if same(m.kind.name.as_str(), "hash") && m.args.len() == 2 {
        assert(m@.args[0] == m.args@[0]@);
        assert(m@.args[1] == m.args@[1]@);
        match (map_size(&m.args[0]), map_size(&m.args[1])) {
            (Some(key), Some(value)) => Ok(
                Known {
                    name: m.name.name.clone(),
                    kind: MapKind::Hash,
                    key,
                    value,
                    entries: m.capacity as u32,
                },
            ),
            _ => Err(cat3("map `", &m.name.name, "` needs unsigned keys and values")),
        }
    } else if same(m.kind.name.as_str(), "array") && m.args.len() == 1 {
        assert(m@.args[0] == m.args@[0]@);
        match map_size(&m.args[0]) {
            Some(value) => Ok(
                Known {
                    name: m.name.name.clone(),
                    kind: MapKind::Array,
                    key: Size::W,
                    value,
                    entries: m.capacity as u32,
                },
            ),
            None => Err(cat3("map `", &m.name.name, "` needs unsigned keys and values")),
        }
    } else {
        Err(cat3("map `", &m.name.name, "` must be a `hash<K, V>` or an `array<V>`"))
    }
}

/// What stands before the probe.
struct Before<'a> {
    vars: Vec<Local>,
    around: Around<'a>,
    probe: Option<&'a ProbeDecl>,
}

impl<'a> Before<'a> {
    spec fn model(&self) -> Declared {
        Declared {
            vars: locals(self.vars@),
            tables: tables(self.around.tables@),
            events: events(self.around.events@),
            probe: match self.probe {
                Some(p) => Some(p@),
                None => None,
            },
        }
    }

    spec fn wf(&self) -> bool {
        &&& self.around.wf()
        &&& forall|i: int| 0 <= i < self.vars@.len() ==> (#[trigger] self.vars@[i]).spot.wf()
    }
}

fn declare<'a>(program: &'a Program) -> (r: Result<Before<'a>, String>)
    ensures
        ({
            let none = Declared {
                vars: Seq::empty(),
                tables: Seq::empty(),
                events: Seq::empty(),
                probe: None,
            };
            match r {
                Ok(d) => d.wf() && lowering::declare(none, program@.items, 0) == Ok::<
                    Declared,
                    Seq<char>,
                >(d.model()),
                Err(m) => lowering::declare(none, program@.items, 0) == Err::<Declared, Seq<char>>(
                    m@,
                ),
            }
        }),
{
    let mut d = Before {
        vars: Vec::new(),
        around: Around { tables: Vec::new(), events: Vec::new() },
        probe: None,
    };
    let ghost want = lowering::declare(d.model(), program@.items, 0);
    proof {
        assert(d.model().vars =~= Seq::empty());
        assert(d.model().tables =~= Seq::empty());
        assert(d.model().events =~= Seq::empty());
    }
    let mut i: usize = 0;
    while i < program.items.len()
        invariant
            0 <= i <= program.items@.len(),
            d.wf(),
            want == lowering::declare(d.model(), program@.items, i as int),
            want == lowering::declare(
                (Declared {
                    vars: Seq::empty(),
                    tables: Seq::empty(),
                    events: Seq::empty(),
                    probe: None,
                }),
                program@.items,
                0,
            ),
        decreases program.items@.len() - i,
    {
        let ghost before = d;
        assert(program@.items[i as int] == program.items@[i as int]@);
        match &program.items[i] {
            Item::Event(e) => {
                d.around.events.push(e);
                assert(events(d.around.events@) =~= events(before.around.events@).push(e@));
            },
            Item::Probe(p) => {
                if d.probe.is_some() {
                    return Err(owned("this codegen slice supports only one probe"));
                }
                d.probe = Some(p);
            },
            Item::Const(c) => {
                match literal_of(&c.value) {
                    Some(n) => {
                        let l = Local { name: c.name.name.clone(), spot: Spot::Const(n, declared_size(&c.ty)) };
                        d.vars.push(l);
                        assert(locals(d.vars@) =~= locals(before.vars@).push(l.model()));
                    },
                    None => {
                        return Err(
                            cat3("`const ", &c.name.name, "` must be an integer literal"),
                        );
                    },
                }
            },
            Item::MapDecl(m) => {
                let t = table(m)?;
                if d.around.tables.len() >= MAX_MAPS {
                    return Err(owned("too many maps"));
                }
                d.around.tables.push(t);
                assert(tables(d.around.tables@) =~= tables(before.around.tables@).push(t.model()));
            },
        }
        i += 1;
    }
    Ok(d)
}

/// What the loader is told about a map.
pub open spec fn told(m: MapSpec, t: Table) -> bool {
    &&& m.name@ == t.name
    &&& m.kind == t.kind
    &&& m.key_size == lowering::size_bytes(t.key)
    &&& m.value_size == lowering::size_bytes(t.value)
    &&& m.max_entries == t.entries
}

fn map_specs(known: Vec<Known>) -> (r: Vec<MapSpec>)
    ensures
        r@.len() == known@.len(),
        forall|i: int| 0 <= i < r@.len() ==> told(#[trigger] r@[i], known@[i].model()),
{
    let mut list: Vec<MapSpec> = Vec::new();
    let mut i: usize = 0;
    while i < known.len()
        invariant
            0 <= i <= known@.len(),
            list@.len() == i,
            forall|k: int| 0 <= k < i ==> told(#[trigger] list@[k], known@[k].model()),
        decreases known@.len() - i,
    {
        let k = &known[i];
        list.push(
            MapSpec {
                name: k.name.clone(),
                kind: k.kind,
                key_size: size_bytes(k.key),
                value_size: size_bytes(k.value),
                max_entries: k.entries,
            },
        );
        i += 1;
    }
    list
}

proof fn lemma_slots_bound(code: Seq<Insn>, n: int)
    requires
        0 <= n <= code.len(),
    ensures
        slot_at(code, n) <= 2 * n,
    decreases n,
{
    if n > 0 {
        lemma_slots_bound(code, n - 1);
    }
}

/// What compiling a program gives.
pub open spec fn compiles_to(p: tree::Program, r: Result<Compiled, String>) -> bool {
    match lowering::lowered(p) {
        Err(m) => r matches Err(e) && e@ == m,
        Ok(l) => match resolved(l.state.out) {
            Err(m) => r matches Err(e) && e@ == m,
            Ok(code) => {
                &&& r matches Ok(c)
                &&& c.bytecode@ == code_bytes(code, code.len() as int)
                &&& c.tracepoint.0@ == l.probe.args[0]
                &&& c.tracepoint.1@ == l.probe.args[1]
                &&& c.ringbuf_bytes == RINGBUF_BYTES
                &&& c.maps@.len() == l.declared.tables.len()
                &&& forall|i: int|
                    0 <= i < c.maps@.len() ==> told(#[trigger] c.maps@[i], l.declared.tables[i])
                &&& c.event@ == l.event
                &&& c.stack_bytes == l.state.peak
                &&& c.license@ == "GPL"@
            },
        },
    }
}

/// Of a program whose only probe emits once, the loader gets the two strings of
/// the probe, the layout of the first event of the name, code that ends with
/// `r0 = 0; exit`, a ring buffer of 64 KiB and the license.
pub proof fn lemma_one_emit_compiled(
    p: tree::Program,
    probe: tree::ProbeDecl,
    event: tree::Ident,
    fields: Seq<(tree::Ident, tree::Expr)>,
    r: Result<Compiled, String>,
)
    requires
        p.items.contains(tree::Item::Probe(probe)),
        probe.body.stmts.len() == 1,
        probe.body.stmts[0].kind == (tree::StmtKind::Emit { event, fields }),
        compiles_to(p, r),
        r is Ok,
    ensures
        ({
            let c = r->Ok_0;
            &&& probe.args == seq![c.tracepoint.0@, c.tracepoint.1@]
            &&& first_event(p.items, event.name, 0) matches Some(e) && layout_fits(e) && held(
                e.fields,
                e.fields.len() as int,
            ) && c.event@ == layout_of(e)
            &&& ends_with_exit(c.bytecode@)
            &&& c.ringbuf_bytes == 65536
            &&& c.license@ == "GPL"@
        }),
{
    lemma_one_emit(p, probe, event, fields);
    lemma_code_ends_with_exit(p);
    assert(probe.args =~= seq![r->Ok_0.tracepoint.0@, r->Ok_0.tracepoint.1@]);
}

/// Compile the one probe of a program.
pub fn compile(program: &Program) -> (r: Result<Compiled, String>)
    ensures
        compiles_to(program@, r),
        r matches Ok(c) ==> c.stack_bytes <= STACK_BYTES && c.stack_bytes % 8 == 0,
        r matches Ok(c) ==> ends_with_exit(c.bytecode@),
{
    proof {
        lemma_lowered_is_well_shaped(program@);
        lemma_code_ends_with_exit(program@);
    }
    let d = declare(program)?;
    let ghost model = d.model();
    let Before { vars, around, probe } = d;
    let probe = match probe {
        None => {
            return Err(owned("no probe to compile"));
        },
        Some(p) => p,
    };
    if !same(probe.kind.name.as_str(), "tracepoint") {
        return Err(
            cat3("only `tracepoint` probes are supported yet, got `", &probe.kind.name, "`"),
        );
    }
    if probe.args.len() != 2 {
        return Err(owned("tracepoint probe needs exactly two string arguments"));
    }
    let mut b = Builder { prog: Prog::new(), labels: 0, depth: 8, peak: 8, vars, event: None };
    let end = b.fresh()?;
    b.put(stx_mem(Size::DW, Reg::R10, -8, Reg::R1));
    proof {
        assert(b@.out.code =~= lowering::entry(model.vars).out.code);
        assert(b@.out.labels =~= lowering::entry(model.vars).out.labels);
        assert(b@ == lowering::entry(model.vars));
    }
    b.block(&around, &probe.body, end)?;
    b.bind(end);
    b.put(mov64_imm(Reg::R0, 0));
    b.put(exit());
    let Builder { prog, labels: _, depth: _, peak, vars: _, event } = b;
    let event = match event {
        None => {
            return Err(owned("the probe emits no event"));
        },
        Some(e) => e,
    };
    if prog.len() > MAX_INSNS {
        return Err(owned("program too large"));
    }
    proof {
        lemma_slots_bound(prog@.code, prog@.code.len() as int);
    }
    let bytecode = prog.to_bytes()?;
    let maps = map_specs(around.tables);
    assert(probe@.args[0] == probe.args@[0]@);
    assert(probe@.args[1] == probe.args@[1]@);
    let category = probe.args[0].clone();
    let name = probe.args[1].clone();
    Ok(
        Compiled {
            bytecode,
            tracepoint: (category, name),
            ringbuf_bytes: RINGBUF_BYTES,
            maps,
            event,
            stack_bytes: peak,
            license: owned("GPL"),
        },
    )
}

} // verus!
