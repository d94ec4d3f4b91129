//! Event record layout: turning an `event` declaration into a byte layout that
//! both the BPF program (which writes the record) and the loader (which reads
//! it) agree on.
//!
//! Fields are placed in declaration order, each aligned up to its own
//! alignment, and the whole record is rounded up to its largest alignment.
//! This matches what a C compiler would do for the equivalent struct.

use crate::ast::{fields, lemma_type_args, type_args, EventDecl, TypeArg};
use crate::text::{owned, same};
use crate::tree;
use vstd::prelude::*;

verus! {

#[derive(Debug, PartialEq, Eq)]
pub struct EventLayout {
    pub name: String,
    pub fields: Vec<FieldLayout>,
    pub size: u32,
}

#[derive(Debug, PartialEq, Eq)]
pub struct FieldLayout {
    pub name: String,
    pub offset: u32,
    pub size: u32,
    pub kind: FieldKind,
}

/// What a field holds, as far as the code generator and the loader care.
#[derive(Debug, Clone, Copy, PartialEq, Eq, Structural)]
pub enum FieldKind {
    /// An unsigned integer of the given byte width (1, 2, 4, 8).
    Uint(u32),
    /// A fixed-capacity string of so many bytes.
    Str(u32),
    Bool,
}

// ------------------------------------------------------------------- models

/// A field in its place.
pub struct Slot {
    pub name: Seq<char>,
    pub offset: u32,
    pub size: u32,
    pub kind: FieldKind,
}

/// An event in its places.
pub struct Layout {
    pub name: Seq<char>,
    pub fields: Seq<Slot>,
    pub size: u32,
}

impl View for FieldLayout {
    type V = Slot;

    open spec fn view(&self) -> Slot {
        Slot { name: self.name@, offset: self.offset, size: self.size, kind: self.kind }
    }
}

/// The models of a list of placed fields.
pub open spec fn slots(v: Seq<FieldLayout>) -> Seq<Slot> {
    v.map_values(|f: FieldLayout| f@)
}

impl View for EventLayout {
    type V = Layout;

    open spec fn view(&self) -> Layout {
        Layout { name: self.name@, fields: slots(self.fields@), size: self.size }
    }
}

impl Clone for FieldLayout {
    fn clone(&self) -> (r: Self)
        ensures
            r@ == self@,
    {
        FieldLayout {
            name: self.name.clone(),
            offset: self.offset,
            size: self.size,
            kind: self.kind,
        }
    }
}

impl Clone for EventLayout {
    fn clone(&self) -> (r: Self)
        ensures
            r@ == self@,
    {
        let fields = self.fields.clone();
        proof {
            assert forall|i: int| 0 <= i < fields@.len() implies #[trigger] fields@[i]@
                == self.fields@[i]@ by {
                assert(cloned(self.fields@[i], fields@[i]));
            }
            assert(slots(fields@) =~= slots(self.fields@));
        }
        EventLayout { name: self.name.clone(), fields, size: self.size }
    }
}

pub open spec fn kind_align(k: FieldKind) -> nat {
    match k {
        FieldKind::Uint(w) => w as nat,
        FieldKind::Str(_) => 1,
        FieldKind::Bool => 1,
    }
}

pub open spec fn kind_size(k: FieldKind) -> nat {
    match k {
        FieldKind::Uint(w) => w as nat,
        FieldKind::Str(n) => n as nat,
        FieldKind::Bool => 1,
    }
}

/// What a field of a type holds, if a record can hold it. A capacity that does
/// not fit in 32 bits is more than a record can hold.
pub open spec fn field_kind(name: Seq<char>, args: Seq<tree::TypeArg>) -> Option<FieldKind> {
    if name == "u8"@ {
        Some(FieldKind::Uint(1))
    } else if name == "u16"@ {
        Some(FieldKind::Uint(2))
    } else if name == "u32"@ {
        Some(FieldKind::Uint(4))
    } else if name == "u64"@ {
        Some(FieldKind::Uint(8))
    } else if name == "bool"@ {
        Some(FieldKind::Bool)
    } else if name == "str"@ && args.len() == 1 && args[0] is Int && args[0]->Int_0 <= u32::MAX {
        Some(FieldKind::Str((args[0]->Int_0) as u32))
    } else {
        None
    }
}

/// The least multiple of `align` that is not below `value`.
pub open spec fn round_up(value: nat, align: nat) -> nat {
    ((value + align - 1) / align as int * align) as nat
}

/// The kind of field number `i`, if a record can hold it.
pub open spec fn kind_at(f: Seq<tree::Field>, i: int) -> Option<FieldKind> {
    field_kind(f[i].ty.name.name, f[i].ty.args)
}

/// Where the first `n` fields end.
pub open spec fn end_of(f: Seq<tree::Field>, n: int) -> nat
    decreases n, 0int,
{
    if n <= 0 {
        0
    } else {
        start_of(f, n - 1) + kind_size(kind_at(f, n - 1)->0)
    }
}

/// Where field number `i` starts.
pub open spec fn start_of(f: Seq<tree::Field>, i: int) -> nat
    decreases i, 1int,
{
    round_up(end_of(f, i), kind_align(kind_at(f, i)->0))
}

/// The largest alignment of the first `n` fields.
pub open spec fn align_of(f: Seq<tree::Field>, n: int) -> nat
    decreases n,
{
    if n <= 0 {
        1
    } else {
        let a = kind_align(kind_at(f, n - 1)->0);
        if a > align_of(f, n - 1) {
            a
        } else {
            align_of(f, n - 1)
        }
    }
}

/// The size of a record of `n` fields.
pub open spec fn record_size(f: Seq<tree::Field>, n: int) -> nat {
    round_up(end_of(f, n), align_of(f, n))
}

/// The first `n` fields can be held.
pub open spec fn held(f: Seq<tree::Field>, n: int) -> bool {
    forall|i: int| 0 <= i < n ==> #[trigger] kind_at(f, i) is Some
}

/// As long as the fields can be held, every position fits in 32 bits.
pub open spec fn layout_fits(e: tree::EventDecl) -> bool {
    let f = e.fields;
    &&& forall|i: int|
        0 <= i < f.len() && held(f, i + 1) ==> #[trigger] start_of(f, i) + kind_size(
            kind_at(f, i)->0,
        ) <= u32::MAX
    &&& held(f, f.len() as int) ==> record_size(f, f.len() as int) <= u32::MAX
}

/// The error over a field that a record cannot hold.
pub open spec fn unsupported(e: tree::EventDecl, i: int) -> Seq<char> {
    "unsupported field type `"@ + e.fields[i].ty.name.name + "` in event `"@ + e.name.name + "`"@
}

/// The layout of an event that can be held.
pub open spec fn layout_of(e: tree::EventDecl) -> Layout {
    let f = e.fields;
    Layout {
        name: e.name.name,
        fields: Seq::new(
            f.len(),
            |i: int|
                Slot {
                    name: f[i].name.name,
                    offset: start_of(f, i) as u32,
                    size: kind_size(kind_at(f, i)->0) as u32,
                    kind: kind_at(f, i)->0,
                },
        ),
        size: record_size(f, f.len() as int) as u32,
    }
}

// --------------------------------------------------------------------- laws

/// Rounding up gives the least multiple that is large enough.
pub proof fn lemma_round_up(value: nat, align: nat)
    requires
        align > 0,
    ensures
        value <= round_up(value, align) < value + align,
        round_up(value, align) % align == 0,
{
    let q = (value + align - 1) / align as int;
    let a = align as int;
    vstd::arithmetic::div_mod::lemma_fundamental_div_mod(value + a - 1, a);
    vstd::arithmetic::mul::lemma_mul_is_commutative(q, a);
    assert(q >= 0) by {
        vstd::arithmetic::div_mod::lemma_div_pos_is_pos(value + a - 1, a);
    }
    assert(q * a >= 0) by (nonlinear_arith)
        requires
            q >= 0,
            a > 0,
    ;
    vstd::arithmetic::div_mod::lemma_mod_multiples_basic(q, a);
}

/// An alignment is 1, 2, 4 or 8.
pub proof fn lemma_align(f: Seq<tree::Field>, i: int)
    requires
        kind_at(f, i) is Some,
    ensures
        ({
            let a = kind_align(kind_at(f, i)->0);
            a == 1 || a == 2 || a == 4 || a == 8
        }),
{
}

/// Fields do not overlap, stand in the order of their declaration, and stay
/// inside the record; each is aligned.
pub proof fn lemma_fields_in_order(e: tree::EventDecl, i: int, j: int)
    requires
        held(e.fields, e.fields.len() as int),
        0 <= i < j <= e.fields.len(),
    ensures
        start_of(e.fields, i) + kind_size(kind_at(e.fields, i)->0) <= end_of(e.fields, j),
        j < e.fields.len() ==> start_of(e.fields, i) + kind_size(kind_at(e.fields, i)->0)
            <= start_of(e.fields, j),
        start_of(e.fields, i) % kind_align(kind_at(e.fields, i)->0) == 0,
        end_of(e.fields, j) <= record_size(e.fields, e.fields.len() as int),
    decreases j,
{
    let f = e.fields;
    let n = f.len() as int;
    assert(kind_at(f, i) is Some);
    lemma_align(f, i);
    lemma_round_up(end_of(f, i), kind_align(kind_at(f, i)->0));
    if j < n {
        assert(kind_at(f, j) is Some);
        lemma_align(f, j);
        lemma_round_up(end_of(f, j), kind_align(kind_at(f, j)->0));
    }
    if i < j - 1 {
        lemma_fields_in_order(e, i, j - 1);
    }
    lemma_end_monotone(f, j, n);
    lemma_align_of(f, n);
    lemma_round_up(end_of(f, n), align_of(f, n));
}

/// The record's alignment is one of its fields' alignments, or one.
proof fn lemma_align_of(f: Seq<tree::Field>, n: int)
    requires
        held(f, n),
        0 <= n,
    ensures
        ({
            let a = align_of(f, n);
            a == 1 || a == 2 || a == 4 || a == 8
        }),
    decreases n,
{
    if n > 0 {
        assert(kind_at(f, n - 1) is Some);
        lemma_align(f, n - 1);
        lemma_align_of(f, n - 1);
    }
}

proof fn lemma_end_monotone(f: Seq<tree::Field>, i: int, j: int)
    requires
        0 <= i <= j,
        held(f, j),
    ensures
        end_of(f, i) <= end_of(f, j),
    decreases j,
{
    if i < j {
        lemma_end_monotone(f, i, j - 1);
        assert(kind_at(f, j - 1) is Some);
        lemma_align(f, j - 1);
        lemma_round_up(end_of(f, j - 1), kind_align(kind_at(f, j - 1)->0));
    }
}

// --------------------------------------------------------------- the layout

impl FieldKind {
    fn align(&self) -> (r: u32)
        ensures
            r == kind_align(*self),
    {
        match self {
            FieldKind::Uint(w) => *w,
            FieldKind::Str(_) => 1,
            FieldKind::Bool => 1,
        }
    }

    fn size(&self) -> (r: u32)
        ensures
            r == kind_size(*self),
    {
        match self {
            FieldKind::Uint(w) => *w,
            FieldKind::Str(n) => *n,
            FieldKind::Bool => 1,
        }
    }
}

/// Compute the layout of an event, or return a human error for the first field
/// of an unsupported type.
pub fn layout_event(ev: &EventDecl) -> (r: Result<EventLayout, String>)
    requires
        layout_fits(ev@),
    ensures
        match r {
            Ok(l) => held(ev@.fields, ev@.fields.len() as int) && l@ == layout_of(ev@),
            Err(e) => exists|i: int|
                {
                    &&& 0 <= i < ev@.fields.len()
                    &&& held(ev@.fields, i)
                    &&& kind_at(ev@.fields, i) is None
                    &&& e@ == #[trigger] unsupported(ev@, i)
                },
        },
{
    let ghost f = ev@.fields;
    let mut list: Vec<FieldLayout> = Vec::new();
    let mut offset: u32 = 0;
    let mut max_align: u32 = 1;
    let mut i: usize = 0;
    while i < ev.fields.len()
        invariant
            0 <= i <= ev.fields@.len(),
            f == ev@.fields,
            f.len() == ev.fields@.len(),
            layout_fits(ev@),
            held(f, i as int),
            offset == end_of(f, i as int),
            max_align == align_of(f, i as int),
            list@.len() == i,
            forall|k: int| 0 <= k < i ==> #[trigger] slots(list@)[k] == layout_of(ev@).fields[k],
        decreases ev.fields@.len() - i,
    {
        let field = &ev.fields[i];
        assert(f[i as int] == field@);
        match kind_of(field.ty.name.name.as_str(), &field.ty.args) {
            None => {
                let mut e = owned("unsupported field type `");
                e.append(&field.ty.name.name);
                e.append("` in event `");
                e.append(&ev.name.name);
                e.append("`");
                assert(e@ == unsupported(ev@, i as int));
                return Err(e);
            },
            Some(kind) => {
                let align: u32 = kind.align();
                proof {
                    assert(kind_at(f, i as int) == Some(kind));
                    lemma_align(f, i as int);
                    assert(held(f, i + 1));
                    lemma_round_up(end_of(f, i as int), align as nat);
                    assert(start_of(f, i as int) + kind_size(kind) <= u32::MAX);
                }
                if align > max_align {
                    max_align = align;
                }
                offset = rounded_up(offset, align);
                let size: u32 = kind.size();
                let placed = FieldLayout { name: field.name.name.clone(), offset, size, kind };
                let ghost before = list@;
                list.push(placed);
                assert forall|k: int| 0 <= k < i + 1 implies #[trigger] slots(list@)[k]
                    == layout_of(ev@).fields[k] by {
                    if k < i {
                        assert(slots(list@)[k] == slots(before)[k]);
                    }
                }
                offset = offset + size;
            },
        }
        i += 1;
    }
    proof {
        lemma_align_of(f, f.len() as int);
    }
    let size: u32 = rounded_up(offset, max_align);
    assert(slots(list@) =~= layout_of(ev@).fields);
    Ok(EventLayout { name: ev.name.name.clone(), fields: list, size })
}

/// The first field that a record cannot hold, from the `i`th on.
pub open spec fn first_unheld(f: Seq<tree::Field>, i: int) -> int
    decreases f.len() - i,
{
    if i >= f.len() || kind_at(f, i) is None {
        i
    } else {
        first_unheld(f, i + 1)
    }
}

/// The field behind fields that can all be held, and that cannot be held
/// itself, is the first one.
pub proof fn lemma_first_unheld(f: Seq<tree::Field>, i: int, k: int)
    requires
        0 <= i <= k < f.len(),
        held(f, k),
        kind_at(f, k) is None,
    ensures
        first_unheld(f, i) == k,
    decreases k - i,
{
    if i < k {
        assert(kind_at(f, i) is Some);
        lemma_first_unheld(f, i + 1, k);
    }
}

/// Does every position of an event's layout fit in 32 bits?
pub fn fits(ev: &EventDecl) -> (r: bool)
    ensures
        r == layout_fits(ev@),
{
    let ghost f = ev@.fields;
    let mut offset: u32 = 0;
    let mut max_align: u32 = 1;
    let mut i: usize = 0;
    while i < ev.fields.len()
        invariant
            0 <= i <= ev.fields@.len(),
            f == ev@.fields,
            f.len() == ev.fields@.len(),
            held(f, i as int),
            offset == end_of(f, i as int),
            max_align == align_of(f, i as int),
            forall|k: int|
                0 <= k < i ==> #[trigger] start_of(f, k) + kind_size(kind_at(f, k)->0) <= u32::MAX,
        decreases ev.fields@.len() - i,
    {
        let field = &ev.fields[i];
        assert(f[i as int] == field@);
        match kind_of(field.ty.name.name.as_str(), &field.ty.args) {
            None => {
                assert forall|k: int| 0 <= k < f.len() && held(f, k + 1) implies #[trigger] start_of(
                    f,
                    k,
                ) + kind_size(kind_at(f, k)->0) <= u32::MAX by {
                    if k >= i {
                        assert(kind_at(f, i as int) is Some);
                    }
                }
                assert(!held(f, f.len() as int)) by {
                    assert(kind_at(f, i as int) is None);
                }
                return true;
            },
            Some(kind) => {
                let align: u32 = kind.align();
                proof {
                    assert(kind_at(f, i as int) == Some(kind));
                    lemma_align(f, i as int);
                    lemma_round_up(end_of(f, i as int), align as nat);
                    assert(held(f, i + 1));
                }
                if align > max_align {
                    max_align = align;
                }
                let n: u64 = offset as u64 + align as u64 - 1;
                let start: u64 = n / align as u64 * align as u64;
                assert(start == start_of(f, i as int));
                let end: u64 = start + kind.size() as u64;
                if end > u32::MAX as u64 {
                    return false;
                }
                offset = end as u32;
            },
        }
        i += 1;
    }
    proof {
        lemma_align_of(f, f.len() as int);
        lemma_round_up(offset as nat, max_align as nat);
    }
    let n: u64 = offset as u64 + max_align as u64 - 1;
    let size: u64 = n / max_align as u64 * max_align as u64;
    assert(size == record_size(f, f.len() as int));
    size <= u32::MAX as u64
}

pub(crate) fn kind_of(name: &str, args: &Vec<TypeArg>) -> (r: Option<FieldKind>)
    ensures
        r == field_kind(name@, type_args(args@)),
{
    proof {
        lemma_type_args(args@);
    }
    if same(name, "u8") {
        Some(FieldKind::Uint(1))
    } else if same(name, "u16") {
        Some(FieldKind::Uint(2))
    } else if same(name, "u32") {
        Some(FieldKind::Uint(4))
    } else if same(name, "u64") {
        Some(FieldKind::Uint(8))
    } else if same(name, "bool") {
        Some(FieldKind::Bool)
    } else if same(name, "str") && args.len() == 1 {
        assert(type_args(args@)[0] == args@[0]@);
        match &args[0] {
            TypeArg::Int(n) => if *n <= u32::MAX as u64 {
                Some(FieldKind::Str(*n as u32))
            } else {
                None
            },
            TypeArg::Type(_) => None,
        }
    } else {
        None
    }
}

fn rounded_up(value: u32, align: u32) -> (r: u32)
    requires
        align > 0,
        round_up(value as nat, align as nat) <= u32::MAX,
    ensures
        r == round_up(value as nat, align as nat),
{
    let n: u64 = value as u64 + align as u64 - 1;
    let q: u64 = n / align as u64;
    proof {
        lemma_round_up(value as nat, align as nat);
    }
    (q * align as u64) as u32
}

} // verus!
