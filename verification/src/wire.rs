//! Instructions as the kernel reads them and as people do, and what the loader is
//! told.

use crate::bpf::{
    aluop_bits, asm_wf, code_bytes, code_text, insn_bytes, insn_text, jmpop_bits, jumps_known,
    lemma_resolved_jumps_land, reg_num, resolved, slot_at, slot_bytes, slots_of, AluOp, Asm, Helper,
    Insn, JmpOp, Reg, Size,
};
use crate::codegen::{compiles_to, told, Compiled};
use crate::doing::type_width;
use crate::flow::{lemma_declarations_in_order, lemma_tables_are_as_declared, tables_in};
use crate::lowering::{
    alu, alu_reg, always, copy, helper, if_num, if_reg, keep_low, leave, load, lowered, set_map,
    set_num, set_wide, store, Declared, MapKind,
};
use crate::machine::bytes_in;
use crate::text::{dec, right_aligned, signed_dec};
use crate::tree;
use vstd::prelude::*;

verus! {

// ------------------------------------------------------------------- encoding

/// The number that bytes are, the lowest first.
pub open spec fn little(b: Seq<u8>) -> int
    decreases b.len(),
{
    if b.len() == 0 {
        0
    } else {
        b[0] + 256 * little(b.drop_first())
    }
}

proof fn lemma_little2(b: Seq<u8>, i: int)
    requires
        0 <= i,
        i + 2 <= b.len(),
    ensures
        little(b.subrange(i, i + 2)) == b[i] + 256 * b[i + 1],
{
    reveal_with_fuel(little, 3);
    let s = b.subrange(i, i + 2);
    assert(s.drop_first()[0] == b[i + 1]);
    assert(s.drop_first().drop_first().len() == 0);
}

proof fn lemma_little4(b: Seq<u8>, i: int)
    requires
        0 <= i,
        i + 4 <= b.len(),
    ensures
        little(b.subrange(i, i + 4)) == b[i] + 256 * (b[i + 1] + 256 * (b[i + 2] + 256 * b[i + 3])),
{
    reveal_with_fuel(little, 5);
    let s = b.subrange(i, i + 4);
    let s1 = s.drop_first();
    let s2 = s1.drop_first();
    let s3 = s2.drop_first();
    assert(s1[0] == b[i + 1]);
    assert(s2[0] == b[i + 2]);
    assert(s3[0] == b[i + 3]);
    assert(s3.drop_first().len() == 0);
}

/// A slot is laid out as the kernel reads it: the opcode, the destination in the
/// low half of a byte and the source in the high half, the offset in two bytes and
/// the immediate in four, lowest byte first and negative numbers in two's
/// complement.
pub proof fn lemma_slot_layout(opcode: u8, src: u8, dst: u8, off: i16, imm: i32)
    requires
        src < 16,
        dst < 16,
    ensures
        ({
            let b = slot_bytes(opcode, src, dst, off, imm);
            &&& b.len() == 8
            &&& b[0] == opcode
            &&& b[1] % 16 == dst
            &&& b[1] as int / 16 == src
            &&& little(b.subrange(2, 4)) == off as int % 0x1_0000
            &&& little(b.subrange(4, 8)) == imm as int % 0x1_0000_0000
        }),
{
    let b = slot_bytes(opcode, src, dst, off, imm);
    lemma_little2(b, 2);
    lemma_little4(b, 4);
}

/// An instruction takes eight bytes; one with a 64-bit immediate sixteen, the
/// second eight being zero but for the high half of the immediate.
pub proof fn lemma_instruction_layout(insn: Insn)
    requires
        insn.src < 16,
        insn.dst < 16,
    ensures
        ({
            let b = insn_bytes(insn);
            &&& b.subrange(0, 8) == slot_bytes(
                insn.opcode,
                insn.src,
                insn.dst,
                insn.off,
                insn.imm,
            )
            &&& match insn.high {
                None => b.len() == 8,
                Some(high) => {
                    &&& b.len() == 16
                    &&& forall|i: int| 8 <= i < 12 ==> #[trigger] b[i] == 0
                    &&& little(b.subrange(12, 16)) == high as int % 0x1_0000_0000
                },
            }
        }),
{
    let b = insn_bytes(insn);
    let first = slot_bytes(insn.opcode, insn.src, insn.dst, insn.off, insn.imm);
    assert(b.subrange(0, 8) =~= first);
    if let Some(high) = insn.high {
        let second = slot_bytes(0, 0, 0, 0, high);
        assert(b == first + second);
        lemma_slot_layout(0, 0, 0, 0, high);
        assert(b.subrange(12, 16) =~= second.subrange(4, 8));
        assert forall|i: int| 8 <= i < 12 implies #[trigger] b[i] == 0 by {
            assert(b[i] == second[i - 8]);
        }
    }
}

proof fn lemma_bytes_before(code: Seq<Insn>, n: int)
    requires
        0 <= n <= code.len(),
    ensures
        code_bytes(code, n).len() == 8 * slot_at(code, n),
    decreases n,
{
    if n > 0 {
        lemma_bytes_before(code, n - 1);
        let b = insn_bytes(code[n - 1]);
        assert(b.len() == 8 * slots_of(code[n - 1]));
    }
}

/// In the bytes of the code a jump lands on its target: eight times its offset
/// behind the end of the jump stands the instruction of its label.
pub proof fn lemma_jumps_land_in_the_bytes(a: Asm, i: int)
    requires
        asm_wf(a),
        jumps_known(a),
        resolved(a) is Ok,
        0 <= i < a.jumps.len(),
        0 <= a.jumps[i].0 < resolved(a)->Ok_0.len(),
        a.labels[a.jumps[i].1] matches Some(t) && 0 <= t <= resolved(a)->Ok_0.len(),
    ensures
        ({
            let code = resolved(a)->Ok_0;
            let (at, label) = a.jumps[i];
            code_bytes(code, at).len() + 8 + 8 * code[at].off == code_bytes(
                code,
                a.labels[label]->0,
            ).len()
        }),
{
    let code = resolved(a)->Ok_0;
    lemma_resolved_jumps_land(a);
    lemma_bytes_before(code, a.jumps[i].0);
    lemma_bytes_before(code, a.labels[a.jumps[i].1]->0);
}

// -------------------------------------------------------------------- showing

/// How an operation is called.
pub open spec fn op_name(op: AluOp) -> Seq<char> {
    match op {
        AluOp::Add => "add"@,
        AluOp::Sub => "sub"@,
        AluOp::Mul => "mul"@,
        AluOp::Div => "div"@,
        AluOp::Or => "or"@,
        AluOp::And => "and"@,
        AluOp::Lsh => "lsh"@,
        AluOp::Rsh => "rsh"@,
        AluOp::Neg => "neg"@,
        AluOp::Mod => "mod"@,
        AluOp::Xor => "xor"@,
        AluOp::Mov => "mov"@,
        AluOp::Arsh => "arsh"@,
    }
}

/// How a comparison is written.
pub open spec fn sign(op: JmpOp) -> Seq<char> {
    match op {
        JmpOp::Eq => "=="@,
        JmpOp::Ne => "!="@,
        JmpOp::Gt => ">"@,
        JmpOp::Ge => ">="@,
        JmpOp::Lt => "<"@,
        JmpOp::Le => "<="@,
        JmpOp::Jset => "&"@,
        JmpOp::Sgt => "s>"@,
        JmpOp::Sge => "s>="@,
        JmpOp::Slt => "s<"@,
        JmpOp::Sle => "s<="@,
    }
}

/// How many bits a width is.
pub open spec fn bits(size: Size) -> Seq<char> {
    match size {
        Size::B => "8"@,
        Size::H => "16"@,
        Size::W => "32"@,
        Size::DW => "64"@,
    }
}

pub open spec fn reg_name(r: Reg) -> Seq<char> {
    seq!['r'] + (match r {
        Reg::R0 => dec(0),
        Reg::R1 => dec(1),
        Reg::R2 => dec(2),
        Reg::R3 => dec(3),
        Reg::R4 => dec(4),
        Reg::R5 => dec(5),
        Reg::R6 => dec(6),
        Reg::R7 => dec(7),
        Reg::R8 => dec(8),
        Reg::R9 => dec(9),
        Reg::R10 => dec(10),
    })
}

/// An offset with its sign.
pub open spec fn offset_text(n: int) -> Seq<char> {
    if n >= 0 {
        "+"@ + signed_dec(n)
    } else {
        signed_dec(n)
    }
}

proof fn lemma_offset_text(n: int)
    ensures
        offset_text(n) == crate::bpf::plus_text(n),
{
    reveal_strlit("+");
    assert("+"@ =~= seq!['+']);
}

proof fn lemma_reg_name(r: Reg)
    ensures
        crate::bpf::reg_text(reg_num(r)) == reg_name(r),
{
}

proof fn lemma_op_name(op: AluOp)
    ensures
        crate::bpf::alu_name_text(aluop_bits(op)) == op_name(op),
        (0x07 + aluop_bits(op)) as u8 as int / 16 * 16 == aluop_bits(op),
        (0x0f + aluop_bits(op)) as u8 as int / 16 * 16 == aluop_bits(op),
        (0x07 + aluop_bits(op)) as u8 % 8 == 7,
        (0x0f + aluop_bits(op)) as u8 % 8 == 7,
        (0x07 + aluop_bits(op)) as u8 as int / 8 % 2 == 0,
        (0x0f + aluop_bits(op)) as u8 as int / 8 % 2 == 1,
        aluop_bits(op) != 0xd0,
        aluop_bits(op) == 0x80 <==> op is Neg,
{
}

/// Arithmetic is shown as its name, the destination and the second operand; a
/// negation has no second operand.
pub proof fn lemma_arithmetic_is_shown(op: AluOp, dst: Reg, src: Reg, n: i32)
    ensures
        op is Neg ==> insn_text(alu(op, dst, n as int)) == op_name(op) + " "@ + reg_name(dst),
        !(op is Neg) ==> insn_text(alu(op, dst, n as int)) == op_name(op) + " "@ + reg_name(dst)
            + ", "@ + signed_dec(n as int),
        !(op is Neg) ==> insn_text(alu_reg(op, dst, src)) == op_name(op) + " "@ + reg_name(dst)
            + ", "@ + reg_name(src),
{
    reveal_strlit(" ");
    assert(" "@ =~= seq![' ']);
    assert(op_name(op) + Seq::<char>::empty() =~= op_name(op));
    lemma_op_name(op);
    lemma_reg_name(dst);
    lemma_reg_name(src);
    let none = Seq::<char>::empty();
    let a = alu(op, dst, n as int);
    let b = alu_reg(op, dst, src);
    assert(insn_text(a) == crate::bpf::alu_text(a, none));
    assert(insn_text(b) == crate::bpf::alu_text(b, none));
}

/// Moves are shown like arithmetic; on 32 bits their name says so.
pub proof fn lemma_moves_are_shown(dst: Reg, src: Reg, n: i32)
    ensures
        insn_text(keep_low(dst)) == "mov32"@ + " "@ + reg_name(dst) + ", "@ + reg_name(dst),
        insn_text(set_num(dst, n)) == "mov"@ + " "@ + reg_name(dst) + ", "@ + signed_dec(n as int),
        insn_text(copy(dst, src)) == "mov"@ + " "@ + reg_name(dst) + ", "@ + reg_name(src),
{
    reveal_strlit(" ");
    assert(" "@ =~= seq![' ']);
    assert("mov"@ + Seq::<char>::empty() =~= "mov"@);
    reveal_strlit("mov");
    reveal_strlit("32");
    reveal_strlit("mov32");
    assert("mov"@ + "32"@ =~= "mov32"@);
    lemma_reg_name(dst);
    lemma_reg_name(src);
}

/// Loads and stores are shown with their width in bits and the place in brackets.
pub proof fn lemma_accesses_are_shown(size: Size, dst: Reg, src: Reg, off: i16)
    ensures
        insn_text(load(size, dst, src, off as int)) == "ldx"@ + bits(size) + " "@ + reg_name(dst)
            + ", "@ + ("["@ + reg_name(src) + " "@ + offset_text(off as int) + "]"@),
        insn_text(store(size, dst, off as int, src)) == "stx"@ + bits(size) + " "@ + ("["@
            + reg_name(dst) + " "@ + offset_text(off as int) + "]"@) + ", "@ + reg_name(src),
{
    reveal_strlit(" ");
    reveal_strlit("[");
    reveal_strlit("]");
    assert(" "@ =~= seq![' ']);
    assert("["@ =~= seq!['[']);
    assert("]"@ =~= seq![']']);
    lemma_offset_text(off as int);
    lemma_reg_name(dst);
    lemma_reg_name(src);
    crate::machine::lemma_accesses_have_their_width(size);
}

proof fn lemma_sign(op: JmpOp)
    ensures
        crate::bpf::jmp_name_text(jmpop_bits(op)) == sign(op),
        (0x05 + jmpop_bits(op)) as u8 as int / 16 * 16 == jmpop_bits(op),
        (0x0d + jmpop_bits(op)) as u8 as int / 16 * 16 == jmpop_bits(op),
        (0x05 + jmpop_bits(op)) as u8 % 8 == 5,
        (0x0d + jmpop_bits(op)) as u8 % 8 == 5,
        (0x05 + jmpop_bits(op)) as u8 as int / 8 % 2 == 0,
        (0x0d + jmpop_bits(op)) as u8 as int / 8 % 2 == 1,
        jmpop_bits(op) != 0,
        jmpop_bits(op) != 0x80,
        jmpop_bits(op) != 0x90,
{
}


/// Conditional jumps are shown with their condition and where they go.
pub proof fn lemma_conditions_are_shown(op: JmpOp, dst: Reg, src: Reg, n: i32, off: i16)
    ensures
        insn_text(Insn { off, ..if_num(op, dst, n as int) }) == "if "@ + reg_name(dst) + " "@ + sign(
            op,
        ) + " "@ + signed_dec(n as int) + " goto "@ + offset_text(off as int),
        insn_text(Insn { off, ..if_reg(op, dst, src) }) == "if "@ + reg_name(dst) + " "@ + sign(op)
            + " "@ + reg_name(src) + " goto "@ + offset_text(off as int),
{
    reveal_strlit(" ");
    assert(" "@ =~= seq![' ']);
    lemma_offset_text(off as int);
    lemma_sign(op);
    lemma_reg_name(dst);
    lemma_reg_name(src);
    let a = Insn { off, ..if_num(op, dst, n as int) };
    let b = Insn { off, ..if_reg(op, dst, src) };
    assert(insn_text(a) == crate::bpf::jmp_text(a));
    assert(insn_text(b) == crate::bpf::jmp_text(b));
}

/// Other jumps are shown with where they go, and calls with the number of the
/// helper.
pub proof fn lemma_jumps_are_shown(off: i16, h: Helper)
    ensures
        insn_text(Insn { off, ..always() }) == "goto "@ + offset_text(off as int),
        insn_text(helper(h)) == "call "@ + signed_dec(crate::bpf::helper_id(h) as int),
        insn_text(leave()) == "exit"@,
{
    lemma_offset_text(off as int);
}

/// Immediates of 64 bits are shown whole, and maps by their numbers.
pub proof fn lemma_wide_immediates_are_shown(dst: Reg, n: i64, m: i32)
    ensures
        insn_text(set_wide(dst, n)) == "ld64 "@ + reg_name(dst) + ", "@ + signed_dec(n as int),
        insn_text(set_map(dst, m as int)) == "ld64 "@ + reg_name(dst) + ", map_fd("@ + signed_dec(
            m as int,
        ) + ")"@,
{
    crate::bpf::lemma_halves(n);
}

// ----------------------------------------------------------------- the loader

/// A margin of that many spaces, none where the number is negative.
pub open spec fn blanks(n: int) -> Seq<char> {
    Seq::new(if n > 0 { n as nat } else { 0 }, |i: int| ' ')
}

proof fn lemma_right_aligned(s: Seq<char>, width: nat)
    ensures
        right_aligned(s, width) == blanks(width - s.len()) + s,
    decreases width - s.len(),
{
    if s.len() < width {
        lemma_right_aligned(seq![' '] + s, width);
    }
    assert(right_aligned(s, width) =~= blanks(width - s.len()) + s);
}

/// A listing shows the instructions in turn, each on a line of its own. Before it
/// stands the slot at which its bytes start, in a margin of four.
pub proof fn lemma_listings_count_slots(code: Seq<Insn>, n: int)
    requires
        0 <= n < code.len(),
    ensures
        code_text(code, 0) == Seq::<char>::empty(),
        ({
            let slot = code_bytes(code, n).len() / 8;
            code_text(code, n + 1) == code_text(code, n) + blanks(4 - dec(slot).len()) + dec(slot)
                + ": "@ + insn_text(code[n]) + seq!['\n']
        }),
{
    lemma_bytes_before(code, n);
    let slot = code_bytes(code, n).len() / 8;
    assert(slot == slot_at(code, n));
    lemma_right_aligned(dec(slot), 4);
    assert(code_text(code, n + 1) =~= code_text(code, n) + blanks(4 - dec(slot).len()) + dec(slot)
        + ": "@ + insn_text(code[n]) + seq!['\n']);
}

/// The declarations of maps among items.
pub open spec fn maps_in(items: Seq<tree::Item>) -> Seq<tree::MapDecl>
    decreases items.len(),
{
    if items.len() == 0 {
        Seq::empty()
    } else {
        let rest = maps_in(items.drop_first());
        match items[0] {
            tree::Item::MapDecl(m) => seq![m] + rest,
            _ => rest,
        }
    }
}

proof fn lemma_maps_in(items: Seq<tree::Item>)
    ensures
        maps_in(items).len() == tables_in(items).len(),
        forall|i: int|
            0 <= i < maps_in(items).len() ==> #[trigger] tables_in(items)[i]
                == crate::lowering::table(maps_in(items)[i])->Ok_0,
    decreases items.len(),
{
    if items.len() > 0 {
        lemma_maps_in(items.drop_first());
    }
}

/// Every map of a program that is declared can be made.
proof fn lemma_tables_are_made(d: Declared, items: Seq<tree::Item>, i: int, j: int)
    requires
        0 <= i <= items.len(),
        crate::lowering::declare(d, items, i) is Ok,
        0 <= j < maps_in(items.skip(i)).len(),
    ensures
        crate::lowering::table(maps_in(items.skip(i))[j]) is Ok,
    decreases items.len() - i,
{
    let rest = items.skip(i);
    if i < items.len() {
        assert(rest[0] == items[i]);
        assert(rest.drop_first() =~= items.skip(i + 1));
        match items[i] {
            tree::Item::Event(e) => lemma_tables_are_made(
                Declared { events: d.events.push(e), ..d },
                items,
                i + 1,
                j,
            ),
            tree::Item::Probe(p) => lemma_tables_are_made(
                Declared { probe: Some(p), ..d },
                items,
                i + 1,
                j,
            ),
            tree::Item::Const(c) => {
                let n = crate::lowering::literal_of(c.value)->0;
                let v = crate::lowering::Var {
                    name: c.name.name,
                    place: crate::lowering::Place::Const(
                        n,
                        crate::lowering::declared_size(c.ty),
                    ),
                };
                lemma_tables_are_made(Declared { vars: d.vars.push(v), ..d }, items, i + 1, j);
            },
            tree::Item::MapDecl(m) => {
                let t = crate::lowering::table(m)->Ok_0;
                if j > 0 {
                    lemma_tables_are_made(
                        Declared { tables: d.tables.push(t), ..d },
                        items,
                        i + 1,
                        j - 1,
                    );
                }
            },
        }
    }
}

/// The loader is told of every map that is declared, in order: its name, its kind,
/// the bytes of its keys and values, and how many entries it has.
pub proof fn lemma_loader_knows_the_maps(
    p: tree::Program,
    r: Result<Compiled, String>,
    i: int,
)
    requires
        compiles_to(p, r),
        r is Ok,
    ensures
        ({
            let c = r->Ok_0;
            let all = maps_in(p.items);
            &&& c.maps@.len() == all.len()
            &&& 0 <= i < all.len() ==> {
                let m = all[i];
                let t = c.maps@[i];
                &&& t.name@ == m.name.name
                &&& t.max_entries == m.capacity
                &&& m.kind.name == "hash"@ || m.kind.name == "array"@
                &&& m.kind.name == "hash"@ ==> {
                    &&& t.kind == MapKind::Hash
                    &&& t.key_size == type_width(m.args[0])
                    &&& t.value_size == type_width(m.args[1])
                }
                &&& m.kind.name == "array"@ ==> {
                    &&& t.kind == MapKind::Array
                    &&& t.key_size == 4
                    &&& t.value_size == type_width(m.args[0])
                }
            }
        }),
{
    let none = Declared {
        vars: Seq::empty(),
        tables: Seq::empty(),
        events: Seq::empty(),
        probe: None,
    };
    let all = maps_in(p.items);
    let l = lowered(p)->Ok_0;
    assert(crate::lowering::declare(none, p.items, 0) == Ok::<Declared, Seq<char>>(l.declared));
    lemma_declarations_in_order(none, p.items, 0);
    assert(p.items.skip(0) =~= p.items);
    lemma_maps_in(p.items);
    assert(l.declared.tables =~= tables_in(p.items));
    if 0 <= i < all.len() {
        let m = all[i];
        lemma_tables_are_made(none, p.items, 0, i);
        assert(tables_in(p.items)[i] == crate::lowering::table(m)->Ok_0);
        lemma_tables_are_as_declared(m);
        let c = r->Ok_0;
        assert(told(c.maps@[i], l.declared.tables[i]));
        lemma_size_bytes(l.declared.tables[i].key);
        lemma_size_bytes(l.declared.tables[i].value);
    }
}

proof fn lemma_size_bytes(s: Size)
    ensures
        crate::lowering::size_bytes(s) == bytes_in(s),
{
}

} // verus!
