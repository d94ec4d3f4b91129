//! The machine that runs the code: what each instruction does, by its number.
//!
//! The numbers are those of the kernel's instruction set. The low three bits of
//! an opcode are its class. In arithmetic and jumps the fourth bit says where the
//! second operand comes from and the high four bits what is done; in loads and
//! stores two bits give the width.

use crate::bpf::{
    aluop_bits, helper_id, high_half, jmpop_bits, low_half, reg_num, size_bits, AluOp, Helper, Insn,
    JmpOp, Reg, Size,
};
use crate::lowering::{
    alu, alu_reg, copy, helper, keep_low, load, set_map, set_num, set_wide, store,
};
use vstd::prelude::*;

verus! {

// ------------------------------------------------------------------- numbers

/// 2 to the 64th.
pub open spec fn two64() -> int {
    0x1_0000_0000_0000_0000
}

/// An integer as a register holds it.
pub open spec fn word(n: int) -> u64 {
    (n % two64()) as u64
}

/// The signed number that a register stands for.
pub open spec fn as_signed(a: u64) -> int {
    if a >= 0x8000_0000_0000_0000 {
        a - two64()
    } else {
        a as int
    }
}

// --------------------------------------------------------------- arithmetic

/// The result of operation number `op` on 64 bits.
pub open spec fn wide_result(op: int, a: u64, b: u64) -> u64 {
    if op == 0x0 {
        word(a + b)
    } else if op == 0x1 {
        word(a - b)
    } else if op == 0x2 {
        word(a * b)
    } else if op == 0x3 {
        if b == 0 {
            0
        } else {
            a / b
        }
    } else if op == 0x4 {
        a | b
    } else if op == 0x5 {
        a & b
    } else if op == 0x6 {
        a << (b % 64)
    } else if op == 0x7 {
        a >> (b % 64)
    } else if op == 0x8 {
        word(-(a as int))
    } else if op == 0x9 {
        if b == 0 {
            a
        } else {
            a % b
        }
    } else if op == 0xa {
        a ^ b
    } else if op == 0xb {
        b
    } else {
        word(as_signed(a) / vstd::arithmetic::power2::pow2((b % 64) as nat) as int)
    }
}

/// The result of an arithmetic opcode. On 32 bits the high half is zero.
pub open spec fn alu_result(opcode: u8, a: u64, b: u64) -> u64 {
    if opcode % 8 == 7 {
        wide_result(opcode as int / 16, a, b)
    } else {
        (wide_result(
            opcode as int / 16,
            a % 0x1_0000_0000,
            b % 0x1_0000_0000,
        ) % 0x1_0000_0000) as u64
    }
}

/// Whether the second operand is a register, and not the immediate.
pub open spec fn takes_register(opcode: u8) -> bool {
    opcode as int / 8 % 2 == 1
}

/// What an operation means.
pub open spec fn means(op: AluOp, a: u64, b: u64) -> u64 {
    match op {
        AluOp::Add => word(a + b),
        AluOp::Sub => word(a - b),
        AluOp::Mul => word(a * b),
        AluOp::Div => if b == 0 {
            0
        } else {
            a / b
        },
        AluOp::Or => a | b,
        AluOp::And => a & b,
        AluOp::Lsh => a << (b % 64),
        AluOp::Rsh => a >> (b % 64),
        AluOp::Mod => if b == 0 {
            a
        } else {
            a % b
        },
        AluOp::Xor => a ^ b,
        AluOp::Arsh => word(
            as_signed(a) / vstd::arithmetic::power2::pow2((b % 64) as nat) as int,
        ),
        AluOp::Neg => word(-(a as int)),
        AluOp::Mov => b,
    }
}

/// The instruction built for an operation computes it: with an immediate or a
/// register, on 64 bits or on the low 32.
pub proof fn lemma_operations_compute(op: AluOp, a: u64, b: u64)
    ensures
        ({
            let wide_imm = (0x07 + aluop_bits(op)) as u8;
            let wide_reg = (0x0f + aluop_bits(op)) as u8;
            let half_imm = (0x04 + aluop_bits(op)) as u8;
            let half_reg = (0x0c + aluop_bits(op)) as u8;
            let (x, y) = ((a % 0x1_0000_0000) as u64, (b % 0x1_0000_0000) as u64);
            &&& wide_imm % 8 == 7 && !takes_register(wide_imm)
            &&& wide_reg % 8 == 7 && takes_register(wide_reg)
            &&& half_imm % 8 == 4 && !takes_register(half_imm)
            &&& half_reg % 8 == 4 && takes_register(half_reg)
            &&& alu_result(wide_imm, a, b) == means(op, a, b)
            &&& alu_result(wide_reg, a, b) == means(op, a, b)
            &&& alu_result(half_imm, a, b) == means(op, x, y) % 0x1_0000_0000
            &&& alu_result(half_reg, a, b) == means(op, x, y) % 0x1_0000_0000
        }),
{
}

// -------------------------------------------------------------------- jumps

/// Whether a jump goes to its target.
pub open spec fn jump_taken(opcode: u8, a: u64, b: u64) -> bool {
    let op = opcode as int / 16;
    if op == 0x0 {
        true
    } else if op == 0x1 {
        a == b
    } else if op == 0x2 {
        a > b
    } else if op == 0x3 {
        a >= b
    } else if op == 0x4 {
        a & b != 0
    } else if op == 0x5 {
        a != b
    } else if op == 0x6 {
        as_signed(a) > as_signed(b)
    } else if op == 0x7 {
        as_signed(a) >= as_signed(b)
    } else if op == 0xa {
        a < b
    } else if op == 0xb {
        a <= b
    } else if op == 0xc {
        as_signed(a) < as_signed(b)
    } else {
        as_signed(a) <= as_signed(b)
    }
}

/// What a comparison means.
pub open spec fn holds(op: JmpOp, a: u64, b: u64) -> bool {
    match op {
        JmpOp::Eq => a == b,
        JmpOp::Ne => a != b,
        JmpOp::Gt => a > b,
        JmpOp::Ge => a >= b,
        JmpOp::Lt => a < b,
        JmpOp::Le => a <= b,
        JmpOp::Jset => a & b != 0,
        JmpOp::Sgt => as_signed(a) > as_signed(b),
        JmpOp::Sge => as_signed(a) >= as_signed(b),
        JmpOp::Slt => as_signed(a) < as_signed(b),
        JmpOp::Sle => as_signed(a) <= as_signed(b),
    }
}

/// The jump built for a comparison is taken exactly where the comparison holds,
/// and it is neither a call nor an exit nor unconditional.
pub proof fn lemma_jumps_compare(op: JmpOp, a: u64, b: u64)
    ensures
        ({
            let imm = (0x05 + jmpop_bits(op)) as u8;
            let reg = (0x0d + jmpop_bits(op)) as u8;
            &&& imm % 8 == 5 && !takes_register(imm)
            &&& reg % 8 == 5 && takes_register(reg)
            &&& imm as int / 16 != 0 && imm as int / 16 != 8 && imm as int / 16 != 9
            &&& jump_taken(imm, a, b) <==> holds(op, a, b)
            &&& jump_taken(reg, a, b) <==> holds(op, a, b)
        }),
{
}

// ------------------------------------------------------------------- memory

/// How many bytes a load or a store moves.
pub open spec fn access_bytes(opcode: u8) -> nat {
    let width = opcode as int / 8 % 4;
    if width == 0 {
        4
    } else if width == 1 {
        2
    } else if width == 2 {
        1
    } else {
        8
    }
}

/// How many bytes a width is.
pub open spec fn bytes_in(size: Size) -> nat {
    match size {
        Size::B => 1,
        Size::H => 2,
        Size::W => 4,
        Size::DW => 8,
    }
}

/// `n` bytes of memory as a number, the lowest byte first.
pub open spec fn fetched(mem: Map<int, u8>, at: int, n: nat) -> int
    decreases n,
{
    if n == 0 {
        0
    } else {
        mem[at] + 256 * fetched(mem, at + 1, (n - 1) as nat)
    }
}

/// The low `n` bytes of a number in memory, the lowest byte first.
pub open spec fn kept(mem: Map<int, u8>, at: int, n: nat, v: int) -> Map<int, u8>
    decreases n,
{
    if n == 0 {
        mem
    } else {
        kept(mem.insert(at, (v % 256) as u8), at + 1, (n - 1) as nat, v / 256)
    }
}

/// 256 to the `n`th.
pub open spec fn span_of_bytes(n: nat) -> int
    decreases n,
{
    if n == 0 {
        1
    } else {
        256 * span_of_bytes((n - 1) as nat)
    }
}

pub proof fn lemma_kept_elsewhere(mem: Map<int, u8>, at: int, n: nat, v: int, k: int)
    requires
        k < at || k >= at + n,
    ensures
        kept(mem, at, n, v)[k] == mem[k],
    decreases n,
{
    if n > 0 {
        lemma_kept_elsewhere(
            mem.insert(at, (v % 256) as u8),
            at + 1,
            (n - 1) as nat,
            v / 256,
            k,
        );
    }
}

pub proof fn lemma_fetched_same(a: Map<int, u8>, b: Map<int, u8>, at: int, n: nat)
    requires
        forall|k: int| at <= k < at + n ==> #[trigger] a[k] == b[k],
    ensures
        fetched(a, at, n) == fetched(b, at, n),
    decreases n,
{
    if n > 0 {
        assert(a[at] == b[at]);
        lemma_fetched_same(a, b, at + 1, (n - 1) as nat);
    }
}

pub proof fn lemma_fetched_bound(mem: Map<int, u8>, at: int, n: nat)
    ensures
        0 <= fetched(mem, at, n) < span_of_bytes(n),
    decreases n,
{
    if n > 0 {
        lemma_fetched_bound(mem, at + 1, (n - 1) as nat);
    }
}

/// What was stored is loaded, as far as it fits.
pub proof fn lemma_fetched_kept(mem: Map<int, u8>, at: int, n: nat, v: int)
    requires
        0 <= v < span_of_bytes(n),
    ensures
        fetched(kept(mem, at, n, v), at, n) == v,
    decreases n,
{
    if n > 0 {
        let m1 = mem.insert(at, (v % 256) as u8);
        lemma_fetched_kept(m1, at + 1, (n - 1) as nat, v / 256);
        lemma_kept_elsewhere(m1, at + 1, (n - 1) as nat, v / 256, at);
        assert(m1[at] == (v % 256) as u8);
    }
}

/// Loads and stores are built for the width that they are asked for.
pub proof fn lemma_accesses_have_their_width(size: Size)
    ensures
        access_bytes((0x61 + size_bits(size)) as u8) == bytes_in(size),
        access_bytes((0x62 + size_bits(size)) as u8) == bytes_in(size),
        access_bytes((0x63 + size_bits(size)) as u8) == bytes_in(size),
        (0x61 + size_bits(size)) as u8 % 8 == 1,
        (0x62 + size_bits(size)) as u8 % 8 == 2,
        (0x63 + size_bits(size)) as u8 % 8 == 3,
        (0x61 + size_bits(size)) as u8 as int / 32 == 3,
        (0x62 + size_bits(size)) as u8 as int / 32 == 3,
        (0x63 + size_bits(size)) as u8 as int / 32 == 3,
{
}

/// The low bytes of a number in reverse order: 2 of them, 4 or all 8.
pub open spec fn swapped(x: u64, bits: int) -> u64 {
    let b = |i: int| x as int / span_of_bytes(i as nat) % 256;
    if bits == 16 {
        (b(0) * 0x100 + b(1)) as u64
    } else if bits == 32 {
        (((b(0) * 0x100 + b(1)) * 0x100 + b(2)) * 0x100 + b(3)) as u64
    } else {
        (((((((b(0) * 0x100 + b(1)) * 0x100 + b(2)) * 0x100 + b(3)) * 0x100 + b(4)) * 0x100 + b(5))
            * 0x100 + b(6)) * 0x100 + b(7)) as u64
    }
}

// ------------------------------------------------------------ one instruction

/// Something that a program did for others to see.
pub enum Deed {
    /// A key and a value went into map number `map`.
    Insert { map: int, key: int, value: int },
    /// A key left map number `map`.
    Delete { map: int, key: int },
    /// The record at an address was handed over, with what the memory held.
    Submit { at: u64, mem: Map<int, u8> },
}

/// The registers, the memory, and what was done so far.
pub struct Cpu {
    pub regs: Map<int, u64>,
    pub mem: Map<int, u8>,
    pub deeds: Seq<Deed>,
}

/// What the kernel adds to the machine: what its helpers do, by their numbers,
/// and where its maps are.
pub struct Kernel {
    pub acts: spec_fn(int, Cpu) -> Cpu,
    pub map_at: spec_fn(int) -> u64,
}

pub open spec fn set_reg(c: Cpu, r: int, v: u64) -> Cpu {
    Cpu { regs: c.regs.insert(r, v), ..c }
}

/// The immediate, with its sign, as a register holds it.
pub open spec fn extended(imm: i32) -> u64 {
    word(imm as int)
}

/// The 64-bit immediate of a wide instruction.
pub open spec fn wide_imm(insn: Insn) -> u64 {
    let high = match insn.high {
        Some(h) => h as int,
        None => 0,
    };
    word((insn.imm as int % 0x1_0000_0000) + 0x1_0000_0000 * high)
}

/// What an instruction other than a jump does.
pub open spec fn step(k: Kernel, c: Cpu, insn: Insn) -> Cpu {
    let class = insn.opcode % 8;
    let dst = insn.dst as int;
    let src = insn.src as int;
    if class == 0 {
        set_reg(
            c,
            dst,
            if src == 1 {
                (k.map_at)(insn.imm as int)
            } else {
                wide_imm(insn)
            },
        )
    } else if class == 1 {
        set_reg(
            c,
            dst,
            fetched(c.mem, c.regs[src] + insn.off, access_bytes(insn.opcode)) as u64,
        )
    } else if class == 2 {
        Cpu {
            mem: kept(
                c.mem,
                c.regs[dst] + insn.off,
                access_bytes(insn.opcode),
                extended(insn.imm) as int,
            ),
            ..c
        }
    } else if class == 3 {
        Cpu {
            mem: kept(
                c.mem,
                c.regs[dst] + insn.off,
                access_bytes(insn.opcode),
                c.regs[src] as int,
            ),
            ..c
        }
    } else if class == 5 {
        if insn.opcode as int / 16 == 8 {
            (k.acts)(insn.imm as int, c)
        } else {
            c
        }
    } else if class == 4 && insn.opcode as int / 16 == 0xd {
        set_reg(c, dst, swapped(c.regs[dst], insn.imm as int))
    } else {
        set_reg(
            c,
            dst,
            alu_result(
                insn.opcode,
                c.regs[dst],
                if takes_register(insn.opcode) {
                    c.regs[src]
                } else {
                    extended(insn.imm)
                },
            ),
        )
    }
}

/// Instructions one behind the other, from the `i`th on.
pub open spec fn run(k: Kernel, c: Cpu, code: Seq<Insn>) -> Cpu
    decreases code.len(),
{
    if code.len() == 0 {
        c
    } else {
        step(k, run(k, c, code.drop_last()), code.last())
    }
}

/// Running two pieces is running one and then the other.
pub proof fn lemma_run_on(k: Kernel, c: Cpu, a: Seq<Insn>, b: Seq<Insn>)
    ensures
        run(k, c, a + b) == run(k, run(k, c, a), b),
    decreases b.len(),
{
    if b.len() == 0 {
        assert(a + b =~= a);
    } else {
        lemma_run_on(k, c, a, b.drop_last());
        assert((a + b).drop_last() =~= a + b.drop_last());
        assert((a + b).last() == b.last());
    }
}

/// The registers of the machine are told apart by their numbers.
pub proof fn lemma_registers_differ(a: Reg, b: Reg)
    ensures
        reg_num(a) == reg_num(b) ==> a == b,
        0 <= reg_num(a) <= 10,
        reg_num(Reg::R0) == 0,
        reg_num(Reg::R1) == 1,
        reg_num(Reg::R2) == 2,
        reg_num(Reg::R3) == 3,
        reg_num(Reg::R4) == 4,
        reg_num(Reg::R5) == 5,
        reg_num(Reg::R6) == 6,
        reg_num(Reg::R7) == 7,
        reg_num(Reg::R8) == 8,
        reg_num(Reg::R9) == 9,
        reg_num(Reg::R10) == 10,
{
}

/// `dst = n`: the immediate is extended with its sign.
pub proof fn lemma_set_num(k: Kernel, c: Cpu, dst: Reg, n: i32)
    ensures
        step(k, c, set_num(dst, n)) == set_reg(c, reg_num(dst) as int, word(n as int)),
{
}

/// `dst = n` on all 64 bits.
pub proof fn lemma_set_wide(k: Kernel, c: Cpu, dst: Reg, n: i64)
    ensures
        step(k, c, set_wide(dst, n)) == set_reg(c, reg_num(dst) as int, word(n as int)),
{
    let insn = set_wide(dst, n);
    assert(wide_imm(insn) == word(n as int)) by {
        let low = low_half(n) as int % 0x1_0000_0000;
        let high = high_half(n) as int;
        assert(low + 0x1_0000_0000 * high == n);
    }
}

/// `dst = src`.
pub proof fn lemma_copy(k: Kernel, c: Cpu, dst: Reg, src: Reg)
    ensures
        step(k, c, copy(dst, src)) == set_reg(c, reg_num(dst) as int, c.regs[reg_num(src) as int]),
{
}

/// `dst op= n`.
pub proof fn lemma_alu(k: Kernel, c: Cpu, op: AluOp, dst: Reg, n: i32)
    ensures
        step(k, c, alu(op, dst, n as int)) == set_reg(
            c,
            reg_num(dst) as int,
            means(op, c.regs[reg_num(dst) as int], word(n as int)),
        ),
{
    lemma_operations_compute(op, c.regs[reg_num(dst) as int], word(n as int));
}

/// `dst op= src`.
pub proof fn lemma_alu_reg(k: Kernel, c: Cpu, op: AluOp, dst: Reg, src: Reg)
    ensures
        step(k, c, alu_reg(op, dst, src)) == set_reg(
            c,
            reg_num(dst) as int,
            means(op, c.regs[reg_num(dst) as int], c.regs[reg_num(src) as int]),
        ),
{
    lemma_operations_compute(op, c.regs[reg_num(dst) as int], c.regs[reg_num(src) as int]);
}

/// The low 32 bits of a register.
pub proof fn lemma_keep_low(k: Kernel, c: Cpu, r: Reg)
    ensures
        step(k, c, keep_low(r)) == set_reg(
            c,
            reg_num(r) as int,
            (c.regs[reg_num(r) as int] % 0x1_0000_0000) as u64,
        ),
{
    let x = c.regs[reg_num(r) as int];
    lemma_operations_compute(AluOp::Mov, x, x);
    assert(x % 0x1_0000_0000 % 0x1_0000_0000 == x % 0x1_0000_0000);
}

/// `dst = *(src + off)`.
pub proof fn lemma_load(k: Kernel, c: Cpu, size: Size, dst: Reg, src: Reg, off: i16)
    ensures
        step(k, c, load(size, dst, src, off as int)) == set_reg(
            c,
            reg_num(dst) as int,
            fetched(c.mem, c.regs[reg_num(src) as int] + off, bytes_in(size)) as u64,
        ),
{
    lemma_accesses_have_their_width(size);
}

/// `*(dst + off) = src`.
pub proof fn lemma_store(k: Kernel, c: Cpu, size: Size, dst: Reg, off: i16, src: Reg)
    ensures
        step(k, c, store(size, dst, off as int, src)) == (Cpu {
            mem: kept(
                c.mem,
                c.regs[reg_num(dst) as int] + off,
                bytes_in(size),
                c.regs[reg_num(src) as int] as int,
            ),
            ..c
        }),
{
    lemma_accesses_have_their_width(size);
}

/// `dst = map number n`.
pub proof fn lemma_set_map(k: Kernel, c: Cpu, dst: Reg, n: i32)
    ensures
        step(k, c, set_map(dst, n as int)) == set_reg(
            c,
            reg_num(dst) as int,
            (k.map_at)(n as int),
        ),
{
}

/// A call does what its helper does.
pub proof fn lemma_call(k: Kernel, c: Cpu, h: Helper)
    ensures
        step(k, c, helper(h)) == (k.acts)(helper_id(h) as int, c),
{
}

/// The helpers by the numbers that the kernel gives them.
pub proof fn lemma_helper_numbers()
    ensures
        helper_id(Helper::MapLookupElem) == 1,
        helper_id(Helper::MapUpdateElem) == 2,
        helper_id(Helper::MapDeleteElem) == 3,
        helper_id(Helper::KtimeGetNs) == 5,
        helper_id(Helper::GetCurrentPidTgid) == 14,
        helper_id(Helper::GetCurrentUidGid) == 15,
        helper_id(Helper::GetCurrentComm) == 16,
        helper_id(Helper::ProbeReadKernel) == 113,
        helper_id(Helper::ProbeReadUserStr) == 114,
        helper_id(Helper::ProbeReadKernelStr) == 115,
        helper_id(Helper::RingbufOutput) == 130,
        helper_id(Helper::RingbufReserve) == 131,
        helper_id(Helper::RingbufSubmit) == 132,
        helper_id(Helper::RingbufDiscard) == 133,
{
}

} // verus!
