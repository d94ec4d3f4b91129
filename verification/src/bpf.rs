//! eBPF instruction encoding and disassembly.
//!
//! An eBPF program is a flat array of 64-bit instructions. Each instruction
//! is 8 bytes:
//!
//! ```text
//!   byte 0      byte 1        bytes 2-3       bytes 4-7
//!   opcode      src | dst     offset          immediate
//!     u8         4b   4b        i16 (LE)         i32 (LE)
//! ```
//!
//! The register byte packs two 4-bit register numbers: destination in the
//! low nibble, source in the high nibble. Everything is little-endian.
//!
//! One instruction is wider: loading a 64-bit immediate takes two slots, 16
//! bytes. The high 32 bits live in the immediate of a second, otherwise-zero
//! slot.
//!
//! This module knows nothing about honey. It is an assembler for the machine.

use crate::machine::{
    alu_result, bytes_in, extended, holds, jump_taken, kept, lemma_accesses_have_their_width,
    lemma_jumps_compare, lemma_operations_compute, means, set_reg, step, swapped, takes_register,
    Cpu, Kernel,
};
use crate::text::{
    dec, group_glue, hex_padded, owned, push_dec, push_hex_padded, push_signed, right_aligned,
    signed_dec,
};
use vstd::prelude::*;

verus! {

// ---------------------------------------------------------------- registers

/// The eleven eBPF registers. `R0` holds return values and helper results;
/// `R1`-`R5` pass arguments to helpers; `R6`-`R9` are callee-saved (a helper
/// call preserves them); `R10` is the read-only frame pointer.
#[derive(Debug, Clone, Copy, PartialEq, Eq, Structural)]
pub enum Reg {
    R0,
    R1,
    R2,
    R3,
    R4,
    R5,
    R6,
    R7,
    R8,
    R9,
    R10,
}

/// The number of a register.
pub open spec fn reg_num(r: Reg) -> u8 {
    match r {
        Reg::R0 => 0,
        Reg::R1 => 1,
        Reg::R2 => 2,
        Reg::R3 => 3,
        Reg::R4 => 4,
        Reg::R5 => 5,
        Reg::R6 => 6,
        Reg::R7 => 7,
        Reg::R8 => 8,
        Reg::R9 => 9,
        Reg::R10 => 10,
    }
}

impl Reg {
    fn num(self) -> (r: u8)
        ensures
            r == reg_num(self),
    {
        match self {
            Reg::R0 => 0,
            Reg::R1 => 1,
            Reg::R2 => 2,
            Reg::R3 => 3,
            Reg::R4 => 4,
            Reg::R5 => 5,
            Reg::R6 => 6,
            Reg::R7 => 7,
            Reg::R8 => 8,
            Reg::R9 => 9,
            Reg::R10 => 10,
        }
    }
}

// ----------------------------------------------------------- helper numbers

/// eBPF helper functions, as the kernel numbers them.
#[derive(Debug, Clone, Copy, PartialEq, Eq, Structural)]
pub enum Helper {
    MapLookupElem,
    MapUpdateElem,
    MapDeleteElem,
    KtimeGetNs,
    GetCurrentPidTgid,
    GetCurrentUidGid,
    GetCurrentComm,
    ProbeReadKernel,
    ProbeReadUserStr,
    ProbeReadKernelStr,
    RingbufOutput,
    RingbufReserve,
    RingbufSubmit,
    RingbufDiscard,
}

/// The kernel's number of a helper: the immediate of a `call`.
pub open spec fn helper_id(h: Helper) -> i32 {
    match h {
        Helper::MapLookupElem => 1,
        Helper::MapUpdateElem => 2,
        Helper::MapDeleteElem => 3,
        Helper::KtimeGetNs => 5,
        Helper::GetCurrentPidTgid => 14,
        Helper::GetCurrentUidGid => 15,
        Helper::GetCurrentComm => 16,
        Helper::ProbeReadKernel => 113,
        Helper::ProbeReadUserStr => 114,
        Helper::ProbeReadKernelStr => 115,
        Helper::RingbufOutput => 130,
        Helper::RingbufReserve => 131,
        Helper::RingbufSubmit => 132,
        Helper::RingbufDiscard => 133,
    }
}

impl Helper {
    pub fn id(self) -> (r: i32)
        ensures
            r == helper_id(self),
    {
        match self {
            Helper::MapLookupElem => 1,
            Helper::MapUpdateElem => 2,
            Helper::MapDeleteElem => 3,
            Helper::KtimeGetNs => 5,
            Helper::GetCurrentPidTgid => 14,
            Helper::GetCurrentUidGid => 15,
            Helper::GetCurrentComm => 16,
            Helper::ProbeReadKernel => 113,
            Helper::ProbeReadUserStr => 114,
            Helper::ProbeReadKernelStr => 115,
            Helper::RingbufOutput => 130,
            Helper::RingbufReserve => 131,
            Helper::RingbufSubmit => 132,
            Helper::RingbufDiscard => 133,
        }
    }
}

// ----------------------------------------------------------------- the insn

/// One decoded eBPF instruction.
#[derive(Debug, Clone, Copy, PartialEq, Eq, Structural)]
pub struct Insn {
    pub opcode: u8,
    pub dst: u8,
    pub src: u8,
    pub off: i16,
    pub imm: i32,
    /// The high 32 bits of a 64-bit immediate. An instruction that has them is
    /// wide: it takes two slots.
    pub high: Option<i32>,
}

/// An instruction of one slot.
pub open spec fn narrow(opcode: u8, dst: u8, src: u8, off: i16, imm: i32) -> Insn {
    Insn { opcode, dst, src, off, imm, high: None }
}

/// How many 8-byte slots an instruction takes.
pub open spec fn slots_of(insn: Insn) -> nat {
    if insn.high is Some {
        2
    } else {
        1
    }
}

/// The slot at which instruction number `i` starts.
pub open spec fn slot_at(code: Seq<Insn>, i: int) -> nat
    decreases i,
{
    if i <= 0 {
        0
    } else {
        slot_at(code, i - 1) + slots_of(code[i - 1])
    }
}

/// A signed number of `m` values as an unsigned one, in two's complement.
pub open spec fn unsigned(n: int, m: int) -> int {
    if n < 0 {
        n + m
    } else {
        n
    }
}

/// The 8 bytes of one slot.
pub open spec fn slot_bytes(opcode: u8, src: u8, dst: u8, off: i16, imm: i32) -> Seq<u8> {
    let o = unsigned(off as int, 0x1_0000);
    let w = unsigned(imm as int, 0x1_0000_0000);
    seq![
        opcode,
        (src % 16 * 16 + dst % 16) as u8,
        (o % 0x100) as u8,
        (o / 0x100) as u8,
        (w % 0x100) as u8,
        (w / 0x100 % 0x100) as u8,
        (w / 0x1_0000 % 0x100) as u8,
        (w / 0x100_0000) as u8,
    ]
}

/// The bytes of an instruction.
pub open spec fn insn_bytes(insn: Insn) -> Seq<u8> {
    let first = slot_bytes(insn.opcode, insn.src, insn.dst, insn.off, insn.imm);
    match insn.high {
        Some(high) => first + slot_bytes(0, 0, 0, 0, high),
        None => first,
    }
}

/// The bytes of the first `n` instructions.
pub open spec fn code_bytes(code: Seq<Insn>, n: int) -> Seq<u8>
    decreases n,
{
    if n <= 0 {
        Seq::empty()
    } else {
        code_bytes(code, n - 1) + insn_bytes(code[n - 1])
    }
}

impl Insn {
    fn new(opcode: u8, dst: u8, src: u8, off: i16, imm: i32) -> (r: Self)
        ensures
            r == narrow(opcode, dst, src, off, imm),
    {
        Insn { opcode, dst, src, off, imm, high: None }
    }

    /// How many 8-byte slots this instruction occupies (1, or 2 for wide).
    pub fn slots(&self) -> (r: usize)
        ensures
            r == slots_of(*self),
    {
        match self.high {
            Some(_) => 2,
            None => 1,
        }
    }

    /// Rebuild an instruction from decoded fields. Pass `imm_high` for a wide
    /// one.
    pub fn from_parts(
        opcode: u8,
        dst: u8,
        src: u8,
        off: i16,
        imm: i32,
        imm_high: Option<i32>,
    ) -> (r: Self)
        ensures
            r == (Insn { opcode, dst, src, off, imm, high: imm_high }),
    {
        Insn { opcode, dst, src, off, imm, high: imm_high }
    }

    /// Append this instruction's raw bytes to `out`.
    pub fn encode(&self, out: &mut Vec<u8>)
        ensures
            final(out)@ == old(out)@ + insn_bytes(*self),
    {
        let ghost before = out@;
        push_slot(out, self.opcode, self.src, self.dst, self.off, self.imm);
        match self.high {
            // Second slot: all zero except the high 32 bits of the immediate.
            Some(high) => push_slot(out, 0, 0, 0, 0, high),
            None => {},
        }
        assert(out@ =~= before + insn_bytes(*self));
    }
}

fn push_slot(out: &mut Vec<u8>, opcode: u8, src: u8, dst: u8, off: i16, imm: i32)
    ensures
        final(out)@ == old(out)@ + slot_bytes(opcode, src, dst, off, imm),
{
    let ghost before = out@;
    let o: u32 = if off < 0 {
        (off as i32 + 0x1_0000) as u32
    } else {
        off as u32
    };
    let w: u64 = if imm < 0 {
        (imm as i64 + 0x1_0000_0000) as u64
    } else {
        imm as u64
    };
    out.push(opcode);
    out.push(src % 16 * 16 + dst % 16);
    out.push((o % 0x100) as u8);
    out.push((o / 0x100) as u8);
    out.push((w % 0x100) as u8);
    out.push((w / 0x100 % 0x100) as u8);
    out.push((w / 0x1_0000 % 0x100) as u8);
    out.push((w / 0x100_0000) as u8);
    assert(out@ =~= before + slot_bytes(opcode, src, dst, off, imm));
}

/// A number below 2^32 is made of its four bytes.
proof fn lemma_four_bytes(w: int)
    requires
        0 <= w < 0x1_0000_0000,
    ensures
        w == w % 0x100 + 0x100 * (w / 0x100 % 0x100) + 0x1_0000 * (w / 0x1_0000 % 0x100)
            + 0x100_0000 * (w / 0x100_0000),
        0 <= w / 0x100_0000 < 0x100,
{
    assert(w / 0x100 / 0x100 == w / 0x1_0000);
    assert(w / 0x1_0000 / 0x100 == w / 0x100_0000);
}

/// The bytes of a slot determine its fields, as far as the register numbers
/// fit in four bits.
pub proof fn lemma_slot_bytes_determine(a: Insn, b: Insn)
    requires
        a.src < 16,
        a.dst < 16,
        b.src < 16,
        b.dst < 16,
        slot_bytes(a.opcode, a.src, a.dst, a.off, a.imm) == slot_bytes(
            b.opcode,
            b.src,
            b.dst,
            b.off,
            b.imm,
        ),
    ensures
        a.opcode == b.opcode,
        a.src == b.src,
        a.dst == b.dst,
        a.off == b.off,
        a.imm == b.imm,
{
    let x = slot_bytes(a.opcode, a.src, a.dst, a.off, a.imm);
    let y = slot_bytes(b.opcode, b.src, b.dst, b.off, b.imm);
    assert(x[0] == y[0] && x[1] == y[1] && x[2] == y[2] && x[3] == y[3]);
    assert(x[4] == y[4] && x[5] == y[5] && x[6] == y[6] && x[7] == y[7]);
    let o = unsigned(a.off as int, 0x1_0000);
    let p = unsigned(b.off as int, 0x1_0000);
    assert(o == p) by {
        assert(o % 0x100 == p % 0x100);
        assert(o / 0x100 == p / 0x100);
    }
    let w = unsigned(a.imm as int, 0x1_0000_0000);
    let v = unsigned(b.imm as int, 0x1_0000_0000);
    assert(w == v) by {
        lemma_four_bytes(w);
        lemma_four_bytes(v);
        assert(w % 0x100 == v % 0x100);
        assert(w / 0x100 % 0x100 == v / 0x100 % 0x100);
        assert(w / 0x1_0000 % 0x100 == v / 0x1_0000 % 0x100);
        assert(w / 0x100_0000 == v / 0x100_0000);
    }
    assert(a.src * 16 + a.dst == b.src * 16 + b.dst);
}

/// Two instructions with the same bytes are the same instruction.
pub proof fn lemma_encoding_is_injective(a: Insn, b: Insn)
    requires
        a.src < 16,
        a.dst < 16,
        b.src < 16,
        b.dst < 16,
        insn_bytes(a) == insn_bytes(b),
    ensures
        a == b,
{
    assert(insn_bytes(a).len() == 8 * slots_of(a));
    assert(insn_bytes(b).len() == 8 * slots_of(b));
    let x = slot_bytes(a.opcode, a.src, a.dst, a.off, a.imm);
    let y = slot_bytes(b.opcode, b.src, b.dst, b.off, b.imm);
    assert(x =~= insn_bytes(a).take(8));
    assert(y =~= insn_bytes(b).take(8));
    lemma_slot_bytes_determine(a, b);
    if let (Some(p), Some(q)) = (a.high, b.high) {
        assert(slot_bytes(0, 0, 0, 0, p) =~= insn_bytes(a).skip(8));
        assert(slot_bytes(0, 0, 0, 0, q) =~= insn_bytes(b).skip(8));
        lemma_slot_bytes_determine(narrow(0, 0, 0, 0, p), narrow(0, 0, 0, 0, q));
    }
}

// ----------------------------------------------------------------- decoding

/// A number of `m` values in two's complement as a signed one.
pub open spec fn signed(n: int, m: int) -> int {
    if n >= m / 2 {
        n - m
    } else {
        n
    }
}

/// The 32-bit number at byte `i`.
pub open spec fn word_at(b: Seq<u8>, i: int) -> int {
    signed(
        b[i] + 0x100 * b[i + 1] + 0x1_0000 * b[i + 2] + 0x100_0000 * b[i + 3],
        0x1_0000_0000,
    )
}

/// The instruction at byte `i`, if its bytes are all there. The one wide
/// instruction is known by its opcode.
pub open spec fn insn_at(b: Seq<u8>, i: int) -> Option<Insn> {
    if i + 8 > b.len() || (b[i] == 0x18 && i + 16 > b.len()) {
        None
    } else {
        Some(
            Insn {
                opcode: b[i],
                dst: (b[i + 1] % 16) as u8,
                src: (b[i + 1] / 16) as u8,
                off: signed(b[i + 2] + 0x100 * b[i + 3], 0x1_0000) as i16,
                imm: word_at(b, i + 4) as i32,
                high: if b[i] == 0x18 {
                    Some(word_at(b, i + 12) as i32)
                } else {
                    None
                },
            },
        )
    }
}

/// The instructions from byte `i` on, if the bytes are a whole number of them.
pub open spec fn decoded(b: Seq<u8>, i: int) -> Option<Seq<Insn>>
    decreases b.len() - i,
{
    if i >= b.len() {
        Some(Seq::empty())
    } else {
        match insn_at(b, i) {
            None => None,
            Some(insn) => match decoded(b, i + 8 * slots_of(insn)) {
                None => None,
                Some(rest) => Some(seq![insn] + rest),
            },
        }
    }
}

fn read_word(b: &[u8], i: usize) -> (r: i32)
    requires
        i + 4 <= b.len(),
    ensures
        r == word_at(b@, i as int),
{
    let n: i64 = b[i] as i64 + 0x100 * b[i + 1] as i64 + 0x1_0000 * b[i + 2] as i64 + 0x100_0000
        * b[i + 3] as i64;
    if n >= 0x8000_0000 {
        (n - 0x1_0000_0000) as i32
    } else {
        n as i32
    }
}

/// Read instructions back from their bytes.
pub fn decode(b: &[u8]) -> (r: Option<Vec<Insn>>)
    ensures
        match r {
            Some(code) => decoded(b@, 0) == Some(code@),
            None => decoded(b@, 0) is None,
        },
{
    let mut code: Vec<Insn> = Vec::new();
    let mut i: usize = 0;
    while i < b.len()
        invariant
            0 <= i <= b.len(),
            match decoded(b@, i as int) {
                Some(rest) => decoded(b@, 0) == Some(code@ + rest),
                None => decoded(b@, 0) is None,
            },
        decreases b.len() - i,
    {
        let ghost at = i as int;
        let ghost before = code@;
        let left: usize = b.len() - i;
        if left < 8 || (b[i] == 0x18 && left < 16) {
            return None;
        }
        let opcode: u8 = b[i];
        let o: i32 = b[i + 2] as i32 + 0x100 * b[i + 3] as i32;
        let off: i16 = if o >= 0x8000 {
            (o - 0x1_0000) as i16
        } else {
            o as i16
        };
        let imm: i32 = read_word(b, i + 4);
        let high: Option<i32> = if opcode == 0x18 {
            Some(read_word(b, i + 12))
        } else {
            None
        };
        let insn = Insn::from_parts(opcode, b[i + 1] % 16, b[i + 1] / 16, off, imm, high);
        assert(insn_at(b@, at) == Some(insn));
        i = i + 8 * insn.slots();
        code.push(insn);
        proof {
            if let Some(rest) = decoded(b@, i as int) {
                assert(before.push(insn) + rest =~= before + (seq![insn] + rest));
            }
        }
    }
    assert(code@ + Seq::<Insn>::empty() =~= code@);
    Some(code)
}

/// An instruction that its bytes determine: its registers fit in four bits, and
/// it is wide if its opcode says so.
pub open spec fn plain(insn: Insn) -> bool {
    insn.src < 16 && insn.dst < 16 && (insn.high is Some <==> insn.opcode == 0x18)
}

proof fn lemma_insn_at(b: Seq<u8>, i: int, insn: Insn)
    requires
        plain(insn),
        0 <= i,
        i + 8 * slots_of(insn) <= b.len(),
        b.subrange(i, i + 8 * slots_of(insn)) == insn_bytes(insn),
    ensures
        insn_at(b, i) == Some(insn),
{
    let x = b.subrange(i, i + 8 * slots_of(insn));
    let first = slot_bytes(insn.opcode, insn.src, insn.dst, insn.off, insn.imm);
    assert forall|k: int| 0 <= k < 8 implies b[i + k] == #[trigger] first[k] by {
        assert(x[k] == b[i + k]);
        assert(insn_bytes(insn)[k] == first[k]);
    }
    assert(b[i + 0] == first[0]);
    assert(b[i + 1] == first[1]);
    assert(b[i + 2] == first[2]);
    assert(b[i + 3] == first[3]);
    assert(b[i + 4] == first[4]);
    assert(b[i + 5] == first[5]);
    assert(b[i + 6] == first[6]);
    assert(b[i + 7] == first[7]);
    lemma_four_bytes(unsigned(insn.imm as int, 0x1_0000_0000));
    if let Some(high) = insn.high {
        let second = slot_bytes(0, 0, 0, 0, high);
        assert forall|k: int| 0 <= k < 8 implies b[i + 8 + k] == #[trigger] second[k] by {
            assert(x[8 + k] == b[i + 8 + k]);
            assert(insn_bytes(insn)[8 + k] == second[k]);
        }
        assert(b[i + 8 + 4] == second[4]);
        assert(b[i + 8 + 5] == second[5]);
        assert(b[i + 8 + 6] == second[6]);
        assert(b[i + 8 + 7] == second[7]);
        lemma_four_bytes(unsigned(high as int, 0x1_0000_0000));
    }
}

/// Each instruction's bytes stand at its slot.
pub proof fn lemma_code_bytes(code: Seq<Insn>, k: int, n: int)
    requires
        0 <= k < n <= code.len(),
    ensures
        code_bytes(code, n).len() == 8 * slot_at(code, n),
        slot_at(code, k + 1) <= slot_at(code, n),
        code_bytes(code, n).subrange(
            8 * slot_at(code, k) as int,
            8 * slot_at(code, k + 1) as int,
        ) == insn_bytes(code[k]),
    decreases n,
{
    let all = code_bytes(code, n);
    let most = code_bytes(code, n - 1);
    let last = insn_bytes(code[n - 1]);
    assert(last.len() == 8 * slots_of(code[n - 1]));
    if n == 1 {
        assert(most =~= Seq::empty());
        assert(all =~= last);
        assert(slot_at(code, 0) == 0);
        assert(slot_at(code, 1) == slots_of(code[0]));
        assert(all.subrange(0, all.len() as int) =~= last);
    } else if k < n - 1 {
        lemma_code_bytes(code, k, n - 1);
        let a = 8 * slot_at(code, k) as int;
        let b = 8 * slot_at(code, k + 1) as int;
        assert(all.subrange(a, b) =~= most.subrange(a, b));
    } else {
        lemma_code_bytes(code, 0, n - 1);
        assert(all.subrange(most.len() as int, all.len() as int) =~= last);
    }
}

proof fn lemma_decoded_from(code: Seq<Insn>, k: int)
    requires
        forall|i: int| 0 <= i < code.len() ==> plain(#[trigger] code[i]),
        0 <= k <= code.len(),
    ensures
        decoded(code_bytes(code, code.len() as int), 8 * slot_at(code, k) as int) == Some(
            code.skip(k),
        ),
    decreases code.len() - k,
{
    let n = code.len() as int;
    let b = code_bytes(code, n);
    let at = 8 * slot_at(code, k) as int;
    if k < n {
        lemma_code_bytes(code, k, n);
        lemma_insn_at(b, at, code[k]);
        lemma_decoded_from(code, k + 1);
        assert(seq![code[k]] + code.skip(k + 1) =~= code.skip(k));
    } else {
        if n > 0 {
            lemma_code_bytes(code, 0, n);
        }
        assert(code.skip(k) =~= Seq::empty());
    }
}

/// Decoding what was encoded gives the instructions back.
pub proof fn lemma_decode_undoes_encode(code: Seq<Insn>)
    requires
        forall|i: int| 0 <= i < code.len() ==> plain(#[trigger] code[i]),
    ensures
        decoded(code_bytes(code, code.len() as int), 0) == Some(code),
{
    lemma_decoded_from(code, 0);
    assert(code.skip(0) =~= code);
}

// --------------------------------------------------------------- op sub-enums

/// Arithmetic and bitwise operations for the `alu*` builders.
#[derive(Debug, Clone, Copy, PartialEq, Eq, Structural)]
pub enum AluOp {
    Add,
    Sub,
    Mul,
    Div,
    Or,
    And,
    Lsh,
    Rsh,
    Mod,
    Xor,
    Arsh,
    Neg,
    Mov,
}

/// The operation bits of an opcode.
pub open spec fn aluop_bits(op: AluOp) -> u8 {
    match op {
        AluOp::Add => 0x00,
        AluOp::Sub => 0x10,
        AluOp::Mul => 0x20,
        AluOp::Div => 0x30,
        AluOp::Or => 0x40,
        AluOp::And => 0x50,
        AluOp::Lsh => 0x60,
        AluOp::Rsh => 0x70,
        AluOp::Mod => 0x90,
        AluOp::Xor => 0xa0,
        AluOp::Arsh => 0xc0,
        AluOp::Neg => 0x80,
        AluOp::Mov => 0xb0,
    }
}

impl AluOp {
    fn bits(self) -> (r: u8)
        ensures
            r == aluop_bits(self),
    {
        match self {
            AluOp::Add => 0x00,
            AluOp::Sub => 0x10,
            AluOp::Mul => 0x20,
            AluOp::Div => 0x30,
            AluOp::Or => 0x40,
            AluOp::And => 0x50,
            AluOp::Lsh => 0x60,
            AluOp::Rsh => 0x70,
            AluOp::Mod => 0x90,
            AluOp::Xor => 0xa0,
            AluOp::Arsh => 0xc0,
            AluOp::Neg => 0x80,
            AluOp::Mov => 0xb0,
        }
    }
}

/// Comparisons for the `jmp_*` builders.
#[derive(Debug, Clone, Copy, PartialEq, Eq, Structural)]
pub enum JmpOp {
    Eq,
    Ne,
    Gt,
    Ge,
    Lt,
    Le,
    Jset,
    /// The signed comparisons start here.
    Sgt,
    Sge,
    Slt,
    Sle,
}

/// The comparison bits of an opcode.
pub open spec fn jmpop_bits(op: JmpOp) -> u8 {
    match op {
        JmpOp::Eq => 0x10,
        JmpOp::Ne => 0x50,
        JmpOp::Gt => 0x20,
        JmpOp::Ge => 0x30,
        JmpOp::Lt => 0xa0,
        JmpOp::Le => 0xb0,
        JmpOp::Jset => 0x40,
        JmpOp::Sgt => 0x60,
        JmpOp::Sge => 0x70,
        JmpOp::Slt => 0xc0,
        JmpOp::Sle => 0xd0,
    }
}

impl JmpOp {
    fn bits(self) -> (r: u8)
        ensures
            r == jmpop_bits(self),
    {
        match self {
            JmpOp::Eq => 0x10,
            JmpOp::Ne => 0x50,
            JmpOp::Gt => 0x20,
            JmpOp::Ge => 0x30,
            JmpOp::Lt => 0xa0,
            JmpOp::Le => 0xb0,
            JmpOp::Jset => 0x40,
            JmpOp::Sgt => 0x60,
            JmpOp::Sge => 0x70,
            JmpOp::Slt => 0xc0,
            JmpOp::Sle => 0xd0,
        }
    }
}

/// Memory access widths.
#[derive(Debug, Clone, Copy, PartialEq, Eq, Structural)]
pub enum Size {
    B,
    H,
    W,
    DW,
}

/// The width bits of an opcode.
pub open spec fn size_bits(op: Size) -> u8 {
    match op {
        Size::B => 0x10,
        Size::H => 0x08,
        Size::W => 0x00,
        Size::DW => 0x18,
    }
}

impl Size {
    fn bits(self) -> (r: u8)
        ensures
            r == size_bits(self),
    {
        match self {
            Size::B => 0x10,
            Size::H => 0x08,
            Size::W => 0x00,
            Size::DW => 0x18,
        }
    }
}

// ------------------------------------------------------- instruction builders
//
// One constructor per instruction shape. Names read like assembly.

/// `dst = imm` (64-bit, sign-extended from the 32-bit immediate).
pub fn mov64_imm(dst: Reg, imm: i32) -> (r: Insn)
    ensures
        r == narrow(0xb7, reg_num(dst), 0, 0, imm),
{
    Insn::new(0xb7, dst.num(), 0, 0, imm)
}

/// `dst = src` (64-bit).
pub fn mov64_reg(dst: Reg, src: Reg) -> (r: Insn)
    ensures
        r == narrow(0xbf, reg_num(dst), reg_num(src), 0, 0),
{
    Insn::new(0xbf, dst.num(), src.num(), 0, 0)
}

/// `dst op= imm` for an arithmetic or bitwise op, 64-bit.
pub fn alu64_imm(op: AluOp, dst: Reg, imm: i32) -> (r: Insn)
    ensures
        r == narrow((0x07 + aluop_bits(op)) as u8, reg_num(dst), 0, 0, imm),
{
    Insn::new(0x07 + op.bits(), dst.num(), 0, 0, imm)
}

/// `dst op= src`, 64-bit.
pub fn alu64_reg(op: AluOp, dst: Reg, src: Reg) -> (r: Insn)
    ensures
        r == narrow((0x0f + aluop_bits(op)) as u8, reg_num(dst), reg_num(src), 0, 0),
{
    Insn::new(0x0f + op.bits(), dst.num(), src.num(), 0, 0)
}

/// `dst op= imm`, 32-bit (the upper half of `dst` is zeroed).
pub fn alu32_imm(op: AluOp, dst: Reg, imm: i32) -> (r: Insn)
    ensures
        r == narrow((0x04 + aluop_bits(op)) as u8, reg_num(dst), 0, 0, imm),
        forall|k: Kernel, c: Cpu|
            (#[trigger] step(k, c, r)).regs[reg_num(dst) as int] == means(
                op,
                (c.regs[reg_num(dst) as int] % 0x1_0000_0000) as u64,
                (extended(imm) % 0x1_0000_0000) as u64,
            ) % 0x1_0000_0000,
{
    proof {
        assert forall|a: u64| true implies #[trigger] alu_result(
            (0x04 + aluop_bits(op)) as u8,
            a,
            extended(imm),
        ) == means(
            op,
            (a % 0x1_0000_0000) as u64,
            (extended(imm) % 0x1_0000_0000) as u64,
        ) % 0x1_0000_0000 by {
            lemma_operations_compute(op, a, extended(imm));
        }
        lemma_operations_compute(op, 0, 0);
    }
    Insn::new(0x04 + op.bits(), dst.num(), 0, 0, imm)
}

/// `dst op= src`, 32-bit. `mov32 r, r` is the idiom for zero-extending a
/// register from its low 32 bits.
pub fn alu32_reg(op: AluOp, dst: Reg, src: Reg) -> (r: Insn)
    ensures
        r == narrow((0x0c + aluop_bits(op)) as u8, reg_num(dst), reg_num(src), 0, 0),
{
    Insn::new(0x0c + op.bits(), dst.num(), src.num(), 0, 0)
}

/// Convert `dst` between big-endian (network) order and host order, over 16 or
/// 32 bits. The width is the immediate.
pub fn bswap(dst: Reg, bits: u8) -> (r: Insn)
    ensures
        r == narrow(0xdc, reg_num(dst), 0, 0, bits as i32),
        forall|k: Kernel, c: Cpu|
            #[trigger] step(k, c, r) == set_reg(
                c,
                reg_num(dst) as int,
                swapped(c.regs[reg_num(dst) as int], bits as int),
            ),
{
    Insn::new(0xdc, dst.num(), 0, 0, bits as i32)
}

/// `dst = *(size *)(src + off)`: load from memory.
pub fn ldx_mem(size: Size, dst: Reg, src: Reg, off: i16) -> (r: Insn)
    ensures
        r == narrow((0x61 + size_bits(size)) as u8, reg_num(dst), reg_num(src), off, 0),
{
    Insn::new(0x61 + size.bits(), dst.num(), src.num(), off, 0)
}

/// `*(size *)(dst + off) = src`: store a register to memory.
pub fn stx_mem(size: Size, dst: Reg, off: i16, src: Reg) -> (r: Insn)
    ensures
        r == narrow((0x63 + size_bits(size)) as u8, reg_num(dst), reg_num(src), off, 0),
{
    Insn::new(0x63 + size.bits(), dst.num(), src.num(), off, 0)
}

/// `*(size *)(dst + off) = imm`: store an immediate to memory.
pub fn st_mem(size: Size, dst: Reg, off: i16, imm: i32) -> (r: Insn)
    ensures
        r == narrow((0x62 + size_bits(size)) as u8, reg_num(dst), 0, off, imm),
        forall|k: Kernel, c: Cpu|
            (#[trigger] step(k, c, r)).mem == kept(
                c.mem,
                c.regs[reg_num(dst) as int] + off,
                bytes_in(size),
                extended(imm) as int,
            ),
{
    proof {
        lemma_accesses_have_their_width(size);
    }
    Insn::new(0x62 + size.bits(), dst.num(), 0, off, imm)
}

/// `if dst op imm goto pc + off`: conditional jump on an immediate.
pub fn jmp_imm(op: JmpOp, dst: Reg, imm: i32, off: i16) -> (r: Insn)
    ensures
        r == narrow((0x05 + jmpop_bits(op)) as u8, reg_num(dst), 0, off, imm),
        !takes_register(r.opcode),
        forall|a: u64, b: u64| #[trigger] jump_taken(r.opcode, a, b) == holds(op, a, b),
{
    proof {
        lemma_jumps_compare(op, 0, 0);
        assert forall|a: u64, b: u64| #[trigger]
            jump_taken((0x05 + jmpop_bits(op)) as u8, a, b) == holds(op, a, b) by {
            lemma_jumps_compare(op, a, b);
        }
    }
    Insn::new(0x05 + op.bits(), dst.num(), 0, off, imm)
}

/// `if dst op src goto pc + off`: conditional jump on a register.
pub fn jmp_reg(op: JmpOp, dst: Reg, src: Reg, off: i16) -> (r: Insn)
    ensures
        r == narrow((0x0d + jmpop_bits(op)) as u8, reg_num(dst), reg_num(src), off, 0),
        takes_register(r.opcode),
        forall|a: u64, b: u64| #[trigger] jump_taken(r.opcode, a, b) == holds(op, a, b),
{
    proof {
        lemma_jumps_compare(op, 0, 0);
        assert forall|a: u64, b: u64| #[trigger]
            jump_taken((0x0d + jmpop_bits(op)) as u8, a, b) == holds(op, a, b) by {
            lemma_jumps_compare(op, a, b);
        }
    }
    Insn::new(0x0d + op.bits(), dst.num(), src.num(), off, 0)
}

/// `goto pc + off`: unconditional jump.
pub fn ja(off: i16) -> (r: Insn)
    ensures
        r == narrow(0x05, 0, 0, off, 0),
        forall|a: u64, b: u64| #[trigger] jump_taken(r.opcode, a, b),
{
    Insn::new(0x05, 0, 0, off, 0)
}

/// `call helper`: invoke a kernel helper; the result lands in R0.
pub fn call(helper: Helper) -> (r: Insn)
    ensures
        r == narrow(0x85, 0, 0, 0, helper_id(helper)),
{
    Insn::new(0x85, 0, 0, 0, helper.id())
}

/// `exit`: return R0 to the caller and end the program.
pub fn exit() -> (r: Insn)
    ensures
        r == narrow(0x95, 0, 0, 0, 0),
{
    Insn::new(0x95, 0, 0, 0, 0)
}

/// The low 32 bits of a 64-bit number, as a signed number.
pub open spec fn low_half(n: i64) -> i32 {
    let low = unsigned(n as int, 0x1_0000_0000_0000_0000) % 0x1_0000_0000;
    (if low >= 0x8000_0000 {
        low - 0x1_0000_0000
    } else {
        low
    }) as i32
}

/// The high 32 bits of a 64-bit number, as a signed number.
pub open spec fn high_half(n: i64) -> i32 {
    (n as int / 0x1_0000_0000) as i32
}

/// The 64-bit number with the given halves.
pub open spec fn join_halves(low: i32, high: i32) -> int {
    high * 0x1_0000_0000 + unsigned(low as int, 0x1_0000_0000)
}

/// Taking a number apart and putting it together gives it back.
pub proof fn lemma_halves(n: i64)
    ensures
        join_halves(low_half(n), high_half(n)) == n,
{
}

/// `dst = imm` as a full 64-bit load (the only way to get a value wider than
/// 32 bits, or a map, into a register).
pub fn ld_imm64(dst: Reg, imm: i64) -> (r: Insn)
    ensures
        r == (Insn {
            opcode: 0x18,
            dst: reg_num(dst),
            src: 0,
            off: 0,
            imm: low_half(imm),
            high: Some(high_half(imm)),
        }),
{
    let bits: u64 = if imm < 0 {
        (imm as i128 + 0x1_0000_0000_0000_0000) as u64
    } else {
        imm as u64
    };
    let low: i64 = (bits % 0x1_0000_0000) as i64;
    let high: i64 = (bits / 0x1_0000_0000) as i64;
    let low: i32 = if low >= 0x8000_0000 {
        (low - 0x1_0000_0000) as i32
    } else {
        low as i32
    };
    let high: i32 = if high >= 0x8000_0000 {
        (high - 0x1_0000_0000) as i32
    } else {
        high as i32
    };
    Insn { opcode: 0x18, dst: dst.num(), src: 0, off: 0, imm: low, high: Some(high) }
}

/// `dst = map_fd`, relocated by the loader into the map's address. A source
/// register of 1 asks the loader to do so.
pub fn ld_map_fd(dst: Reg, fd: i32) -> (r: Insn)
    ensures
        r == (Insn { opcode: 0x18, dst: reg_num(dst), src: 1, off: 0, imm: fd, high: Some(0) }),
{
    Insn { opcode: 0x18, dst: dst.num(), src: 1, off: 0, imm: fd, high: Some(0) }
}

// ------------------------------------------------------------------- program

/// What an instruction list under construction holds.
pub struct Asm {
    pub code: Seq<Insn>,
    /// For each jump to a label: its instruction, and the label.
    pub jumps: Seq<(int, int)>,
    /// For each label: the instruction it stands before, if it is placed.
    pub labels: Seq<Option<int>>,
}

/// A growable instruction list with jump-patching by label. You emit
/// instructions, place labels, and reference them in jumps; [`Prog::resolve`]
/// turns every label into a real offset.
#[derive(Debug)]
pub struct Prog {
    insns: Vec<Insn>,
    /// (index of the jump instruction, label it targets).
    fixups: Vec<(usize, u32)>,
    /// label id -> instruction index it points at.
    labels: Vec<Option<usize>>,
}

/// A jump target. Create with [`Prog::new_label`], place with
/// [`Prog::bind`], jump to it with the `*_to` methods.
#[derive(Debug, Clone, Copy, PartialEq, Eq, Structural)]
pub struct Label(u32);

impl Label {
    /// The number of the label.
    pub closed spec fn id(self) -> int {
        self.0 as int
    }
}

/// Placed labels, as numbers.
spec fn placed(labels: Seq<Option<usize>>) -> Seq<Option<int>> {
    labels.map_values(
        |l: Option<usize>|
            match l {
                Some(i) => Some(i as int),
                None => None,
            },
    )
}

/// Jumps to labels, as numbers.
spec fn jumps_of(fixups: Seq<(usize, u32)>) -> Seq<(int, int)> {
    fixups.map_values(|f: (usize, u32)| (f.0 as int, f.1 as int))
}

impl View for Prog {
    type V = Asm;

    closed spec fn view(&self) -> Asm {
        Asm {
            code: self.insns@,
            jumps: jumps_of(self.fixups@),
            labels: placed(self.labels@),
        }
    }
}

/// What every instruction list keeps: a label stands before an instruction or
/// at the end, and the jumps are instructions of the list, in order.
pub open spec fn asm_wf(a: Asm) -> bool {
    &&& forall|i: int|
        0 <= i < a.jumps.len() ==> 0 <= (#[trigger] a.jumps[i]).0 < a.code.len()
    &&& forall|i: int, j: int|
        0 <= i < j < a.jumps.len() ==> (#[trigger] a.jumps[i]).0 < (#[trigger] a.jumps[j]).0
    &&& forall|i: int|
        0 <= i < a.labels.len() ==> (#[trigger] a.labels[i] matches Some(at) ==> 0 <= at
            <= a.code.len())
    &&& forall|i: int|
        0 <= i < a.jumps.len() ==> slots_of(a.code[(#[trigger] a.jumps[i]).0]) == 1
}

/// Every jump is to a label of this list.
pub open spec fn jumps_known(a: Asm) -> bool {
    forall|i: int| 0 <= i < a.jumps.len() ==> 0 <= (#[trigger] a.jumps[i]).1 < a.labels.len()
}

/// How far jump number `i` has to go: from the slot behind it to the slot of
/// its label.
pub open spec fn distance(a: Asm, i: int) -> int {
    slot_at(a.code, a.labels[a.jumps[i].1]->0) - (slot_at(a.code, a.jumps[i].0) + 1)
}

/// What is wrong with jump number `i`, if anything.
pub open spec fn jump_fault(a: Asm, i: int) -> Option<Seq<char>> {
    if a.labels[a.jumps[i].1] is None {
        Some("label "@ + dec(a.jumps[i].1 as nat) + " used but never bound"@)
    } else if i16::MIN <= distance(a, i) <= i16::MAX {
        None
    } else {
        Some("jump offset "@ + signed_dec(distance(a, i)) + " out of range for i16"@)
    }
}

/// The code with its first `n` jumps going to their labels.
pub open spec fn patched(a: Asm, n: int) -> Seq<Insn>
    decreases n,
{
    if n <= 0 {
        a.code
    } else {
        let code = patched(a, n - 1);
        let at = a.jumps[n - 1].0;
        code.update(at, (Insn { off: distance(a, n - 1) as i16, ..code[at] }))
    }
}

/// The code with every jump from number `i` on going to its label, behind the
/// earlier ones; or what is wrong with the first jump that cannot.
pub open spec fn resolved_from(a: Asm, i: int) -> Result<Seq<Insn>, Seq<char>>
    decreases a.jumps.len() - i,
{
    if i >= a.jumps.len() {
        Ok(patched(a, a.jumps.len() as int))
    } else {
        match jump_fault(a, i) {
            Some(message) => Err(message),
            None => resolved_from(a, i + 1),
        }
    }
}

/// The code with every jump going to its label.
pub open spec fn resolved(a: Asm) -> Result<Seq<Insn>, Seq<char>> {
    resolved_from(a, 0)
}

/// Every jump goes from the slot behind it to the slot of its label.
pub open spec fn jumps_land(a: Asm, code: Seq<Insn>) -> bool {
    forall|i: int|
        0 <= i < a.jumps.len() ==> slot_at(code, (#[trigger] a.jumps[i]).0) + 1
            + code[a.jumps[i].0].off == slot_at(code, a.labels[a.jumps[i].1]->0)
}

/// Patching offsets moves no slot.
proof fn lemma_slot_at_patched(a: Asm, n: int, i: int)
    requires
        asm_wf(a),
        0 <= n <= a.jumps.len(),
        0 <= i <= a.code.len(),
    ensures
        patched(a, n).len() == a.code.len(),
        slot_at(patched(a, n), i) == slot_at(a.code, i),
        forall|k: int|
            0 <= k < a.code.len() ==> (#[trigger] patched(a, n)[k]).high == a.code[k].high,
    decreases n, i,
{
    if n > 0 {
        lemma_slot_at_patched(a, n - 1, i);
    }
    if i > 0 {
        lemma_slot_at_patched(a, n, i - 1);
    }
}

/// Jump number `k` keeps the offset that it was given.
proof fn lemma_patched_off(a: Asm, n: int, k: int)
    requires
        asm_wf(a),
        0 <= k < n <= a.jumps.len(),
    ensures
        patched(a, n)[a.jumps[k].0].off == distance(a, k) as i16,
    decreases n,
{
    lemma_slot_at_patched(a, n - 1, 0);
    if k < n - 1 {
        lemma_patched_off(a, n - 1, k);
        assert(a.jumps[k].0 < a.jumps[n - 1].0);
    }
}

proof fn lemma_no_faults(a: Asm, i: int)
    requires
        0 <= i <= a.jumps.len(),
        resolved_from(a, i) is Ok,
    ensures
        forall|k: int| i <= k < a.jumps.len() ==> jump_fault(a, k) is None,
        resolved_from(a, i) == Ok::<Seq<Insn>, Seq<char>>(patched(a, a.jumps.len() as int)),
    decreases a.jumps.len() - i,
{
    if i < a.jumps.len() {
        lemma_no_faults(a, i + 1);
    }
}

/// In resolved code every jump lands on the label that it names.
pub proof fn lemma_resolved_jumps_land(a: Asm)
    requires
        asm_wf(a),
        jumps_known(a),
    ensures
        resolved(a) matches Ok(code) ==> jumps_land(a, code),
{
    if resolved(a) is Ok {
        let n = a.jumps.len() as int;
        let code = patched(a, n);
        lemma_no_faults(a, 0);
        assert forall|i: int| 0 <= i < a.jumps.len() implies slot_at(
            code,
            (#[trigger] a.jumps[i]).0,
        ) + 1 + code[a.jumps[i].0].off == slot_at(code, a.labels[a.jumps[i].1]->0) by {
            assert(jump_fault(a, i) is None);
            lemma_patched_off(a, n, i);
            lemma_slot_at_patched(a, n, a.jumps[i].0);
            lemma_slot_at_patched(a, n, a.labels[a.jumps[i].1]->0);
        }
    }
}

proof fn lemma_patched_elsewhere(a: Asm, n: int, at: int)
    requires
        0 <= n <= a.jumps.len(),
        0 <= at < a.code.len(),
        forall|i: int| 0 <= i < n ==> 0 <= (#[trigger] a.jumps[i]).0 < a.code.len(),
        forall|i: int| 0 <= i < n ==> (#[trigger] a.jumps[i]).0 != at,
    ensures
        patched(a, n).len() == a.code.len(),
        patched(a, n)[at] == a.code[at],
    decreases n,
{
    if n > 0 {
        lemma_patched_elsewhere(a, n - 1, at);
        assert(0 <= a.jumps[n - 1].0 < a.code.len());
    }
}

/// Resolving changes no instruction that is not a jump to a label.
pub proof fn lemma_resolved_elsewhere(a: Asm, at: int)
    requires
        resolved(a) is Ok,
        0 <= at < a.code.len(),
        forall|i: int|
            0 <= i < a.jumps.len() ==> 0 <= (#[trigger] a.jumps[i]).0 < a.code.len(),
        forall|i: int| 0 <= i < a.jumps.len() ==> (#[trigger] a.jumps[i]).0 != at,
    ensures
        resolved(a)->Ok_0.len() == a.code.len(),
        resolved(a)->Ok_0[at] == a.code[at],
{
    lemma_no_faults(a, 0);
    lemma_patched_elsewhere(a, a.jumps.len() as int, at);
}

/// Jump number `i` has a place to go to, and it is near enough.
pub open spec fn jump_is_good(a: Asm, i: int) -> bool {
    a.labels[a.jumps[i].1] is Some && i16::MIN <= distance(a, i) <= i16::MAX
}

/// Instruction number `at` is a jump to a label.
pub open spec fn is_jump(a: Asm, at: int) -> bool {
    exists|i: int| 0 <= i < a.jumps.len() && (#[trigger] a.jumps[i]).0 == at
}

/// The code as it was emitted, with the offset of every jump to a label filled
/// in and nothing else changed.
pub open spec fn linked(a: Asm, code: Seq<Insn>) -> bool {
    &&& code.len() == a.code.len()
    &&& forall|at: int|
        0 <= at < code.len() && !is_jump(a, at) ==> #[trigger] code[at] == a.code[at]
    &&& forall|i: int|
        0 <= i < a.jumps.len() ==> code[(#[trigger] a.jumps[i]).0] == (Insn {
            off: distance(a, i) as i16,
            ..a.code[a.jumps[i].0]
        })
}

proof fn lemma_faultless(a: Asm, i: int)
    requires
        0 <= i <= a.jumps.len(),
        forall|k: int| i <= k < a.jumps.len() ==> #[trigger] jump_is_good(a, k),
    ensures
        resolved_from(a, i) == Ok::<Seq<Insn>, Seq<char>>(patched(a, a.jumps.len() as int)),
    decreases a.jumps.len() - i,
{
    if i < a.jumps.len() {
        assert(jump_is_good(a, i));
        lemma_faultless(a, i + 1);
    }
}

/// The first `n` jumps are filled in, and nothing else is changed.
proof fn lemma_patched(a: Asm, n: int, at: int)
    requires
        asm_wf(a),
        0 <= n <= a.jumps.len(),
        0 <= at < a.code.len(),
    ensures
        patched(a, n).len() == a.code.len(),
        (forall|i: int| 0 <= i < n ==> (#[trigger] a.jumps[i]).0 != at) ==> patched(a, n)[at]
            == a.code[at],
        forall|i: int|
            0 <= i < n && (#[trigger] a.jumps[i]).0 == at ==> patched(a, n)[at] == (Insn {
                off: distance(a, i) as i16,
                ..a.code[at]
            }),
    decreases n,
{
    if n > 0 {
        lemma_patched(a, n - 1, at);
        assert forall|i: int| 0 <= i < n && (#[trigger] a.jumps[i]).0 == at implies patched(
            a,
            n,
        )[at] == (Insn { off: distance(a, i) as i16, ..a.code[at] }) by {
            if i < n - 1 {
                assert(a.jumps[i].0 < a.jumps[n - 1].0);
            } else {
                assert forall|k: int| 0 <= k < n - 1 implies (#[trigger] a.jumps[k]).0 != at by {
                    assert(a.jumps[k].0 < a.jumps[n - 1].0);
                }
            }
        }
    }
}

/// Resolving succeeds exactly where every jump has a bound label that is near
/// enough. It then gives the instructions as they were emitted, but for the
/// offsets of the jumps: from the slot behind the jump to the slot of its label.
pub proof fn lemma_resolve_links(a: Asm)
    requires
        asm_wf(a),
        jumps_known(a),
    ensures
        resolved(a) is Ok <==> forall|i: int|
            0 <= i < a.jumps.len() ==> #[trigger] jump_is_good(a, i),
        resolved(a) matches Ok(code) ==> linked(a, code),
{
    let n = a.jumps.len() as int;
    if resolved(a) is Ok {
        lemma_no_faults(a, 0);
        assert forall|i: int| 0 <= i < n implies #[trigger] jump_is_good(a, i) by {
            assert(jump_fault(a, i) is None);
        }
        let code = patched(a, n);
        lemma_slot_at_patched(a, n, 0);
        assert forall|at: int| 0 <= at < code.len() && !is_jump(a, at) implies #[trigger] code[at]
            == a.code[at] by {
            lemma_patched(a, n, at);
        }
        assert forall|i: int| 0 <= i < n implies code[(#[trigger] a.jumps[i]).0] == (Insn {
            off: distance(a, i) as i16,
            ..a.code[a.jumps[i].0]
        }) by {
            lemma_patched(a, n, a.jumps[i].0);
        }
    } else if forall|i: int| 0 <= i < n ==> #[trigger] jump_is_good(a, i) {
        lemma_faultless(a, 0);
    }
}

/// The bytes of a resolved program, or why it has none.
pub open spec fn assembled(a: Asm) -> Result<Seq<u8>, Seq<char>> {
    match resolved(a) {
        Ok(code) => Ok(code_bytes(code, code.len() as int)),
        Err(message) => Err(message),
    }
}

/// The bytes of a program are the encodings of what resolving it gives, one
/// behind the other, eight for each slot; where resolving fails, so does this,
/// with the same message.
pub proof fn lemma_bytes_are_the_encodings(a: Asm)
    ensures
        match (assembled(a), resolved(a)) {
            (Ok(b), Ok(code)) => {
                &&& b.len() == 8 * slot_at(code, code.len() as int)
                &&& forall|i: int|
                    0 <= i < code.len() ==> b.subrange(
                        8 * slot_at(code, i) as int,
                        8 * slot_at(code, i + 1) as int,
                    ) == insn_bytes(#[trigger] code[i])
            },
            (Err(e), Err(message)) => e == message,
            _ => false,
        },
{
    if let Ok(code) = resolved(a) {
        let n = code.len() as int;
        if n > 0 {
            lemma_code_bytes(code, 0, n);
        }
        assert forall|i: int| 0 <= i < n implies code_bytes(code, n).subrange(
            8 * slot_at(code, i) as int,
            8 * slot_at(code, i + 1) as int,
        ) == insn_bytes(#[trigger] code[i]) by {
            lemma_code_bytes(code, i, n);
        }
    }
}

/// A later instruction starts at a later slot.
pub proof fn lemma_slot_at_monotone(code: Seq<Insn>, i: int, j: int)
    requires
        0 <= i <= j,
    ensures
        slot_at(code, i) + (j - i) <= slot_at(code, j),
    decreases j,
{
    if i < j {
        lemma_slot_at_monotone(code, i, j - 1);
    }
}

impl Default for Prog {
    fn default() -> (r: Self)
        ensures
            r@ == (Asm { code: Seq::empty(), jumps: Seq::empty(), labels: Seq::empty() }),
    {
        Prog::new()
    }
}

impl Prog {
    pub fn new() -> (r: Self)
        ensures
            r@ == (Asm { code: Seq::empty(), jumps: Seq::empty(), labels: Seq::empty() }),
            asm_wf(r@),
    {
        let p = Prog { insns: Vec::new(), fixups: Vec::new(), labels: Vec::new() };
        assert(p@.jumps =~= Seq::empty());
        assert(p@.labels =~= Seq::empty());
        p
    }

    /// Append a fully-formed instruction.
    pub fn push(&mut self, insn: Insn) -> (r: &mut Self)
        requires
            asm_wf(old(self)@),
        ensures
            r@ == (Asm { code: old(self)@.code.push(insn), ..old(self)@ }),
            asm_wf(r@),
            *final(self) == *final(r),
    {
        self.insns.push(insn);
        proof {
            lemma_push_keeps(old(self)@, insn);
        }
        self
    }

    /// Reserve a new label id (not yet placed).
    pub fn new_label(&mut self) -> (r: Label)
        requires
            asm_wf(old(self)@),
            old(self)@.labels.len() <= u32::MAX,
        ensures
            final(self)@ == (Asm { labels: old(self)@.labels.push(None), ..old(self)@ }),
            r.id() == old(self)@.labels.len(),
            asm_wf(final(self)@),
    {
        let ghost before = self@;
        let id: usize = self.labels.len();
        self.labels.push(None);
        assert(self@.labels =~= before.labels.push(None));
        Label(id as u32)
    }

    /// Bind a label to the current position (the next instruction emitted).
    pub fn bind(&mut self, label: Label)
        requires
            asm_wf(old(self)@),
            0 <= label.id() < old(self)@.labels.len(),
        ensures
            final(self)@ == (Asm {
                labels: old(self)@.labels.update(
                    label.id(),
                    Some(old(self)@.code.len() as int),
                ),
                ..old(self)@
            }),
            asm_wf(final(self)@),
    {
        let ghost before = self@;
        let here: usize = self.insns.len();
        self.labels.set(label.0 as usize, Some(here));
        assert(self@.labels =~= before.labels.update(label.id(), Some(here as int)));
        proof {
            lemma_bound_keeps(before, label.id());
        }
    }

    /// Append a jump of one slot to a label.
    fn jump_to(&mut self, insn: Insn, label: Label)
        requires
            asm_wf(old(self)@),
            slots_of(insn) == 1,
        ensures
            final(self)@ == jumping(old(self)@, insn, label.id()),
            asm_wf(final(self)@),
    {
        let ghost before = self@;
        self.fixups.push((self.insns.len(), label.0));
        self.insns.push(insn);
        proof {
            assert(self@.jumps =~= before.jumps.push((before.code.len() as int, label.id())));
            lemma_jumping_keeps(before, insn, label.id());
        }
    }

    /// `if dst op imm goto label`.
    pub fn jmp_imm_to(&mut self, op: JmpOp, dst: Reg, imm: i32, label: Label) -> (r: &mut Self)
        requires
            asm_wf(old(self)@),
        ensures
            r@ == jumping(
                old(self)@,
                narrow((0x05 + jmpop_bits(op)) as u8, reg_num(dst), 0, 0, imm),
                label.id(),
            ),
            asm_wf(r@),
            *final(self) == *final(r),
    {
        self.jump_to(jmp_imm(op, dst, imm, 0), label);
        self
    }

    /// `if dst op src goto label`.
    pub fn jmp_reg_to(&mut self, op: JmpOp, dst: Reg, src: Reg, label: Label) -> (r: &mut Self)
        requires
            asm_wf(old(self)@),
        ensures
            r@ == jumping(
                old(self)@,
                narrow((0x0d + jmpop_bits(op)) as u8, reg_num(dst), reg_num(src), 0, 0),
                label.id(),
            ),
            asm_wf(r@),
            *final(self) == *final(r),
    {
        self.jump_to(jmp_reg(op, dst, src, 0), label);
        self
    }

    /// `goto label`.
    pub fn ja_to(&mut self, label: Label) -> (r: &mut Self)
        requires
            asm_wf(old(self)@),
        ensures
            r@ == jumping(old(self)@, narrow(0x05, 0, 0, 0, 0), label.id()),
            asm_wf(r@),
            *final(self) == *final(r),
    {
        self.jump_to(ja(0), label);
        self
    }

    /// Number of instructions (a wide one counts as one here).
    pub fn len(&self) -> (r: usize)
        ensures
            r == self@.code.len(),
    {
        self.insns.len()
    }

    pub fn is_empty(&self) -> (r: bool)
        ensures
            r == (self@.code.len() == 0),
    {
        self.insns.len() == 0
    }

    /// Resolve labels and return the instruction list, or an error naming the
    /// first label that was referenced but never bound, or the first jump that
    /// is too far.
    pub fn resolve(self) -> (r: Result<Vec<Insn>, String>)
        requires
            asm_wf(self@),
            jumps_known(self@),
            slot_at(self@.code, self@.code.len() as int) < isize::MAX,
        ensures
            match r {
                Ok(code) => {
                    &&& resolved(self@) == Ok::<Seq<Insn>, Seq<char>>(code@)
                    &&& linked(self@, code@)
                    &&& jumps_land(self@, code@)
                },
                Err(e) => resolved(self@) == Err::<Seq<Insn>, Seq<char>>(e@),
            },
    {
        let ghost a = self@;
        let Prog { insns, fixups, labels } = self;
        let mut insns = insns;
        // Jump offsets are measured in slots, so first map each instruction
        // index to its starting slot.
        let slot_of = starts(&insns);
        let mut i: usize = 0;
        while i < fixups.len()
            invariant
                0 <= i <= fixups@.len(),
                asm_wf(a),
                jumps_known(a),
                a.jumps == jumps_of(fixups@),
                a.labels == placed(labels@),
                slot_at(a.code, a.code.len() as int) < isize::MAX,
                slot_of@.len() == a.code.len() + 1,
                forall|k: int| 0 <= k <= a.code.len() ==> #[trigger] slot_of@[k] == slot_at(a.code, k),
                insns@ == patched(a, i as int),
                insns@.len() == a.code.len(),
                resolved(a) == resolved_from(a, i as int),
                resolved(self@) == resolved(a),
            decreases fixups@.len() - i,
        {
            let (at, label) = fixups[i];
            assert(a.jumps[i as int] == (at as int, label as int));
            assert(a.labels[label as int] == match labels@[label as int] {
                Some(t) => Some(t as int),
                None => None,
            });
            match labels[label as usize] {
                None => {
                    let mut e = owned("label ");
                    push_dec(&mut e, label as u64);
                    e.append(" used but never bound");
                    return Err(e);
                },
                Some(target) => {
                    proof {
                        assert(slot_of@[at as int] == slot_at(a.code, at as int));
                        assert(slot_of@[target as int] == slot_at(a.code, target as int));
                        lemma_slot_at_monotone(a.code, at as int, a.code.len() as int);
                        lemma_slot_at_monotone(a.code, target as int, a.code.len() as int);
                    }
                    // offset = target slot - slot after this jump
                    let from: isize = slot_of[at] as isize + 1;
                    let to: isize = slot_of[target] as isize;
                    let off: isize = to - from;
                    assert(off == distance(a, i as int));
                    if off < -0x8000 || off > 0x7fff {
                        let mut e = owned("jump offset ");
                        push_signed(&mut e, off as i64);
                        e.append(" out of range for i16");
                        return Err(e);
                    }
                    let mut insn = insns[at];
                    insn.off = off as i16;
                    insns.set(at, insn);
                },
            }
            i += 1;
        }
        proof {
            lemma_resolved_jumps_land(a);
            lemma_resolve_links(a);
        }
        Ok(insns)
    }

    /// Resolve and flatten to raw bytes.
    pub fn to_bytes(self) -> (r: Result<Vec<u8>, String>)
        requires
            asm_wf(self@),
            jumps_known(self@),
            slot_at(self@.code, self@.code.len() as int) < isize::MAX,
        ensures
            match (r, assembled(self@)) {
                (Ok(bytes), Ok(b)) => bytes@ == b,
                (Err(e), Err(message)) => e@ == message,
                _ => false,
            },
    {
        let insns = self.resolve()?;
        let mut out: Vec<u8> = Vec::new();
        let mut i: usize = 0;
        while i < insns.len()
            invariant
                0 <= i <= insns@.len(),
                out@ == code_bytes(insns@, i as int),
            decreases insns@.len() - i,
        {
            insns[i].encode(&mut out);
            i += 1;
        }
        Ok(out)
    }
}

/// A jump to a label behind what is there.
pub open spec fn jumping(a: Asm, insn: Insn, label: int) -> Asm {
    Asm {
        code: a.code.push(insn),
        jumps: a.jumps.push((a.code.len() as int, label)),
        labels: a.labels,
    }
}

proof fn lemma_push_keeps(a: Asm, insn: Insn)
    requires
        asm_wf(a),
    ensures
        asm_wf(Asm { code: a.code.push(insn), ..a }),
{
}

proof fn lemma_bound_keeps(a: Asm, label: int)
    requires
        asm_wf(a),
        0 <= label < a.labels.len(),
    ensures
        asm_wf(Asm { labels: a.labels.update(label, Some(a.code.len() as int)), ..a }),
{
    let b = Asm { labels: a.labels.update(label, Some(a.code.len() as int)), ..a };
    assert forall|i: int| 0 <= i < b.labels.len() implies (#[trigger] b.labels[i] matches Some(at)
        ==> 0 <= at <= b.code.len()) by {
        if i != label {
            assert(b.labels[i] == a.labels[i]);
        }
    }
}

proof fn lemma_jumping_keeps(a: Asm, insn: Insn, label: int)
    requires
        asm_wf(a),
        slots_of(insn) == 1,
    ensures
        asm_wf(jumping(a, insn, label)),
{
    let b = jumping(a, insn, label);
    assert forall|i: int, j: int| 0 <= i < j < b.jumps.len() implies (#[trigger] b.jumps[i]).0 < (
    #[trigger] b.jumps[j]).0 by {
        if j == a.jumps.len() {
            assert(a.jumps[i].0 < a.code.len());
        }
    }
}

/// The slot at which each instruction starts, and one past the end.
fn starts(insns: &Vec<Insn>) -> (r: Vec<usize>)
    requires
        slot_at(insns@, insns@.len() as int) < isize::MAX,
    ensures
        r@.len() == insns@.len() + 1,
        forall|k: int| 0 <= k <= insns@.len() ==> #[trigger] r@[k] == slot_at(insns@, k),
{
    let mut slot_of: Vec<usize> = Vec::new();
    let mut slot: usize = 0;
    let mut i: usize = 0;
    while i < insns.len()
        invariant
            0 <= i <= insns@.len(),
            slot_of@.len() == i,
            slot == slot_at(insns@, i as int),
            slot_at(insns@, insns@.len() as int) < isize::MAX,
            forall|k: int| 0 <= k < i ==> #[trigger] slot_of@[k] == slot_at(insns@, k),
        decreases insns@.len() - i,
    {
        slot_of.push(slot);
        proof {
            lemma_slot_at_monotone(insns@, i + 1, insns@.len() as int);
        }
        slot = slot + insns[i].slots();
        i += 1;
    }
    slot_of.push(slot);
    slot_of
}

// --------------------------------------------------------------- disassembler

/// The name of an arithmetic operation, by its opcode bits.
pub open spec fn alu_name_text(op: u8) -> Seq<char> {
    if op == 0x00 {
        "add"@
    } else if op == 0x10 {
        "sub"@
    } else if op == 0x20 {
        "mul"@
    } else if op == 0x30 {
        "div"@
    } else if op == 0x40 {
        "or"@
    } else if op == 0x50 {
        "and"@
    } else if op == 0x60 {
        "lsh"@
    } else if op == 0x70 {
        "rsh"@
    } else if op == 0x80 {
        "neg"@
    } else if op == 0x90 {
        "mod"@
    } else if op == 0xa0 {
        "xor"@
    } else if op == 0xb0 {
        "mov"@
    } else if op == 0xc0 {
        "arsh"@
    } else {
        "alu?"@
    }
}

fn alu_name(op: u8) -> (r: &'static str)
    ensures
        r@ == alu_name_text(op),
{
    if op == 0x00 {
        "add"
    } else if op == 0x10 {
        "sub"
    } else if op == 0x20 {
        "mul"
    } else if op == 0x30 {
        "div"
    } else if op == 0x40 {
        "or"
    } else if op == 0x50 {
        "and"
    } else if op == 0x60 {
        "lsh"
    } else if op == 0x70 {
        "rsh"
    } else if op == 0x80 {
        "neg"
    } else if op == 0x90 {
        "mod"
    } else if op == 0xa0 {
        "xor"
    } else if op == 0xb0 {
        "mov"
    } else if op == 0xc0 {
        "arsh"
    } else {
        "alu?"
    }
}

/// The sign of a comparison, by its opcode bits.
pub open spec fn jmp_name_text(op: u8) -> Seq<char> {
    if op == 0x10 {
        "=="@
    } else if op == 0x20 {
        ">"@
    } else if op == 0x30 {
        ">="@
    } else if op == 0x40 {
        "&"@
    } else if op == 0x50 {
        "!="@
    } else if op == 0x60 {
        "s>"@
    } else if op == 0x70 {
        "s>="@
    } else if op == 0xa0 {
        "<"@
    } else if op == 0xb0 {
        "<="@
    } else if op == 0xc0 {
        "s<"@
    } else if op == 0xd0 {
        "s<="@
    } else {
        "jmp?"@
    }
}

fn jmp_name(op: u8) -> (r: &'static str)
    ensures
        r@ == jmp_name_text(op),
{
    if op == 0x10 {
        "=="
    } else if op == 0x20 {
        ">"
    } else if op == 0x30 {
        ">="
    } else if op == 0x40 {
        "&"
    } else if op == 0x50 {
        "!="
    } else if op == 0x60 {
        "s>"
    } else if op == 0x70 {
        "s>="
    } else if op == 0xa0 {
        "<"
    } else if op == 0xb0 {
        "<="
    } else if op == 0xc0 {
        "s<"
    } else if op == 0xd0 {
        "s<="
    } else {
        "jmp?"
    }
}

/// The width of a memory access, by the opcode.
pub open spec fn size_name_text(opcode: u8) -> Seq<char> {
    let bits = opcode / 8 % 4;
    if bits == 2 {
        "8"@
    } else if bits == 1 {
        "16"@
    } else if bits == 0 {
        "32"@
    } else {
        "64"@
    }
}

fn size_name(opcode: u8) -> (r: &'static str)
    ensures
        r@ == size_name_text(opcode),
{
    let bits: u8 = opcode / 8 % 4;
    if bits == 2 {
        "8"
    } else if bits == 1 {
        "16"
    } else if bits == 0 {
        "32"
    } else {
        "64"
    }
}

/// A register.
pub open spec fn reg_text(n: u8) -> Seq<char> {
    seq!['r'] + dec(n as nat)
}

/// A number with its sign, also where it is not negative.
pub open spec fn plus_text(n: int) -> Seq<char> {
    if n < 0 {
        signed_dec(n)
    } else {
        seq!['+'] + signed_dec(n)
    }
}

/// A memory operand: a register and an offset.
pub open spec fn place_text(reg: u8, off: i16) -> Seq<char> {
    seq!['['] + reg_text(reg) + seq![' '] + plus_text(off as int) + seq![']']
}

/// The second operand of an instruction: a register if bit 3 of the opcode is
/// set, the immediate otherwise.
pub open spec fn operand_text(insn: Insn) -> Seq<char> {
    if insn.opcode / 8 % 2 == 1 {
        reg_text(insn.src)
    } else {
        signed_dec(insn.imm as int)
    }
}

/// An arithmetic instruction; `suffix` tells the 32-bit ones.
pub open spec fn alu_text(insn: Insn, suffix: Seq<char>) -> Seq<char> {
    let op = (insn.opcode / 16 * 16) as u8;
    if op == 0xd0 {
        "bswap"@ + signed_dec(insn.imm as int) + seq![' '] + reg_text(insn.dst)
    } else if op == 0x80 {
        alu_name_text(op) + suffix + seq![' '] + reg_text(insn.dst)
    } else {
        alu_name_text(op) + suffix + seq![' '] + reg_text(insn.dst) + ", "@ + operand_text(insn)
    }
}

/// A jump, a call or an exit.
pub open spec fn jmp_text(insn: Insn) -> Seq<char> {
    let op = (insn.opcode / 16 * 16) as u8;
    if op == 0x90 {
        "exit"@
    } else if op == 0x80 {
        "call "@ + signed_dec(insn.imm as int)
    } else if op == 0 {
        "goto "@ + plus_text(insn.off as int)
    } else {
        "if "@ + reg_text(insn.dst) + seq![' '] + jmp_name_text(op) + seq![' '] + operand_text(insn)
            + " goto "@ + plus_text(insn.off as int)
    }
}

/// The high half of an immediate; zero where an instruction has none.
pub open spec fn high_of(insn: Insn) -> i32 {
    match insn.high {
        Some(high) => high,
        None => 0,
    }
}

/// One instruction as assembly.
pub open spec fn insn_text(insn: Insn) -> Seq<char> {
    let class = insn.opcode % 8;
    let size = size_name_text(insn.opcode);
    if class == 4 {
        alu_text(insn, "32"@)
    } else if class == 7 {
        alu_text(insn, Seq::empty())
    } else if insn.opcode == 0x18 && insn.src == 1 {
        "ld64 "@ + reg_text(insn.dst) + ", map_fd("@ + signed_dec(insn.imm as int) + ")"@
    } else if insn.opcode == 0x18 {
        "ld64 "@ + reg_text(insn.dst) + ", "@ + signed_dec(join_halves(insn.imm, high_of(insn)))
    } else if class == 1 {
        "ldx"@ + size + seq![' '] + reg_text(insn.dst) + ", "@ + place_text(insn.src, insn.off)
    } else if class == 2 {
        "st"@ + size + seq![' '] + place_text(insn.dst, insn.off) + ", "@ + signed_dec(
            insn.imm as int,
        )
    } else if class == 3 {
        "stx"@ + size + seq![' '] + place_text(insn.dst, insn.off) + ", "@ + reg_text(insn.src)
    } else if class == 5 {
        jmp_text(insn)
    } else {
        "<unknown opcode 0x"@ + hex_padded(insn.opcode as nat, 2) + ">"@
    }
}

/// The first `n` instructions, one per line, each behind its slot number.
pub open spec fn code_text(code: Seq<Insn>, n: int) -> Seq<char>
    decreases n,
{
    if n <= 0 {
        Seq::empty()
    } else {
        code_text(code, n - 1) + right_aligned(dec(slot_at(code, n - 1)), 4) + ": "@ + insn_text(
            code[n - 1],
        ) + seq!['\n']
    }
}

fn push_reg(out: &mut String, n: u8)
    ensures
        final(out)@ == old(out)@ + reg_text(n),
{
    let ghost before = out@;
    out.push('r');
    push_dec(out, n as u64);
    assert(out@ =~= before + reg_text(n));
}

fn push_plus(out: &mut String, n: i16)
    ensures
        final(out)@ == old(out)@ + plus_text(n as int),
{
    let ghost before = out@;
    if n >= 0 {
        out.push('+');
    }
    push_signed(out, n as i64);
    assert(out@ =~= before + plus_text(n as int));
}

fn push_place(out: &mut String, reg: u8, off: i16)
    ensures
        final(out)@ == old(out)@ + place_text(reg, off),
{
    broadcast use group_glue;

    out.push('[');
    push_reg(out, reg);
    out.push(' ');
    push_plus(out, off);
    out.push(']');
}

fn push_operand(out: &mut String, insn: &Insn)
    ensures
        final(out)@ == old(out)@ + operand_text(*insn),
{
    if insn.opcode / 8 % 2 == 1 {
        push_reg(out, insn.src);
    } else {
        push_signed(out, insn.imm as i64);
    }
}

fn disasm_alu(insn: &Insn, suffix: &str) -> (out: String)
    ensures
        out@ == alu_text(*insn, suffix@),
{
    broadcast use group_glue;

    let op: u8 = insn.opcode / 16 * 16;
    if op == 0xd0 {
        let mut out = owned("bswap");
        push_signed(&mut out, insn.imm as i64);
        out.push(' ');
        push_reg(&mut out, insn.dst);
        return out;
    }
    let mut out = owned(alu_name(op));
    out.append(suffix);
    out.push(' ');
    push_reg(&mut out, insn.dst);
    if op != 0x80 {
        out.append(", ");
        push_operand(&mut out, insn);
    }
    out
}

fn disasm_jmp(insn: &Insn) -> (out: String)
    ensures
        out@ == jmp_text(*insn),
{
    broadcast use group_glue;

    let op: u8 = insn.opcode / 16 * 16;
    if op == 0x90 {
        owned("exit")
    } else if op == 0x80 {
        let mut out = owned("call ");
        push_signed(&mut out, insn.imm as i64);
        out
    } else if op == 0 {
        let mut out = owned("goto ");
        push_plus(&mut out, insn.off);
        out
    } else {
        let mut out = owned("if ");
        push_reg(&mut out, insn.dst);
        out.push(' ');
        out.append(jmp_name(op));
        out.push(' ');
        push_operand(&mut out, insn);
        out.append(" goto ");
        push_plus(&mut out, insn.off);
        out
    }
}

/// Render one instruction as human-readable assembly, roughly in
/// `llvm-objdump`'s eBPF syntax.
pub fn disasm(insn: &Insn) -> (r: String)
    ensures
        r@ == insn_text(*insn),
{
    broadcast use group_glue;

    let class: u8 = insn.opcode % 8;
    if class == 4 {
        disasm_alu(insn, "32")
    } else if class == 7 {
        let suffix = String::new();
        disasm_alu(insn, &suffix)
    } else if insn.opcode == 0x18 {
        let mut out = owned("ld64 ");
        push_reg(&mut out, insn.dst);
        if insn.src == 1 {
            out.append(", map_fd(");
            push_signed(&mut out, insn.imm as i64);
            out.append(")");
        } else {
            let high: i64 = match insn.high {
                Some(high) => high as i64,
                None => 0,
            };
            let low: i64 = if insn.imm < 0 {
                insn.imm as i64 + 0x1_0000_0000
            } else {
                insn.imm as i64
            };
            out.append(", ");
            push_signed(&mut out, high * 0x1_0000_0000 + low);
        }
        out
    } else if class == 1 {
        let mut out = owned("ldx");
        out.append(size_name(insn.opcode));
        out.push(' ');
        push_reg(&mut out, insn.dst);
        out.append(", ");
        push_place(&mut out, insn.src, insn.off);
        out
    } else if class == 2 {
        let mut out = owned("st");
        out.append(size_name(insn.opcode));
        out.push(' ');
        push_place(&mut out, insn.dst, insn.off);
        out.append(", ");
        push_signed(&mut out, insn.imm as i64);
        out
    } else if class == 3 {
        let mut out = owned("stx");
        out.append(size_name(insn.opcode));
        out.push(' ');
        push_place(&mut out, insn.dst, insn.off);
        out.append(", ");
        push_reg(&mut out, insn.src);
        out
    } else if class == 5 {
        disasm_jmp(insn)
    } else {
        let mut out = owned("<unknown opcode 0x");
        push_hex_padded(&mut out, insn.opcode as u64, 2);
        out.append(">");
        out
    }
}

/// Disassemble a whole program, one instruction per line with slot numbers.
pub fn disasm_prog(insns: &[Insn]) -> (r: String)
    requires
        slot_at(insns@, insns@.len() as int) <= usize::MAX,
    ensures
        r@ == code_text(insns@, insns@.len() as int),
{
    let mut out = String::new();
    let mut slot: usize = 0;
    let mut i: usize = 0;
    while i < insns.len()
        invariant
            0 <= i <= insns@.len(),
            slot == slot_at(insns@, i as int),
            slot_at(insns@, insns@.len() as int) <= usize::MAX,
            out@ == code_text(insns@, i as int),
        decreases insns@.len() - i,
    {
        broadcast use group_glue;

        push_slot_number(&mut out, slot);
        out.append(": ");
        let line = disasm(&insns[i]);
        out.append(&line);
        out.push('\n');
        proof {
            lemma_slot_at_monotone(insns@, i + 1, insns@.len() as int);
        }
        slot = slot + insns[i].slots();
        i += 1;
    }
    out
}

/// Append a number, right-aligned over four characters.
fn push_slot_number(out: &mut String, n: usize)
    ensures
        final(out)@ == old(out)@ + right_aligned(dec(n as nat), 4),
{
    broadcast use group_glue;

    let mut digits = String::new();
    push_dec(&mut digits, n as u64);
    proof {
        reveal_with_fuel(dec, 5);
        reveal_with_fuel(right_aligned, 5);
        lemma_dec_len(n as nat);
    }
    if n < 10 {
        out.append("   ");
    } else if n < 100 {
        out.append("  ");
    } else if n < 1000 {
        out.append(" ");
    }
    out.append(&digits);
    proof {
        reveal_strlit(" ");
        reveal_strlit("  ");
        reveal_strlit("   ");
        let d = dec(n as nat);
        assert(seq![' '] + (seq![' '] + (seq![' '] + d)) =~= "   "@ + d);
        assert(seq![' '] + (seq![' '] + d) =~= "  "@ + d);
        assert(seq![' '] + d =~= " "@ + d);
    }
}

/// How many digits a number has, as far as alignment needs to know.
proof fn lemma_dec_len(n: nat)
    ensures
        n < 10 <==> dec(n).len() == 1,
        10 <= n < 100 <==> dec(n).len() == 2,
        100 <= n < 1000 <==> dec(n).len() == 3,
        n >= 1000 <==> dec(n).len() >= 4,
        dec(n).len() >= 1,
    decreases n,
{
    if n >= 10 {
        lemma_dec_len(n / 10);
    }
}

} // verus!
