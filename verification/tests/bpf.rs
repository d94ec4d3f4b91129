//! Instruction encoding, labels and the disassembler.

use honeyc::bpf::{
    alu64_imm, call, disasm, exit, jmp_imm, ld_imm64, ld_map_fd, ldx_mem, mov64_imm, mov64_reg,
    stx_mem, AluOp, Helper, Insn, JmpOp, Prog, Reg, Size,
};

/// The source register that asks the loader for a map.
const PSEUDO_MAP_FD: u8 = 1;

fn bytes(insn: Insn) -> Vec<u8> {
    let mut v = Vec::new();
    insn.encode(&mut v);
    v
}

#[test]
fn mov64_imm_encoding() {
    // mov r1, 24  ->  b7 01 00 00 18 00 00 00
    assert_eq!(bytes(mov64_imm(Reg::R1, 24)), [0xb7, 0x01, 0, 0, 0x18, 0, 0, 0]);
}

#[test]
fn mov64_reg_encoding() {
    // mov r6, r0  ->  bf 06 00 00 00 00 00 00
    assert_eq!(bytes(mov64_reg(Reg::R6, Reg::R0)), [0xbf, 0x06, 0, 0, 0, 0, 0, 0]);
}

#[test]
fn reg_byte_packs_src_high_dst_low() {
    // mov r3, r5  ->  reg byte = (5<<4)|3 = 0x53
    assert_eq!(bytes(mov64_reg(Reg::R3, Reg::R5))[1], 0x53);
}

#[test]
fn exit_encoding() {
    assert_eq!(bytes(exit()), [0x95, 0, 0, 0, 0, 0, 0, 0]);
}

#[test]
fn call_encoding() {
    // call bpf_get_current_pid_tgid (14) -> 85 00 00 00 0e 00 00 00
    assert_eq!(bytes(call(Helper::GetCurrentPidTgid)), [0x85, 0, 0, 0, 0x0e, 0, 0, 0]);
}

#[test]
fn alu64_rsh_imm_encoding() {
    // rsh r0, 32 -> 77 00 00 00 20 00 00 00
    assert_eq!(bytes(alu64_imm(AluOp::Rsh, Reg::R0, 32)), [0x77, 0, 0, 0, 0x20, 0, 0, 0]);
}

#[test]
fn alu64_add_imm_encoding() {
    // add r1, 8 -> 07 01 00 00 08 00 00 00
    assert_eq!(bytes(alu64_imm(AluOp::Add, Reg::R1, 8)), [0x07, 0x01, 0, 0, 0x08, 0, 0, 0]);
}

#[test]
fn stx_word_encoding() {
    // stxw [r6+0], r0 -> 63 06 00 00 00 00 00 00
    assert_eq!(bytes(stx_mem(Size::W, Reg::R6, 0, Reg::R0)), [0x63, 0x06, 0, 0, 0, 0, 0, 0]);
    // offset is little-endian in bytes 2-3
    assert_eq!(bytes(stx_mem(Size::W, Reg::R6, 4, Reg::R0))[2..4], [0x04, 0x00]);
}

#[test]
fn ldx_dw_negative_offset_is_sign_extended() {
    // ldxdw r2, [r10-8] -> off = -8 = 0xfff8 LE
    let v = bytes(ldx_mem(Size::DW, Reg::R2, Reg::R10, -8));
    assert_eq!(v[0], 0x79); // LDX|DW|MEM
    assert_eq!(&v[2..4], &[0xf8, 0xff]);
}

#[test]
fn ld_imm64_is_two_slots() {
    // ld64 r1, 0x1_0000_0002
    let insn = ld_imm64(Reg::R1, 0x1_0000_0002);
    assert_eq!(insn.slots(), 2);
    let v = bytes(insn);
    assert_eq!(v.len(), 16);
    assert_eq!(v[0], 0x18); // LD|DW|IMM
    assert_eq!(&v[4..8], &2i32.to_le_bytes()); // low 32
    assert_eq!(&v[8..12], &[0, 0, 0, 0]); // second slot opcode zero
    assert_eq!(&v[12..16], &1i32.to_le_bytes()); // high 32
}

#[test]
fn ld_map_fd_sets_pseudo_source() {
    // ld64 r1, map_fd(7) -> src reg nibble = 1 (PSEUDO_MAP_FD)
    let v = bytes(ld_map_fd(Reg::R1, 7));
    assert_eq!(v.len(), 16);
    assert_eq!(v[0], 0x18);
    assert_eq!(v[1] >> 4, PSEUDO_MAP_FD);
    assert_eq!(&v[4..8], &7i32.to_le_bytes());
}

#[test]
fn forward_jump_offset_counts_slots_after_the_jump() {
    // jump over a single mov, landing on exit:
    //   0: if r0 == 0 goto +1
    //   1: mov r0, 1
    //   2: exit
    let mut p = Prog::new();
    let end = p.new_label();
    p.jmp_imm_to(JmpOp::Eq, Reg::R0, 0, end);
    p.push(mov64_imm(Reg::R0, 1));
    p.bind(end);
    p.push(exit());
    let insns = p.resolve().unwrap();
    assert_eq!(insns[0].off, 1);
}

#[test]
fn jump_offset_accounts_for_wide_instructions() {
    // A wide LD_IMM64 between the jump and its target counts as 2 slots.
    //   slot 0: if r0 == 0 goto target
    //   slot 1-2: ld64 r1, big
    //   slot 3: target -> exit
    let mut p = Prog::new();
    let target = p.new_label();
    p.jmp_imm_to(JmpOp::Eq, Reg::R0, 0, target);
    p.push(ld_imm64(Reg::R1, 0x1_0000_0000));
    p.bind(target);
    p.push(exit());
    let insns = p.resolve().unwrap();
    // from = slot 0 + 1 = 1; to = slot 3; off = 2
    assert_eq!(insns[0].off, 2);
}

#[test]
fn backward_jump_is_negative() {
    //   0: mov r0, 0
    //   1: goto -2   (back to slot 0)
    let mut p = Prog::new();
    let top = p.new_label();
    p.bind(top);
    p.push(mov64_imm(Reg::R0, 0));
    p.ja_to(top);
    let insns = p.resolve().unwrap();
    // from = 1 + 1 = 2; to = 0; off = -2
    assert_eq!(insns[1].off, -2);
}

#[test]
fn unbound_label_is_an_error() {
    let mut p = Prog::new();
    let l = p.new_label();
    p.ja_to(l);
    assert!(p.resolve().is_err());
}

#[test]
fn disasm_reads_back_key_instructions() {
    assert_eq!(disasm(&mov64_imm(Reg::R1, 24)), "mov r1, 24");
    assert_eq!(disasm(&mov64_reg(Reg::R6, Reg::R0)), "mov r6, r0");
    assert_eq!(disasm(&exit()), "exit");
    assert_eq!(disasm(&call(Helper::RingbufSubmit)), "call 132");
    assert_eq!(disasm(&alu64_imm(AluOp::Rsh, Reg::R0, 32)), "rsh r0, 32");
    assert_eq!(disasm(&stx_mem(Size::W, Reg::R6, 4, Reg::R0)), "stx32 [r6 +4], r0");
    assert_eq!(disasm(&ld_map_fd(Reg::R1, 0)), "ld64 r1, map_fd(0)");
    assert_eq!(disasm(&jmp_imm(JmpOp::Eq, Reg::R0, 0, 3)), "if r0 == 0 goto +3");
}