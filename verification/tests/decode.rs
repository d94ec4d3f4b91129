//! From bytecode back to instructions.

use honeyc::bpf::{
    alu32_imm, alu64_imm, decode, disasm_prog, exit, ja, jmp_imm, ld_imm64, ld_map_fd, ldx_mem,
    mov64_imm, st_mem, stx_mem, AluOp, Insn, JmpOp, Prog, Reg, Size,
};
use honeyc::codegen::compile;
use honeyc::parser::parse;

fn encoded(code: &[Insn]) -> Vec<u8> {
    let mut out = Vec::new();
    for insn in code {
        insn.encode(&mut out);
    }
    out
}

#[test]
fn decoding_undoes_encoding() {
    let code = vec![
        mov64_imm(Reg::R0, -1),
        alu64_imm(AluOp::Add, Reg::R9, i32::MIN),
        ld_imm64(Reg::R1, i64::MIN),
        ld_map_fd(Reg::R2, 7),
        ldx_mem(Size::B, Reg::R3, Reg::R10, -512),
        stx_mem(Size::DW, Reg::R10, i16::MIN, Reg::R4),
        st_mem(Size::H, Reg::R10, i16::MAX, 258),
        jmp_imm(JmpOp::Slt, Reg::R5, 3, -2),
        ja(-1),
        exit(),
    ];
    assert_eq!(decode(&encoded(&code)), Some(code));
    assert_eq!(decode(&[]), Some(vec![]));
}

#[test]
fn part_of_an_instruction_is_not_decoded() {
    let bytes = encoded(&[mov64_imm(Reg::R0, 0), exit()]);
    assert_eq!(decode(&bytes[..15]), None);
    assert_eq!(decode(&bytes[..8]), Some(vec![mov64_imm(Reg::R0, 0)]));
}

#[test]
fn half_of_a_wide_instruction_is_not_decoded() {
    let bytes = encoded(&[ld_imm64(Reg::R1, 1)]);
    assert_eq!(bytes.len(), 16);
    assert_eq!(decode(&bytes[..8]), None);
}

#[test]
fn compiled_code_decodes() {
    let src = "event E { a: u32 } probe tracepoint(\"s\", \"n\") { emit E { a: tid() }; }";
    let c = compile(&parse(src).unwrap()).unwrap();
    let code = decode(&c.bytecode).unwrap();
    assert_eq!(encoded(&code), c.bytecode);
    let text = disasm_prog(&code);
    assert!(text.starts_with("   0: stx64 [r10 -8], r1\n"), "{text}");
    assert!(text.ends_with("  14: mov r0, 0\n  15: exit\n"), "{text}");
}

#[test]
fn a_jump_too_far_is_an_error() {
    let mut p = Prog::new();
    let end = p.new_label();
    p.ja_to(end);
    for _ in 0..32768 {
        p.push(exit());
    }
    p.bind(end);
    p.push(exit());
    assert_eq!(p.to_bytes().unwrap_err(), "jump offset 32768 out of range for i16");
}

#[test]
fn the_longest_jump_is_encoded() {
    let mut p = Prog::new();
    let end = p.new_label();
    p.ja_to(end);
    for _ in 0..32767 {
        p.push(exit());
    }
    p.bind(end);
    p.push(exit());
    let code = p.resolve().unwrap();
    assert_eq!(code[0], ja(32767));
}

#[test]
fn the_lower_half_has_operations_of_its_own() {
    let insn = alu32_imm(AluOp::Add, Reg::R1, 5);
    assert_eq!(encoded(&[insn]), vec![0x04, 0x01, 0, 0, 5, 0, 0, 0]);
    assert_eq!(disasm_prog(&[insn]), "   0: add32 r1, 5\n");
}

fn jumping() -> Prog {
    let mut p = Prog::new();
    let end = p.new_label();
    p.push(mov64_imm(Reg::R0, 1));
    p.jmp_imm_to(JmpOp::Eq, Reg::R0, 0, end);
    p.push(ld_imm64(Reg::R1, 7));
    p.ja_to(end);
    p.push(mov64_imm(Reg::R0, 2));
    p.bind(end);
    p.push(exit());
    p
}

#[test]
fn resolving_sets_the_jumps_and_nothing_else() {
    let code = jumping().resolve().unwrap();
    // A wide instruction counts twice.
    let expected = vec![
        mov64_imm(Reg::R0, 1),
        jmp_imm(JmpOp::Eq, Reg::R0, 0, 4),
        ld_imm64(Reg::R1, 7),
        ja(1),
        mov64_imm(Reg::R0, 2),
        exit(),
    ];
    assert_eq!(code, expected);
}

#[test]
fn bytes_are_those_of_the_resolved_code() {
    let code = jumping().resolve().unwrap();
    assert_eq!(jumping().to_bytes().unwrap(), encoded(&code));
}

#[test]
fn a_label_without_a_place_is_an_error() {
    let dangling = || {
        let mut p = Prog::new();
        let end = p.new_label();
        p.ja_to(end);
        p
    };
    assert!(dangling().resolve().is_err());
    assert_eq!(dangling().to_bytes().unwrap_err(), dangling().resolve().unwrap_err());
}
