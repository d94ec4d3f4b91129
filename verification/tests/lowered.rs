//! What the code generator promises, and what it refuses.

use honeyc::bpf::{decode, disasm, Insn};
use honeyc::codegen::{compile, Compiled, MapKind, RINGBUF_BYTES};
use honeyc::layout::{fits, layout_event, FieldKind};
use honeyc::ast::Item;
use honeyc::parser::parse;

fn compiled(src: &str) -> Compiled {
    compile(&parse(src).unwrap()).unwrap_or_else(|e| panic!("{e}\n{src}"))
}

fn refused(src: &str) -> String {
    compile(&parse(src).unwrap()).unwrap_err()
}

fn probe(body: &str) -> String {
    format!(
        "const K: u64 = 3;\nmap m: hash<u32, u64>[8];\nmap a: array<u32>[2];\nevent E {{ x: u64 }}\n\
         probe tracepoint(\"s\", \"n\") {{ {body} emit E {{ x: ktime() }}; }}"
    )
}

fn code(c: &Compiled) -> Vec<Insn> {
    decode(&c.bytecode).unwrap()
}

/// The lines of the code, without the final newline.
fn lines(src: &str) -> Vec<String> {
    code(&compiled(src)).iter().map(disasm).collect()
}

const BODIES: [&str; 8] = [
    "",
    "let x = arg(0); if x > 4 { return; }",
    "let mut x: u64 = 0; for i in 0..8 { x = x + i; }",
    "if let Some(v) = m.get(pid()) { let y = *v; m.insert(pid(), y + 1); } else { m.delete(pid()); }",
    "let s: str<16> = read_user_str(arg(1)); if s.starts_with(\"/tmp\") && s.byte_at(4) != 0 { return; }",
    "for i in 0..4 { for j in 0..4 { if i * j == K { return; } } }",
    "a.insert(0, uid());",
    "let b = !(pid() == 1 || tid() == 2); if b { return; }",
];

#[test]
fn every_program_starts_with_its_context_and_ends_with_zero() {
    for body in BODIES {
        let l = lines(&probe(body));
        assert_eq!(l[0], "stx64 [r10 -8], r1", "{body}");
        assert_eq!(l[l.len() - 2], "mov r0, 0", "{body}");
        assert_eq!(l[l.len() - 1], "exit", "{body}");
    }
}

#[test]
fn no_jump_goes_back_or_leaves_the_program() {
    for body in BODIES {
        let code = code(&compiled(&probe(body)));
        let total: usize = code.iter().map(|i| i.slots()).sum();
        let mut slot = 0;
        for insn in &code {
            let text = disasm(insn);
            slot += insn.slots();
            if let Some(rest) = text.split("goto ").nth(1) {
                let off: i64 = rest.trim_start_matches('+').parse().unwrap();
                assert!(off >= 0, "{text}");
                assert!(slot as i64 + off < total as i64, "{text}");
            }
        }
    }
}

#[test]
fn the_stack_is_a_multiple_of_eight_and_fits() {
    for body in BODIES {
        let c = compiled(&probe(body));
        assert!(c.stack_bytes >= 8 && c.stack_bytes <= 512 && c.stack_bytes % 8 == 0, "{body}");
    }
}

#[test]
fn the_loader_is_told_what_to_create() {
    let c = compiled(&probe("m.insert(1, 2);"));
    assert_eq!(c.tracepoint, ("s".to_string(), "n".to_string()));
    assert_eq!(c.ringbuf_bytes, RINGBUF_BYTES);
    assert_eq!(c.license, "GPL");
    assert_eq!(c.maps.len(), 2);
    assert_eq!(c.maps[1].name, "a");
    assert_eq!(c.maps[1].kind, MapKind::Array);
    assert_eq!((c.maps[1].key_size, c.maps[1].value_size, c.maps[1].max_entries), (4, 4, 2));
    assert_eq!(c.event.name, "E");
    assert_eq!(c.event.fields[0].kind, FieldKind::Uint(8));
    let d = c.clone();
    assert_eq!(d.bytecode, c.bytecode);
    assert_eq!(d.maps, c.maps);
    assert_eq!(d.event, c.event);
}

#[test]
fn an_array_is_keyed_by_its_index() {
    let text = lines(&probe("a.insert(1, uid());")).join("\n");
    assert!(text.contains("map_fd(2)"), "{text}");
    assert!(text.contains("call 2"), "{text}");
}

#[test]
fn a_constant_is_baked_in() {
    let text = lines(&probe("m.insert(1, K);")).join("\n");
    assert!(text.contains("mov r0, 3"), "{text}");
}

#[test]
fn a_large_constant_is_loaded_wide() {
    let text = lines(&probe("m.insert(1, 0x1_0000_0000);")).join("\n");
    assert!(text.contains("ld64 r0, 4294967296"), "{text}");
}

#[test]
fn constants_are_folded() {
    let text = lines(&probe("for i in K - 3..K + 1 { m.insert(1, i); }")).join("\n");
    for i in 0..4 {
        assert!(text.contains(&format!("mov r0, {i}")), "{text}");
    }
    compiled(&probe("for i in K - 3..K * 2 { let x = arg(i); }"));
    assert_eq!(
        refused(&probe("for i in 0..K * 2 + 1 { let x = arg(i); }")),
        "`arg(n)` takes a constant from 0 to 5"
    );
    compiled(&probe("let s: str<4> = comm(); for i in 0..3 { let b = s.byte_at(i + 1); }"));
    assert_eq!(
        refused(&probe("let s: str<4> = comm(); for i in 0..4 { let b = s.byte_at(i + 1); }")),
        "`byte_at` is out of range of `s`"
    );
    compiled(&probe("for i in (1 << 2) | 1..6 & 7 { }"));
    assert_eq!(refused(&probe("for i in 0..8 / 2 { }")), "`for` bounds must be constant");
}

#[test]
fn constants_go_before_loop_variables_of_their_name() {
    let text = lines(&probe("for K in 5..6 { for j in 0..K { m.insert(1, j + 40); } }")).join("\n");
    assert_eq!(text.matches("mov r0, 40").count(), 3, "{text}");
    // Used as a value, the name is the variable.
    let text = lines(&probe("for K in 5..6 { m.insert(1, K); }")).join("\n");
    assert!(text.contains("mov r0, 5"), "{text}");
}

#[test]
fn there_may_be_many_maps_and_large_ones() {
    let maps: String = (0..80).map(|i| format!("map m{i}: array<u32>[4294967295];\n")).collect();
    let c = compiled(&format!(
        "{maps} event E {{ x: u64 }} probe tracepoint(\"s\", \"n\") \
         {{ m79.insert(0, uid()); emit E {{ x: ktime() }}; }}"
    ));
    assert_eq!(c.maps.len(), 80);
    assert_eq!(c.maps[79].max_entries, u32::MAX);
    let text: Vec<String> = code(&c).iter().map(disasm).collect();
    assert!(text.join("\n").contains("map_fd(80)"));
    assert_eq!(refused("map m: array<u32>[4294967296];"), "map `m` is too large");
}

#[test]
fn narrow_numbers_wrap_round() {
    let after_add = |body: &str| {
        let all = lines(&probe(body));
        let at = all.iter().position(|l| l == "add r1, r0").unwrap();
        assert_eq!(all[at + 1], "mov r0, r1");
        all[at + 2].clone()
    };
    assert_eq!(after_add("let x = pid() + 1;"), "mov32 r0, r0");
    assert_eq!(after_add("let s: str<4> = comm(); let x = s.byte_at(0) + 1;"), "and r0, 255");
    // 64 bits are what a register holds.
    assert!(after_add("let x = arg(0) + 1;").starts_with("stx64"));
}

#[test]
fn a_local_has_the_width_that_it_is_declared_with() {
    let text = lines(&probe("let mut x: u16 = 1; x = x + 65535;")).join("\n");
    assert!(text.contains("and r0, 65535"), "{text}");
}

#[test]
fn what_cannot_be_compiled_is_refused() {
    let cases = [
        ("let x = y;", "unknown name `y`"),
        ("let x = arg(6);", "`arg(n)` takes a constant from 0 to 5"),
        ("let x = arg(pid());", "`arg(n)` takes a constant from 0 to 5"),
        ("let x = f();", "unknown builtin `f()`"),
        ("let x = comm();", "`comm` can only fill a `str<N>`"),
        ("let x = (1)(2);", "expected a builtin name"),
        ("let s: str<4> = comm(); let x = s;", "`s` is a string: only `starts_with`, `byte_at` and `emit` can use it"),
        ("let s: str<4> = comm(); let x = s.byte_at(4);", "`byte_at` is out of range of `s`"),
        ("let s: str<4> = comm(); let x = s.byte_at(pid());", "`byte_at` takes a constant"),
        ("let s: str<4> = comm(); if s.starts_with(\"abcde\") { }", "`starts_with` is longer than `s`"),
        ("let s: str<4> = comm(); if s.starts_with(1) { }", "`starts_with` takes a string literal"),
        ("let s: str<4> = 1;", "a string comes from `comm()` or `read_user_str(p)`"),
        ("let s: str<0> = comm();", "`str<0>` holds nothing"),
        ("let s: str<600> = comm();", "probe needs more than 512 bytes of stack"),
        ("if 1.starts_with(\"a\") { }", "`starts_with` is a method of a string"),
        ("let x = \"a\";", "a string can only be used by `starts_with`"),
        ("let x = 1 as u8;", "`as` casts are not supported yet"),
        ("let x = y.z;", "field access is not supported yet"),
        ("let x = y[0];", "indexing is not supported yet"),
        ("let x = m.insert(1, 2);", "`m.insert` gives no value"),
        ("let x = z.get(1);", "unknown map `z`"),
        ("let x = *pid();", "cannot dereference `pid()`"),
        ("if let Some(v) = m.get(1) { let x = v; }", "`v` is a pointer: read it with `*v`"),
        ("if let Some(v) = m.get(1) { *v = 2; }", "writing through a map pointer is not supported yet"),
        ("if let None = m.get(1) { }", "only `if let Some(x) = ..` is supported"),
        ("if let Some(v) = pid() { }", "`if let Some(x)` needs `map.get(k)`, not `pid()`"),
        ("K = 1;", "cannot assign to `K`"),
        ("y = 1;", "unknown name `y`"),
        ("for i in 0..65 { }", "loop has more than 64 iterations"),
        ("for i in pid()..4 { }", "`for` bounds must be constant"),
        ("return 1;", "`return` in a probe takes no value"),
        ("emit F { };", "unknown event `F`"),
    ];
    for (body, expected) in cases {
        assert_eq!(refused(&probe(body)), expected, "{body}");
    }
}

#[test]
fn what_stands_around_the_probe_is_refused_too() {
    let cases = [
        ("event E { a: u32 }", "no probe to compile"),
        ("probe kprobe(\"f\") { }", "only `tracepoint` probes are supported yet, got `kprobe`"),
        ("probe tracepoint(\"s\") { }", "tracepoint probe needs exactly two string arguments"),
        ("probe tracepoint(\"s\", \"n\") { }", "the probe emits no event"),
        (
            "probe tracepoint(\"a\", \"b\") { } probe tracepoint(\"c\", \"d\") { }",
            "this codegen slice supports only one probe",
        ),
        ("const K: u64 = pid();", "`const K` must be an integer literal"),
        ("map m: list<u32>[1];", "map `m` must be a `hash<K, V>` or an `array<V>`"),
        ("map m: hash<str<4>, u32>[1];", "map `m` needs unsigned keys and values"),
        ("map m: array<str<4>>[1];", "map `m` needs unsigned keys and values"),
    ];
    for (src, expected) in cases {
        assert_eq!(refused(src), expected, "{src}");
    }
}

#[test]
fn emitted_fields_must_match_the_event() {
    let emit = |event: &str, fields: &str| {
        refused(&format!(
            "event E {{ {event} }} probe tracepoint(\"s\", \"n\") {{ emit E {{ {fields} }}; }}"
        ))
    };
    assert_eq!(
        emit("a: u32, b: u32", "a: pid()"),
        "event `E` has 2 fields but `emit` provides 1"
    );
    assert_eq!(emit("a: u32", "b: pid()"), "event `E` has no field `b`");
    assert_eq!(emit("a: u32, b: u32", "a: pid(), a: tid()"), "field `a` given twice");
    assert_eq!(emit("a: u32", "a: comm()"), "`comm()` must fill a `str<N>` field, not Uint(4)");
    assert_eq!(emit("a: u64", "a: pid()"), "`pid()` produces a u32, field is Uint(8)");
    assert_eq!(emit("a: u32", "a: nope()"), "unknown builtin `nope()`");
    assert_eq!(
        emit("a: i8", "a: pid()"),
        "unsupported field type `i8` in event `E`"
    );
}

#[test]
fn every_slot_of_the_record_is_stored_once() {
    let src = "event E { a: u32, b: u64, c: u32 } probe tracepoint(\"s\", \"n\") \
               { emit E { c: uid(), a: pid(), b: ktime() }; }";
    let all = lines(src);
    for slot in ["stx32 [r6 +0], ", "stx64 [r6 +8], ", "stx32 [r6 +16], "] {
        assert_eq!(all.iter().filter(|l| l.starts_with(slot)).count(), 1, "{slot}\n{}", all.join("\n"));
    }
}

#[test]
fn fields_are_placed_in_order_and_aligned() {
    let program = parse("event E { a: bool, b: u64, c: u16, d: str<5>, e: u8 }").unwrap();
    let Item::Event(ev) = &program.items[0] else { panic!() };
    assert!(fits(ev));
    let l = layout_event(ev).unwrap();
    let places: Vec<(u32, u32)> = l.fields.iter().map(|f| (f.offset, f.size)).collect();
    assert_eq!(places, vec![(0, 1), (8, 8), (16, 2), (18, 5), (23, 1)]);
    assert_eq!(l.size, 24);
    for w in places.windows(2) {
        assert!(w[0].0 + w[0].1 <= w[1].0);
    }
}

#[test]
fn a_record_that_does_not_fit_in_four_gigabytes_does_not_fit() {
    let program = parse("event E { a: str<4294967295>, b: str<4294967295> }").unwrap();
    let Item::Event(ev) = &program.items[0] else { panic!() };
    assert!(!fits(ev));
}

#[test]
fn a_capacity_is_not_cut() {
    let program = parse("event E { a: str<4294967297> }").unwrap();
    let Item::Event(ev) = &program.items[0] else { panic!() };
    assert_eq!(layout_event(ev).unwrap_err(), "unsupported field type `str` in event `E`");
}
