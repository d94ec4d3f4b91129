//! The rules of the type checker, at their edges.

use honeyc::parser::parse;
use honeyc::typeck::{check, try_check, Ty, STACK_LIMIT, STACK_RESERVED};
use honeyc::ast::{Item, Program};

/// Two strings that take all of the stack that is left for locals.
const TWO: &str =
    "let s: str<256> = read_user_str(arg(0)); let t: str<216> = read_user_str(arg(1));";

fn in_probe(body: &str) -> String {
    format!(
        "const N: u64 = 4;\nmap m: hash<u32, u64>[8];\nevent E {{ a: u64 }}\n\
         probe kprobe(\"f\") {{ {body} emit E {{ a: 1 }}; }}"
    )
}

fn messages(src: &str) -> Vec<String> {
    match check(&parse(src).unwrap()) {
        Ok(_) => vec![],
        Err(diags) => diags.into_iter().map(|d| d.message).collect(),
    }
}

fn says(body: &str) -> Vec<String> {
    messages(&in_probe(body))
}

fn accepted(body: &str) {
    assert_eq!(says(body), Vec::<String>::new(), "{body}");
}

fn noted(body: &str, expected: &str) {
    assert_eq!(says(body), vec![expected.to_string()], "{body}");
}

#[test]
fn loops_run_at_most_sixty_four_times() {
    accepted("for i in 0..64 { }");
    accepted("for i in 5..5 { }");
    accepted("for i in N..N * 2 { }");
    noted("for i in 0..65 { }", "loop would run 65 times; the limit is 64");
    noted("for i in 3..2 { }", "loop runs from 3 to 2: end is before start");
    noted("let n = arg(0); for i in 0..n { }", "`n` is a runtime value, not a constant");
    noted("for i in 0..x { }", "unknown name `x`");
    noted("for i in 0..8 / 2 { }", "this operator is not allowed in a constant expression");
    noted("for i in 0..pid() { }", "expected a compile-time constant");
}

#[test]
fn a_loop_inside_a_loop_may_use_its_variable() {
    accepted("for i in 0..5 { for j in i..N { } }");
    noted(
        "for i in 0..8 { for j in i..N { } }",
        "loop runs from 5 to 4: end is before start",
    );
    accepted("for i in 0..2 { for j in 0..i * 64 { } }");
    noted(
        "for i in 0..3 { for j in 0..i * 64 { } }",
        "loop would run 128 times; the limit is 64",
    );
}

#[test]
fn every_iteration_is_checked() {
    let s = "let s: str<8> = read_user_str(arg(0));";
    accepted(&format!("{s} for i in 0..8 {{ let b = s.byte_at(i); }}"));
    noted(
        &format!("{s} for i in 0..9 {{ let b = s.byte_at(i); }}"),
        "`byte_at(8)` is outside `str<8>`",
    );
    accepted(&format!("{s} for i in 0..7 {{ let b = s.byte_at(i + 1); }}"));
    noted(
        &format!("{s} for i in 0..3 {{ let b = s.byte_at(1 - i); }}"),
        "`byte_at(-1)` is outside `str<8>`",
    );
    accepted("for i in 0..6 { let x = arg(i); }");
    noted("for i in 0..7 { let x = arg(i); }", "`arg(6)`: probes expose arguments 0 to 5");
}

#[test]
fn a_place_is_noted_once_in_all_iterations() {
    noted("for i in 0..64 { y = 1; }", "unknown variable `y`");
    noted("for i in 5..5 { y = 1; }", "unknown variable `y`");
    noted("for i in 0..8 { for j in 0..8 { y = 1; } }", "unknown variable `y`");
    noted(
        "let s: str<4> = read_user_str(arg(0)); for i in 0..9 { let b = s.byte_at(i); }",
        "`byte_at(4)` is outside `str<4>`",
    );
}

#[test]
fn the_errors_of_all_iterations_are_told_together() {
    assert_eq!(
        says(
            "let s: str<4> = read_user_str(arg(0)); \
             for i in 0..7 { y = 1; let b = s.byte_at(i); let x = arg(i); z = 1; }"
        ),
        [
            "unknown variable `y`",
            "unknown variable `z`",
            "`byte_at(4)` is outside `str<4>`",
            "`arg(6)`: probes expose arguments 0 to 5",
        ]
    );
}

#[test]
fn a_constant_goes_before_a_local_where_a_constant_is_needed() {
    accepted("let N = arg(0); for i in 0..N { }");
    let s = "let s: str<5> = read_user_str(arg(0));";
    accepted(&format!("{s} for N in 0..9 {{ let b = s.byte_at(N); }}"));
    noted(
        "let s: str<2> = read_user_str(arg(0)); for N in 0..2 { let b = s.byte_at(N); }",
        "`byte_at(4)` is outside `str<2>`",
    );
}

#[test]
fn a_call_without_a_value_is_no_value() {
    noted("let mut x: u64 = 1; x = m.insert(1, 2);", "this expression has no value");
    noted("let mut x: u64 = 1; x = 1 + m.delete(2);", "this expression has no value");
    noted("let x: u64 = m.delete(1);", "this expression has no value to bind");
    noted("let x = m.delete(1);", "this expression has no value to bind");
    noted("m.insert(m.delete(1), 2);", "this expression has no value");
    noted("m.insert(1, m.delete(1));", "this expression has no value");
    noted("if m.delete(1) == 1 { }", "this expression has no value");
    noted("if !m.delete(1) { }", "this expression has no value");
    noted(
        "let s: str<4> = read_user_str(arg(0)); if s == m.delete(1) { }",
        "this expression has no value",
    );
    assert_eq!(
        messages(
            "map m: hash<u32, u64>[8]; event E { a: u64 } \
             probe kprobe(\"f\") { emit E { a: m.delete(1) }; }"
        ),
        ["this expression has no value"]
    );
    assert_eq!(
        messages("event E { a: u64 } probe xdp(\"eth0\") { emit E { a: drop() }; }"),
        ["this expression has no value"]
    );
    accepted("m.insert(1, 2); m.delete(1);");
}

#[test]
fn an_error_is_told_where_it_is_made() {
    noted(
        "let s = read_user_str(arg(0)); let mut x: u64 = 1; x = s; if s == 1 { }",
        "`read_user_str` needs a bounded destination",
    );
    noted("let mut x: u64 = 1; x = nope();", "unknown builtin `nope`");
}

#[test]
fn helps_show_honey() {
    let help = |src: &str| check(&parse(src).unwrap()).unwrap_err()[0].help.clone().unwrap();
    assert_eq!(
        help("event E { a: u64 } probe kprobe(\"f\") { drop(); emit E { a: 1 }; }"),
        "only an XDP program decides a packet's fate; use `probe xdp(\"iface\") { ... }`"
    );
    assert_eq!(
        help("event E { a: u64 } probe kprobe(\"f\") { deny(); emit E { a: 1 }; }"),
        "only an LSM hook can allow or deny an action; use `probe lsm(\"hook\") { ... }`"
    );
}

#[test]
fn only_a_checked_pointer_is_read() {
    accepted("if let Some(v) = m.get(1) { let x: u64 = *v; }");
    noted(
        "let x = *m.get(1);",
        "cannot dereference `Option<&u64>`: the lookup may have found nothing",
    );
    noted("let x = *arg(0);", "cannot dereference `u64`");
    // A call without a value gives nothing to read, and nothing is said of it
    // but that it has no value.
    noted("let x = *m.delete(1);", "this expression has no value to bind");
}

#[test]
fn a_checked_pointer_stays_in_its_if() {
    noted("if let Some(v) = m.get(1) { } let x = *v;", "unknown name `v`");
    noted("if let Some(v) = m.get(1) { } else { let x = *v; }", "unknown name `v`");
    accepted("let v: u64 = 1; if let Some(v) = m.get(1) { let y: u64 = *v; } let z: u64 = v;");
}

#[test]
fn only_mutable_locals_are_written() {
    accepted("let mut x: u64 = 1; x = 2;");
    noted("let x: u64 = 1; x = 2;", "cannot assign to `x`: it is not mutable");
    noted("x = 2;", "unknown variable `x`");
    noted("for i in 0..2 { i = 3; }", "cannot assign to `i`: it is not mutable");
    noted("pkt.x = 3;", "invalid assignment target");
    noted(
        "if let Some(v) = m.get(1) { *v = 2; }",
        "writing through a map pointer is not supported in v1",
    );
}

#[test]
fn widths_never_convert() {
    noted("let x: u64 = pid();", "mismatched types: expected `u64`, found `u32`");
    noted("let x: u32 = arg(0);", "mismatched types: expected `u32`, found `u64`");
    noted("let x = pid() + arg(0);", "mismatched integer widths: `u32` + `u64`");
    accepted("let x: u8 = 255;");
    noted("let x: u8 = 256;", "256 does not fit in `u8`");
    accepted("let x = pid() + 1; m.insert(x, 2);");
}

#[test]
fn string_bytes_are_in_range() {
    let s = "let s: str<4> = read_user_str(arg(0));";
    accepted(&format!("{s} let b: u8 = s.byte_at(3);"));
    noted(&format!("{s} let b = s.byte_at(4);"), "`byte_at(4)` is outside `str<4>`");
    noted(&format!("{s} let b = s.byte_at(0 - 1);"), "`byte_at(-1)` is outside `str<4>`");
    accepted(&format!("{s} if s.starts_with(\"abcd\") {{ }}"));
    noted(
        &format!("{s} if s.starts_with(\"abcde\") {{ }}"),
        "prefix is 5 bytes but `s` is only `str<4>`",
    );
    accepted(&format!("{s} if s.starts_with(\"éé\") {{ }}"));
    noted(&format!("{s} if s.starts_with(1) {{ }}"), "`starts_with` takes a string literal");
}

#[test]
fn packet_reads_end_inside_the_first_bytes() {
    let xdp = |body: &str| {
        messages(&format!("event E {{ a: u32 }} probe xdp(\"eth0\") {{ {body} emit E {{ a: 1 }}; }}"))
    };
    assert!(xdp("let x = pkt.u32(252);").is_empty());
    assert_eq!(
        xdp("let x = pkt.u32(253);"),
        ["packet read at offset 253 ends past 256 bytes, the most an XDP probe may inspect"]
    );
    assert_eq!(xdp("let x = pkt.u8(0 - 1);"), ["packet offset must not be negative"]);
    assert!(xdp("let x = pkt.u8(255);").is_empty());
}

#[test]
fn packet_offsets_do_not_depend_on_the_iteration() {
    let xdp = |body: &str| {
        messages(&format!(
            "const N: u64 = 4; event E {{ a: u32 }} probe xdp(\"eth0\") {{ {body} emit E {{ a: 1 }}; }}"
        ))
    };
    assert!(xdp("for i in 0..2 { let x = pkt.u8(N + 1); }").is_empty());
    assert_eq!(xdp("for i in 0..2 { let x = pkt.u8(i); }"), ["packet offset `i` is a variable"]);
    assert_eq!(xdp("for i in 0..2 { let x = pkt.u8(i + 1); }"), ["packet offset `i` is a variable"]);
    assert_eq!(
        xdp("for i in 0..2 { for j in 0..2 { let x = pkt.u8(N + (j - i)); } }"),
        ["packet offset `j` is a variable"]
    );
}

#[test]
fn a_program_has_a_probe() {
    assert_eq!(messages("event E { a: u64 }"), ["program has no `probe`"]);
    assert_eq!(messages(""), ["program has no `probe`"]);
}

#[test]
fn the_order_of_items_does_not_matter() {
    let items = [
        "const N: u64 = 4;",
        "map m: hash<u32, u64>[8];",
        "event E { a: u64, b: nope }",
        "probe kprobe(\"f\") { for i in 0..N { let x: u64 = i; } y = 1; emit E { a: 1 }; }",
        "probe kprobe(\"g\") { if let Some(v) = m.get(1) { x = *v; } emit E { a: N }; }",
    ];
    let sorted = |src: &str| {
        let mut all = messages(src);
        all.sort();
        all
    };
    let expected = sorted(&items.concat());
    assert!(expected.len() >= 3, "{expected:?}");
    for k in 0..items.len() {
        let mut turned = items;
        turned.rotate_left(k);
        assert_eq!(sorted(&turned.concat()), expected);
        turned.reverse();
        assert_eq!(sorted(&turned.concat()), expected);
    }
}

#[test]
fn stack_is_counted_in_words() {
    for body in ["", "let x: u8 = 1;", "let s: str<9> = read_user_str(arg(0)); let b: bool = true;"] {
        let used = check(&parse(&in_probe(body)).unwrap()).unwrap().stack_bytes;
        assert!(used % 8 == 0 && used <= STACK_LIMIT - STACK_RESERVED, "{body}");
    }
}

#[test]
fn the_stack_is_full_at_its_limit() {
    assert_eq!(STACK_LIMIT - STACK_RESERVED, 472);
    let full = in_probe(TWO);
    assert_eq!(check(&parse(&full).unwrap()).unwrap().stack_bytes, 472);
    noted(
        &format!("{TWO} let x: u64 = 1;"),
        "probe needs 480 bytes of stack for its locals; the BPF limit leaves 472",
    );
}

#[test]
fn arguments_and_return_values_are_where_they_exist() {
    let at = |kind: &str, body: &str| {
        messages(&format!("event E {{ a: u64 }} probe {kind}(\"f\") {{ {body} emit E {{ a: 1 }}; }}"))
    };
    assert!(at("kprobe", "let x = arg(5);").is_empty());
    assert_eq!(at("kprobe", "let x = arg(6);"), ["`arg(6)`: probes expose arguments 0 to 5"]);
    assert_eq!(
        at("kretprobe", "let x = arg(0);"),
        ["`arg()` is not available in a return probe: the arguments are gone by the time the function returns"]
    );
    assert!(at("kretprobe", "let x = retval();").is_empty());
    assert_eq!(at("kprobe", "let x = retval();"), ["`retval()` is only available in a return probe"]);
}

#[test]
fn an_emit_sets_every_field_once() {
    let emit = |fields: &str| {
        messages(&format!(
            "event E {{ a: u64, b: bool }} probe kprobe(\"f\") {{ emit E {{ {fields} }}; }}"
        ))
    };
    assert!(emit("b: true, a: 1").is_empty());
    assert_eq!(emit("a: 1"), ["`emit E` is missing field `b`"]);
    assert_eq!(emit("a: 1, b: true, a: 2"), ["field `a` given twice"]);
    assert_eq!(emit("a: 1, b: true, c: 2"), ["event `E` has no field `c`"]);
    assert_eq!(
        emit("a: true"),
        ["mismatched types: expected `u64`, found `bool`", "`emit E` is missing field `b`"]
    );
}

#[test]
fn later_notes_come_after_earlier_ones() {
    assert_eq!(
        says("x = 1; for i in 0..65 { y = 1; } z = 1;"),
        [
            "unknown variable `x`",
            "loop would run 65 times; the limit is 64",
            "unknown variable `y`",
            "unknown variable `z`",
        ]
    );
}

#[test]
fn a_constant_that_overflows_has_no_verdict() {
    let huge = in_probe("for i in 9223372036854775807 + 1..2 { }");
    assert_eq!(try_check(&parse(&huge).unwrap(), None), None);
    let fine = in_probe("for i in 9223372036854775807 - 1..9223372036854775807 { }");
    assert!(matches!(try_check(&parse(&fine).unwrap(), None), Some(Ok(_))));
}

#[test]
fn types_are_named_as_they_are_written() {
    let program: Program = parse("event E { a: u8, b: str<7>, c: bool, d: i64 }").unwrap();
    let Item::Event(ev) = &program.items[0] else { panic!() };
    let texts: Vec<String> =
        ev.fields.iter().map(|f| Ty::from_ast(&f.ty).unwrap().text()).collect();
    assert_eq!(texts, ["u8", "str<7>", "bool", "i64"]);
    let bytes: Vec<u32> =
        ev.fields.iter().map(|f| Ty::from_ast(&f.ty).unwrap().stack_bytes()).collect();
    assert_eq!(bytes, [8, 8, 8, 8]);
}
