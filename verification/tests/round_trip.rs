//! Printing and parsing undo each other.

use honeyc::ast::{BinaryOp, ExprKind};
use honeyc::lexer::lex;
use honeyc::parser::{parse, parse_expr};
use honeyc::pretty;
use honeyc::token::TokenKind;

const OPERATORS: [BinaryOp; 18] = [
    BinaryOp::Or,
    BinaryOp::And,
    BinaryOp::Eq,
    BinaryOp::Ne,
    BinaryOp::Lt,
    BinaryOp::Le,
    BinaryOp::Gt,
    BinaryOp::Ge,
    BinaryOp::BitOr,
    BinaryOp::BitXor,
    BinaryOp::BitAnd,
    BinaryOp::Shl,
    BinaryOp::Shr,
    BinaryOp::Add,
    BinaryOp::Sub,
    BinaryOp::Mul,
    BinaryOp::Div,
    BinaryOp::Rem,
];

fn printed(src: &str) -> String {
    pretty::program(&parse(src).unwrap())
}

fn printed_expr(src: &str) -> String {
    pretty::expr(&parse_expr(src).unwrap())
}

#[test]
fn printing_what_was_printed_changes_nothing() {
    let programs = [
        "",
        "const N: u64 = 0xff; map m: hash<u32, u64>[16]; map a: array<u32>[1];",
        "event E { a: u32, s: str<16>, } probe tracepoint(\"a\\n\", \"b\\\"\") { }",
        "probe kprobe(\"f\") { let mut x: u64 = 1 + 2 * 3; x = (1 + 2) * 3; return; }",
        "probe kprobe(\"f\") { if a { } else if b { } else { } }",
        "probe kprobe(\"f\") { if let Some(x) = m.get(1) { x; } else { if y { } } }",
        "probe kprobe(\"f\") { for i in 0..(N - 1) { emit E { a: i, s: comm() }; } }",
        "map m: hash<u32, array<u8>>[4];",
    ];
    for src in programs {
        let once = printed(src);
        assert_eq!(printed(&once), once, "{src}");
    }
}

#[test]
fn printing_an_expression_twice_changes_nothing() {
    let exprs = [
        "1 - (2 - 3)",
        "(1 - 2) - 3",
        "-(-1)",
        "!!a",
        "*p + 1",
        "-x as u8",
        "(a + b) as u64",
        "f(1, \"\\t\\\\\", g())",
        "a.b.c(1)[2]",
        "(a.b)(c)",
        "a < b == (c < d)",
        "a | b ^ c & d << 1",
        "\"日本 \\0 \\x7f\"",
    ];
    for src in exprs {
        let once = printed_expr(src);
        assert_eq!(printed_expr(&once), once, "{src}");
    }
}

#[test]
fn a_call_of_a_field_is_no_call_of_a_method() {
    assert_eq!(printed_expr("(a.b)(c)"), "(a.b)(c)");
    assert_eq!(printed_expr("a.b(c)"), "a.b(c)");
    assert_eq!(printed_expr("((a.b))(c)(d)"), "(a.b)(c)(d)");
    let ExprKind::Call { callee, .. } = parse_expr(&printed_expr("(a.b)(c)")).unwrap().kind else {
        panic!()
    };
    assert!(matches!(callee.kind, ExprKind::Field { .. }));
}

#[test]
fn else_if_is_an_else_with_one_if() {
    let a = printed("probe kprobe(\"f\") { if a { } else if b { } }");
    let b = printed("probe kprobe(\"f\") { if a { } else { if b { } } }");
    assert_eq!(a, b);
}

#[test]
fn layout_of_the_source_does_not_matter() {
    let a = "probe kprobe(\"f\"){let x=1;}";
    let b = "/* a probe */ probe\n  kprobe ( \"f\" ) // with one local\n{ let x = 0x1 ; }";
    assert_eq!(printed(a), printed(b));
}

#[test]
fn a_copy_is_the_same_program() {
    let src = "const N: u8 = 1; map m: hash<u32, str<4>>[2]; event E { a: u8 }\n\
               probe kprobe(\"f\") { let x: u8 = -1 as u8; x = y[0].z(1, true); \
               if let Some(v) = m.get(1) { } else { return; } \
               for i in 0..2 { emit E { a: !i }; } return 1; f(\"s\"); }";
    let program = parse(src).unwrap();
    assert_eq!(program.clone(), program);
}

#[test]
fn a_string_is_printed_so_that_it_lexes_back() {
    for text in ["", "plain", "a\"b\\c", "\n\t\r\0\x01\x7f", "日本 é", "\\n"] {
        let mut out = String::new();
        pretty::write_str_literal(&mut out, text);
        let tokens = lex(&out).unwrap();
        assert_eq!(tokens.len(), 2);
        assert_eq!(tokens[0].kind, TokenKind::Str(text.to_string()));
        assert_eq!((tokens[0].span.start, tokens[0].span.end), (0, out.len()));
        assert_eq!(tokens[1].kind, TokenKind::Eof);
    }
    let mut out = "x = ".to_string();
    pretty::write_str_literal(&mut out, "a\tb");
    assert_eq!(out, "x = \"a\\tb\"");
}

#[test]
fn a_symbol_parses_to_its_operator() {
    for op in OPERATORS {
        let src = format!("a {} b", op.symbol());
        let ExprKind::Binary { op: found, .. } = parse_expr(&src).unwrap().kind else { panic!("{src}") };
        assert_eq!(found, op, "{src}");
    }
    for (i, a) in OPERATORS.iter().enumerate() {
        for b in &OPERATORS[..i] {
            assert_ne!(a.symbol(), b.symbol());
        }
    }
}

#[test]
fn tokens_account_for_all_of_a_text() {
    let src = "probe kprobe(\"f\\n\") { // a line\n let x = 0xff << 1; /* a /* b */ c */ a<=b.c 1..2 }\n";
    let mut end = 0;
    for t in lex(src).unwrap() {
        let gap = &src[end..t.span.start];
        assert_eq!(lex(gap).unwrap().len(), 1, "{gap:?}");
        if t.kind != TokenKind::Eof {
            let alone = lex(&src[t.span.start..t.span.end]).unwrap();
            assert_eq!(alone.len(), 2);
            assert_eq!(alone[0].kind, t.kind);
        }
        end = t.span.end;
    }
    assert_eq!(end, src.len());
}
