//! What errors say.

use honeyc::btf::{is_readable, Btf};
use honeyc::lexer::lex;
use honeyc::parser::{described_string, parse, parse_expr, unexpected_char, Error};
use honeyc::token::{LexErrorKind, Span};

fn message(src: &str) -> String {
    parse(src).unwrap_err().message()
}

#[test]
fn a_lexical_error_is_named_by_its_kind() {
    assert_eq!(message("@"), "UnexpectedChar('@')");
    assert_eq!(message("é"), "UnexpectedChar('é')");
    assert_eq!(message("'"), "UnexpectedChar('\\'')");
    assert_eq!(message("\u{7f}"), "UnexpectedChar('\\u{7f}')");
    assert_eq!(message("\"abc"), "UnterminatedString");
    assert_eq!(message("/* /* */"), "UnterminatedComment");
    assert_eq!(message("\"\\q\""), "InvalidEscape");
    assert_eq!(message("18446744073709551616"), "IntegerOverflow");
}

#[test]
fn an_unexpected_char_is_put_in_brackets() {
    assert_eq!(unexpected_char("'$'"), "UnexpectedChar('$')");
}

#[test]
fn a_syntax_error_names_what_it_found() {
    assert_eq!(message("probe"), "expected probe kind (e.g. `tracepoint`), found end of input");
    assert_eq!(message("const x"), "expected `:`, found end of input");
    assert_eq!(message("42"), "expected an item (`const`, `map`, `event`, or `probe`), found integer `42`");
    assert_eq!(
        message("\"a\\n\""),
        "expected an item (`const`, `map`, `event`, or `probe`), found string \"a\\n\""
    );
}

#[test]
fn a_string_is_named_as_it_is_shown() {
    assert_eq!(described_string("\"x\""), "string \"x\"");
}

#[test]
fn an_error_knows_its_span() {
    let e = parse("const x = 1;").unwrap_err();
    assert!(matches!(e, Error::Parse(_)));
    assert_eq!(e.span(), Span::new(8, 9));
    let e = parse_expr("1 + $").unwrap_err();
    assert!(matches!(e, Error::Lex(_)));
    assert_eq!(e.span(), Span::new(4, 5));
}

#[test]
fn a_bad_hex_escape_covers_the_escape() {
    let e = lex("\"\\xZZ\"").unwrap_err();
    assert_eq!(e.kind, LexErrorKind::InvalidEscape);
    assert_eq!(e.span, Span::new(1, 3));
}

/// A table with one struct of no members, whose name is the given bytes.
fn one_struct(name: &[u8]) -> Vec<u8> {
    let mut b: Vec<u8> = vec![0x9f, 0xeb, 1, 0];
    let words: [u32; 5] = [24, 0, 12, 12, name.len() as u32 + 2];
    for w in words {
        b.extend_from_slice(&w.to_le_bytes());
    }
    let entry: [u32; 3] = [1, 4 << 24, 8];
    for w in entry {
        b.extend_from_slice(&w.to_le_bytes());
    }
    b.push(0);
    b.extend_from_slice(name);
    b.push(0);
    b
}

#[test]
fn names_are_read_as_utf8() {
    let btf = Btf::parse(&one_struct("tâche".as_bytes())).unwrap();
    assert!(btf.is_struct("tâche"));
    assert_eq!(btf.struct_id("tâche"), Some(1));
    assert_eq!(btf.struct_size("tâche"), Some(8));
}

#[test]
fn bytes_that_are_no_utf8_become_replacement_characters() {
    let btf = Btf::parse(&one_struct(&[b'a', 0xff, b'b'])).unwrap();
    assert_eq!(btf.struct_name(1).as_deref(), Some("a\u{fffd}b"));
}

#[test]
fn kernel_types_are_refused_with_a_reason() {
    assert_eq!(Btf::parse(&[0x9f, 0xeb]).err().unwrap(), "BTF too short");
    let mut b = one_struct(b"s");
    b[0] = 0x12;
    b[1] = 0x34;
    assert_eq!(Btf::parse(&b).err().unwrap(), "bad BTF magic 0x3412");
    let mut b = one_struct(b"s");
    b[12] = 0xff;
    assert_eq!(Btf::parse(&b).err().unwrap(), "BTF sections out of bounds");
}

#[test]
fn a_table_is_readable_where_its_names_are_inside_it() {
    assert!(is_readable(&one_struct(b"s")));
}
