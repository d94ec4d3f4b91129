//! What the loader is told.

use honeyc::codegen::compile;
use honeyc::manifest::manifest;
use honeyc::parser::parse;

fn told(src: &str) -> String {
    manifest(&compile(&parse(src).unwrap()).unwrap())
}

#[test]
fn everything_but_the_code_is_told() {
    let src = "map m: hash<u32, u64>[8]; map a: array<bool>[2]; \
               event E { pid: u32, name: str<16>, ok: bool } \
               probe tracepoint(\"s\", \"n\") { emit E { pid: pid(), name: comm(), ok: true }; }";
    assert_eq!(
        told(src),
        "{\"tracepoint\": [\"s\", \"n\"], \"ringbuf_bytes\": 65536, \"maps\": [\
         {\"name\": \"m\", \"kind\": \"hash\", \"key_size\": 4, \"value_size\": 8, \"max_entries\": 8}, \
         {\"name\": \"a\", \"kind\": \"array\", \"key_size\": 4, \"value_size\": 1, \"max_entries\": 2}], \
         \"event\": {\"name\": \"E\", \"size\": 24, \"fields\": [\
         {\"name\": \"pid\", \"offset\": 0, \"size\": 4, \"kind\": \"u32\"}, \
         {\"name\": \"name\", \"offset\": 4, \"size\": 16, \"kind\": \"str<16>\"}, \
         {\"name\": \"ok\", \"offset\": 20, \"size\": 1, \"kind\": \"bool\"}]}, \
         \"stack_bytes\": 8, \"license\": \"GPL\"}\n"
    );
}

#[test]
fn strings_are_escaped() {
    let src = "event E { a: u32 } probe tracepoint(\"a\\\"b\\\\\", \"\\n\\x1f\u{e9}\") { emit E { a: pid() }; }";
    let text = told(src);
    assert!(
        text.starts_with("{\"tracepoint\": [\"a\\\"b\\\\\", \"\\u000a\\u001f\u{e9}\"], "),
        "{text}"
    );
}

#[test]
fn different_strings_are_told_apart() {
    let with = |name: &str| {
        told(&format!("event E {{ a: u32 }} probe tracepoint(\"s\", \"{name}\") {{ emit E {{ a: pid() }}; }}"))
    };
    assert_ne!(with("\\n"), with("\\\\n"));
    assert_ne!(with("\\n"), with("\\\\u000a"));
}
