//! Where errors stand, and how they are shown.

use honeyc::parser::parse;
use honeyc::report::{locate, report, report_diag, Located};
use honeyc::typeck::check;

fn place(line: usize, column: usize, text: &str) -> Located {
    Located { line, column, text: text.to_string() }
}

#[test]
fn lines_and_columns_count_from_one() {
    let src = "ab\ncd\n\nef";
    assert_eq!(locate(src, 0), place(1, 1, "ab"));
    assert_eq!(locate(src, 1), place(1, 2, "ab"));
    assert_eq!(locate(src, 3), place(2, 1, "cd"));
    assert_eq!(locate(src, 6), place(3, 1, ""));
    assert_eq!(locate(src, 8), place(4, 2, "ef"));
}

#[test]
fn the_end_of_a_line_belongs_to_it() {
    assert_eq!(locate("ab\ncd", 2), place(1, 3, "ab"));
}

#[test]
fn a_place_past_the_end_is_on_the_last_line() {
    assert_eq!(locate("ab\ncd", 5), place(2, 3, "cd"));
    assert_eq!(locate("", 0), place(1, 1, ""));
    assert_eq!(locate("ab\n", 3), place(2, 1, ""));
}

#[test]
fn columns_count_bytes() {
    assert_eq!(locate("é@", 2), place(1, 3, "é@"));
    assert_eq!(locate("\"日本\" $", 9), place(1, 10, "\"日本\" $"));
}

#[test]
fn a_carriage_return_before_a_line_feed_is_not_shown() {
    assert_eq!(locate("ab\r\ncd", 0), place(1, 1, "ab"));
    assert_eq!(locate("ab\r", 0), place(1, 1, "ab\r"));
}

#[test]
fn an_error_is_shown_below_its_line() {
    assert_eq!(
        report("x.hny", "let a = @;\n", 8, "UnexpectedChar('@')"),
        "x.hny:1:9: error: UnexpectedChar('@')\n    let a = @;\n            ^\n"
    );
}

#[test]
fn a_diagnostic_comes_with_its_help() {
    let src = r#"map counts: hash<u32, u64>[1024];

event Count {
    n: u64,
}

// Counts the calls of a user, and forgets
// to check the lookup.

probe tracepoint("syscalls", "sys_enter_execve") {
    let prev = counts.get(uid());
    let n = *prev + 1;
    emit Count { n: n };
}
"#;
    let program = parse(src).unwrap();
    let diags = check(&program).unwrap_err();
    assert_eq!(diags.len(), 1);
    let expected = [
        "examples/bad/unchecked_map.hny:12:13: error: cannot dereference `Option<&u64>`: the lookup may have found nothing",
        "        let n = *prev + 1;",
        "                ^",
        "    help: check it first: `if let Some(v) = map.get(key) { ... *v ... }`",
        "",
    ];
    assert_eq!(
        report_diag("examples/bad/unchecked_map.hny", src, &diags[0]),
        expected.join("\n")
    );
}

#[test]
fn a_diagnostic_without_help_has_no_help_line() {
    let src = "event E { a: u64 }";
    let diags = check(&parse(src).unwrap()).unwrap_err();
    assert_eq!(diags.len(), 1);
    assert_eq!(diags[0].help, None);
    assert_eq!(
        report_diag("e.hny", src, &diags[0]),
        "e.hny:1:1: error: program has no `probe`\n    event E { a: u64 }\n    ^\n"
    );
}
