//! The lexer: tokens, spans and errors.

use honeyc::lexer::lex;
use honeyc::token::{LexError, LexErrorKind, Span, Token, TokenKind};

const EXEC: &str = r#"event Exec {
    pid: u32,
    uid: u32,
    comm: str<16>,
}

probe tracepoint("syscalls", "sys_enter_execve") {
    emit Exec { pid: pid(), uid: uid(), comm: comm() };
}
"#;
const EXEC_BURST: &str = r#"const THRESHOLD: u64 = 100;

map execs: hash<u32, u64>[1024];

event Burst {
    uid: u32,
    count: u64,
}

probe tracepoint("syscalls", "sys_enter_execve") {
    let uid = uid();
    let mut n: u64 = 0;

    if let Some(prev) = execs.get(uid) {
        n = *prev;
    }
    n = n + 1;
    execs.insert(uid, n);

    if n > THRESHOLD {
        emit Burst { uid: uid, count: n };
    }
}
"#;
const SENSITIVE_OPEN: &str = r#"const O_WRONLY: u64 = 0x1;
const O_CREAT: u64 = 0o100;

/* Opens of the password files, /* nested: for writing */ with the caller. */
event SensitiveOpen {
    pid: u32,
    flags: u64,
    write: bool,
    path: str<64>,
}

probe tracepoint("syscalls", "sys_enter_openat") {
    let path: str<64> = read_user_str(arg(1));
    let flags = arg(2);

    // Too short to be either of them.
    for i in 0..4 {
        if path.byte_at(i) == 0 {
            return;
        }
    }

    let hit = path.starts_with("/etc/shadow") || path.starts_with("/etc/sudoers");
    let write = flags & (O_WRONLY | O_CREAT) != 0;
    if hit {
        emit SensitiveOpen { pid: pid(), flags: flags, write: write, path: path };
    }
}
"#;

// ---------------------------------------------------------------- helpers

/// Lex, assert the stream ends in Eof, return the kinds *without* the Eof.
fn kinds(src: &str) -> Vec<TokenKind> {
    let toks = lex(src).unwrap_or_else(|e| panic!("lex({src:?}) failed: {e:?}"));
    assert_eq!(toks.last().map(|t| &t.kind), Some(&TokenKind::Eof), "token stream must end with Eof: {toks:?}");
    toks.into_iter().map(|t| t.kind).filter(|k| *k != TokenKind::Eof).collect()
}

/// Lex something that must fail; return the error.
fn err(src: &str) -> LexError {
    match lex(src) {
        Ok(toks) => panic!("lex({src:?}) should have failed, got {toks:?}"),
        Err(e) => e,
    }
}

fn ident(s: &str) -> TokenKind {
    TokenKind::Ident(s.to_string())
}

fn string(s: &str) -> TokenKind {
    TokenKind::Str(s.to_string())
}

fn sp(start: usize, end: usize) -> Span {
    Span::new(start, end)
}

// ----------------------------------------------------------- 1. skeleton

#[test]
fn empty_input_is_just_eof() {
    assert_eq!(lex("").unwrap(), vec![Token { kind: TokenKind::Eof, span: sp(0, 0) }]);
}

#[test]
fn whitespace_only_is_just_eof() {
    let src = "  \t\n\r\n ";
    assert_eq!(lex(src).unwrap(), vec![Token { kind: TokenKind::Eof, span: sp(src.len(), src.len()) }]);
}

// ----------------------------------------------- 2. single-char punctuation

#[test]
fn single_char_punctuation() {
    assert_eq!(
        kinds("( ) { } [ ] , ; : . = ! < > + - * / % & | ^ ~"),
        vec![
            TokenKind::LParen, TokenKind::RParen, TokenKind::LBrace, TokenKind::RBrace, TokenKind::LBracket, TokenKind::RBracket, TokenKind::Comma, TokenKind::Semi, TokenKind::Colon, TokenKind::Dot, TokenKind::Eq, TokenKind::Bang, TokenKind::Lt, TokenKind::Gt, TokenKind::Plus, TokenKind::Minus, TokenKind::Star, TokenKind::Slash,
            TokenKind::Percent, TokenKind::Amp, TokenKind::Pipe, TokenKind::Caret, TokenKind::Tilde,
        ]
    );
}

#[test]
fn punctuation_needs_no_whitespace() {
    assert_eq!(kinds("(){}[];,"), vec![TokenKind::LParen, TokenKind::RParen, TokenKind::LBrace, TokenKind::RBrace, TokenKind::LBracket, TokenKind::RBracket, TokenKind::Semi, TokenKind::Comma]);
}

// --------------------------------------------------- 3. identifiers & keywords

#[test]
fn single_identifier() {
    assert_eq!(kinds("foo"), vec![ident("foo")]);
}

#[test]
fn identifiers_allow_underscores_and_digits() {
    assert_eq!(
        kinds("_ _x x1 foo_bar __init sys_enter_execve u32"),
        vec![ident("_"), ident("_x"), ident("x1"), ident("foo_bar"), ident("__init"), ident("sys_enter_execve"), ident("u32"),]
    );
}

#[test]
fn every_keyword() {
    let table = [
        ("probe", TokenKind::Probe),
        ("map", TokenKind::MapKw),
        ("event", TokenKind::Event),
        ("const", TokenKind::Const),
        ("let", TokenKind::Let),
        ("mut", TokenKind::Mut),
        ("if", TokenKind::If),
        ("else", TokenKind::Else),
        ("for", TokenKind::For),
        ("in", TokenKind::In),
        ("emit", TokenKind::Emit),
        ("return", TokenKind::Return),
        ("true", TokenKind::True),
        ("false", TokenKind::False),
        ("as", TokenKind::As),
        // reserved
        ("fn", TokenKind::Fn),
        ("struct", TokenKind::Struct),
        ("match", TokenKind::Match),
        ("while", TokenKind::While),
        ("break", TokenKind::Break),
        ("continue", TokenKind::Continue),
    ];
    for (src, expected) in table {
        assert_eq!(kinds(src), vec![expected.clone()], "keyword {src:?}");
    }
}

#[test]
fn keywords_are_case_sensitive() {
    assert_eq!(kinds("Probe PROBE probe"), vec![ident("Probe"), ident("PROBE"), TokenKind::Probe]);
}

#[test]
fn identifier_with_keyword_prefix_is_an_identifier() {
    assert_eq!(kinds("probes mapping iffy letter"), vec![ident("probes"), ident("mapping"), ident("iffy"), ident("letter")]);
}

#[test]
fn type_names_and_builtins_are_plain_identifiers() {
    assert_eq!(
        kinds("hash array str bool Some None pid"),
        vec![ident("hash"), ident("array"), ident("str"), ident("bool"), ident("Some"), ident("None"), ident("pid"),]
    );
}

// ------------------------------------------------- 4. multi-char punctuation

#[test]
fn multi_char_punctuation() {
    assert_eq!(
        kinds(":: .. -> == != <= >= && || << >>"),
        vec![TokenKind::ColonColon, TokenKind::DotDot, TokenKind::Arrow, TokenKind::EqEq, TokenKind::BangEq, TokenKind::LtEq, TokenKind::GtEq, TokenKind::AmpAmp, TokenKind::PipePipe, TokenKind::Shl, TokenKind::Shr]
    );
}

#[test]
fn longest_match_wins() {
    assert_eq!(kinds("a==b"), vec![ident("a"), TokenKind::EqEq, ident("b")]);
    assert_eq!(kinds("x<=y"), vec![ident("x"), TokenKind::LtEq, ident("y")]);
    assert_eq!(kinds("a->b"), vec![ident("a"), TokenKind::Arrow, ident("b")]);
    assert_eq!(kinds("a::b"), vec![ident("a"), TokenKind::ColonColon, ident("b")]);
    assert_eq!(kinds("a&&b||c"), vec![ident("a"), TokenKind::AmpAmp, ident("b"), TokenKind::PipePipe, ident("c")]);
}

#[test]
fn separated_chars_stay_separate() {
    // A space breaks the match: this is `!` then `=`, not `!=`.
    assert_eq!(kinds("! ="), vec![TokenKind::Bang, TokenKind::Eq]);
    assert_eq!(kinds("- >"), vec![TokenKind::Minus, TokenKind::Gt]);
    assert_eq!(kinds(": :"), vec![TokenKind::Colon, TokenKind::Colon]);
}

#[test]
fn three_in_a_row_is_greedy_then_single() {
    // `===` has no meaning in honey; greedy lexing yields `==` then `=`.
    assert_eq!(kinds("==="), vec![TokenKind::EqEq, TokenKind::Eq]);
    assert_eq!(kinds("..."), vec![TokenKind::DotDot, TokenKind::Dot]);
}

#[test]
fn shr_is_greedy_even_when_closing_generics() {
    // The lexer does NOT know about generics. `str<16>>` ends in `Shr`, and
    // the parser is responsible for splitting it. (rustc does the same.)
    assert_eq!(kinds("hash<u32, str<16>>"), vec![ident("hash"), TokenKind::Lt, ident("u32"), TokenKind::Comma, ident("str"), TokenKind::Lt, TokenKind::Int(16), TokenKind::Shr]);
}

// ------------------------------------------------------------- 5. integers

#[test]
fn decimal_integers() {
    assert_eq!(kinds("0 7 42 1024"), vec![TokenKind::Int(0), TokenKind::Int(7), TokenKind::Int(42), TokenKind::Int(1024)]);
}

#[test]
fn underscores_are_ignored_in_integers() {
    assert_eq!(kinds("1_000_000 4_096"), vec![TokenKind::Int(1_000_000), TokenKind::Int(4_096)]);
}

#[test]
fn hex_integers() {
    assert_eq!(kinds("0xFF 0xff 0x0 0xDEAD_BEEF"), vec![TokenKind::Int(0xFF), TokenKind::Int(0xFF), TokenKind::Int(0), TokenKind::Int(0xDEAD_BEEF)]);
}

#[test]
fn binary_integers() {
    assert_eq!(kinds("0b1010 0b0 0b1111_0000"), vec![TokenKind::Int(10), TokenKind::Int(0), TokenKind::Int(0b1111_0000)]);
}

#[test]
fn octal_integers() {
    assert_eq!(kinds("0o755 0o100"), vec![TokenKind::Int(0o755), TokenKind::Int(0o100)]);
}

#[test]
fn u64_max_fits() {
    assert_eq!(kinds("18446744073709551615"), vec![TokenKind::Int(u64::MAX)]);
    assert_eq!(kinds("0xFFFF_FFFF_FFFF_FFFF"), vec![TokenKind::Int(u64::MAX)]);
}

#[test]
fn u64_overflow_is_an_error() {
    let src = "18446744073709551616"; // u64::MAX + 1, 20 chars
    let e = err(src);
    assert_eq!(e.kind, LexErrorKind::IntegerOverflow);
    assert_eq!(e.span, sp(0, 20));

    let e = err("0x1_0000_0000_0000_0000");
    assert_eq!(e.kind, LexErrorKind::IntegerOverflow);
    assert_eq!(e.span, sp(0, 23));
}

#[test]
fn integer_followed_by_dotdot_is_a_range() {
    assert_eq!(kinds("0..8"), vec![TokenKind::Int(0), TokenKind::DotDot, TokenKind::Int(8)]);
    assert_eq!(kinds("0..N"), vec![TokenKind::Int(0), TokenKind::DotDot, ident("N")]);
}

#[test]
fn there_are_no_float_literals() {
    // eBPF has no floats. `1.5` is three tokens; the parser rejects it.
    assert_eq!(kinds("1.5"), vec![TokenKind::Int(1), TokenKind::Dot, TokenKind::Int(5)]);
}

// ------------------------------------------------------------- 6. comments

#[test]
fn line_comment_is_skipped() {
    assert_eq!(kinds("a // this is ignored\nb"), vec![ident("a"), ident("b")]);
}

#[test]
fn line_comment_at_end_of_input_without_newline() {
    assert_eq!(kinds("a // trailing"), vec![ident("a")]);
}

#[test]
fn block_comment_is_skipped() {
    assert_eq!(kinds("a /* ignored */ b"), vec![ident("a"), ident("b")]);
    assert_eq!(kinds("a /* multi\nline */ b"), vec![ident("a"), ident("b")]);
}

#[test]
fn block_comments_nest() {
    assert_eq!(kinds("/* a /* b */ c */ x"), vec![ident("x")]);
    assert_eq!(kinds("/* /* /* */ */ */ y"), vec![ident("y")]);
}

#[test]
fn unterminated_block_comment_is_an_error() {
    let src = "/* never closed"; // 15 bytes
    let e = err(src);
    assert_eq!(e.kind, LexErrorKind::UnterminatedComment);
    assert_eq!(e.span, sp(0, 15));

    // Nesting counts: one `*/` is not enough to close two `/*`.
    let src = "/* outer /* inner */ still open";
    let e = err(src);
    assert_eq!(e.kind, LexErrorKind::UnterminatedComment);
    assert_eq!(e.span, sp(0, src.len()));
}

#[test]
fn lone_slash_is_division() {
    assert_eq!(kinds("a / b"), vec![ident("a"), TokenKind::Slash, ident("b")]);
    assert_eq!(kinds("a/b"), vec![ident("a"), TokenKind::Slash, ident("b")]);
}

// -------------------------------------------------------------- 7. strings

#[test]
fn simple_string() {
    assert_eq!(kinds(r#""hello""#), vec![string("hello")]);
}

#[test]
fn empty_string() {
    assert_eq!(kinds(r#""""#), vec![string("")]);
}

#[test]
fn string_escapes_are_decoded() {
    // Source text is:  "a\nb\t\\\"\0"   (backslash sequences, not real newlines)
    let src = r#""a\nb\t\\\"\0""#;
    assert_eq!(kinds(src), vec![string("a\nb\t\\\"\0")]);
    assert_eq!(kinds(r#""\r""#), vec![string("\r")]);
}

#[test]
fn hex_escapes_are_decoded() {
    assert_eq!(kinds(r#""\x41\x7a""#), vec![string("Az")]);
    assert_eq!(kinds(r#""\x00""#), vec![string("\0")]);
}

#[test]
fn raw_newline_inside_string_is_allowed() {
    assert_eq!(kinds("\"a\nb\""), vec![string("a\nb")]);
}

#[test]
fn non_ascii_inside_string_is_allowed() {
    assert_eq!(kinds(r#""héllo 🔥""#), vec![string("héllo 🔥")]);
}

#[test]
fn strings_next_to_punctuation() {
    assert_eq!(
        kinds(r#"tracepoint("syscalls", "sys_enter_execve")"#),
        vec![ident("tracepoint"), TokenKind::LParen, string("syscalls"), TokenKind::Comma, string("sys_enter_execve"), TokenKind::RParen,]
    );
}

#[test]
fn unterminated_string_is_an_error() {
    let e = err(r#""abc"#);
    assert_eq!(e.kind, LexErrorKind::UnterminatedString);
    assert_eq!(e.span, sp(0, 4));

    let src = "let s = \"oops;\nlet t = 1;";
    let e = err(src);
    assert_eq!(e.kind, LexErrorKind::UnterminatedString);
    assert_eq!(e.span, sp(8, src.len()));
}

#[test]
fn invalid_escape_is_an_error() {
    let e = err(r#""\q""#); // bytes: " \ q "
    assert_eq!(e.kind, LexErrorKind::InvalidEscape);
    assert_eq!(e.span, sp(1, 3));

    let e = err(r#""ab\z""#);
    assert_eq!(e.kind, LexErrorKind::InvalidEscape);
    assert_eq!(e.span, sp(3, 5));
}

// ---------------------------------------------------------------- 8. spans

#[test]
fn spans_are_byte_offsets() {
    // let x = 42;
    // 0123456789A
    let toks = lex("let x = 42;").unwrap();
    assert_eq!(
        toks,
        vec![
            Token { kind: TokenKind::Let, span: sp(0, 3) },
            Token { kind: ident("x"), span: sp(4, 5) },
            Token { kind: TokenKind::Eq, span: sp(6, 7) },
            Token { kind: TokenKind::Int(42), span: sp(8, 10) },
            Token { kind: TokenKind::Semi, span: sp(10, 11) },
            Token { kind: TokenKind::Eof, span: sp(11, 11) },
        ]
    );
}

#[test]
fn spans_cover_whole_multi_char_tokens() {
    let toks = lex("0xFF_00 >>= \"hi\"").unwrap();
    assert_eq!(toks[0], Token { kind: TokenKind::Int(0xFF00), span: sp(0, 7) });
    assert_eq!(toks[1], Token { kind: TokenKind::Shr, span: sp(8, 10) });
    assert_eq!(toks[2], Token { kind: TokenKind::Eq, span: sp(10, 11) });
    assert_eq!(toks[3], Token { kind: string("hi"), span: sp(12, 16) });
}

#[test]
fn spans_count_bytes_not_chars() {
    // "é" is 1 char but 2 bytes, so the string token is 4 bytes wide and
    // `x` starts at byte 5, not 3.
    let toks = lex("\"é\" x").unwrap();
    assert_eq!(toks[0], Token { kind: string("é"), span: sp(0, 4) });
    assert_eq!(toks[1], Token { kind: ident("x"), span: sp(5, 6) });
    assert_eq!(toks[2], Token { kind: TokenKind::Eof, span: sp(6, 6) });
}

#[test]
fn spans_survive_comments_and_newlines() {
    let src = "a /* c */\n  b";
    let toks = lex(src).unwrap();
    assert_eq!(toks[0], Token { kind: ident("a"), span: sp(0, 1) });
    assert_eq!(toks[1], Token { kind: ident("b"), span: sp(12, 13) });
}

// ------------------------------------------------------- 9. bad characters

#[test]
fn unexpected_ascii_char_is_an_error() {
    let e = err("@");
    assert_eq!(e.kind, LexErrorKind::UnexpectedChar('@'));
    assert_eq!(e.span, sp(0, 1));

    let e = err("let $x = 1;");
    assert_eq!(e.kind, LexErrorKind::UnexpectedChar('$'));
    assert_eq!(e.span, sp(4, 5));

    let e = err("a # b");
    assert_eq!(e.kind, LexErrorKind::UnexpectedChar('#'));
    assert_eq!(e.span, sp(2, 3));
}

#[test]
fn non_ascii_outside_a_string_is_an_error_with_a_full_width_span() {
    let e = err("é");
    assert_eq!(e.kind, LexErrorKind::UnexpectedChar('é'));
    assert_eq!(e.span, sp(0, 2)); // 2 bytes wide

    let e = err("let 🔥 = 1;");
    assert_eq!(e.kind, LexErrorKind::UnexpectedChar('🔥'));
    assert_eq!(e.span, sp(4, 8)); // 4 bytes wide
}

#[test]
fn first_error_wins() {
    // Both `@` and the unterminated string are wrong; report the first.
    let e = err("@ \"never closed");
    assert_eq!(e.kind, LexErrorKind::UnexpectedChar('@'));
    assert_eq!(e.span, sp(0, 1));
}

// ---------------------------------------------------- 10. whole programs


#[test]
fn example_exec_starts_as_expected() {
    let k = kinds(EXEC);
    assert_eq!(&k[..3], &[TokenKind::Event, ident("Exec"), TokenKind::LBrace]);
    assert_eq!(k.iter().filter(|k| **k == TokenKind::Probe).count(), 1);
    assert_eq!(k.iter().filter(|k| **k == TokenKind::Emit).count(), 1);
    assert_eq!(*k.last().unwrap(), TokenKind::RBrace);
}

#[test]
fn example_exec_burst_lexes() {
    let k = kinds(EXEC_BURST);
    assert_eq!(&k[..2], &[TokenKind::Const, ident("THRESHOLD")]);
    assert!(k.contains(&TokenKind::MapKw));
    assert!(k.contains(&TokenKind::Mut));
    assert!(k.contains(&TokenKind::Int(1024)));
    assert!(k.contains(&ident("Some")));
}

#[test]
fn example_sensitive_open_lexes() {
    // This one has a nested block comment, hex + octal literals, a bounded
    // loop, and `return`. If it lexes, most of the lexer works.
    let k = kinds(SENSITIVE_OPEN);
    assert_eq!(&k[..2], &[TokenKind::Const, ident("O_WRONLY")]);
    assert!(k.contains(&TokenKind::Int(0o100)));
    assert!(k.contains(&TokenKind::For));
    assert!(k.contains(&TokenKind::DotDot));
    assert!(k.contains(&TokenKind::Return));
    assert!(k.contains(&string("/etc/shadow")));
}

#[test]
fn every_example_lexes_without_error() {
    for (name, src) in [("exec", EXEC), ("exec_burst", EXEC_BURST), ("sensitive_open", SENSITIVE_OPEN)] {
        if let Err(e) = lex(src) {
            panic!("examples/{name}.hny failed to lex: {e:?}");
        }
    }
}
