//! The tokens of printed trees: which ones they are, and that lexing the
//! printed text gives them.

use crate::ast::{binary_symbol, unary_symbol, BinaryOp, UnaryOp};
use crate::grammar::is_place;
use crate::lexer::{in_class, is_dec_digit, is_space, keyword_of, punct_one, punct_two, Class};
use crate::pretty::{
    callee_text, annotation_text, block_text, comma, cond_text, emit_fields_text, event_fields_text,
    expr_text, exprs_text, item_text, items_text, let_text, mut_text, pattern_text, program_text,
    stmt_kind_text, stmt_text, stmts_text, str_text, strs_text, type_arg_text, type_args_text,
    type_text, types_text,
};
use crate::relex::{
    blank, boundary, cons, fx, group_kinds, is_name, is_word, lemma_blank, lemma_cons, lemma_dec,
    lemma_end, lemma_int, lemma_name, lemma_punct, lemma_punct_pair, lemma_space, lemma_str,
    lemma_word, lexes,
};
use crate::text::{dec, group_glue};
use crate::token::{Kind, TokenKind};
use crate::tree;
use vstd::prelude::*;

verus! {

// --------------------------------------------------------- printable trees

/// Names are names: words that are not keywords.
pub open spec fn printable_type(t: tree::Type) -> bool
    decreases t,
{
    &&& is_name(t.name.name)
    &&& forall|i: int| 0 <= i < t.args.len() ==> printable_type_arg(#[trigger] t.args[i])
}

pub open spec fn printable_type_arg(a: tree::TypeArg) -> bool
    decreases a,
{
    match a {
        tree::TypeArg::Type(t) => printable_type(t),
        tree::TypeArg::Int(_) => true,
    }
}

pub open spec fn printable_expr(e: tree::Expr) -> bool
    decreases e,
{
    match e.kind {
        tree::ExprKind::Int(_) | tree::ExprKind::Str(_) | tree::ExprKind::Bool(_) => true,
        tree::ExprKind::Ident(name) => is_name(name),
        tree::ExprKind::Unary { expr, .. } => printable_expr(*expr),
        tree::ExprKind::Binary { lhs, rhs, .. } => printable_expr(*lhs) && printable_expr(*rhs),
        tree::ExprKind::Cast { expr, ty } => printable_expr(*expr) && printable_type(ty),
        tree::ExprKind::Call { callee, args } => {
            &&& printable_expr(*callee)
            &&& forall|i: int| 0 <= i < args.len() ==> printable_expr(#[trigger] args[i])
        },
        tree::ExprKind::MethodCall { receiver, method, args } => {
            &&& printable_expr(*receiver)
            &&& is_name(method.name)
            &&& forall|i: int| 0 <= i < args.len() ==> printable_expr(#[trigger] args[i])
        },
        tree::ExprKind::Field { expr, field } => printable_expr(*expr) && is_name(field.name),
        tree::ExprKind::Index { expr, index } => printable_expr(*expr) && printable_expr(*index),
    }
}

/// The keywords that printing writes lex as themselves.
proof fn lemma_keywords()
    ensures
        is_word("probe"@) && keyword_of("probe"@) == Some(TokenKind::Probe),
        is_word("map"@) && keyword_of("map"@) == Some(TokenKind::MapKw),
        is_word("event"@) && keyword_of("event"@) == Some(TokenKind::Event),
        is_word("const"@) && keyword_of("const"@) == Some(TokenKind::Const),
        is_word("let"@) && keyword_of("let"@) == Some(TokenKind::Let),
        is_word("mut"@) && keyword_of("mut"@) == Some(TokenKind::Mut),
        is_word("if"@) && keyword_of("if"@) == Some(TokenKind::If),
        is_word("else"@) && keyword_of("else"@) == Some(TokenKind::Else),
        is_word("for"@) && keyword_of("for"@) == Some(TokenKind::For),
        is_word("in"@) && keyword_of("in"@) == Some(TokenKind::In),
        is_word("emit"@) && keyword_of("emit"@) == Some(TokenKind::Emit),
        is_word("return"@) && keyword_of("return"@) == Some(TokenKind::Return),
        is_word("true"@) && keyword_of("true"@) == Some(TokenKind::True),
        is_word("false"@) && keyword_of("false"@) == Some(TokenKind::False),
        is_word("as"@) && keyword_of("as"@) == Some(TokenKind::As),
{
    reveal_strlit("probe");
    reveal_strlit("map");
    reveal_strlit("event");
    reveal_strlit("const");
    reveal_strlit("let");
    reveal_strlit("mut");
    reveal_strlit("if");
    reveal_strlit("else");
    reveal_strlit("for");
    reveal_strlit("in");
    reveal_strlit("emit");
    reveal_strlit("return");
    reveal_strlit("true");
    reveal_strlit("false");
    reveal_strlit("as");
    assert("event"@[0] != "probe"@[0]);
    assert("const"@[0] != "probe"@[0]);
    assert("const"@[0] != "event"@[0]);
    assert("let"@[0] != "map"@[0]);
    assert("mut"@[1] != "map"@[1]);
    assert("mut"@[0] != "let"@[0]);
    assert("for"@[0] != "map"@[0]);
    assert("for"@[0] != "let"@[0]);
    assert("for"@[0] != "mut"@[0]);
    assert("in"@[1] != "if"@[1]);
    assert("emit"@[1] != "else"@[1]);
    assert("true"@[0] != "else"@[0]);
    assert("true"@[0] != "emit"@[0]);
    assert("false"@[0] != "probe"@[0]);
    assert("false"@[0] != "event"@[0]);
    assert("false"@[0] != "const"@[0]);
    assert("as"@[0] != "if"@[0]);
    assert("as"@[0] != "in"@[0]);
}

proof fn lemma_keyword(k: TokenKind, w: Seq<char>, rest: Seq<char>)
    requires
        ({
            ||| w == "probe"@ && k == TokenKind::Probe
            ||| w == "map"@ && k == TokenKind::MapKw
            ||| w == "event"@ && k == TokenKind::Event
            ||| w == "const"@ && k == TokenKind::Const
            ||| w == "let"@ && k == TokenKind::Let
            ||| w == "mut"@ && k == TokenKind::Mut
            ||| w == "if"@ && k == TokenKind::If
            ||| w == "else"@ && k == TokenKind::Else
            ||| w == "for"@ && k == TokenKind::For
            ||| w == "in"@ && k == TokenKind::In
            ||| w == "emit"@ && k == TokenKind::Emit
            ||| w == "return"@ && k == TokenKind::Return
            ||| w == "true"@ && k == TokenKind::True
            ||| w == "false"@ && k == TokenKind::False
            ||| w == "as"@ && k == TokenKind::As
        }),
        boundary(rest),
    ensures
        lexes(w + rest) == cons(fx(k), lexes(rest)),
{
    lemma_keywords();
    lemma_word(w, rest);
}

proof fn lemma_piece_comma(rest: Seq<char>)
    ensures
        lexes(", "@ + rest) == cons(fx(TokenKind::Comma), lexes(rest)),
{
    reveal_strlit(", ");
    assert(", "@ + rest =~= seq![','] + (seq![' '] + rest));
    lemma_punct(',', TokenKind::Comma, seq![' '] + rest);
    assert(seq![' '] + rest =~= seq![' '] + rest);
    lemma_space(' ', rest);
}

proof fn lemma_piece_as(rest: Seq<char>)
    ensures
        lexes(" as "@ + rest) == cons(fx(TokenKind::As), lexes(rest)),
{
    reveal_strlit(" as ");
    assert(" as "@ + rest =~= seq![' '] + (seq!['a', 's', ' '] + rest));
    lemma_space(' ', seq!['a', 's', ' '] + rest);
    reveal_strlit("as");
    assert(seq!['a', 's', ' '] + rest =~= "as"@ + (seq![' '] + rest));
    lemma_keyword(TokenKind::As, "as"@, seq![' '] + rest);
    assert(seq![' '] + rest =~= seq![' '] + rest);
    lemma_space(' ', rest);
}

proof fn lemma_piece_let(rest: Seq<char>)
    ensures
        lexes("let "@ + rest) == cons(fx(TokenKind::Let), lexes(rest)),
{
    reveal_strlit("let ");
    reveal_strlit("let");
    assert("let "@ + rest =~= "let"@ + (seq![' '] + rest));
    lemma_keyword(TokenKind::Let, "let"@, seq![' '] + rest);
    assert(seq![' '] + rest =~= seq![' '] + rest);
    lemma_space(' ', rest);
}

proof fn lemma_piece_mut(rest: Seq<char>)
    ensures
        lexes("mut "@ + rest) == cons(fx(TokenKind::Mut), lexes(rest)),
{
    reveal_strlit("mut ");
    reveal_strlit("mut");
    assert("mut "@ + rest =~= "mut"@ + (seq![' '] + rest));
    lemma_keyword(TokenKind::Mut, "mut"@, seq![' '] + rest);
    assert(seq![' '] + rest =~= seq![' '] + rest);
    lemma_space(' ', rest);
}

proof fn lemma_piece_equals(rest: Seq<char>)
    ensures
        lexes(" = "@ + rest) == cons(fx(TokenKind::Eq), lexes(rest)),
{
    reveal_strlit(" = ");
    assert(" = "@ + rest =~= seq![' '] + (seq!['=', ' '] + rest));
    lemma_space(' ', seq!['=', ' '] + rest);
    assert(seq!['=', ' '] + rest =~= seq!['='] + (seq![' '] + rest));
    lemma_punct('=', TokenKind::Eq, seq![' '] + rest);
    assert(seq![' '] + rest =~= seq![' '] + rest);
    lemma_space(' ', rest);
}

proof fn lemma_piece_colon(rest: Seq<char>)
    ensures
        lexes(": "@ + rest) == cons(fx(TokenKind::Colon), lexes(rest)),
{
    reveal_strlit(": ");
    assert(": "@ + rest =~= seq![':'] + (seq![' '] + rest));
    lemma_punct(':', TokenKind::Colon, seq![' '] + rest);
    assert(seq![' '] + rest =~= seq![' '] + rest);
    lemma_space(' ', rest);
}

proof fn lemma_piece_open(rest: Seq<char>)
    ensures
        lexes("{\n"@ + rest) == cons(fx(TokenKind::LBrace), lexes(rest)),
{
    reveal_strlit("{\n");
    assert("{\n"@ + rest =~= seq!['{'] + (seq!['\n'] + rest));
    lemma_punct('{', TokenKind::LBrace, seq!['\n'] + rest);
    assert(seq!['\n'] + rest =~= seq!['\n'] + rest);
    lemma_space('\n', rest);
}

proof fn lemma_piece_open_spaced(rest: Seq<char>)
    ensures
        lexes(" { "@ + rest) == cons(fx(TokenKind::LBrace), lexes(rest)),
{
    reveal_strlit(" { ");
    assert(" { "@ + rest =~= seq![' '] + (seq!['{', ' '] + rest));
    lemma_space(' ', seq!['{', ' '] + rest);
    assert(seq!['{', ' '] + rest =~= seq!['{'] + (seq![' '] + rest));
    lemma_punct('{', TokenKind::LBrace, seq![' '] + rest);
    assert(seq![' '] + rest =~= seq![' '] + rest);
    lemma_space(' ', rest);
}

proof fn lemma_piece_open_line(rest: Seq<char>)
    ensures
        lexes(" {\n"@ + rest) == cons(fx(TokenKind::LBrace), lexes(rest)),
{
    reveal_strlit(" {\n");
    assert(" {\n"@ + rest =~= seq![' '] + (seq!['{', '\n'] + rest));
    lemma_space(' ', seq!['{', '\n'] + rest);
    assert(seq!['{', '\n'] + rest =~= seq!['{'] + (seq!['\n'] + rest));
    lemma_punct('{', TokenKind::LBrace, seq!['\n'] + rest);
    assert(seq!['\n'] + rest =~= seq!['\n'] + rest);
    lemma_space('\n', rest);
}

proof fn lemma_piece_close_line(rest: Seq<char>)
    ensures
        lexes("}\n"@ + rest) == cons(fx(TokenKind::RBrace), lexes(rest)),
{
    reveal_strlit("}\n");
    assert("}\n"@ + rest =~= seq!['}'] + (seq!['\n'] + rest));
    lemma_punct('}', TokenKind::RBrace, seq!['\n'] + rest);
    assert(seq!['\n'] + rest =~= seq!['\n'] + rest);
    lemma_space('\n', rest);
}

proof fn lemma_piece_close_stmt(rest: Seq<char>)
    ensures
        lexes(" };\n"@ + rest) == cons(fx(TokenKind::RBrace) + fx(TokenKind::Semi), lexes(rest)),
{
    reveal_strlit(" };\n");
    assert(" };\n"@ + rest =~= seq![' '] + (seq!['}', ';', '\n'] + rest));
    lemma_space(' ', seq!['}', ';', '\n'] + rest);
    assert(seq!['}', ';', '\n'] + rest =~= seq!['}'] + (seq![';', '\n'] + rest));
    lemma_punct('}', TokenKind::RBrace, seq![';', '\n'] + rest);
    assert(seq![';', '\n'] + rest =~= seq![';'] + (seq!['\n'] + rest));
    lemma_punct(';', TokenKind::Semi, seq!['\n'] + rest);
    assert(seq!['\n'] + rest =~= seq!['\n'] + rest);
    lemma_space('\n', rest);
    lemma_cons(fx(TokenKind::RBrace), fx(TokenKind::Semi), lexes(rest));
}

proof fn lemma_piece_semi(rest: Seq<char>)
    ensures
        lexes(";\n"@ + rest) == cons(fx(TokenKind::Semi), lexes(rest)),
{
    reveal_strlit(";\n");
    assert(";\n"@ + rest =~= seq![';'] + (seq!['\n'] + rest));
    lemma_punct(';', TokenKind::Semi, seq!['\n'] + rest);
    assert(seq!['\n'] + rest =~= seq!['\n'] + rest);
    lemma_space('\n', rest);
}

proof fn lemma_piece_if(rest: Seq<char>)
    ensures
        lexes("if "@ + rest) == cons(fx(TokenKind::If), lexes(rest)),
{
    reveal_strlit("if ");
    reveal_strlit("if");
    assert("if "@ + rest =~= "if"@ + (seq![' '] + rest));
    lemma_keyword(TokenKind::If, "if"@, seq![' '] + rest);
    assert(seq![' '] + rest =~= seq![' '] + rest);
    lemma_space(' ', rest);
}

proof fn lemma_piece_else(rest: Seq<char>)
    ensures
        lexes(" else "@ + rest) == cons(fx(TokenKind::Else), lexes(rest)),
{
    reveal_strlit(" else ");
    assert(" else "@ + rest =~= seq![' '] + (seq!['e', 'l', 's', 'e', ' '] + rest));
    lemma_space(' ', seq!['e', 'l', 's', 'e', ' '] + rest);
    reveal_strlit("else");
    assert(seq!['e', 'l', 's', 'e', ' '] + rest =~= "else"@ + (seq![' '] + rest));
    lemma_keyword(TokenKind::Else, "else"@, seq![' '] + rest);
    assert(seq![' '] + rest =~= seq![' '] + rest);
    lemma_space(' ', rest);
}

proof fn lemma_piece_for(rest: Seq<char>)
    ensures
        lexes("for "@ + rest) == cons(fx(TokenKind::For), lexes(rest)),
{
    reveal_strlit("for ");
    reveal_strlit("for");
    assert("for "@ + rest =~= "for"@ + (seq![' '] + rest));
    lemma_keyword(TokenKind::For, "for"@, seq![' '] + rest);
    assert(seq![' '] + rest =~= seq![' '] + rest);
    lemma_space(' ', rest);
}

proof fn lemma_piece_in(rest: Seq<char>)
    ensures
        lexes(" in "@ + rest) == cons(fx(TokenKind::In), lexes(rest)),
{
    reveal_strlit(" in ");
    assert(" in "@ + rest =~= seq![' '] + (seq!['i', 'n', ' '] + rest));
    lemma_space(' ', seq!['i', 'n', ' '] + rest);
    reveal_strlit("in");
    assert(seq!['i', 'n', ' '] + rest =~= "in"@ + (seq![' '] + rest));
    lemma_keyword(TokenKind::In, "in"@, seq![' '] + rest);
    assert(seq![' '] + rest =~= seq![' '] + rest);
    lemma_space(' ', rest);
}

proof fn lemma_piece_emit(rest: Seq<char>)
    ensures
        lexes("emit "@ + rest) == cons(fx(TokenKind::Emit), lexes(rest)),
{
    reveal_strlit("emit ");
    reveal_strlit("emit");
    assert("emit "@ + rest =~= "emit"@ + (seq![' '] + rest));
    lemma_keyword(TokenKind::Emit, "emit"@, seq![' '] + rest);
    assert(seq![' '] + rest =~= seq![' '] + rest);
    lemma_space(' ', rest);
}

proof fn lemma_piece_const(rest: Seq<char>)
    ensures
        lexes("const "@ + rest) == cons(fx(TokenKind::Const), lexes(rest)),
{
    reveal_strlit("const ");
    reveal_strlit("const");
    assert("const "@ + rest =~= "const"@ + (seq![' '] + rest));
    lemma_keyword(TokenKind::Const, "const"@, seq![' '] + rest);
    assert(seq![' '] + rest =~= seq![' '] + rest);
    lemma_space(' ', rest);
}

proof fn lemma_piece_map(rest: Seq<char>)
    ensures
        lexes("map "@ + rest) == cons(fx(TokenKind::MapKw), lexes(rest)),
{
    reveal_strlit("map ");
    reveal_strlit("map");
    assert("map "@ + rest =~= "map"@ + (seq![' '] + rest));
    lemma_keyword(TokenKind::MapKw, "map"@, seq![' '] + rest);
    assert(seq![' '] + rest =~= seq![' '] + rest);
    lemma_space(' ', rest);
}

proof fn lemma_piece_event(rest: Seq<char>)
    ensures
        lexes("event "@ + rest) == cons(fx(TokenKind::Event), lexes(rest)),
{
    reveal_strlit("event ");
    reveal_strlit("event");
    assert("event "@ + rest =~= "event"@ + (seq![' '] + rest));
    lemma_keyword(TokenKind::Event, "event"@, seq![' '] + rest);
    assert(seq![' '] + rest =~= seq![' '] + rest);
    lemma_space(' ', rest);
}

proof fn lemma_piece_probe(rest: Seq<char>)
    ensures
        lexes("probe "@ + rest) == cons(fx(TokenKind::Probe), lexes(rest)),
{
    reveal_strlit("probe ");
    reveal_strlit("probe");
    assert("probe "@ + rest =~= "probe"@ + (seq![' '] + rest));
    lemma_keyword(TokenKind::Probe, "probe"@, seq![' '] + rest);
    assert(seq![' '] + rest =~= seq![' '] + rest);
    lemma_space(' ', rest);
}

proof fn lemma_piece_comma_line(rest: Seq<char>)
    ensures
        lexes(",\n"@ + rest) == cons(fx(TokenKind::Comma), lexes(rest)),
{
    reveal_strlit(",\n");
    assert(",\n"@ + rest =~= seq![','] + (seq!['\n'] + rest));
    lemma_punct(',', TokenKind::Comma, seq!['\n'] + rest);
    assert(seq!['\n'] + rest =~= seq!['\n'] + rest);
    lemma_space('\n', rest);
}

proof fn lemma_piece_capacity_end(rest: Seq<char>)
    ensures
        lexes("];\n"@ + rest) == cons(fx(TokenKind::RBracket) + fx(TokenKind::Semi), lexes(rest)),
{
    reveal_strlit("];\n");
    assert("];\n"@ + rest =~= seq![']'] + (seq![';', '\n'] + rest));
    lemma_punct(']', TokenKind::RBracket, seq![';', '\n'] + rest);
    assert(seq![';', '\n'] + rest =~= seq![';'] + (seq!['\n'] + rest));
    lemma_punct(';', TokenKind::Semi, seq!['\n'] + rest);
    assert(seq!['\n'] + rest =~= seq!['\n'] + rest);
    lemma_space('\n', rest);
    lemma_cons(fx(TokenKind::RBracket), fx(TokenKind::Semi), lexes(rest));
}

proof fn lemma_piece_args_end(rest: Seq<char>)
    ensures
        lexes(") "@ + rest) == cons(fx(TokenKind::RParen), lexes(rest)),
{
    reveal_strlit(") ");
    assert(") "@ + rest =~= seq![')'] + (seq![' '] + rest));
    lemma_punct(')', TokenKind::RParen, seq![' '] + rest);
    assert(seq![' '] + rest =~= seq![' '] + rest);
    lemma_space(' ', rest);
}

// ------------------------------------------------------------------- types

/// That many `>`, as the lexer reads them: in pairs as far as they go.
pub open spec fn closers(n: nat) -> Seq<Kind>
    decreases n,
{
    if n == 0 {
        Seq::empty()
    } else if n == 1 {
        fx(TokenKind::Gt)
    } else {
        fx(TokenKind::Shr) + closers((n - 2) as nat)
    }
}

pub open spec fn comma_kinds(i: int) -> Seq<Kind> {
    if i > 0 {
        fx(TokenKind::Comma)
    } else {
        Seq::empty()
    }
}

/// The tokens of a type with `n` more `>` right behind it.
pub open spec fn type_kinds(t: tree::Type, n: nat) -> Seq<Kind>
    decreases t, 0int,
{
    if t.args.len() == 0 {
        seq![Kind::Ident(t.name.name)] + closers(n)
    } else {
        seq![Kind::Ident(t.name.name)] + (fx(TokenKind::Lt) + type_args_kinds(t.args, 0, n + 1))
    }
}

pub open spec fn type_arg_kinds(a: tree::TypeArg, n: nat) -> Seq<Kind>
    decreases a, 0int,
{
    match a {
        tree::TypeArg::Type(t) => type_kinds(t, n),
        tree::TypeArg::Int(v) => seq![Kind::Int(v)] + closers(n),
    }
}

/// The tokens of the type arguments from the `i`th on, with `n` `>` behind the last.
pub open spec fn type_args_kinds(args: Seq<tree::TypeArg>, i: int, n: nat) -> Seq<Kind>
    decreases args, args.len() - i,
{
    if 0 <= i < args.len() - 1 {
        comma_kinds(i) + (type_arg_kinds(args[i], 0) + type_args_kinds(args, i + 1, n))
    } else if 0 <= i < args.len() {
        comma_kinds(i) + type_arg_kinds(args[i], n)
    } else {
        Seq::empty()
    }
}

/// The tokens of the types from the `i`th on, with `n` `>` behind the last.
pub open spec fn types_kinds(list: Seq<tree::Type>, i: int, n: nat) -> Seq<Kind>
    decreases list.len() - i,
{
    if 0 <= i < list.len() - 1 {
        comma_kinds(i) + (type_kinds(list[i], 0) + types_kinds(list, i + 1, n))
    } else if 0 <= i < list.len() {
        comma_kinds(i) + type_kinds(list[i], n)
    } else {
        Seq::empty()
    }
}

/// That many `>`.
pub open spec fn gts(n: nat) -> Seq<char> {
    Seq::new(n, |i: int| '>')
}

/// Text that can stand behind a type: it goes on neither the last word nor a `>`.
pub open spec fn after_type(rest: Seq<char>) -> bool {
    boundary(rest) && (rest.len() > 0 ==> rest[0] != '>' && rest[0] != '=')
}

proof fn lemma_lex_closers(n: nat, rest: Seq<char>)
    requires
        after_type(rest),
        lexes(rest) is Some,
    ensures
        lexes(gts(n) + rest) == Some(closers(n) + lexes(rest)->0),
    decreases n,
{
    broadcast use group_kinds;

    if n == 0 {
        assert(gts(0) + rest =~= rest);
    } else if n == 1 {
        assert(gts(1) + rest =~= seq!['>'] + rest);
        lemma_punct('>', TokenKind::Gt, rest);
    } else {
        let m = (n - 2) as nat;
        assert(gts(n) + rest =~= seq!['>', '>'] + (gts(m) + rest));
        lemma_lex_closers(m, rest);
        lemma_punct_pair('>', '>', TokenKind::Shr, gts(m) + rest);
    }
}

proof fn lemma_lex_comma(i: int, rest: Seq<char>)
    requires
        lexes(rest) is Some,
    ensures
        lexes(comma(i) + rest) == Some(comma_kinds(i) + lexes(rest)->0),
{
    broadcast use group_kinds;

    if i > 0 {
        lemma_piece_comma(rest);
    } else {
        assert(comma(i) + rest =~= rest);
    }
}

proof fn lemma_lex_type(t: tree::Type, n: nat, rest: Seq<char>)
    requires
        printable_type(t),
        after_type(rest),
        lexes(rest) is Some,
    ensures
        lexes(type_text(t) + (gts(n) + rest)) == Some(type_kinds(t, n) + lexes(rest)->0),
    decreases t, 0int,
{
    broadcast use group_kinds;

    let name = t.name.name;
    if t.args.len() == 0 {
        lemma_lex_closers(n, rest);
        lemma_name(name, gts(n) + rest);
    } else {
        lemma_lex_type_args(t.args, 0, n + 1, rest);
        let inner = type_args_text(t.args, 0) + (gts(n + 1) + rest);
        assert(type_text(t) + (gts(n) + rest) =~= name + (seq!['<'] + inner)) by {
            assert(seq!['>'] + gts(n) =~= gts(n + 1));
            broadcast use group_glue;

        }
        lemma_type_args_first(t.args);
        assert(inner[0] == type_args_text(t.args, 0)[0]);
        lemma_punct('<', TokenKind::Lt, inner);
        lemma_name(name, seq!['<'] + inner);
    }
}

/// A type argument starts with a letter, `_` or a digit.
proof fn lemma_type_arg_first(a: tree::TypeArg)
    requires
        printable_type_arg(a),
    ensures
        type_arg_text(a).len() > 0,
        in_class(Class::Word, type_arg_text(a)[0]),
{
    match a {
        tree::TypeArg::Type(t) => {},
        tree::TypeArg::Int(v) => {
            lemma_dec(v as nat);
            assert(is_dec_digit(dec(v as nat)[0]));
        },
    }
}

proof fn lemma_type_args_first(args: Seq<tree::TypeArg>)
    requires
        args.len() > 0,
        printable_type_arg(args[0]),
    ensures
        type_args_text(args, 0).len() > 0,
        in_class(Class::Word, type_args_text(args, 0)[0]),
{
    lemma_type_arg_first(args[0]);
    assert(comma(0) + type_arg_text(args[0]) =~= type_arg_text(args[0]));
    assert(type_args_text(args, 0)[0] == type_arg_text(args[0])[0]);
}

proof fn lemma_lex_type_arg(a: tree::TypeArg, n: nat, rest: Seq<char>)
    requires
        printable_type_arg(a),
        after_type(rest),
        lexes(rest) is Some,
    ensures
        lexes(type_arg_text(a) + (gts(n) + rest)) == Some(type_arg_kinds(a, n) + lexes(rest)->0),
    decreases a, 0int,
{
    broadcast use group_kinds;

    match a {
        tree::TypeArg::Type(t) => lemma_lex_type(t, n, rest),
        tree::TypeArg::Int(v) => {
            lemma_lex_closers(n, rest);
            lemma_int(v, gts(n) + rest);
        },
    }
}

proof fn lemma_lex_type_args(args: Seq<tree::TypeArg>, i: int, n: nat, rest: Seq<char>)
    requires
        forall|i: int| 0 <= i < args.len() ==> printable_type_arg(#[trigger] args[i]),
        0 <= i < args.len(),
        after_type(rest),
        lexes(rest) is Some,
    ensures
        lexes(type_args_text(args, i) + (gts(n) + rest)) == Some(
            type_args_kinds(args, i, n) + lexes(rest)->0,
        ),
    decreases args, args.len() - i,
{
    broadcast use group_kinds;

    let text = type_arg_text(args[i]);
    if i == args.len() - 1 {
        assert(type_args_text(args, i + 1) == Seq::<char>::empty());
        assert(type_args_text(args, i) + (gts(n) + rest) == comma(i) + (text + (gts(n) + rest))) by {
            broadcast use group_glue;

        }
        lemma_lex_type_arg(args[i], n, rest);
        lemma_lex_comma(i, text + (gts(n) + rest));
    } else {
        let more = type_args_text(args, i + 1) + (gts(n) + rest);
        lemma_lex_type_args(args, i + 1, n, rest);
        assert(type_args_text(args, i) + (gts(n) + rest) == comma(i) + (text + more)) by {
            broadcast use group_glue;

        }
        reveal_strlit(", ");
        assert(type_args_text(args, i + 1)[0] == ',');
        assert(more[0] == ',');
        assert(gts(0) + more =~= more);
        lemma_lex_type_arg(args[i], 0, more);
        lemma_lex_comma(i, text + more);
    }
}

proof fn lemma_lex_types(list: Seq<tree::Type>, i: int, n: nat, rest: Seq<char>)
    requires
        forall|i: int| 0 <= i < list.len() ==> printable_type(#[trigger] list[i]),
        0 <= i < list.len(),
        after_type(rest),
        lexes(rest) is Some,
    ensures
        lexes(types_text(list, i) + (gts(n) + rest)) == Some(
            types_kinds(list, i, n) + lexes(rest)->0,
        ),
    decreases list.len() - i,
{
    broadcast use group_kinds;

    let text = type_text(list[i]);
    if i == list.len() - 1 {
        assert(types_text(list, i + 1) == Seq::<char>::empty());
        assert(types_text(list, i) + (gts(n) + rest) == comma(i) + (text + (gts(n) + rest))) by {
            broadcast use group_glue;

        }
        lemma_lex_type(list[i], n, rest);
        lemma_lex_comma(i, text + (gts(n) + rest));
    } else {
        let more = types_text(list, i + 1) + (gts(n) + rest);
        lemma_lex_types(list, i + 1, n, rest);
        assert(types_text(list, i) + (gts(n) + rest) == comma(i) + (text + more)) by {
            broadcast use group_glue;

        }
        reveal_strlit(", ");
        assert(types_text(list, i + 1)[0] == ',');
        assert(more[0] == ',');
        assert(gts(0) + more =~= more);
        lemma_lex_type(list[i], 0, more);
        lemma_lex_comma(i, text + more);
    }
}

/// A type and nothing more to close.
proof fn lemma_lex_plain_type(t: tree::Type, rest: Seq<char>)
    requires
        printable_type(t),
        after_type(rest),
        lexes(rest) is Some,
    ensures
        lexes(type_text(t) + rest) == Some(type_kinds(t, 0) + lexes(rest)->0),
{
    assert(gts(0) + rest =~= rest);
    lemma_lex_type(t, 0, rest);
}

// ------------------------------------------------------------- expressions

pub open spec fn unary_kind(op: UnaryOp) -> TokenKind {
    match op {
        UnaryOp::Not => TokenKind::Bang,
        UnaryOp::Neg => TokenKind::Minus,
        UnaryOp::BitNot => TokenKind::Tilde,
        UnaryOp::Deref => TokenKind::Star,
    }
}

pub open spec fn binary_kind(op: BinaryOp) -> TokenKind {
    match op {
        BinaryOp::Or => TokenKind::PipePipe,
        BinaryOp::And => TokenKind::AmpAmp,
        BinaryOp::Eq => TokenKind::EqEq,
        BinaryOp::Ne => TokenKind::BangEq,
        BinaryOp::Lt => TokenKind::Lt,
        BinaryOp::Le => TokenKind::LtEq,
        BinaryOp::Gt => TokenKind::Gt,
        BinaryOp::Ge => TokenKind::GtEq,
        BinaryOp::BitOr => TokenKind::Pipe,
        BinaryOp::BitXor => TokenKind::Caret,
        BinaryOp::BitAnd => TokenKind::Amp,
        BinaryOp::Shl => TokenKind::Shl,
        BinaryOp::Shr => TokenKind::Shr,
        BinaryOp::Add => TokenKind::Plus,
        BinaryOp::Sub => TokenKind::Minus,
        BinaryOp::Mul => TokenKind::Star,
        BinaryOp::Div => TokenKind::Slash,
        BinaryOp::Rem => TokenKind::Percent,
    }
}

/// The tokens of a printed expression.
pub open spec fn expr_kinds(e: tree::Expr) -> Seq<Kind>
    decreases e, 0int,
{
    match e.kind {
        tree::ExprKind::Int(n) => seq![Kind::Int(n)],
        tree::ExprKind::Str(s) => seq![Kind::Str(s)],
        tree::ExprKind::Bool(b) => fx(
            if b {
                TokenKind::True
            } else {
                TokenKind::False
            },
        ),
        tree::ExprKind::Ident(name) => seq![Kind::Ident(name)],
        tree::ExprKind::Unary { op, expr } => fx(TokenKind::LParen) + (fx(unary_kind(op)) + (
        expr_kinds(*expr) + fx(TokenKind::RParen))),
        tree::ExprKind::Binary { op, lhs, rhs } => fx(TokenKind::LParen) + (expr_kinds(*lhs) + (fx(
            binary_kind(op),
        ) + (expr_kinds(*rhs) + fx(TokenKind::RParen)))),
        tree::ExprKind::Cast { expr, ty } => fx(TokenKind::LParen) + (expr_kinds(*expr) + (fx(
            TokenKind::As,
        ) + (type_kinds(ty, 0) + fx(TokenKind::RParen)))),
        tree::ExprKind::Call { callee, args } => callee_kinds(*callee) + (fx(TokenKind::LParen) + (
        exprs_kinds(args, 0) + fx(TokenKind::RParen))),
        tree::ExprKind::MethodCall { receiver, method, args } => expr_kinds(*receiver) + (fx(
            TokenKind::Dot,
        ) + (seq![Kind::Ident(method.name)] + (fx(TokenKind::LParen) + (exprs_kinds(args, 0) + fx(
            TokenKind::RParen,
        ))))),
        tree::ExprKind::Field { expr, field } => expr_kinds(*expr) + (fx(TokenKind::Dot) + seq![
            Kind::Ident(field.name),
        ]),
        tree::ExprKind::Index { expr, index } => expr_kinds(*expr) + (fx(TokenKind::LBracket) + (
        expr_kinds(*index) + fx(TokenKind::RBracket))),
    }
}

/// The tokens of what is called.
pub open spec fn callee_kinds(e: tree::Expr) -> Seq<Kind>
    decreases e, 1int,
{
    if e.kind is Field {
        fx(TokenKind::LParen) + (expr_kinds(e) + fx(TokenKind::RParen))
    } else {
        expr_kinds(e)
    }
}

/// The tokens of the arguments from the `i`th on.
pub open spec fn exprs_kinds(args: Seq<tree::Expr>, i: int) -> Seq<Kind>
    decreases args, args.len() - i,
{
    if 0 <= i < args.len() {
        comma_kinds(i) + (expr_kinds(args[i]) + exprs_kinds(args, i + 1))
    } else {
        Seq::empty()
    }
}

/// What a printed expression can start with.
spec fn opens_expr(c: char) -> bool {
    in_class(Class::Word, c) || c == '"' || c == '('
}

proof fn lemma_expr_first(e: tree::Expr)
    requires
        printable_expr(e),
    ensures
        expr_text(e).len() > 0,
        opens_expr(expr_text(e)[0]),
    decreases e,
{
    match e.kind {
        tree::ExprKind::Int(n) => {
            lemma_dec(n as nat);
            assert(is_dec_digit(dec(n as nat)[0]));
        },
        tree::ExprKind::Bool(b) => {
            reveal_strlit("true");
            reveal_strlit("false");
        },
        tree::ExprKind::Call { callee, args } => {
            lemma_expr_first(*callee);
            let c = callee_text(*callee);
            assert(c.len() > 0 && opens_expr(c[0]));
            assert(expr_text(e)[0] == c[0]);
        },
        tree::ExprKind::MethodCall { receiver, method, args } => lemma_expr_first(*receiver),
        tree::ExprKind::Field { expr, field } => lemma_expr_first(*expr),
        tree::ExprKind::Index { expr, index } => lemma_expr_first(*expr),
        _ => {},
    }
}

proof fn lemma_lex_unary_op(op: UnaryOp, rest: Seq<char>)
    requires
        rest.len() > 0,
        opens_expr(rest[0]),
    ensures
        lexes(unary_symbol(op) + rest) == cons(fx(unary_kind(op)), lexes(rest)),
{
    reveal_strlit("!");
    reveal_strlit("-");
    reveal_strlit("~");
    reveal_strlit("*");
    let c = match op {
        UnaryOp::Not => '!',
        UnaryOp::Neg => '-',
        UnaryOp::BitNot => '~',
        UnaryOp::Deref => '*',
    };
    assert(unary_symbol(op) =~= seq![c]);
    lemma_punct(c, unary_kind(op), rest);
}

proof fn lemma_lex_binary_op(op: BinaryOp, rest: Seq<char>)
    requires
        rest.len() > 0,
        rest[0] == ' ',
    ensures
        lexes(binary_symbol(op) + rest) == cons(fx(binary_kind(op)), lexes(rest)),
{
    let s = binary_symbol(op);
    let k = binary_kind(op);
    assert(s.len() == 1 && punct_one(s[0]) == Some(k) || s.len() == 2 && punct_two(s[0], s[1])
        == Some(k)) by {
        reveal_strlit("||");
        reveal_strlit("&&");
        reveal_strlit("==");
        reveal_strlit("!=");
        reveal_strlit("<");
        reveal_strlit("<=");
        reveal_strlit(">");
        reveal_strlit(">=");
        reveal_strlit("|");
        reveal_strlit("^");
        reveal_strlit("&");
        reveal_strlit("<<");
        reveal_strlit(">>");
        reveal_strlit("+");
        reveal_strlit("-");
        reveal_strlit("*");
        reveal_strlit("/");
        reveal_strlit("%");
    }
    if s.len() == 1 {
        assert(s =~= seq![s[0]]);
        lemma_punct(s[0], k, rest);
    } else {
        assert(s =~= seq![s[0], s[1]]);
        lemma_punct_pair(s[0], s[1], k, rest);
    }
}

proof fn lemma_lex_unary(op: UnaryOp, e: tree::Expr, rest: Seq<char>)
    requires
        printable_expr(e),
        lexes(rest) is Some,
        lexes(expr_text(e) + (seq![')'] + rest)) == cons(
            expr_kinds(e),
            lexes(seq![')'] + rest),
        ),
    ensures
        lexes(seq!['('] + unary_symbol(op) + expr_text(e) + seq![')'] + rest) == Some(
            fx(TokenKind::LParen) + (fx(unary_kind(op)) + (expr_kinds(e) + fx(TokenKind::RParen)))
                + lexes(rest)->0,
        ),
{
    broadcast use group_kinds;

    let r1 = seq![')'] + rest;
    let r2 = expr_text(e) + r1;
    let r3 = unary_symbol(op) + r2;
    assert(seq!['('] + unary_symbol(op) + expr_text(e) + seq![')'] + rest == seq!['('] + r3) by {
        broadcast use group_glue;

    }
    lemma_expr_first(e);
    assert(r2[0] == expr_text(e)[0]);
    lemma_punct('(', TokenKind::LParen, r3);
    lemma_lex_unary_op(op, r2);
    lemma_punct(')', TokenKind::RParen, rest);
}

proof fn lemma_lex_binary(op: BinaryOp, lhs: tree::Expr, rhs: tree::Expr, rest: Seq<char>)
    requires
        lexes(rest) is Some,
        forall|r: Seq<char>|
            boundary(r) && lexes(r) is Some ==> #[trigger] lexes(expr_text(lhs) + r) == Some(
                expr_kinds(lhs) + lexes(r)->0,
            ),
        forall|r: Seq<char>|
            boundary(r) && lexes(r) is Some ==> #[trigger] lexes(expr_text(rhs) + r) == Some(
                expr_kinds(rhs) + lexes(r)->0,
            ),
    ensures
        lexes(
            seq!['('] + expr_text(lhs) + seq![' '] + binary_symbol(op) + seq![' '] + expr_text(rhs)
                + seq![')'] + rest,
        ) == Some(
            fx(TokenKind::LParen) + (expr_kinds(lhs) + (fx(binary_kind(op)) + (expr_kinds(rhs) + fx(
                TokenKind::RParen,
            )))) + lexes(rest)->0,
        ),
{
    broadcast use group_kinds;

    let r1 = seq![')'] + rest;
    let r2 = expr_text(rhs) + r1;
    let r3 = seq![' '] + r2;
    let r4 = binary_symbol(op) + r3;
    let r5 = seq![' '] + r4;
    let r6 = expr_text(lhs) + r5;
    assert(seq!['('] + expr_text(lhs) + seq![' '] + binary_symbol(op) + seq![' '] + expr_text(rhs)
        + seq![')'] + rest == seq!['('] + r6) by {
        broadcast use group_glue;

    }
    lemma_punct(')', TokenKind::RParen, rest);
    lemma_space(' ', r2);
    lemma_lex_binary_op(op, r3);
    lemma_space(' ', r4);
    lemma_punct('(', TokenKind::LParen, r6);
}

proof fn lemma_lex_cast(e: tree::Expr, ty: tree::Type, rest: Seq<char>)
    requires
        printable_type(ty),
        lexes(rest) is Some,
        forall|r: Seq<char>|
            boundary(r) && lexes(r) is Some ==> #[trigger] lexes(expr_text(e) + r) == Some(
                expr_kinds(e) + lexes(r)->0,
            ),
    ensures
        lexes(seq!['('] + expr_text(e) + " as "@ + type_text(ty) + seq![')'] + rest) == Some(
            fx(TokenKind::LParen) + (expr_kinds(e) + (fx(TokenKind::As) + (type_kinds(ty, 0) + fx(
                TokenKind::RParen,
            )))) + lexes(rest)->0,
        ),
{
    broadcast use group_kinds;

    let r1 = seq![')'] + rest;
    let r2 = type_text(ty) + r1;
    let r3 = " as "@ + r2;
    let r4 = expr_text(e) + r3;
    assert(seq!['('] + expr_text(e) + " as "@ + type_text(ty) + seq![')'] + rest == seq!['('] + r4)
        by {
        broadcast use group_glue;

    }
    lemma_punct(')', TokenKind::RParen, rest);
    lemma_lex_plain_type(ty, r1);
    lemma_piece_as(r2);
    assert(r3[0] == ' ') by {
        reveal_strlit(" as ");
    }
    lemma_punct('(', TokenKind::LParen, r4);
}

/// Arguments in parentheses behind some expression.
proof fn lemma_lex_args(args: Seq<tree::Expr>, rest: Seq<char>)
    requires
        lexes(rest) is Some,
        lexes(exprs_text(args, 0) + (seq![')'] + rest)) == cons(
            exprs_kinds(args, 0),
            lexes(seq![')'] + rest),
        ),
    ensures
        lexes(seq!['('] + (exprs_text(args, 0) + (seq![')'] + rest))) == Some(
            fx(TokenKind::LParen) + (exprs_kinds(args, 0) + fx(TokenKind::RParen)) + lexes(rest)->0,
        ),
{
    broadcast use group_kinds;

    lemma_punct(')', TokenKind::RParen, rest);
    lemma_punct('(', TokenKind::LParen, exprs_text(args, 0) + (seq![')'] + rest));
}

proof fn lemma_lex_callee(e: tree::Expr, rest: Seq<char>)
    requires
        printable_expr(e),
        boundary(rest),
        lexes(rest) is Some,
    ensures
        lexes(callee_text(e) + rest) == Some(callee_kinds(e) + lexes(rest)->0),
    decreases e, 1int,
{
    if e.kind is Field {
        let r1 = seq![')'] + rest;
        let r2 = expr_text(e) + r1;
        assert(callee_text(e) + rest == seq!['('] + r2) by {
            broadcast use group_glue;

        }
        lemma_punct(')', TokenKind::RParen, rest);
        lemma_lex_expr(e, r1);
        lemma_punct('(', TokenKind::LParen, r2);
        assert(callee_kinds(e) + lexes(rest)->0 == fx(TokenKind::LParen) + (expr_kinds(e) + (fx(
            TokenKind::RParen,
        ) + lexes(rest)->0))) by {
            broadcast use group_kinds;

        }
    } else {
        lemma_lex_expr(e, rest);
    }
}

pub proof fn lemma_lex_expr(e: tree::Expr, rest: Seq<char>)
    requires
        printable_expr(e),
        boundary(rest),
        lexes(rest) is Some,
    ensures
        lexes(expr_text(e) + rest) == Some(expr_kinds(e) + lexes(rest)->0),
    decreases e, 0int,
{
    broadcast use group_kinds;

    match e.kind {
        tree::ExprKind::Int(n) => lemma_int(n, rest),
        tree::ExprKind::Str(s) => lemma_str(s, rest),
        tree::ExprKind::Bool(b) => {
            if b {
                lemma_keyword(TokenKind::True, "true"@, rest);
            } else {
                lemma_keyword(TokenKind::False, "false"@, rest);
            }
        },
        tree::ExprKind::Ident(name) => lemma_name(name, rest),
        tree::ExprKind::Unary { op, expr } => {
            lemma_punct(')', TokenKind::RParen, rest);
            lemma_lex_expr(*expr, seq![')'] + rest);
            lemma_lex_unary(op, *expr, rest);
        },
        tree::ExprKind::Binary { op, lhs, rhs } => {
            assert forall|r: Seq<char>| boundary(r) && lexes(r) is Some implies #[trigger] lexes(
                expr_text(*lhs) + r,
            ) == Some(expr_kinds(*lhs) + lexes(r)->0) by {
                lemma_lex_expr(*lhs, r);
            }
            assert forall|r: Seq<char>| boundary(r) && lexes(r) is Some implies #[trigger] lexes(
                expr_text(*rhs) + r,
            ) == Some(expr_kinds(*rhs) + lexes(r)->0) by {
                lemma_lex_expr(*rhs, r);
            }
            lemma_lex_binary(op, *lhs, *rhs, rest);
        },
        tree::ExprKind::Cast { expr, ty } => {
            assert forall|r: Seq<char>| boundary(r) && lexes(r) is Some implies #[trigger] lexes(
                expr_text(*expr) + r,
            ) == Some(expr_kinds(*expr) + lexes(r)->0) by {
                lemma_lex_expr(*expr, r);
            }
            lemma_lex_cast(*expr, ty, rest);
        },
        tree::ExprKind::Call { callee, args } => {
            lemma_punct(')', TokenKind::RParen, rest);
            lemma_lex_exprs(args, 0, seq![')'] + rest);
            lemma_lex_args(args, rest);
            let r = seq!['('] + (exprs_text(args, 0) + (seq![')'] + rest));
            assert(expr_text(e) + rest == callee_text(*callee) + r) by {
                broadcast use group_glue;

            }
            lemma_lex_callee(*callee, r);
        },
        tree::ExprKind::MethodCall { receiver, method, args } => {
            lemma_punct(')', TokenKind::RParen, rest);
            lemma_lex_exprs(args, 0, seq![')'] + rest);
            lemma_lex_args(args, rest);
            let r1 = seq!['('] + (exprs_text(args, 0) + (seq![')'] + rest));
            let r2 = method.name + r1;
            let r3 = seq!['.'] + r2;
            assert(expr_text(e) + rest == expr_text(*receiver) + r3) by {
                broadcast use group_glue;

            }
            lemma_name(method.name, r1);
            assert(r2[0] == method.name[0]);
            lemma_punct('.', TokenKind::Dot, r2);
            lemma_lex_expr(*receiver, r3);
        },
        tree::ExprKind::Field { expr, field } => {
            let r2 = field.name + rest;
            let r3 = seq!['.'] + r2;
            assert(expr_text(e) + rest == expr_text(*expr) + r3) by {
                broadcast use group_glue;

            }
            lemma_name(field.name, rest);
            assert(r2[0] == field.name[0]);
            lemma_punct('.', TokenKind::Dot, r2);
            lemma_lex_expr(*expr, r3);
        },
        tree::ExprKind::Index { expr, index } => {
            let r1 = seq![']'] + rest;
            let r2 = expr_text(*index) + r1;
            let r3 = seq!['['] + r2;
            assert(expr_text(e) + rest == expr_text(*expr) + r3) by {
                broadcast use group_glue;

            }
            lemma_punct(']', TokenKind::RBracket, rest);
            lemma_lex_expr(*index, r1);
            lemma_punct('[', TokenKind::LBracket, r2);
            lemma_lex_expr(*expr, r3);
        },
    }
}

proof fn lemma_lex_exprs(args: Seq<tree::Expr>, i: int, rest: Seq<char>)
    requires
        forall|i: int| 0 <= i < args.len() ==> printable_expr(#[trigger] args[i]),
        0 <= i <= args.len(),
        boundary(rest),
        lexes(rest) is Some,
    ensures
        lexes(exprs_text(args, i) + rest) == Some(exprs_kinds(args, i) + lexes(rest)->0),
    decreases args, args.len() - i,
{
    broadcast use group_kinds;

    if i < args.len() {
        lemma_lex_exprs(args, i + 1, rest);
        let more = exprs_text(args, i + 1) + rest;
        assert(boundary(more)) by {
            reveal_strlit(", ");
            if i + 1 < args.len() {
                assert(exprs_text(args, i + 1)[0] == ',');
                assert(more[0] == ',');
            } else {
                assert(more =~= rest);
            }
        }
        assert(exprs_text(args, i) + rest == comma(i) + (expr_text(args[i]) + more)) by {
            broadcast use group_glue;

        }
        lemma_lex_expr(args[i], more);
        lemma_lex_comma(i, expr_text(args[i]) + more);
    } else {
        assert(exprs_text(args, i) + rest =~= rest);
    }
}

// -------------------------------------------------------------- statements

pub open spec fn printable_pattern(p: tree::Pattern) -> bool {
    is_name(p.name.name) && (p.binding matches Some(b) ==> is_name(b.name))
}

pub open spec fn printable_cond(c: tree::Cond) -> bool {
    match c {
        tree::Cond::Expr(e) => printable_expr(e),
        tree::Cond::Let { pattern, value } => printable_pattern(pattern) && printable_expr(value),
    }
}

pub open spec fn printable_block(b: tree::Block) -> bool
    decreases b,
{
    forall|i: int| 0 <= i < b.stmts.len() ==> printable_stmt(#[trigger] b.stmts[i])
}

pub open spec fn printable_stmt(s: tree::Stmt) -> bool
    decreases s,
{
    printable_stmt_kind(s.kind)
}

pub open spec fn printable_emit_field(f: (tree::Ident, tree::Expr)) -> bool {
    is_name(f.0.name) && printable_expr(f.1)
}

pub open spec fn printable_stmt_kind(kind: tree::StmtKind) -> bool
    decreases kind,
{
    match kind {
        tree::StmtKind::Let { name, ty, value, .. } => {
            &&& is_name(name.name)
            &&& ty matches Some(t) ==> printable_type(t)
            &&& printable_expr(value)
        },
        tree::StmtKind::Assign { target, value } => {
            &&& printable_expr(target)
            &&& is_place(target)
            &&& printable_expr(value)
        },
        tree::StmtKind::If { cond, body, otherwise } => {
            &&& printable_cond(cond)
            &&& printable_block(body)
            &&& match otherwise {
                Some(b) => printable_block(b),
                None => true,
            }
        },
        tree::StmtKind::For { var, start, end, body } => {
            &&& is_name(var.name)
            &&& printable_expr(start)
            &&& printable_expr(end)
            &&& printable_block(body)
        },
        tree::StmtKind::Emit { event, fields } => {
            &&& is_name(event.name)
            &&& forall|i: int| 0 <= i < fields.len() ==> printable_emit_field(#[trigger] fields[i])
        },
        tree::StmtKind::Return(value) => value matches Some(v) ==> printable_expr(v),
        tree::StmtKind::Expr(e) => printable_expr(e),
    }
}

pub open spec fn pattern_kinds(p: tree::Pattern) -> Seq<Kind> {
    match p.binding {
        Some(b) => seq![Kind::Ident(p.name.name)] + (fx(TokenKind::LParen) + (seq![
            Kind::Ident(b.name),
        ] + fx(TokenKind::RParen))),
        None => seq![Kind::Ident(p.name.name)],
    }
}

pub open spec fn cond_kinds(c: tree::Cond) -> Seq<Kind> {
    match c {
        tree::Cond::Expr(e) => expr_kinds(e),
        tree::Cond::Let { pattern, value } => fx(TokenKind::Let) + (pattern_kinds(pattern) + (fx(
            TokenKind::Eq,
        ) + expr_kinds(value))),
    }
}

pub open spec fn emit_fields_kinds(list: Seq<(tree::Ident, tree::Expr)>, i: int) -> Seq<Kind>
    decreases list.len() - i,
{
    if 0 <= i < list.len() {
        comma_kinds(i) + (seq![Kind::Ident(list[i].0.name)] + (fx(TokenKind::Colon) + (expr_kinds(
            list[i].1,
        ) + emit_fields_kinds(list, i + 1))))
    } else {
        Seq::empty()
    }
}

pub open spec fn annotation_kinds(t: Option<tree::Type>) -> Seq<Kind> {
    match t {
        Some(t) => fx(TokenKind::Colon) + type_kinds(t, 0),
        None => Seq::empty(),
    }
}

pub open spec fn mut_kinds(mutable: bool) -> Seq<Kind> {
    if mutable {
        fx(TokenKind::Mut)
    } else {
        Seq::empty()
    }
}

pub open spec fn block_kinds(b: tree::Block) -> Seq<Kind>
    decreases b, 0int,
{
    fx(TokenKind::LBrace) + (stmts_kinds(b.stmts, 0) + fx(TokenKind::RBrace))
}

pub open spec fn stmts_kinds(list: Seq<tree::Stmt>, i: int) -> Seq<Kind>
    decreases list, list.len() - i,
{
    if 0 <= i < list.len() {
        stmt_kinds(list[i]) + stmts_kinds(list, i + 1)
    } else {
        Seq::empty()
    }
}

pub open spec fn stmt_kinds(s: tree::Stmt) -> Seq<Kind>
    decreases s, 0int,
{
    stmt_kind_kinds(s.kind)
}

pub open spec fn stmt_kind_kinds(kind: tree::StmtKind) -> Seq<Kind>
    decreases kind, 0int,
{
    match kind {
        tree::StmtKind::Let { mutable, name, ty, value } => fx(TokenKind::Let) + (mut_kinds(mutable)
            + (seq![Kind::Ident(name.name)] + (annotation_kinds(ty) + (fx(TokenKind::Eq) + (
        expr_kinds(value) + fx(TokenKind::Semi)))))),
        tree::StmtKind::Assign { target, value } => expr_kinds(target) + (fx(TokenKind::Eq) + (
        expr_kinds(value) + fx(TokenKind::Semi))),
        tree::StmtKind::If { cond, body, otherwise } => fx(TokenKind::If) + (cond_kinds(cond) + (
        block_kinds(body) + (match otherwise {
            Some(b) => fx(TokenKind::Else) + block_kinds(b),
            None => Seq::empty(),
        }))),
        tree::StmtKind::For { var, start, end, body } => fx(TokenKind::For) + (seq![
            Kind::Ident(var.name),
        ] + (fx(TokenKind::In) + (expr_kinds(start) + (fx(TokenKind::DotDot) + (expr_kinds(end)
            + block_kinds(body)))))),
        tree::StmtKind::Emit { event, fields } => fx(TokenKind::Emit) + (seq![
            Kind::Ident(event.name),
        ] + (fx(TokenKind::LBrace) + (emit_fields_kinds(fields, 0) + (fx(TokenKind::RBrace) + fx(
            TokenKind::Semi,
        ))))),
        tree::StmtKind::Return(value) => fx(TokenKind::Return) + ((match value {
            Some(v) => expr_kinds(v),
            None => Seq::empty(),
        }) + fx(TokenKind::Semi)),
        tree::StmtKind::Expr(e) => expr_kinds(e) + fx(TokenKind::Semi),
    }
}

/// An expression and `;`.
proof fn lemma_lex_expr_semi(e: tree::Expr, rest: Seq<char>)
    requires
        printable_expr(e),
        lexes(rest) is Some,
    ensures
        lexes(expr_text(e) + (";\n"@ + rest)) == Some(
            expr_kinds(e) + (fx(TokenKind::Semi) + lexes(rest)->0),
        ),
{
    lemma_piece_semi(rest);
    reveal_strlit(";\n");
    lemma_lex_expr(e, ";\n"@ + rest);
}

proof fn lemma_lex_pattern(p: tree::Pattern, rest: Seq<char>)
    requires
        printable_pattern(p),
        boundary(rest),
        lexes(rest) is Some,
    ensures
        lexes(pattern_text(p) + rest) == Some(pattern_kinds(p) + lexes(rest)->0),
{
    broadcast use group_kinds;

    match p.binding {
        Some(b) => {
            let r1 = seq![')'] + rest;
            let r2 = b.name + r1;
            let r3 = seq!['('] + r2;
            assert(pattern_text(p) + rest == p.name.name + r3) by {
                broadcast use group_glue;

            }
            lemma_punct(')', TokenKind::RParen, rest);
            lemma_name(b.name, r1);
            lemma_punct('(', TokenKind::LParen, r2);
            lemma_name(p.name.name, r3);
        },
        None => lemma_name(p.name.name, rest),
    }
}

proof fn lemma_lex_cond(c: tree::Cond, rest: Seq<char>)
    requires
        printable_cond(c),
        boundary(rest),
        lexes(rest) is Some,
    ensures
        lexes(cond_text(c) + rest) == Some(cond_kinds(c) + lexes(rest)->0),
{
    broadcast use group_kinds;

    match c {
        tree::Cond::Expr(e) => lemma_lex_expr(e, rest),
        tree::Cond::Let { pattern, value } => {
            let r1 = expr_text(value) + rest;
            let r2 = " = "@ + r1;
            let r3 = pattern_text(pattern) + r2;
            assert(cond_text(c) + rest == "let "@ + r3) by {
                broadcast use group_glue;

            }
            lemma_lex_expr(value, rest);
            lemma_piece_equals(r1);
            reveal_strlit(" = ");
            lemma_lex_pattern(pattern, r2);
            lemma_piece_let(r3);
        },
    }
}

proof fn lemma_lex_emit_fields(list: Seq<(tree::Ident, tree::Expr)>, i: int, rest: Seq<char>)
    requires
        forall|i: int| 0 <= i < list.len() ==> printable_emit_field(#[trigger] list[i]),
        0 <= i <= list.len(),
        boundary(rest),
        lexes(rest) is Some,
    ensures
        lexes(emit_fields_text(list, i) + rest) == Some(
            emit_fields_kinds(list, i) + lexes(rest)->0,
        ),
    decreases list.len() - i,
{
    broadcast use group_kinds;

    if i < list.len() {
        lemma_lex_emit_fields(list, i + 1, rest);
        let more = emit_fields_text(list, i + 1) + rest;
        assert(boundary(more)) by {
            reveal_strlit(", ");
            if i + 1 < list.len() {
                assert(emit_fields_text(list, i + 1)[0] == ',');
                assert(more[0] == ',');
            } else {
                assert(more =~= rest);
            }
        }
        let name = list[i].0.name;
        let value = list[i].1;
        let r1 = expr_text(value) + more;
        let r2 = ": "@ + r1;
        let r3 = name + r2;
        assert(emit_fields_text(list, i) + rest == comma(i) + r3) by {
            broadcast use group_glue;

        }
        assert(printable_emit_field(list[i]));
        lemma_lex_expr(value, more);
        lemma_piece_colon(r1);
        reveal_strlit(": ");
        lemma_name(name, r2);
        lemma_lex_comma(i, r3);
    } else {
        assert(emit_fields_text(list, i) + rest =~= rest);
    }
}

proof fn lemma_lex_let(
    mutable: bool,
    name: Seq<char>,
    ty: Option<tree::Type>,
    value: tree::Expr,
    rest: Seq<char>,
)
    requires
        is_name(name),
        ty matches Some(t) ==> printable_type(t),
        printable_expr(value),
        lexes(rest) is Some,
    ensures
        lexes(let_text(mutable, name, ty, value) + rest) == Some(
            fx(TokenKind::Let) + (mut_kinds(mutable) + (seq![Kind::Ident(name)] + (annotation_kinds(
                ty,
            ) + (fx(TokenKind::Eq) + (expr_kinds(value) + fx(TokenKind::Semi)))))) + lexes(rest)->0,
        ),
{
    broadcast use group_kinds;

    let r1 = expr_text(value) + (";\n"@ + rest);
    let r2 = " = "@ + r1;
    let r3 = annotation_text(ty) + r2;
    let r4 = name + r3;
    let r5 = mut_text(mutable) + r4;
    assert(let_text(mutable, name, ty, value) + rest == "let "@ + r5) by {
        broadcast use group_glue;

    }
    lemma_lex_expr_semi(value, rest);
    lemma_piece_equals(r1);
    reveal_strlit(" = ");
    reveal_strlit(": ");
    match ty {
        Some(t) => {
            let r = type_text(t) + r2;
            assert(r3 == ": "@ + r) by {
                broadcast use group_glue;

            }
            lemma_lex_plain_type(t, r2);
            lemma_piece_colon(r);
        },
        None => {
            assert(r3 =~= r2);
        },
    }
    lemma_name(name, r3);
    if mutable {
        lemma_piece_mut(r4);
    } else {
        assert(r5 =~= r4);
    }
    lemma_piece_let(r5);
}

proof fn lemma_deeper(ind: Seq<char>)
    requires
        blank(ind),
    ensures
        blank(ind + "    "@),
{
    reveal_strlit("    ");
    let s = ind + "    "@;
    assert forall|i: int| 0 <= i < s.len() implies is_space(#[trigger] s[i]) by {
        if i < ind.len() {
            assert(s[i] == ind[i]);
        }
    }
}

proof fn lemma_lex_block(b: tree::Block, ind: Seq<char>, rest: Seq<char>)
    requires
        printable_block(b),
        blank(ind),
        lexes(rest) is Some,
    ensures
        lexes(block_text(b, ind) + rest) == Some(block_kinds(b) + lexes(rest)->0),
    decreases b, 0int,
{
    broadcast use group_kinds;

    let r1 = seq!['}'] + rest;
    let r2 = ind + r1;
    let r3 = stmts_text(b.stmts, 0, ind + "    "@) + r2;
    assert(block_text(b, ind) + rest == "{\n"@ + r3) by {
        broadcast use group_glue;

    }
    lemma_punct('}', TokenKind::RBrace, rest);
    lemma_blank(ind, r1);
    lemma_deeper(ind);
    lemma_lex_stmts(b.stmts, 0, ind + "    "@, r2);
    lemma_piece_open(r3);
}

proof fn lemma_lex_stmts(list: Seq<tree::Stmt>, i: int, ind: Seq<char>, rest: Seq<char>)
    requires
        forall|i: int| 0 <= i < list.len() ==> printable_stmt(#[trigger] list[i]),
        0 <= i <= list.len(),
        blank(ind),
        lexes(rest) is Some,
    ensures
        lexes(stmts_text(list, i, ind) + rest) == Some(stmts_kinds(list, i) + lexes(rest)->0),
    decreases list, list.len() - i,
{
    broadcast use group_kinds;

    if i < list.len() {
        let more = stmts_text(list, i + 1, ind) + rest;
        lemma_lex_stmts(list, i + 1, ind, rest);
        assert(stmts_text(list, i, ind) + rest == stmt_text(list[i], ind) + more) by {
            broadcast use group_glue;

        }
        lemma_lex_stmt(list[i], ind, more);
    } else {
        assert(stmts_text(list, i, ind) + rest =~= rest);
    }
}

proof fn lemma_lex_stmt(s: tree::Stmt, ind: Seq<char>, rest: Seq<char>)
    requires
        printable_stmt(s),
        blank(ind),
        lexes(rest) is Some,
    ensures
        lexes(stmt_text(s, ind) + rest) == Some(stmt_kinds(s) + lexes(rest)->0),
    decreases s, 0int,
{
    let r = stmt_kind_text(s.kind, ind) + rest;
    assert(stmt_text(s, ind) + rest == ind + r) by {
        broadcast use group_glue;

    }
    lemma_lex_stmt_kind(s.kind, ind, rest);
    lemma_blank(ind, r);
}

proof fn lemma_lex_if(
    cond: tree::Cond,
    body: tree::Block,
    otherwise: Option<tree::Block>,
    ind: Seq<char>,
    rest: Seq<char>,
)
    requires
        printable_cond(cond),
        lexes(rest) is Some,
        forall|r: Seq<char>|
            lexes(r) is Some ==> #[trigger] lexes(block_text(body, ind) + r) == Some(
                block_kinds(body) + lexes(r)->0,
            ),
        otherwise matches Some(b) ==> forall|r: Seq<char>|
            lexes(r) is Some ==> #[trigger] lexes(block_text(b, ind) + r) == Some(
                block_kinds(b) + lexes(r)->0,
            ),
    ensures
        lexes(
            stmt_kind_text((tree::StmtKind::If { cond, body, otherwise }), ind) + rest,
        ) == Some(
            stmt_kind_kinds((tree::StmtKind::If { cond, body, otherwise })) + lexes(rest)->0,
        ),
{
    broadcast use group_kinds;

    let kind = tree::StmtKind::If { cond, body, otherwise };
    let tail = match otherwise {
        Some(b) => " else "@ + block_text(b, ind),
        None => Seq::empty(),
    };
    let r1 = seq!['\n'] + rest;
    let r2 = tail + r1;
    let r3 = block_text(body, ind) + r2;
    let r4 = seq![' '] + r3;
    let r5 = cond_text(cond) + r4;
    assert(stmt_kind_text(kind, ind) + rest == "if "@ + r5) by {
        broadcast use group_glue;

    }
    lemma_space('\n', rest);
    match otherwise {
        Some(b) => {
            let r = block_text(b, ind) + r1;
            assert(r2 == " else "@ + r) by {
                broadcast use group_glue;

            }
            lemma_piece_else(r);
        },
        None => {
            assert(r2 =~= r1);
        },
    }
    lemma_space(' ', r3);
    lemma_lex_cond(cond, r4);
    lemma_piece_if(r5);
}

/// Nine texts in a row, whichever way they are put together.
proof fn lemma_row(
    a: Seq<char>,
    b: Seq<char>,
    c: Seq<char>,
    d: Seq<char>,
    e: Seq<char>,
    f: Seq<char>,
    g: Seq<char>,
    h: Seq<char>,
    i: Seq<char>,
)
    ensures
        a + b + c + d + e + f + g + h + i == a + (b + (c + (d + (e + (f + (g + (h + i))))))),
{
    assert(a + b + c + d + e + f + g + h + i =~= a + (b + (c + (d + (e + (f + (g + (h + i))))))));
}

proof fn lemma_for_kinds(
    var: tree::Ident,
    start: tree::Expr,
    end: tree::Expr,
    body: tree::Block,
    t: Seq<Kind>,
)
    ensures
        stmt_kind_kinds((tree::StmtKind::For { var, start, end, body })) + t == fx(TokenKind::For)
            + (seq![Kind::Ident(var.name)] + (fx(TokenKind::In) + (expr_kinds(start) + (fx(
            TokenKind::DotDot,
        ) + (expr_kinds(end) + (block_kinds(body) + t)))))),
{
    broadcast use group_kinds;

}

proof fn lemma_for_text(
    var: tree::Ident,
    start: tree::Expr,
    end: tree::Expr,
    body: tree::Block,
    ind: Seq<char>,
    rest: Seq<char>,
)
    ensures
        stmt_kind_text((tree::StmtKind::For { var, start, end, body }), ind) + rest == "for "@ + (
        var.name + (" in "@ + (expr_text(start) + (".."@ + (expr_text(end) + (seq![' '] + (
        block_text(body, ind) + (seq!['\n'] + rest)))))))),
{
    let r = seq!['\n'] + rest;
    let most = "for "@ + var.name + " in "@ + expr_text(start) + ".."@ + expr_text(end) + seq![' ']
        + block_text(body, ind);
    assert(most + seq!['\n'] + rest =~= most + r);
    lemma_row(
        "for "@,
        var.name,
        " in "@,
        expr_text(start),
        ".."@,
        expr_text(end),
        seq![' '],
        block_text(body, ind),
        r,
    );
}

/// The bounds of a loop and its body.
proof fn lemma_lex_range(start: tree::Expr, end: tree::Expr, body: Seq<char>)
    requires
        printable_expr(start),
        printable_expr(end),
        lexes(body) is Some,
    ensures
        lexes(expr_text(start) + (".."@ + (expr_text(end) + (seq![' '] + body)))) == Some(
            expr_kinds(start) + (fx(TokenKind::DotDot) + (expr_kinds(end) + lexes(body)->0)),
        ),
{
    let r1 = seq![' '] + body;
    let r2 = expr_text(end) + r1;
    let r3 = ".."@ + r2;
    lemma_space(' ', body);
    lemma_lex_expr(end, r1);
    reveal_strlit("..");
    assert(".."@ =~= seq!['.', '.']);
    lemma_punct_pair('.', '.', TokenKind::DotDot, r2);
    lemma_lex_expr(start, r3);
}

/// `for`, the name and `in`.
proof fn lemma_lex_for_head(name: Seq<char>, rest: Seq<char>)
    requires
        is_name(name),
        lexes(rest) is Some,
    ensures
        lexes("for "@ + (name + (" in "@ + rest))) == Some(
            fx(TokenKind::For) + (seq![Kind::Ident(name)] + (fx(TokenKind::In) + lexes(rest)->0)),
        ),
{
    lemma_piece_in(rest);
    reveal_strlit(" in ");
    lemma_name(name, " in "@ + rest);
    lemma_piece_for(name + (" in "@ + rest));
}

proof fn lemma_lex_for(
    var: tree::Ident,
    start: tree::Expr,
    end: tree::Expr,
    body: tree::Block,
    ind: Seq<char>,
    rest: Seq<char>,
)
    requires
        is_name(var.name),
        printable_expr(start),
        printable_expr(end),
        lexes(rest) is Some,
        forall|r: Seq<char>|
            lexes(r) is Some ==> #[trigger] lexes(block_text(body, ind) + r) == Some(
                block_kinds(body) + lexes(r)->0,
            ),
    ensures
        lexes(
            stmt_kind_text((tree::StmtKind::For { var, start, end, body }), ind) + rest,
        ) == Some(
            stmt_kind_kinds((tree::StmtKind::For { var, start, end, body })) + lexes(rest)->0,
        ),
{
    lemma_space('\n', rest);
    let r = block_text(body, ind) + (seq!['\n'] + rest);
    lemma_lex_range(start, end, r);
    lemma_lex_for_head(
        var.name,
        expr_text(start) + (".."@ + (expr_text(end) + (seq![' '] + r))),
    );
    lemma_for_text(var, start, end, body, ind, rest);
    lemma_for_kinds(var, start, end, body, lexes(rest)->0);
}

proof fn lemma_lex_emit(
    event: tree::Ident,
    fields: Seq<(tree::Ident, tree::Expr)>,
    ind: Seq<char>,
    rest: Seq<char>,
)
    requires
        is_name(event.name),
        forall|i: int| 0 <= i < fields.len() ==> printable_emit_field(#[trigger] fields[i]),
        lexes(rest) is Some,
    ensures
        lexes(stmt_kind_text((tree::StmtKind::Emit { event, fields }), ind) + rest) == Some(
            stmt_kind_kinds((tree::StmtKind::Emit { event, fields })) + lexes(rest)->0,
        ),
{
    broadcast use group_kinds;

    let kind = tree::StmtKind::Emit { event, fields };
    let r1 = " };\n"@ + rest;
    let r2 = emit_fields_text(fields, 0) + r1;
    let r3 = " { "@ + r2;
    let r4 = event.name + r3;
    assert(stmt_kind_text(kind, ind) + rest == "emit "@ + r4) by {
        broadcast use group_glue;

    }
    lemma_piece_close_stmt(rest);
    reveal_strlit(" };\n");
    lemma_lex_emit_fields(fields, 0, r1);
    lemma_piece_open_spaced(r2);
    reveal_strlit(" { ");
    lemma_name(event.name, r3);
    lemma_piece_emit(r4);
}

proof fn lemma_lex_return(value: Option<tree::Expr>, ind: Seq<char>, rest: Seq<char>)
    requires
        value matches Some(v) ==> printable_expr(v),
        lexes(rest) is Some,
    ensures
        lexes(stmt_kind_text((tree::StmtKind::Return(value)), ind) + rest) == Some(
            stmt_kind_kinds((tree::StmtKind::Return(value))) + lexes(rest)->0,
        ),
{
    broadcast use group_kinds;

    let kind = tree::StmtKind::Return(value);
    let r1 = ";\n"@ + rest;
    lemma_piece_semi(rest);
    reveal_strlit(";\n");
    match value {
        Some(v) => {
            let r2 = expr_text(v) + r1;
            let r3 = seq![' '] + r2;
            assert(stmt_kind_text(kind, ind) + rest == "return"@ + r3) by {
                broadcast use group_glue;

            }
            lemma_lex_expr_semi(v, rest);
            lemma_space(' ', r2);
            lemma_keyword(TokenKind::Return, "return"@, r3);
        },
        None => {
            assert(stmt_kind_text(kind, ind) + rest == "return"@ + r1) by {
                broadcast use group_glue;

            }
            lemma_keyword(TokenKind::Return, "return"@, r1);
        },
    }
}

proof fn lemma_lex_stmt_kind(kind: tree::StmtKind, ind: Seq<char>, rest: Seq<char>)
    requires
        printable_stmt_kind(kind),
        blank(ind),
        lexes(rest) is Some,
    ensures
        lexes(stmt_kind_text(kind, ind) + rest) == Some(stmt_kind_kinds(kind) + lexes(rest)->0),
    decreases kind, 0int,
{
    broadcast use group_kinds;

    match kind {
        tree::StmtKind::Let { mutable, name, ty, value } => lemma_lex_let(
            mutable,
            name.name,
            ty,
            value,
            rest,
        ),
        tree::StmtKind::Assign { target, value } => {
            let r1 = expr_text(value) + (";\n"@ + rest);
            let r2 = " = "@ + r1;
            assert(stmt_kind_text(kind, ind) + rest == expr_text(target) + r2) by {
                broadcast use group_glue;

            }
            lemma_lex_expr_semi(value, rest);
            lemma_piece_equals(r1);
            reveal_strlit(" = ");
            lemma_lex_expr(target, r2);
        },
        tree::StmtKind::If { cond, body, otherwise } => {
            assert forall|r: Seq<char>| lexes(r) is Some implies #[trigger] lexes(
                block_text(body, ind) + r,
            ) == Some(block_kinds(body) + lexes(r)->0) by {
                lemma_lex_block(body, ind, r);
            }
            if let Some(b) = otherwise {
                assert forall|r: Seq<char>| lexes(r) is Some implies #[trigger] lexes(
                    block_text(b, ind) + r,
                ) == Some(block_kinds(b) + lexes(r)->0) by {
                    lemma_lex_block(b, ind, r);
                }
            }
            lemma_lex_if(cond, body, otherwise, ind, rest);
        },
        tree::StmtKind::For { var, start, end, body } => {
            assert forall|r: Seq<char>| lexes(r) is Some implies #[trigger] lexes(
                block_text(body, ind) + r,
            ) == Some(block_kinds(body) + lexes(r)->0) by {
                lemma_lex_block(body, ind, r);
            }
            lemma_lex_for(var, start, end, body, ind, rest);
        },
        tree::StmtKind::Emit { event, fields } => lemma_lex_emit(event, fields, ind, rest),
        tree::StmtKind::Return(value) => lemma_lex_return(value, ind, rest),
        tree::StmtKind::Expr(e) => {
            assert(stmt_kind_text(kind, ind) + rest == expr_text(e) + (";\n"@ + rest)) by {
                broadcast use group_glue;

            }
            lemma_lex_expr_semi(e, rest);
        },
    }
}

// ------------------------------------------------------------------- items

pub open spec fn printable_field(f: tree::Field) -> bool {
    is_name(f.name.name) && printable_type(f.ty)
}

pub open spec fn printable_item(item: tree::Item) -> bool {
    match item {
        tree::Item::Const(c) => is_name(c.name.name) && printable_type(c.ty) && printable_expr(
            c.value,
        ),
        tree::Item::MapDecl(m) => {
            &&& is_name(m.name.name)
            &&& is_name(m.kind.name)
            &&& m.args.len() > 0
            &&& forall|i: int| 0 <= i < m.args.len() ==> printable_type(#[trigger] m.args[i])
        },
        tree::Item::Event(e) => {
            &&& is_name(e.name.name)
            &&& forall|i: int| 0 <= i < e.fields.len() ==> printable_field(#[trigger] e.fields[i])
        },
        tree::Item::Probe(p) => is_name(p.kind.name) && p.args.len() > 0 && printable_block(p.body),
    }
}

pub open spec fn printable(p: tree::Program) -> bool {
    forall|i: int| 0 <= i < p.items.len() ==> printable_item(#[trigger] p.items[i])
}

pub open spec fn event_fields_kinds(list: Seq<tree::Field>, i: int) -> Seq<Kind>
    decreases list.len() - i,
{
    if 0 <= i < list.len() {
        seq![Kind::Ident(list[i].name.name)] + (fx(TokenKind::Colon) + (type_kinds(list[i].ty, 0)
            + (fx(TokenKind::Comma) + event_fields_kinds(list, i + 1))))
    } else {
        Seq::empty()
    }
}

pub open spec fn strs_kinds(list: Seq<Seq<char>>, i: int) -> Seq<Kind>
    decreases list.len() - i,
{
    if 0 <= i < list.len() {
        comma_kinds(i) + (seq![Kind::Str(list[i])] + strs_kinds(list, i + 1))
    } else {
        Seq::empty()
    }
}

pub open spec fn item_kinds(item: tree::Item) -> Seq<Kind> {
    match item {
        tree::Item::Const(c) => fx(TokenKind::Const) + (seq![Kind::Ident(c.name.name)] + (fx(
            TokenKind::Colon,
        ) + (type_kinds(c.ty, 0) + (fx(TokenKind::Eq) + (expr_kinds(c.value) + fx(
            TokenKind::Semi,
        )))))),
        tree::Item::MapDecl(m) => fx(TokenKind::MapKw) + (seq![Kind::Ident(m.name.name)] + (fx(
            TokenKind::Colon,
        ) + (seq![Kind::Ident(m.kind.name)] + (fx(TokenKind::Lt) + (types_kinds(m.args, 0, 1) + (fx(
            TokenKind::LBracket,
        ) + (seq![Kind::Int(m.capacity)] + (fx(TokenKind::RBracket) + fx(TokenKind::Semi))))))))),
        tree::Item::Event(e) => fx(TokenKind::Event) + (seq![Kind::Ident(e.name.name)] + (fx(
            TokenKind::LBrace,
        ) + (event_fields_kinds(e.fields, 0) + fx(TokenKind::RBrace)))),
        tree::Item::Probe(p) => fx(TokenKind::Probe) + (seq![Kind::Ident(p.kind.name)] + (fx(
            TokenKind::LParen,
        ) + (strs_kinds(p.args, 0) + (fx(TokenKind::RParen) + block_kinds(p.body))))),
    }
}

pub open spec fn items_kinds(list: Seq<tree::Item>, i: int) -> Seq<Kind>
    decreases list.len() - i,
{
    if 0 <= i < list.len() {
        item_kinds(list[i]) + items_kinds(list, i + 1)
    } else {
        Seq::empty()
    }
}

proof fn lemma_lex_event_field(f: tree::Field, rest: Seq<char>)
    requires
        printable_field(f),
        lexes(rest) is Some,
    ensures
        lexes("    "@ + (f.name.name + (": "@ + (type_text(f.ty) + (",\n"@ + rest))))) == Some(
            seq![Kind::Ident(f.name.name)] + (fx(TokenKind::Colon) + (type_kinds(f.ty, 0) + (fx(
                TokenKind::Comma,
            ) + lexes(rest)->0))),
        ),
{
    let r1 = ",\n"@ + rest;
    let r2 = type_text(f.ty) + r1;
    let r3 = ": "@ + r2;
    lemma_piece_comma_line(rest);
    reveal_strlit(",\n");
    lemma_lex_plain_type(f.ty, r1);
    lemma_piece_colon(r2);
    reveal_strlit(": ");
    lemma_name(f.name.name, r3);
    reveal_strlit("    ");
    lemma_blank("    "@, f.name.name + r3);
}

proof fn lemma_lex_event_fields(list: Seq<tree::Field>, i: int, rest: Seq<char>)
    requires
        forall|i: int| 0 <= i < list.len() ==> printable_field(#[trigger] list[i]),
        0 <= i <= list.len(),
        lexes(rest) is Some,
    ensures
        lexes(event_fields_text(list, i) + rest) == Some(
            event_fields_kinds(list, i) + lexes(rest)->0,
        ),
    decreases list.len() - i,
{
    if i < list.len() {
        lemma_lex_event_fields(list, i + 1, rest);
        let more = event_fields_text(list, i + 1) + rest;
        let f = list[i];
        lemma_lex_event_field(f, more);
        assert(event_fields_text(list, i) + rest == "    "@ + (f.name.name + (": "@ + (type_text(
            f.ty,
        ) + (",\n"@ + more))))) by {
            broadcast use group_glue;

        }
        let t = lexes(rest)->0;
        assert(event_fields_kinds(list, i) + t == seq![Kind::Ident(f.name.name)] + (fx(
            TokenKind::Colon,
        ) + (type_kinds(f.ty, 0) + (fx(TokenKind::Comma) + (event_fields_kinds(list, i + 1) + t)))))
            by {
            broadcast use group_kinds;

        }
    } else {
        assert(event_fields_text(list, i) + rest =~= rest);
        assert(event_fields_kinds(list, i) + lexes(rest)->0 =~= lexes(rest)->0);
    }
}

proof fn lemma_lex_strs(list: Seq<Seq<char>>, i: int, rest: Seq<char>)
    requires
        0 <= i <= list.len(),
        lexes(rest) is Some,
    ensures
        lexes(strs_text(list, i) + rest) == Some(strs_kinds(list, i) + lexes(rest)->0),
    decreases list.len() - i,
{
    broadcast use group_kinds;

    if i < list.len() {
        lemma_lex_strs(list, i + 1, rest);
        let more = strs_text(list, i + 1) + rest;
        assert(strs_text(list, i) + rest == comma(i) + (str_text(list[i]) + more)) by {
            broadcast use group_glue;

        }
        lemma_str(list[i], more);
        lemma_lex_comma(i, str_text(list[i]) + more);
    } else {
        assert(strs_text(list, i) + rest =~= rest);
    }
}

proof fn lemma_lex_const(c: tree::ConstDecl, rest: Seq<char>)
    requires
        printable_item(tree::Item::Const(c)),
        lexes(rest) is Some,
    ensures
        lexes(item_text(tree::Item::Const(c)) + rest) == Some(
            item_kinds(tree::Item::Const(c)) + lexes(rest)->0,
        ),
{
    broadcast use group_kinds;

    let r1 = expr_text(c.value) + (";\n"@ + rest);
    let r2 = " = "@ + r1;
    let r3 = type_text(c.ty) + r2;
    let r4 = ": "@ + r3;
    let r5 = c.name.name + r4;
    assert(item_text(tree::Item::Const(c)) + rest == "const "@ + r5) by {
        broadcast use group_glue;

    }
    lemma_lex_expr_semi(c.value, rest);
    lemma_piece_equals(r1);
    reveal_strlit(" = ");
    lemma_lex_plain_type(c.ty, r2);
    lemma_piece_colon(r3);
    reveal_strlit(": ");
    lemma_name(c.name.name, r4);
    lemma_piece_const(r5);
}

proof fn lemma_map_kinds(m: tree::MapDecl, t: Seq<Kind>)
    ensures
        item_kinds(tree::Item::MapDecl(m)) + t == fx(TokenKind::MapKw) + (seq![
            Kind::Ident(m.name.name),
        ] + (fx(TokenKind::Colon) + (seq![Kind::Ident(m.kind.name)] + (fx(TokenKind::Lt) + (
        types_kinds(m.args, 0, 1) + (fx(TokenKind::LBracket) + (seq![Kind::Int(m.capacity)] + (fx(
            TokenKind::RBracket,
        ) + fx(TokenKind::Semi) + t)))))))),
{
    broadcast use group_kinds;

}

proof fn lemma_map_text(m: tree::MapDecl, rest: Seq<char>)
    ensures
        item_text(tree::Item::MapDecl(m)) + rest == "map "@ + (m.name.name + (": "@ + (m.kind.name
            + (seq!['<'] + (types_text(m.args, 0) + (gts(1) + (seq!['['] + (dec(m.capacity as nat)
            + ("];\n"@ + rest))))))))),
{
    let r = "];\n"@ + rest;
    let most = "map "@ + m.name.name + ": "@ + m.kind.name + seq!['<'] + types_text(m.args, 0)
        + ">["@ + dec(m.capacity as nat);
    assert(most + "];\n"@ + rest =~= most + r);
    lemma_row(
        "map "@,
        m.name.name,
        ": "@,
        m.kind.name,
        seq!['<'],
        types_text(m.args, 0),
        ">["@,
        dec(m.capacity as nat),
        r,
    );
    let s = dec(m.capacity as nat) + r;
    assert(">["@ + s =~= gts(1) + (seq!['['] + s)) by {
        reveal_strlit(">[");
    }
}

/// The capacity of a map and what ends its declaration.
proof fn lemma_lex_capacity(n: u64, rest: Seq<char>)
    requires
        lexes(rest) is Some,
    ensures
        lexes(seq!['['] + (dec(n as nat) + ("];\n"@ + rest))) == Some(
            fx(TokenKind::LBracket) + (seq![Kind::Int(n)] + (fx(TokenKind::RBracket) + fx(
                TokenKind::Semi,
            ) + lexes(rest)->0)),
        ),
{
    let r = "];\n"@ + rest;
    lemma_piece_capacity_end(rest);
    reveal_strlit("];\n");
    lemma_int(n, r);
    lemma_punct('[', TokenKind::LBracket, dec(n as nat) + r);
}

/// `map`, the name and the kind, up to the `<`.
proof fn lemma_lex_map_head(name: Seq<char>, kind: Seq<char>, rest: Seq<char>)
    requires
        is_name(name),
        is_name(kind),
        rest.len() > 0,
        in_class(Class::Word, rest[0]),
        lexes(rest) is Some,
    ensures
        lexes("map "@ + (name + (": "@ + (kind + (seq!['<'] + rest))))) == Some(
            fx(TokenKind::MapKw) + (seq![Kind::Ident(name)] + (fx(TokenKind::Colon) + (seq![
                Kind::Ident(kind),
            ] + (fx(TokenKind::Lt) + lexes(rest)->0)))),
        ),
{
    let r1 = seq!['<'] + rest;
    let r2 = kind + r1;
    let r3 = ": "@ + r2;
    lemma_punct('<', TokenKind::Lt, rest);
    lemma_name(kind, r1);
    lemma_piece_colon(r2);
    reveal_strlit(": ");
    lemma_name(name, r3);
    lemma_piece_map(name + r3);
}

/// A list of types starts with a word.
proof fn lemma_types_first(list: Seq<tree::Type>)
    requires
        list.len() > 0,
        printable_type(list[0]),
    ensures
        types_text(list, 0).len() > 0,
        in_class(Class::Word, types_text(list, 0)[0]),
{
    assert(comma(0) + type_text(list[0]) =~= type_text(list[0]));
    assert(type_text(list[0])[0] == list[0].name.name[0]);
    assert(types_text(list, 0)[0] == type_text(list[0])[0]);
}

proof fn lemma_lex_map(m: tree::MapDecl, rest: Seq<char>)
    requires
        printable_item(tree::Item::MapDecl(m)),
        lexes(rest) is Some,
    ensures
        lexes(item_text(tree::Item::MapDecl(m)) + rest) == Some(
            item_kinds(tree::Item::MapDecl(m)) + lexes(rest)->0,
        ),
{
    let r1 = seq!['['] + (dec(m.capacity as nat) + ("];\n"@ + rest));
    let r2 = types_text(m.args, 0) + (gts(1) + r1);
    lemma_lex_capacity(m.capacity, rest);
    lemma_lex_types(m.args, 0, 1, r1);
    lemma_types_first(m.args);
    assert(r2[0] == types_text(m.args, 0)[0]);
    lemma_lex_map_head(m.name.name, m.kind.name, r2);
    lemma_map_text(m, rest);
    lemma_map_kinds(m, lexes(rest)->0);
}

proof fn lemma_lex_event(e: tree::EventDecl, rest: Seq<char>)
    requires
        printable_item(tree::Item::Event(e)),
        lexes(rest) is Some,
    ensures
        lexes(item_text(tree::Item::Event(e)) + rest) == Some(
            item_kinds(tree::Item::Event(e)) + lexes(rest)->0,
        ),
{
    broadcast use group_kinds;

    let r1 = "}\n"@ + rest;
    let r2 = event_fields_text(e.fields, 0) + r1;
    let r3 = " {\n"@ + r2;
    let r4 = e.name.name + r3;
    assert(item_text(tree::Item::Event(e)) + rest == "event "@ + r4) by {
        broadcast use group_glue;

    }
    lemma_piece_close_line(rest);
    lemma_lex_event_fields(e.fields, 0, r1);
    lemma_piece_open_line(r2);
    reveal_strlit(" {\n");
    lemma_name(e.name.name, r3);
    lemma_piece_event(r4);
}

proof fn lemma_lex_probe(p: tree::ProbeDecl, rest: Seq<char>)
    requires
        printable_item(tree::Item::Probe(p)),
        lexes(rest) is Some,
    ensures
        lexes(item_text(tree::Item::Probe(p)) + rest) == Some(
            item_kinds(tree::Item::Probe(p)) + lexes(rest)->0,
        ),
{
    broadcast use group_kinds;

    let r1 = seq!['\n'] + rest;
    let r2 = block_text(p.body, Seq::empty()) + r1;
    let r3 = ") "@ + r2;
    let r4 = strs_text(p.args, 0) + r3;
    let r5 = seq!['('] + r4;
    let r6 = p.kind.name + r5;
    assert(item_text(tree::Item::Probe(p)) + rest == "probe "@ + r6) by {
        broadcast use group_glue;

    }
    lemma_space('\n', rest);
    lemma_lex_block(p.body, Seq::empty(), r1);
    lemma_piece_args_end(r2);
    lemma_lex_strs(p.args, 0, r3);
    lemma_punct('(', TokenKind::LParen, r4);
    lemma_name(p.kind.name, r5);
    lemma_piece_probe(r6);
}

proof fn lemma_lex_items(list: Seq<tree::Item>, i: int, rest: Seq<char>)
    requires
        forall|i: int| 0 <= i < list.len() ==> printable_item(#[trigger] list[i]),
        0 <= i <= list.len(),
        lexes(rest) is Some,
    ensures
        lexes(items_text(list, i) + rest) == Some(items_kinds(list, i) + lexes(rest)->0),
    decreases list.len() - i,
{
    broadcast use group_kinds;

    if i < list.len() {
        lemma_lex_items(list, i + 1, rest);
        let more = items_text(list, i + 1) + rest;
        let here = item_text(list[i]) + more;
        let gap = if i > 0 {
            seq!['\n']
        } else {
            Seq::empty()
        };
        assert(items_text(list, i) + rest == gap + here) by {
            broadcast use group_glue;

        }
        assert(printable_item(list[i]));
        match list[i] {
            tree::Item::Const(c) => lemma_lex_const(c, more),
            tree::Item::MapDecl(m) => lemma_lex_map(m, more),
            tree::Item::Event(e) => lemma_lex_event(e, more),
            tree::Item::Probe(p) => lemma_lex_probe(p, more),
        }
        if i > 0 {
            lemma_space('\n', here);
        } else {
            assert(gap + here =~= here);
        }
    } else {
        assert(items_text(list, i) + rest =~= rest);
    }
}

/// A printed program lexes, and to its tokens.
pub proof fn lemma_lex_program(p: tree::Program)
    requires
        printable(p),
    ensures
        lexes(program_text(p)) == Some(items_kinds(p.items, 0) + fx(TokenKind::Eof)),
{
    lemma_end();
    lemma_lex_items(p.items, 0, Seq::empty());
    assert(program_text(p) + Seq::<char>::empty() =~= program_text(p));
}

/// A printed expression lexes, and to its tokens.
pub proof fn lemma_lex_lone_expr(e: tree::Expr)
    requires
        printable_expr(e),
    ensures
        lexes(expr_text(e)) == Some(expr_kinds(e) + fx(TokenKind::Eof)),
{
    lemma_end();
    lemma_lex_expr(e, Seq::empty());
    assert(expr_text(e) + Seq::<char>::empty() =~= expr_text(e));
}

/// Two printed expressions with the symbol of an operator between them.
pub open spec fn between(op: BinaryOp, lhs: tree::Expr, rhs: tree::Expr) -> Seq<char> {
    expr_text(lhs) + seq![' '] + binary_symbol(op) + seq![' '] + expr_text(rhs)
}

/// They lex to their tokens and that of the operator.
pub proof fn lemma_lex_between(op: BinaryOp, lhs: tree::Expr, rhs: tree::Expr)
    requires
        printable_expr(lhs),
        printable_expr(rhs),
    ensures
        lexes(between(op, lhs, rhs)) == Some(
            expr_kinds(lhs) + (fx(binary_kind(op)) + (expr_kinds(rhs) + fx(TokenKind::Eof))),
        ),
{
    let r2 = expr_text(rhs);
    let r3 = seq![' '] + r2;
    let r4 = binary_symbol(op) + r3;
    let r5 = seq![' '] + r4;
    assert(between(op, lhs, rhs) == expr_text(lhs) + r5) by {
        broadcast use group_glue;

    }
    lemma_lex_lone_expr(rhs);
    lemma_space(' ', r2);
    lemma_lex_binary_op(op, r3);
    lemma_space(' ', r4);
    lemma_lex_expr(lhs, r5);
}

} // verus!
