//! Print a syntax tree back out as honey source.
//!
//! Every compound expression is printed fully parenthesised, so precedence
//! shows: `1 + 2 * 3` prints as `(1 + (2 * 3))`. What is printed parses back to
//! the tree it was printed from; `roundtrip` holds the proof.

use crate::ast::{
    binary_symbol, exprs, lemma_exprs, lemma_stmts, lemma_type_args, opt_type, stmts, strings,
    type_args, types, unary_symbol, Block, Cond, Expr, ExprKind, Field, Ident, Item, Program, Stmt,
    StmtKind, Type, TypeArg,
};
use crate::relex::is_literal_of;
use crate::text::{chars_of, dec, group_glue, hex_padded, push_dec, push_hex_padded};
use crate::tree;
use vstd::prelude::*;

verus! {

// ----------------------------------------------------- what printing gives

/// `, ` before everything but the first of a list.
pub open spec fn comma(i: int) -> Seq<char> {
    if i > 0 {
        ", "@
    } else {
        Seq::empty()
    }
}

/// One character of a string literal, escaped where it has to be.
pub open spec fn escaped_char(c: char) -> Seq<char> {
    if c == '\n' {
        "\\n"@
    } else if c == '\t' {
        "\\t"@
    } else if c == '\r' {
        "\\r"@
    } else if c == '\\' {
        "\\\\"@
    } else if c == '"' {
        "\\\""@
    } else if c == '\0' {
        "\\0"@
    } else if (c as u32) < 0x20 {
        "\\x"@ + hex_padded((c as u32) as nat, 2)
    } else {
        seq![c]
    }
}

/// The characters of `s` from `i` on, escaped.
pub open spec fn escaped(s: Seq<char>, i: int) -> Seq<char>
    decreases s.len() - i,
{
    if i >= s.len() {
        Seq::empty()
    } else {
        escaped_char(s[i]) + escaped(s, i + 1)
    }
}

/// A string literal that lexes back to `s`.
pub open spec fn str_text(s: Seq<char>) -> Seq<char> {
    seq!['"'] + escaped(s, 0) + seq!['"']
}

pub open spec fn type_text(t: tree::Type) -> Seq<char>
    decreases t, 0int,
{
    if t.args.len() == 0 {
        t.name.name
    } else {
        t.name.name + seq!['<'] + type_args_text(t.args, 0) + seq!['>']
    }
}

pub open spec fn type_arg_text(a: tree::TypeArg) -> Seq<char>
    decreases a, 0int,
{
    match a {
        tree::TypeArg::Type(t) => type_text(t),
        tree::TypeArg::Int(n) => dec(n as nat),
    }
}

/// The arguments from `i` on.
pub open spec fn type_args_text(args: Seq<tree::TypeArg>, i: int) -> Seq<char>
    decreases args, args.len() - i,
{
    if 0 <= i < args.len() {
        comma(i) + type_arg_text(args[i]) + type_args_text(args, i + 1)
    } else {
        Seq::empty()
    }
}

/// The types from `i` on.
pub open spec fn types_text(list: Seq<tree::Type>, i: int) -> Seq<char>
    decreases list.len() - i,
{
    if 0 <= i < list.len() {
        comma(i) + type_text(list[i]) + types_text(list, i + 1)
    } else {
        Seq::empty()
    }
}

pub open spec fn bool_text(b: bool) -> Seq<char> {
    if b {
        "true"@
    } else {
        "false"@
    }
}

pub open spec fn expr_text(e: tree::Expr) -> Seq<char>
    decreases e, 0int,
{
    match e.kind {
        tree::ExprKind::Int(n) => dec(n as nat),
        tree::ExprKind::Str(s) => str_text(s),
        tree::ExprKind::Bool(b) => bool_text(b),
        tree::ExprKind::Ident(name) => name,
        tree::ExprKind::Unary { op, expr } => seq!['('] + unary_symbol(op) + expr_text(*expr) + seq![
            ')',
        ],
        tree::ExprKind::Binary { op, lhs, rhs } => seq!['('] + expr_text(*lhs) + seq![' ']
            + binary_symbol(op) + seq![' '] + expr_text(*rhs) + seq![')'],
        tree::ExprKind::Cast { expr, ty } => seq!['('] + expr_text(*expr) + " as "@ + type_text(ty)
            + seq![')'],
        tree::ExprKind::Call { callee, args } => callee_text(*callee) + seq!['('] + exprs_text(
            args,
            0,
        ) + seq![')'],
        tree::ExprKind::MethodCall { receiver, method, args } => expr_text(*receiver) + seq!['.']
            + method.name + seq!['('] + exprs_text(args, 0) + seq![')'],
        tree::ExprKind::Field { expr, field } => expr_text(*expr) + seq!['.'] + field.name,
        tree::ExprKind::Index { expr, index } => expr_text(*expr) + seq!['['] + expr_text(*index)
            + seq![']'],
    }
}

/// What is called. A field is in parentheses: without them it would be the call
/// of a method.
pub open spec fn callee_text(e: tree::Expr) -> Seq<char>
    decreases e, 1int,
{
    if e.kind is Field {
        seq!['('] + expr_text(e) + seq![')']
    } else {
        expr_text(e)
    }
}

/// The expressions from `i` on.
pub open spec fn exprs_text(args: Seq<tree::Expr>, i: int) -> Seq<char>
    decreases args, args.len() - i,
{
    if 0 <= i < args.len() {
        comma(i) + expr_text(args[i]) + exprs_text(args, i + 1)
    } else {
        Seq::empty()
    }
}

pub open spec fn pattern_text(p: tree::Pattern) -> Seq<char> {
    match p.binding {
        Some(b) => p.name.name + seq!['('] + b.name + seq![')'],
        None => p.name.name,
    }
}

pub open spec fn cond_text(c: tree::Cond) -> Seq<char> {
    match c {
        tree::Cond::Expr(e) => expr_text(e),
        tree::Cond::Let { pattern, value } => "let "@ + pattern_text(pattern) + " = "@ + expr_text(
            value,
        ),
    }
}

/// The fields of an `emit` from `i` on.
pub open spec fn emit_fields_text(list: Seq<(tree::Ident, tree::Expr)>, i: int) -> Seq<char>
    decreases list.len() - i,
{
    if 0 <= i < list.len() {
        comma(i) + list[i].0.name + ": "@ + expr_text(list[i].1) + emit_fields_text(list, i + 1)
    } else {
        Seq::empty()
    }
}

pub open spec fn annotation_text(t: Option<tree::Type>) -> Seq<char> {
    match t {
        Some(t) => ": "@ + type_text(t),
        None => Seq::empty(),
    }
}

pub open spec fn mut_text(mutable: bool) -> Seq<char> {
    if mutable {
        "mut "@
    } else {
        Seq::empty()
    }
}

/// A block whose lines start with `ind`; what is inside starts four spaces
/// further in.
pub open spec fn block_text(b: tree::Block, ind: Seq<char>) -> Seq<char>
    decreases b, 0int,
{
    "{\n"@ + stmts_text(b.stmts, 0, ind + "    "@) + ind + seq!['}']
}

/// The statements from `i` on.
pub open spec fn stmts_text(list: Seq<tree::Stmt>, i: int, ind: Seq<char>) -> Seq<char>
    decreases list, list.len() - i,
{
    if 0 <= i < list.len() {
        stmt_text(list[i], ind) + stmts_text(list, i + 1, ind)
    } else {
        Seq::empty()
    }
}

/// A `let` statement.
pub open spec fn let_text(
    mutable: bool,
    name: Seq<char>,
    ty: Option<tree::Type>,
    value: tree::Expr,
) -> Seq<char> {
    "let "@ + mut_text(mutable) + name + annotation_text(ty) + " = "@ + expr_text(value) + ";\n"@
}

/// One statement on lines of its own.
pub open spec fn stmt_text(s: tree::Stmt, ind: Seq<char>) -> Seq<char>
    decreases s, 0int,
{
    ind + stmt_kind_text(s.kind, ind)
}

/// A statement behind its indentation.
pub open spec fn stmt_kind_text(kind: tree::StmtKind, ind: Seq<char>) -> Seq<char>
    decreases kind, 0int,
{
    match kind {
        tree::StmtKind::Let { mutable, name, ty, value } => let_text(mutable, name.name, ty, value),
        tree::StmtKind::Assign { target, value } => expr_text(target) + " = "@ + expr_text(value)
            + ";\n"@,
        tree::StmtKind::If { cond, body, otherwise } => "if "@ + cond_text(cond) + seq![' ']
            + block_text(body, ind) + (match otherwise {
            Some(b) => " else "@ + block_text(b, ind),
            None => Seq::empty(),
        }) + seq!['\n'],
        tree::StmtKind::For { var, start, end, body } => "for "@ + var.name + " in "@ + expr_text(
            start,
        ) + ".."@ + expr_text(end) + seq![' '] + block_text(body, ind) + seq!['\n'],
        tree::StmtKind::Emit { event, fields } => "emit "@ + event.name + " { "@
            + emit_fields_text(fields, 0) + " };\n"@,
        tree::StmtKind::Return(value) => "return"@ + (match value {
            Some(v) => seq![' '] + expr_text(v),
            None => Seq::empty(),
        }) + ";\n"@,
        tree::StmtKind::Expr(e) => expr_text(e) + ";\n"@,
    }
}

/// The fields of an event from `i` on.
pub open spec fn event_fields_text(list: Seq<tree::Field>, i: int) -> Seq<char>
    decreases list.len() - i,
{
    if 0 <= i < list.len() {
        "    "@ + list[i].name.name + ": "@ + type_text(list[i].ty) + ",\n"@ + event_fields_text(
            list,
            i + 1,
        )
    } else {
        Seq::empty()
    }
}

/// The string arguments of a probe from `i` on.
pub open spec fn strs_text(list: Seq<Seq<char>>, i: int) -> Seq<char>
    decreases list.len() - i,
{
    if 0 <= i < list.len() {
        comma(i) + str_text(list[i]) + strs_text(list, i + 1)
    } else {
        Seq::empty()
    }
}

pub open spec fn item_text(item: tree::Item) -> Seq<char> {
    match item {
        tree::Item::Const(c) => "const "@ + c.name.name + ": "@ + type_text(c.ty) + " = "@
            + expr_text(c.value) + ";\n"@,
        tree::Item::MapDecl(m) => "map "@ + m.name.name + ": "@ + m.kind.name + seq!['<']
            + types_text(m.args, 0) + ">["@ + dec(m.capacity as nat) + "];\n"@,
        tree::Item::Event(e) => "event "@ + e.name.name + " {\n"@ + event_fields_text(e.fields, 0)
            + "}\n"@,
        tree::Item::Probe(p) => "probe "@ + p.kind.name + seq!['('] + strs_text(p.args, 0) + ") "@
            + block_text(p.body, Seq::empty()) + seq!['\n'],
    }
}

/// The items from `i` on, an empty line between two of them.
pub open spec fn items_text(list: Seq<tree::Item>, i: int) -> Seq<char>
    decreases list.len() - i,
{
    if 0 <= i < list.len() {
        (if i > 0 {
            seq!['\n']
        } else {
            Seq::empty()
        }) + item_text(list[i]) + items_text(list, i + 1)
    } else {
        Seq::empty()
    }
}

pub open spec fn program_text(p: tree::Program) -> Seq<char> {
    items_text(p.items, 0)
}

// ------------------------------------------------------------ the printer

pub fn program(p: &Program) -> (r: String)
    ensures
        r@ == program_text(p@),
{
    let mut out = String::new();
    let ghost list = p@.items;
    let mut i: usize = 0;
    assert(out@ + items_text(list, 0) =~= program_text(p@));
    while i < p.items.len()
        invariant
            0 <= i <= p.items@.len(),
            list == p@.items,
            list.len() == p.items@.len(),
            out@ + items_text(list, i as int) == program_text(p@),
        decreases p.items@.len() - i,
    {
        let ghost before = out@;
        if i > 0 {
            out.push('\n');
        }
        write_item(&mut out, &p.items[i]);
        assert(out@ + items_text(list, i + 1) =~= before + items_text(list, i as int)) by {
            assert(list[i as int] == p.items@[i as int]@);
        }
        i += 1;
    }
    assert(out@ + items_text(list, i as int) =~= out@);
    out
}

pub fn expr(e: &Expr) -> (r: String)
    ensures
        r@ == expr_text(e@),
{
    let mut out = String::new();
    write_expr(&mut out, e);
    assert(out@ =~= expr_text(e@));
    out
}

pub fn ty(t: &Type) -> (r: String)
    ensures
        r@ == type_text(t@),
{
    let mut out = String::new();
    write_type(&mut out, t);
    assert(out@ =~= type_text(t@));
    out
}

fn write_item(out: &mut String, item: &Item)
    ensures
        final(out)@ == old(out)@ + item_text(item@),
{
    broadcast use group_glue;

    let ghost before = out@;
    match item {
        Item::Const(c) => {
            out.append("const ");
            out.append(&c.name.name);
            out.append(": ");
            write_type(out, &c.ty);
            out.append(" = ");
            write_expr(out, &c.value);
            out.append(";\n");
        },
        Item::MapDecl(m) => {
            out.append("map ");
            out.append(&m.name.name);
            out.append(": ");
            out.append(&m.kind.name);
            out.push('<');
            write_types(out, &m.args);
            out.append(">[");
            push_dec(out, m.capacity);
            out.append("];\n");
        },
        Item::Event(e) => {
            out.append("event ");
            out.append(&e.name.name);
            out.append(" {\n");
            write_event_fields(out, &e.fields);
            out.append("}\n");
        },
        Item::Probe(p) => {
            out.append("probe ");
            out.append(&p.kind.name);
            out.push('(');
            write_str_literals(out, &p.args);
            out.append(") ");
            let margin = String::new();
            write_block(out, &p.body, &margin);
            out.push('\n');
        },
    }
    assert(out@ == before + item_text(item@));
}

/// The types of a map, separated by commas.
fn write_types(out: &mut String, list: &Vec<Type>)
    ensures
        final(out)@ == old(out)@ + types_text(types(list@), 0),
{
    let ghost all = types(list@);
    let mut i: usize = 0;
    while i < list.len()
        invariant
            0 <= i <= list@.len(),
            all == types(list@),
            out@ + types_text(all, i as int) == old(out)@ + types_text(all, 0),
        decreases list@.len() - i,
    {
        let ghost before = out@;
        if i > 0 {
            out.append(", ");
        }
        write_type(out, &list[i]);
        assert(out@ + types_text(all, i + 1) =~= before + types_text(all, i as int)) by {
            assert(all[i as int] == list@[i as int]@);
        }
        i += 1;
    }
    assert(out@ + types_text(all, i as int) =~= out@);
}

/// The fields of an event, each on a line of its own.
fn write_event_fields(out: &mut String, list: &Vec<Field>)
    ensures
        final(out)@ == old(out)@ + event_fields_text(crate::ast::fields(list@), 0),
{
    let ghost all = crate::ast::fields(list@);
    let mut i: usize = 0;
    while i < list.len()
        invariant
            0 <= i <= list@.len(),
            all == crate::ast::fields(list@),
            out@ + event_fields_text(all, i as int) == old(out)@ + event_fields_text(all, 0),
        decreases list@.len() - i,
    {
        let ghost before = out@;
        out.append("    ");
        out.append(&list[i].name.name);
        out.append(": ");
        write_type(out, &list[i].ty);
        out.append(",\n");
        assert(out@ + event_fields_text(all, i + 1) =~= before + event_fields_text(
            all,
            i as int,
        )) by {
            assert(all[i as int] == list@[i as int]@);
        }
        i += 1;
    }
    assert(out@ + event_fields_text(all, i as int) =~= out@);
}

/// The string arguments of a probe, separated by commas.
fn write_str_literals(out: &mut String, list: &Vec<String>)
    ensures
        final(out)@ == old(out)@ + strs_text(strings(list@), 0),
{
    let ghost all = strings(list@);
    let mut i: usize = 0;
    while i < list.len()
        invariant
            0 <= i <= list@.len(),
            all == strings(list@),
            out@ + strs_text(all, i as int) == old(out)@ + strs_text(all, 0),
        decreases list@.len() - i,
    {
        let ghost before = out@;
        if i > 0 {
            out.append(", ");
        }
        write_str_literal(out, &list[i]);
        assert(out@ + strs_text(all, i + 1) =~= before + strs_text(all, i as int)) by {
            assert(all[i as int] == list@[i as int]@);
        }
        i += 1;
    }
    assert(out@ + strs_text(all, i as int) =~= out@);
}

fn write_type(out: &mut String, t: &Type)
    ensures
        final(out)@ == old(out)@ + type_text(t@),
    decreases t,
{
    let ghost before = out@;
    proof {
        lemma_type_args(t.args@);
    }
    out.append(&t.name.name);
    if t.args.len() > 0 {
        out.push('<');
        let ghost all = type_args(t.args@);
        let ghost start = out@;
        let mut i: usize = 0;
        while i < t.args.len()
            invariant
                0 <= i <= t.args@.len(),
                all == type_args(t.args@),
                all.len() == t.args@.len(),
                forall|k: int| 0 <= k < all.len() ==> #[trigger] all[k] == t.args@[k]@,
                out@ + type_args_text(all, i as int) == start + type_args_text(all, 0),
            decreases t.args@.len() - i,
        {
            let ghost here = out@;
            if i > 0 {
                out.append(", ");
            }
            let a = &t.args[i];
            match a {
                TypeArg::Type(inner) => write_type(out, inner),
                TypeArg::Int(n) => push_dec(out, *n),
            }
            assert(out@ + type_args_text(all, i + 1) =~= here + type_args_text(all, i as int)) by {
                assert(all[i as int] == a@);
                assert(type_arg_text(a@) == match a {
                    TypeArg::Type(inner) => type_text(inner@),
                    TypeArg::Int(n) => dec(*n as nat),
                });
            }
            i += 1;
        }
        assert(out@ + type_args_text(all, i as int) =~= out@);
        out.push('>');
    }
    assert(out@ =~= before + type_text(t@));
}

fn write_block(out: &mut String, b: &Block, margin: &String)
    ensures
        final(out)@ == old(out)@ + block_text(b@, margin@),
    decreases b, 0int,
{
    let ghost before = out@;
    let mut inner = margin.clone();
    inner.append("    ");
    proof {
        lemma_stmts(b.stmts@);
    }
    out.append("{\n");
    let ghost all = stmts(b.stmts@);
    let ghost start = out@;
    let mut i: usize = 0;
    while i < b.stmts.len()
        invariant
            0 <= i <= b.stmts@.len(),
            all == stmts(b.stmts@),
            all.len() == b.stmts@.len(),
            forall|k: int| 0 <= k < all.len() ==> #[trigger] all[k] == b.stmts@[k]@,
            out@ + stmts_text(all, i as int, inner@) == start + stmts_text(all, 0, inner@),
        decreases b.stmts@.len() - i,
    {
        let ghost here = out@;
        write_stmt(out, &b.stmts[i], &inner);
        assert(out@ + stmts_text(all, i + 1, inner@) =~= here + stmts_text(
            all,
            i as int,
            inner@,
        )) by {
            assert(all[i as int] == b.stmts@[i as int]@);
        }
        i += 1;
    }
    assert(out@ + stmts_text(all, i as int, inner@) =~= out@);
    out.append(margin);
    out.push('}');
    assert(out@ =~= before + block_text(b@, margin@));
}

fn write_stmt(out: &mut String, s: &Stmt, margin: &String)
    ensures
        final(out)@ == old(out)@ + stmt_text(s@, margin@),
    decreases s, 0int,
{
    let ghost before = out@;
    out.append(margin);
    write_stmt_kind(out, &s.kind, margin);
    assert(out@ =~= before + stmt_text(s@, margin@));
}

fn write_stmt_kind(out: &mut String, kind: &StmtKind, margin: &String)
    ensures
        final(out)@ == old(out)@ + stmt_kind_text(kind@, margin@),
    decreases kind, 1int,
{
    match kind {
        StmtKind::Let { mutable, name, ty, value } => write_let(out, *mutable, name, ty, value),
        StmtKind::Assign { target, value } => {
            let ghost before = out@;
            write_expr(out, target);
            out.append(" = ");
            write_expr(out, value);
            out.append(";\n");
            assert(out@ =~= before + stmt_kind_text(kind@, margin@));
        },
        StmtKind::If { .. } => write_if(out, kind, margin),
        StmtKind::For { .. } => write_for(out, kind, margin),
        StmtKind::Emit { event, fields } => {
            let ghost before = out@;
            out.append("emit ");
            out.append(&event.name);
            out.append(" { ");
            write_emit_fields(out, fields);
            out.append(" };\n");
            assert(out@ =~= before + stmt_kind_text(kind@, margin@));
        },
        StmtKind::Return(value) => {
            let ghost before = out@;
            out.append("return");
            if let Some(v) = value {
                out.push(' ');
                write_expr(out, v);
            }
            out.append(";\n");
            assert(out@ =~= before + stmt_kind_text(kind@, margin@));
        },
        StmtKind::Expr(e) => {
            let ghost before = out@;
            write_expr(out, e);
            out.append(";\n");
            assert(out@ =~= before + stmt_kind_text(kind@, margin@));
        },
    }
}

fn write_if(out: &mut String, kind: &StmtKind, margin: &String)
    requires
        kind is If,
    ensures
        final(out)@ == old(out)@ + stmt_kind_text(kind@, margin@),
    decreases kind, 0int,
{
    let ghost before = out@;
    if let StmtKind::If { cond, body, otherwise } = kind {
        out.append("if ");
        write_cond(out, cond);
        out.push(' ');
        write_block(out, body, margin);
        let ghost head = "if "@ + cond_text(cond@) + seq![' '] + block_text(body@, margin@);
        assert(out@ =~= before + head);
        let ghost mut tail = Seq::<char>::empty();
        if let Some(b) = otherwise {
            out.append(" else ");
            write_block(out, b, margin);
            proof {
                tail = " else "@ + block_text(b@, margin@);
            }
        }
        assert(out@ =~= before + (head + tail));
        out.push('\n');
        assert(stmt_kind_text(kind@, margin@) == head + tail + seq!['\n']);
        assert(out@ =~= before + (head + tail + seq!['\n']));
    }
}

fn write_for(out: &mut String, kind: &StmtKind, margin: &String)
    requires
        kind is For,
    ensures
        final(out)@ == old(out)@ + stmt_kind_text(kind@, margin@),
    decreases kind, 0int,
{
    broadcast use group_glue;

    if let StmtKind::For { var, start, end, body } = kind {
        out.append("for ");
        out.append(&var.name);
        out.append(" in ");
        write_expr(out, start);
        out.append("..");
        write_expr(out, end);
        out.push(' ');
        write_block(out, body, margin);
        out.push('\n');
    }
}

fn write_let(out: &mut String, mutable: bool, name: &Ident, ty: &Option<Type>, value: &Expr)
    ensures
        final(out)@ == old(out)@ + let_text(mutable, name.name@, opt_type(*ty), value@),
{
    broadcast use group_glue;

    out.append("let ");
    if mutable {
        out.append("mut ");
    }
    out.append(&name.name);
    if let Some(t) = ty {
        out.append(": ");
        write_type(out, t);
    }
    out.append(" = ");
    write_expr(out, value);
    out.append(";\n");
}

fn write_cond(out: &mut String, c: &Cond)
    ensures
        final(out)@ == old(out)@ + cond_text(c@),
{
    let ghost before = out@;
    match c {
        Cond::Expr(e) => write_expr(out, e),
        Cond::Let { pattern, value } => {
            out.append("let ");
            out.append(&pattern.name.name);
            if let Some(b) = &pattern.binding {
                out.push('(');
                out.append(&b.name);
                out.push(')');
            }
            out.append(" = ");
            write_expr(out, value);
        },
    }
    assert(out@ =~= before + cond_text(c@));
}

/// The fields of an `emit`, separated by commas.
fn write_emit_fields(out: &mut String, list: &Vec<(Ident, Expr)>)
    ensures
        final(out)@ == old(out)@ + emit_fields_text(crate::ast::emit_fields(list@), 0),
{
    let ghost all = crate::ast::emit_fields(list@);
    let mut i: usize = 0;
    while i < list.len()
        invariant
            0 <= i <= list@.len(),
            all == crate::ast::emit_fields(list@),
            out@ + emit_fields_text(all, i as int) == old(out)@ + emit_fields_text(all, 0),
        decreases list@.len() - i,
    {
        let ghost before = out@;
        if i > 0 {
            out.append(", ");
        }
        let f = &list[i];
        out.append(&f.0.name);
        out.append(": ");
        write_expr(out, &f.1);
        assert(out@ + emit_fields_text(all, i + 1) =~= before + emit_fields_text(
            all,
            i as int,
        )) by {
            assert(all[i as int] == (list@[i as int].0@, list@[i as int].1@));
        }
        i += 1;
    }
    assert(out@ + emit_fields_text(all, i as int) =~= out@);
}

fn write_expr(out: &mut String, e: &Expr)
    ensures
        final(out)@ == old(out)@ + expr_text(e@),
    decreases e, 0int,
{
    let ghost before = out@;
    match &e.kind {
        ExprKind::Int(n) => push_dec(out, *n),
        ExprKind::Str(s) => write_str_literal(out, s),
        ExprKind::Bool(b) => {
            if *b {
                out.append("true");
            } else {
                out.append("false");
            }
        },
        ExprKind::Ident(name) => {
            out.append(name);
        },
        ExprKind::Unary { op, expr } => {
            out.push('(');
            out.append(op.symbol());
            write_expr(out, expr);
            out.push(')');
        },
        ExprKind::Binary { op, lhs, rhs } => {
            out.push('(');
            write_expr(out, lhs);
            out.push(' ');
            out.append(op.symbol());
            out.push(' ');
            write_expr(out, rhs);
            out.push(')');
        },
        ExprKind::Cast { expr, ty } => {
            out.push('(');
            write_expr(out, expr);
            out.append(" as ");
            write_type(out, ty);
            out.push(')');
        },
        ExprKind::Call { callee, args } => {
            write_callee(out, callee);
            write_args(out, args);
        },
        ExprKind::MethodCall { receiver, method, args } => {
            write_expr(out, receiver);
            out.push('.');
            out.append(&method.name);
            write_args(out, args);
        },
        ExprKind::Field { expr, field } => {
            write_expr(out, expr);
            out.push('.');
            out.append(&field.name);
        },
        ExprKind::Index { expr, index } => {
            write_expr(out, expr);
            out.push('[');
            write_expr(out, index);
            out.push(']');
        },
    }
    assert(out@ =~= before + expr_text(e@));
}

fn write_callee(out: &mut String, e: &Expr)
    ensures
        final(out)@ == old(out)@ + callee_text(e@),
    decreases e, 1int,
{
    let ghost before = out@;
    if let ExprKind::Field { .. } = &e.kind {
        out.push('(');
        write_expr(out, e);
        out.push(')');
        assert(out@ =~= before + (seq!['('] + expr_text(e@) + seq![')']));
    } else {
        write_expr(out, e);
    }
}

fn write_args(out: &mut String, args: &Vec<Expr>)
    ensures
        final(out)@ == old(out)@ + (seq!['('] + exprs_text(exprs(args@), 0) + seq![')']),
    decreases args, 1int,
{
    let ghost before = out@;
    let ghost all = exprs(args@);
    proof {
        lemma_exprs(args@);
    }
    out.push('(');
    let ghost start = out@;
    let mut i: usize = 0;
    while i < args.len()
        invariant
            0 <= i <= args@.len(),
            all == exprs(args@),
            all.len() == args@.len(),
            forall|k: int| 0 <= k < all.len() ==> #[trigger] all[k] == args@[k]@,
            out@ + exprs_text(all, i as int) == start + exprs_text(all, 0),
        decreases args@.len() - i,
    {
        let ghost here = out@;
        if i > 0 {
            out.append(", ");
        }
        write_expr(out, &args[i]);
        assert(out@ + exprs_text(all, i + 1) =~= here + exprs_text(all, i as int)) by {
            assert(all[i as int] == args@[i as int]@);
        }
        i += 1;
    }
    assert(out@ + exprs_text(all, i as int) =~= out@);
    out.push(')');
    assert(out@ =~= before + (seq!['('] + exprs_text(all, 0) + seq![')']));
}

/// Re-escape a decoded string so it lexes back to the same value.
pub fn write_str_literal(out: &mut String, s: &str)
    ensures
        final(out)@ == old(out)@ + str_text(s@),
        is_literal_of(final(out)@.skip(old(out)@.len() as int), s@),
{
    let ghost before = out@;
    out.push('"');
    let chars = chars_of(s);
    let ghost start = out@;
    let mut i: usize = 0;
    while i < chars.len()
        invariant
            0 <= i <= chars@.len(),
            chars@ == s@,
            out@ + escaped(s@, i as int) == start + escaped(s@, 0),
        decreases chars@.len() - i,
    {
        let ghost here = out@;
        let c = chars[i];
        if c == '\n' {
            out.append("\\n");
        } else if c == '\t' {
            out.append("\\t");
        } else if c == '\r' {
            out.append("\\r");
        } else if c == '\\' {
            out.append("\\\\");
        } else if c == '"' {
            out.append("\\\"");
        } else if c == '\0' {
            out.append("\\0");
        } else if (c as u32) < 0x20 {
            out.append("\\x");
            push_hex_padded(out, (c as u32) as u64, 2);
        } else {
            out.push(c);
        }
        assert(out@ + escaped(s@, i + 1) =~= here + escaped(s@, i as int));
        i += 1;
    }
    assert(out@ + escaped(s@, i as int) =~= out@);
    out.push('"');
    assert(out@ =~= before + str_text(s@));
    proof {
        crate::relex::lemma_str_literal_lexes_back(s@);
        assert(out@.skip(before.len() as int) =~= str_text(s@));
    }
}

} // verus!
