//! The order of the items in a file does not matter to the type checker.
//!
//! Declarations are gathered before any probe is checked, and each probe is
//! checked on its own: what is said of one does not depend on what was said
//! before.

use crate::btf::Kernel;
use crate::rules::{
    alone, assign, attach_notes, block, const_decl, declare_item, declare_items, emit, emit_field,
    emit_fields, event_decl, for_entry, has_probe, heard, if_entry, if_let_entry, in_loop,
    iterations, let_ptr, let_read, let_stmt, let_value, map_decl, none, note, only_if, pop_scope,
    probe, probe_entry, probes, program, push_scope, read_arg, reader, start, stmt, stmts, unsaid,
    Env, Note, Report, Sort, State,
};
use crate::token::Span;
use crate::tree;
use crate::typeck::{notes, verdict, Checked, Diag};
use vstd::multiset::Multiset;
use vstd::prelude::*;

verus! {

// ------------------------------------------------- what was said before

/// The state with notes in front of its own.
pub open spec fn behind(n: Seq<Note>, s: State) -> State {
    State { notes: n + s.notes, ..s }
}

broadcast proof fn lemma_glue_notes(a: Seq<Note>, b: Seq<Note>, c: Seq<Note>)
    ensures
        #[trigger] ((a + b) + c) == a + (b + c),
{
    assert(((a + b) + c) =~= a + (b + c));
}

proof fn lemma_let_behind(
    n: Seq<Note>,
    s: State,
    mutable: bool,
    name: Seq<char>,
    ty: Option<tree::Type>,
    value: tree::Expr,
)
    ensures
        let_stmt(behind(n, s), mutable, name, ty, value) == behind(
            n,
            let_stmt(s, mutable, name, ty, value),
        ),
{
    broadcast use lemma_glue_notes;

    let t = behind(n, s);
    match reader(value) {
        Some((fname, kernel)) => {
            assert(read_arg(t, value, fname, kernel) == behind(
                n,
                read_arg(s, value, fname, kernel),
            ));
            assert(let_read(t, mutable, name, ty, value, fname, kernel) == behind(
                n,
                let_read(s, mutable, name, ty, value, fname, kernel),
            ));
        },
        None => {
            if let Some(x) = ty {
                assert(let_ptr(t, mutable, name, x, value) == behind(
                    n,
                    let_ptr(s, mutable, name, x, value),
                ));
            }
            assert(let_value(t, mutable, name, ty, value) == behind(
                n,
                let_value(s, mutable, name, ty, value),
            ));
        },
    }
}

proof fn lemma_if_behind(n: Seq<Note>, s: State, c: tree::Cond)
    ensures
        if_entry(behind(n, s), c) == behind(n, if_entry(s, c)),
{
    broadcast use lemma_glue_notes;

    if let tree::Cond::Let { pattern, value } = c {
        assert(if_let_entry(behind(n, s), pattern, value) == behind(
            n,
            if_let_entry(s, pattern, value),
        ));
    }
}

proof fn lemma_emit_behind(
    n: Seq<Note>,
    s: State,
    event: Seq<char>,
    declared: Seq<(Seq<char>, Sort)>,
    fields: Seq<(tree::Ident, tree::Expr)>,
    i: int,
)
    ensures
        emit_fields(behind(n, s), event, declared, fields, i) == behind(
            n,
            emit_fields(s, event, declared, fields, i),
        ),
    decreases fields.len() - i,
{
    broadcast use lemma_glue_notes;

    if 0 <= i < fields.len() && s.ok {
        let o = emit_field(s.env, event, declared, fields, i);
        assert(heard(behind(n, s), o) == behind(n, heard(s, o)));
        lemma_emit_behind(n, heard(s, o), event, declared, fields, i + 1);
    }
}

proof fn lemma_stmt_behind(n: Seq<Note>, s: State, x: tree::Stmt)
    ensures
        stmt(behind(n, s), x) == behind(n, stmt(s, x)),
    decreases x, 0int,
{
    let t = behind(n, s);
    match x.kind {
        tree::StmtKind::Let { mutable, name, ty, value } => {
            lemma_let_behind(n, s, mutable, name.name, ty, value);
        },
        tree::StmtKind::Assign { target, value } => {
            assert(assign(t, target, value) == behind(n, assign(s, target, value))) by {
                broadcast use lemma_glue_notes;

            }
        },
        tree::StmtKind::If { cond, body, otherwise } => {
            lemma_if_behind(n, s, cond);
            lemma_block_behind(n, if_entry(s, cond), body);
            if let Some(b) = otherwise {
                let again = push_scope(pop_scope(block(if_entry(s, cond), body)));
                lemma_block_behind(n, again, b);
                assert(push_scope(pop_scope(block(if_entry(t, cond), body))) == behind(n, again));
            }
        },
        tree::StmtKind::For { var, start: from, end, body } => {
            let (s1, range) = for_entry(s, from, end);
            assert(for_entry(t, from, end) == (behind(n, s1), range)) by {
                broadcast use lemma_glue_notes;

            }
            if let Some((lo, hi)) = range {
                lemma_iterations_behind(n, s1, none(), var.name, lo as int, hi as int, body);
            }
        },
        tree::StmtKind::Emit { event, fields } => {
            let declared = s.env.events[event.name];
            lemma_emit_behind(n, s, event.name, declared, fields, 0);
            assert(emit(t, event, fields, x.span) == behind(n, emit(s, event, fields, x.span))) by {
                broadcast use lemma_glue_notes;

            }
        },
        tree::StmtKind::Return(_) => {
            broadcast use lemma_glue_notes;

        },
        tree::StmtKind::Expr(e) => {
            broadcast use lemma_glue_notes;

            assert(crate::rules::expr_stmt(t, e) == behind(n, crate::rules::expr_stmt(s, e)));
        },
    }
}

proof fn lemma_iterations_behind(
    n: Seq<Note>,
    s: State,
    said: Seq<Note>,
    var: Seq<char>,
    k: int,
    hi: int,
    body: tree::Block,
)
    ensures
        iterations(behind(n, s), said, var, k, hi, body) == behind(
            n,
            iterations(s, said, var, k, hi, body),
        ),
    decreases
            body,
            if k < hi {
                hi - k
            } else {
                0
            } + 1,
{
    let r = alone(s, var, k, body);
    assert(alone(behind(n, s), var, k, body) == r);
    let new = unsaid(said, r.notes);
    let t = State { notes: s.notes + new, ..r };
    assert(State { notes: behind(n, s).notes + new, ..r } == behind(n, t)) by {
        broadcast use lemma_glue_notes;

    }
    if k + 1 < hi && r.ok {
        lemma_iterations_behind(n, t, said + new, var, k + 1, hi, body);
    }
}

proof fn lemma_stmts_behind(n: Seq<Note>, s: State, list: Seq<tree::Stmt>, i: int)
    ensures
        stmts(behind(n, s), list, i) == behind(n, stmts(s, list, i)),
    decreases list, list.len() - i,
{
    if 0 <= i < list.len() && s.ok {
        lemma_stmt_behind(n, s, list[i]);
        lemma_stmts_behind(n, stmt(s, list[i]), list, i + 1);
    }
}

proof fn lemma_block_behind(n: Seq<Note>, s: State, b: tree::Block)
    ensures
        block(behind(n, s), b) == behind(n, block(s, b)),
    decreases b, 0int,
{
    lemma_stmts_behind(n, s, b.stmts, 0);
}

/// An iteration of a loop is checked on its own.
pub proof fn lemma_iterations_are_checked_alone(
    s: State,
    var: Seq<char>,
    k: int,
    body: tree::Block,
)
    ensures
        pop_scope(block(in_loop(s, var, k), body)) == behind(s.notes, alone(s, var, k, body)),
{
    let s0 = State { notes: none(), ..s };
    assert(s.notes + none() =~= s.notes);
    assert(in_loop(s, var, k) == behind(s.notes, in_loop(s0, var, k)));
    lemma_block_behind(s.notes, in_loop(s0, var, k), body);
}

/// What is said of a probe does not depend on what was said before.
pub proof fn lemma_probes_are_checked_alone(v: Env, p: tree::ProbeDecl, n: Seq<Note>)
    ensures
        probe(v, p, n) == behind(n, probe(v, p, none())),
{
    broadcast use lemma_glue_notes;

    reveal(probe);
    assert(none() + attach_notes(p) =~= attach_notes(p));
    assert(probe_entry(v, p, n) == behind(n, probe_entry(v, p, none())));
    lemma_block_behind(n, probe_entry(v, p, none()), p.body);
}

// ---------------------------------------------------------------- the tally

/// What checking gives, whatever the order of the notes.
pub struct Tally {
    pub peak: nat,
    pub notes: Multiset<Note>,
    pub ok: bool,
}

pub open spec fn nothing() -> Tally {
    Tally { peak: 0, notes: Multiset::empty(), ok: true }
}

pub open spec fn plus(a: Tally, b: Tally) -> Tally {
    Tally {
        peak: if a.peak > b.peak {
            a.peak
        } else {
            b.peak
        },
        notes: a.notes.add(b.notes),
        ok: a.ok && b.ok,
    }
}

/// What one item adds.
#[verifier::opaque]
pub open spec fn share(v: Env, item: tree::Item) -> Tally {
    match item {
        tree::Item::Probe(p) => {
            let s = probe(v, p, none());
            Tally { peak: s.peak, notes: s.notes.to_multiset(), ok: s.ok }
        },
        _ => Tally { peak: 0, notes: declare_item(v, item).1.to_multiset(), ok: true },
    }
}

/// What the items add together.
pub open spec fn tally(v: Env, items: Seq<tree::Item>) -> Tally
    decreases items.len(),
{
    if items.len() == 0 {
        nothing()
    } else {
        plus(tally(v, items.drop_last()), share(v, items.last()))
    }
}

broadcast proof fn lemma_plus(a: Tally, b: Tally, c: Tally)
    ensures
        #[trigger] plus(plus(a, b), c) == plus(plus(a, c), b),
{
    assert(a.notes.add(b.notes).add(c.notes) =~= a.notes.add(c.notes).add(b.notes));
}

/// An item may be counted last.
proof fn lemma_tally_remove(v: Env, items: Seq<tree::Item>, i: int)
    requires
        0 <= i < items.len(),
    ensures
        tally(v, items) == plus(tally(v, items.remove(i)), share(v, items[i])),
    decreases items.len(),
{
    let less = items.remove(i);
    if i == items.len() - 1 {
        assert(less =~= items.drop_last());
    } else {
        let front = items.drop_last();
        lemma_tally_remove(v, front, i);
        assert(less.drop_last() =~= front.remove(i));
        assert(less.last() == items.last());
        lemma_plus(tally(v, front.remove(i)), share(v, items[i]), share(v, items.last()));
    }
}

/// Sequences of the same items hold each of them.
proof fn lemma_found(a: Seq<tree::Item>, b: Seq<tree::Item>, i: int) -> (j: int)
    requires
        a.to_multiset() == b.to_multiset(),
        0 <= i < a.len(),
    ensures
        0 <= j < b.len(),
        b[j] == a[i],
{
    a.to_multiset_ensures();
    b.to_multiset_ensures();
    assert(a.contains(a[i]));
    assert(a.to_multiset().count(a[i]) > 0);
    assert(b.contains(a[i]));
    choose|j: int| 0 <= j < b.len() && b[j] == a[i]
}

/// The order does not count.
proof fn lemma_tally_order(v: Env, a: Seq<tree::Item>, b: Seq<tree::Item>)
    requires
        a.to_multiset() == b.to_multiset(),
    ensures
        tally(v, a) == tally(v, b),
    decreases a.len(),
{
    a.to_multiset_ensures();
    b.to_multiset_ensures();
    if a.len() > 0 {
        let n = a.len() - 1;
        let i = lemma_found(a, b, n);
        lemma_tally_remove(v, b, i);
        assert(a.drop_last() =~= a.remove(n));
        lemma_tally_order(v, a.drop_last(), b.remove(i));
    }
}

// -------------------------------------------------------------- declarations

/// The entries that the first `n` items give, a later one in place of an
/// earlier one of the same name.
spec fn entries<V>(
    items: Seq<tree::Item>,
    n: int,
    entry: spec_fn(tree::Item) -> Option<(Seq<char>, V)>,
) -> Map<Seq<char>, V>
    decreases n,
{
    if n <= 0 {
        Map::empty()
    } else {
        match entry(items[n - 1]) {
            Some((name, x)) => entries(items, n - 1, entry).insert(name, x),
            None => entries(items, n - 1, entry),
        }
    }
}

proof fn lemma_entries<V>(
    items: Seq<tree::Item>,
    n: int,
    entry: spec_fn(tree::Item) -> Option<(Seq<char>, V)>,
    name: Seq<char>,
)
    requires
        0 <= n <= items.len(),
    ensures
        entries(items, n, entry).contains_key(name) ==> exists|i: int|
            0 <= i < n && entry(#[trigger] items[i]) == Some(
                (name, entries(items, n, entry)[name]),
            ),
        forall|i: int|
            0 <= i < n && (entry(#[trigger] items[i]) matches Some(x) && x.0 == name) ==> entries(
                items,
                n,
                entry,
            ).contains_key(name),
    decreases n,
{
    if n > 0 {
        lemma_entries(items, n - 1, entry, name);
        if entries(items, n, entry).contains_key(name) {
            if entry(items[n - 1]) matches Some(x) && x.0 == name {
                assert(entry(items[n - 1]) == Some((name, entries(items, n, entry)[name])));
            } else {
                let i = choose|i: int|
                    0 <= i < n - 1 && entry(#[trigger] items[i]) == Some(
                        (name, entries(items, n - 1, entry)[name]),
                    );
                assert(entry(items[i]) == Some((name, entries(items, n, entry)[name])));
            }
        }
    }
}

/// No two items give an entry of one name.
spec fn apart<V>(
    items: Seq<tree::Item>,
    entry: spec_fn(tree::Item) -> Option<(Seq<char>, V)>,
) -> bool {
    forall|i: int, j: int|
        0 <= i < j < items.len() ==> match (
            entry(#[trigger] items[i]),
            entry(#[trigger] items[j]),
        ) {
            (Some(a), Some(b)) => a.0 != b.0,
            _ => true,
        }
}

proof fn lemma_entries_order<V>(
    a: Seq<tree::Item>,
    b: Seq<tree::Item>,
    entry: spec_fn(tree::Item) -> Option<(Seq<char>, V)>,
)
    requires
        a.to_multiset() == b.to_multiset(),
        apart(a, entry),
    ensures
        entries(a, a.len() as int, entry) == entries(b, b.len() as int, entry),
{
    let x = entries(a, a.len() as int, entry);
    let y = entries(b, b.len() as int, entry);
    assert forall|name: Seq<char>| #[trigger] x.contains_key(name) == y.contains_key(name) && (
    x.contains_key(name) ==> x[name] == y[name]) by {
        lemma_entries(a, a.len() as int, entry, name);
        lemma_entries(b, b.len() as int, entry, name);
        if x.contains_key(name) {
            let i = choose|i: int|
                0 <= i < a.len() && entry(#[trigger] a[i]) == Some((name, x[name]));
            let j = lemma_found(a, b, i);
            assert(entry(b[j]) matches Some(e) && e.0 == name);
        }
        if y.contains_key(name) {
            let j = choose|j: int|
                0 <= j < b.len() && entry(#[trigger] b[j]) == Some((name, y[name]));
            let k = lemma_found(b, a, j);
            assert(entry(a[k]) == Some((name, y[name])));
            let i = choose|i: int|
                0 <= i < a.len() && entry(#[trigger] a[i]) == Some((name, x[name]));
            assert(x.contains_key(name));
            assert(i == k);
        }
    }
    assert(x =~= y);
}

/// The constant that an item declares.
spec fn const_entry(item: tree::Item) -> Option<(Seq<char>, (Sort, u64))> {
    match item {
        tree::Item::Const(c) => {
            let v = const_decl(start(None), c).0;
            if v.consts.contains_key(c.name.name) {
                Some((c.name.name, v.consts[c.name.name]))
            } else {
                None
            }
        },
        _ => None,
    }
}

/// The map that an item declares.
spec fn map_entry(item: tree::Item) -> Option<(Seq<char>, (Sort, Sort))> {
    match item {
        tree::Item::MapDecl(m) => {
            let v = map_decl(start(None), m).0;
            if v.maps.contains_key(m.name.name) {
                Some((m.name.name, v.maps[m.name.name]))
            } else {
                None
            }
        },
        _ => None,
    }
}

/// The event that an item declares.
spec fn event_entry(item: tree::Item) -> Option<(Seq<char>, Seq<(Seq<char>, Sort)>)> {
    match item {
        tree::Item::Event(e) => Some(
            (e.name.name, event_decl(start(None), e).0.events[e.name.name]),
        ),
        _ => None,
    }
}

spec fn const_entries() -> spec_fn(tree::Item) -> Option<(Seq<char>, (Sort, u64))> {
    |x: tree::Item| const_entry(x)
}

spec fn map_entries() -> spec_fn(tree::Item) -> Option<(Seq<char>, (Sort, Sort))> {
    |x: tree::Item| map_entry(x)
}

spec fn event_entries() -> spec_fn(tree::Item) -> Option<(Seq<char>, Seq<(Seq<char>, Sort)>)> {
    |x: tree::Item| event_entry(x)
}

/// What the first `n` items declare.
spec fn env_at(kernel: Option<Kernel>, items: Seq<tree::Item>, n: int) -> Env {
    Env {
        consts: entries(items, n, const_entries()),
        maps: entries(items, n, map_entries()),
        events: entries(items, n, event_entries()),
        ..start(kernel)
    }
}

proof fn lemma_declare_item(kernel: Option<Kernel>, items: Seq<tree::Item>, n: int)
    requires
        0 <= n < items.len(),
    ensures
        declare_item(env_at(kernel, items, n), items[n]).0 == env_at(kernel, items, n + 1),
        declare_item(env_at(kernel, items, n), items[n]).1 == declare_item(
            env_at(kernel, items, items.len() as int),
            items[n],
        ).1,
{
    let v = env_at(kernel, items, n);
    let w = env_at(kernel, items, n + 1);
    match items[n] {
        tree::Item::Const(c) => {
            assert(declare_item(v, items[n]).0.consts =~= w.consts);
        },
        tree::Item::MapDecl(m) => {
            assert(declare_item(v, items[n]).0.maps =~= w.maps);
        },
        tree::Item::Event(e) => {
            assert(declare_item(v, items[n]).0.events =~= w.events);
        },
        tree::Item::Probe(_) => {},
    }
}

/// The notes over the declarations from `i` on, whatever their order.
spec fn declared_tally(v: Env, items: Seq<tree::Item>, i: int) -> Multiset<Note>
    decreases items.len() - i,
{
    if 0 <= i < items.len() {
        declare_item(v, items[i]).1.to_multiset().add(declared_tally(v, items, i + 1))
    } else {
        Multiset::empty()
    }
}

proof fn lemma_declare_items(
    kernel: Option<Kernel>,
    items: Seq<tree::Item>,
    i: int,
    notes: Seq<Note>,
)
    requires
        0 <= i <= items.len(),
    ensures
        ({
            let v = env_at(kernel, items, items.len() as int);
            let r = declare_items(env_at(kernel, items, i), items, i, notes);
            &&& r.0 == v
            &&& r.1.to_multiset() == notes.to_multiset().add(declared_tally(v, items, i))
        }),
    decreases items.len() - i,
{
    if i < items.len() {
        let v = env_at(kernel, items, items.len() as int);
        lemma_declare_item(kernel, items, i);
        let n = declare_item(env_at(kernel, items, i), items[i]).1;
        lemma_declare_items(kernel, items, i + 1, notes + n);
        vstd::seq_lib::lemma_multiset_commutative(notes, n);
        assert(notes.to_multiset().add(n.to_multiset()).add(declared_tally(v, items, i + 1))
            =~= notes.to_multiset().add(declared_tally(v, items, i)));
    } else {
        assert(notes.to_multiset().add(Multiset::empty()) =~= notes.to_multiset());
    }
}

// ------------------------------------------------------------------- probes

/// What the probes from `i` on add.
spec fn probe_tally(v: Env, items: Seq<tree::Item>, i: int) -> Tally
    decreases items.len() - i,
{
    if 0 <= i < items.len() {
        match items[i] {
            tree::Item::Probe(_) => plus(share(v, items[i]), probe_tally(v, items, i + 1)),
            _ => probe_tally(v, items, i + 1),
        }
    } else {
        nothing()
    }
}

proof fn lemma_probes(v: Env, items: Seq<tree::Item>, i: int, r: Report)
    requires
        0 <= i <= items.len(),
        r.ok,
    ensures
        ({
            let t = probe_tally(v, items, i);
            let out = probes(v, items, i, r);
            &&& out.ok == t.ok
            &&& t.ok ==> out.notes.to_multiset() == r.notes.to_multiset().add(t.notes)
            &&& t.ok ==> out.peak == (if t.peak > r.peak {
                t.peak
            } else {
                r.peak
            })
        }),
    decreases items.len() - i,
{
    if i < items.len() {
        if let tree::Item::Probe(p) = items[i] {
            let s = probe(v, p, r.notes);
            let alone = probe(v, p, none());
            lemma_probes_are_checked_alone(v, p, r.notes);
            let r1 = Report {
                peak: if s.peak > r.peak {
                    s.peak
                } else {
                    r.peak
                },
                notes: s.notes,
                ok: s.ok,
            };
            assert(share(v, items[i]) == (Tally {
                peak: alone.peak,
                notes: alone.notes.to_multiset(),
                ok: alone.ok,
            })) by {
                reveal(share);
            }
            if s.ok {
                lemma_probes(v, items, i + 1, r1);
                vstd::seq_lib::lemma_multiset_commutative(r.notes, alone.notes);
                let t = probe_tally(v, items, i + 1);
                assert(r.notes.to_multiset().add(alone.notes.to_multiset()).add(t.notes)
                    =~= r.notes.to_multiset().add(alone.notes.to_multiset().add(t.notes)));
            } else {
                assert(probes(v, items, i + 1, r1) == r1);
            }
        } else {
            lemma_probes(v, items, i + 1, r);
        }
    } else {
        assert(r.notes.to_multiset().add(Multiset::empty()) =~= r.notes.to_multiset());
    }
}

/// Counting the declarations and then the probes comes to the same as counting
/// the items.
proof fn lemma_whole_tally(v: Env, items: Seq<tree::Item>, i: int)
    requires
        0 <= i <= items.len(),
    ensures
        ({
            let front = tally(v, items.take(i));
            let rest = probe_tally(v, items, i);
            let all = tally(v, items);
            &&& all.ok == (front.ok && rest.ok)
            &&& all.peak == (if front.peak > rest.peak {
                front.peak
            } else {
                rest.peak
            })
            &&& all.notes == front.notes.add(rest.notes).add(declared_tally(v, items, i))
        }),
    decreases items.len() - i,
{
    let front = tally(v, items.take(i));
    if i < items.len() {
        lemma_whole_tally(v, items, i + 1);
        assert(items.take(i + 1).drop_last() =~= items.take(i));
        assert(items.take(i + 1).last() == items[i]);
        let x = share(v, items[i]);
        let rest = probe_tally(v, items, i + 1);
        let decl = declared_tally(v, items, i + 1);
        let d = declare_item(v, items[i]).1.to_multiset();
        if items[i] is Probe {
            assert(declare_item(v, items[i]).1 =~= Seq::empty());
            assert(d =~= Multiset::empty()) by {
                broadcast use vstd::multiset::group_multiset_axioms;

                Seq::<Note>::empty().to_multiset_ensures();
            }
            assert(front.notes.add(x.notes).add(rest.notes).add(decl) =~= front.notes.add(
                x.notes.add(rest.notes),
            ).add(d.add(decl)));
        } else {
            assert(x == (Tally { peak: 0, notes: d, ok: true })) by {
                reveal(share);
            }
            assert(front.notes.add(d).add(rest.notes).add(decl) =~= front.notes.add(
                rest.notes,
            ).add(d.add(decl)));
        }
    } else {
        assert(items.take(i) =~= items);
        assert(front.notes =~= front.notes.add(Multiset::empty()).add(Multiset::empty()));
    }
}

/// What the check gives is the tally of the items, and the note over a missing
/// probe.
proof fn lemma_program_tally(p: tree::Program, kernel: Option<Kernel>)
    ensures
        ({
            let v = env_at(kernel, p.items, p.items.len() as int);
            let t = tally(v, p.items);
            let r = program(p, kernel);
            &&& r.ok == t.ok
            &&& t.ok ==> r.peak == t.peak
            &&& t.ok ==> r.notes.to_multiset() == t.notes.add(
                missing_probe(p.items).to_multiset(),
            )
        }),
{
    let items = p.items;
    let v = env_at(kernel, items, items.len() as int);
    assert(env_at(kernel, items, 0) == start(kernel));
    lemma_declare_items(kernel, items, 0, none());
    let notes = declare_items(start(kernel), items, 0, none()).1;
    let missing = missing_probe(items);
    let r = Report { peak: 0, notes: notes + missing, ok: true };
    lemma_probes(v, items, 0, r);
    lemma_whole_tally(v, items, 0);
    assert(items.take(0) =~= Seq::empty());
    vstd::seq_lib::lemma_multiset_commutative(notes, missing);
    let d = declared_tally(v, items, 0);
    let t = probe_tally(v, items, 0);
    assert(none().to_multiset() =~= Multiset::empty()) by {
        broadcast use vstd::multiset::group_multiset_axioms;

        none().to_multiset_ensures();
    }
    assert(Multiset::empty().add(d).add(missing.to_multiset()).add(t.notes)
        =~= Multiset::empty().add(t.notes).add(d).add(missing.to_multiset()));
    assert(program(p, kernel) == probes(v, items, 0, r));
}

/// The note over a program without a probe.
spec fn missing_probe(items: Seq<tree::Item>) -> Seq<Note> {
    only_if(
        !has_probe(items),
        note(Span { start: 0, end: 0 }, "program has no `probe`"@),
    )
}

/// No two constants, no two maps and no two events of a program share a name.
pub open spec fn names_differ(items: Seq<tree::Item>) -> bool {
    forall|i: int, j: int|
        0 <= i < j < items.len() ==> match (#[trigger] items[i], #[trigger] items[j]) {
            (tree::Item::Const(a), tree::Item::Const(b)) => a.name.name != b.name.name,
            (tree::Item::MapDecl(a), tree::Item::MapDecl(b)) => a.name.name != b.name.name,
            (tree::Item::Event(a), tree::Item::Event(b)) => a.name.name != b.name.name,
            _ => true,
        }
}

/// The declarations of the same items are the same.
proof fn lemma_env_order(kernel: Option<Kernel>, a: Seq<tree::Item>, b: Seq<tree::Item>)
    requires
        a.to_multiset() == b.to_multiset(),
        names_differ(a),
    ensures
        env_at(kernel, a, a.len() as int) == env_at(kernel, b, b.len() as int),
{
    assert(apart(a, const_entries()));
    assert(apart(a, map_entries()));
    assert(apart(a, event_entries()));
    lemma_entries_order(a, b, const_entries());
    lemma_entries_order(a, b, map_entries());
    lemma_entries_order(a, b, event_entries());
}

proof fn lemma_has_probe_order(a: Seq<tree::Item>, b: Seq<tree::Item>)
    requires
        a.to_multiset() == b.to_multiset(),
        has_probe(a),
    ensures
        has_probe(b),
{
    let i = choose|i: int| 0 <= i < a.len() && (#[trigger] a[i]) is Probe;
    let j = lemma_found(a, b, i);
    assert(b[j] is Probe);
}

/// The order of the items in a file does not matter: two programs of the same
/// items, in which no name is declared twice, get the same verdict, the same
/// stack and the same notes, up to the order of the notes.
pub proof fn lemma_order_of_items_does_not_matter(
    p: tree::Program,
    q: tree::Program,
    kernel: Option<Kernel>,
)
    requires
        p.items.to_multiset() == q.items.to_multiset(),
        names_differ(p.items),
    ensures
        program(q, kernel).ok == program(p, kernel).ok,
        program(p, kernel).ok ==> program(q, kernel).peak == program(p, kernel).peak,
        program(p, kernel).ok ==> program(q, kernel).notes.to_multiset() == program(
            p,
            kernel,
        ).notes.to_multiset(),
        program(p, kernel).ok ==> program(q, kernel).notes.len() == program(p, kernel).notes.len(),
{
    let a = p.items;
    let b = q.items;
    lemma_env_order(kernel, a, b);
    lemma_tally_order(env_at(kernel, a, a.len() as int), a, b);
    lemma_program_tally(p, kernel);
    lemma_program_tally(q, kernel);
    if has_probe(a) {
        lemma_has_probe_order(a, b);
    }
    if has_probe(b) {
        lemma_has_probe_order(b, a);
    }
    program(p, kernel).notes.to_multiset_ensures();
    program(q, kernel).notes.to_multiset_ensures();
}

/// So the type checker gives the same verdict on both, the same stack where it
/// accepts them, and the same diagnostics up to their order where it does not.
pub proof fn lemma_verdicts_do_not_depend_on_order(
    p: tree::Program,
    q: tree::Program,
    kernel: Option<Kernel>,
    a: Result<Checked, Vec<Diag>>,
    b: Result<Checked, Vec<Diag>>,
)
    requires
        p.items.to_multiset() == q.items.to_multiset(),
        names_differ(p.items),
        program(p, kernel).ok,
        verdict(a, program(p, kernel)),
        verdict(b, program(q, kernel)),
    ensures
        match (a, b) {
            (Ok(c), Ok(d)) => c.stack_bytes == d.stack_bytes,
            (Err(c), Err(d)) => notes(c@).to_multiset() == notes(d@).to_multiset(),
            _ => false,
        },
{
    lemma_order_of_items_does_not_matter(p, q, kernel);
}

} // verus!
