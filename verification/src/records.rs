//! Records as a C compiler would lay them out.

use crate::layout::{
    end_of, held, kind_at, kind_size, layout_fits, layout_of, lemma_align, lemma_round_up, start_of,
    FieldKind,
};
use crate::tree;
use vstd::prelude::*;

verus! {

/// The size and the alignment of a type in C: numbers are aligned to their size,
/// texts are arrays of bytes.
pub open spec fn natural(t: tree::Type) -> Option<(nat, nat)> {
    let name = t.name.name;
    if name == "u8"@ || name == "bool"@ {
        Some((1, 1))
    } else if name == "u16"@ {
        Some((2, 2))
    } else if name == "u32"@ {
        Some((4, 4))
    } else if name == "u64"@ {
        Some((8, 8))
    } else if name == "str"@ && t.args.len() == 1 {
        match t.args[0] {
            tree::TypeArg::Int(n) => if n < 0x1_0000_0000 {
                Some((n as nat, 1))
            } else {
                None
            },
            _ => None,
        }
    } else {
        None
    }
}

/// The least multiple of `a` from `v` on.
pub open spec fn is_next_multiple(r: int, v: int, a: int) -> bool {
    v <= r < v + a && r % a == 0
}

/// The largest alignment among the first `n` fields.
pub open spec fn is_largest_align(f: Seq<tree::Field>, n: int, a: nat) -> bool {
    &&& a >= 1
    &&& forall|i: int| 0 <= i < n ==> (natural((#[trigger] f[i]).ty)->0).1 <= a
    &&& a == 1 || exists|i: int| 0 <= i < n && (natural((#[trigger] f[i]).ty)->0).1 == a
}

proof fn lemma_natural(f: Seq<tree::Field>, i: int)
    requires
        0 <= i < f.len(),
    ensures
        match kind_at(f, i) {
            Some(k) => natural(f[i].ty) == Some((kind_size(k), crate::layout::kind_align(k))),
            None => natural(f[i].ty) is None,
        },
        kind_at(f, i) matches Some(k) ==> ((k is Bool) == (f[i].ty.name.name == "bool"@)) && ((
        k is Str) == (f[i].ty.name.name == "str"@)),
{
    reveal_strlit("u8");
    reveal_strlit("u16");
    reveal_strlit("u32");
    reveal_strlit("u64");
    reveal_strlit("bool");
    reveal_strlit("str");
    assert("u8"@.len() == 2 && "u16"@.len() == 3 && "u32"@.len() == 3 && "u64"@.len() == 3);
    assert("bool"@.len() == 4 && "str"@.len() == 3);
    assert("u16"@[0] == 'u' && "u32"@[0] == 'u' && "u64"@[0] == 'u' && "str"@[0] == 's');
    assert("u16"@[1] == '1' && "u32"@[1] == '3' && "u64"@[1] == '6');
}

proof fn lemma_largest_align(f: Seq<tree::Field>, n: int)
    requires
        0 <= n <= f.len(),
        held(f, n),
    ensures
        is_largest_align(f, n, crate::layout::align_of(f, n)),
    decreases n,
{
    if n > 0 {
        assert(kind_at(f, n - 1) is Some);
        lemma_natural(f, n - 1);
        lemma_align(f, n - 1);
        lemma_largest_align(f, n - 1);
        let before = crate::layout::align_of(f, n - 1);
        let now = crate::layout::align_of(f, n);
        if now == before {
            if now != 1 {
                let i = choose|i: int|
                    0 <= i < n - 1 && (natural((#[trigger] f[i]).ty)->0).1 == before;
                assert(0 <= i < n && (natural(f[i].ty)->0).1 == now);
            }
        } else {
            assert((natural(f[n - 1].ty)->0).1 == now);
        }
    }
}

/// The layout of an event is that of a C struct: fields in the order of their
/// declaration, each at the next multiple of its alignment behind the one before
/// it, the first at 0, and the size the next multiple of the largest alignment.
pub proof fn lemma_records_are_c_structs(e: tree::EventDecl)
    requires
        layout_fits(e),
        held(e.fields, e.fields.len() as int),
    ensures
        ({
            let l = layout_of(e);
            let f = e.fields;
            let n = f.len() as int;
            &&& l.name == e.name.name
            &&& l.fields.len() == n
            &&& forall|i: int|
                0 <= i < n ==> {
                    let s = #[trigger] l.fields[i];
                    &&& s.name == f[i].name.name
                    &&& natural(f[i].ty) matches Some((size, align)) && s.size == size
                        && is_next_multiple(
                        s.offset as int,
                        if i == 0 {
                            0
                        } else {
                            l.fields[i - 1].offset + l.fields[i - 1].size
                        },
                        align as int,
                    )
                    &&& s.kind is Bool <==> f[i].ty.name.name == "bool"@
                    &&& s.kind is Str <==> f[i].ty.name.name == "str"@
                    &&& s.kind matches FieldKind::Uint(w) ==> w == s.size
                    &&& s.kind matches FieldKind::Str(w) ==> w == s.size
                }
            &&& exists|a: nat| #[trigger]
                is_largest_align(f, n, a) && is_next_multiple(
                    l.size as int,
                    if n == 0 {
                        0
                    } else {
                        l.fields[n - 1].offset + l.fields[n - 1].size
                    },
                    a as int,
                )
        }),
{
    let l = layout_of(e);
    let f = e.fields;
    let n = f.len() as int;
    assert forall|i: int| 0 <= i < n implies {
        let s = #[trigger] l.fields[i];
        &&& s.name == f[i].name.name
        &&& natural(f[i].ty) matches Some((size, align)) && s.size == size && is_next_multiple(
            s.offset as int,
            if i == 0 {
                0
            } else {
                l.fields[i - 1].offset + l.fields[i - 1].size
            },
            align as int,
        )
        &&& s.kind is Bool <==> f[i].ty.name.name == "bool"@
        &&& s.kind is Str <==> f[i].ty.name.name == "str"@
        &&& s.kind matches FieldKind::Uint(w) ==> w == s.size
        &&& s.kind matches FieldKind::Str(w) ==> w == s.size
    } by {
        lemma_place(e, i);
        if i > 0 {
            lemma_place(e, i - 1);
        }
    }
    let a = crate::layout::align_of(f, n);
    lemma_largest_align(f, n);
    lemma_round_up(end_of(f, n), a);
    if n > 0 {
        lemma_place(e, n - 1);
    }
    assert(is_largest_align(f, n, a) && is_next_multiple(
        l.size as int,
        if n == 0 {
            0
        } else {
            l.fields[n - 1].offset + l.fields[n - 1].size
        },
        a as int,
    ));
}

/// One field in its place, without a cast.
proof fn lemma_place(e: tree::EventDecl, i: int)
    requires
        layout_fits(e),
        held(e.fields, e.fields.len() as int),
        0 <= i < e.fields.len(),
    ensures
        ({
            let s = layout_of(e).fields[i];
            let k = kind_at(e.fields, i)->0;
            &&& kind_at(e.fields, i) is Some
            &&& s.offset == start_of(e.fields, i)
            &&& s.size == kind_size(k)
            &&& s.kind == k
            &&& s.offset + s.size == end_of(e.fields, i + 1)
            &&& natural(e.fields[i].ty) == Some((kind_size(k), crate::layout::kind_align(k)))
            &&& is_next_multiple(
                start_of(e.fields, i) as int,
                end_of(e.fields, i) as int,
                crate::layout::kind_align(k) as int,
            )
            &&& (k is Bool) == (e.fields[i].ty.name.name == "bool"@)
            &&& (k is Str) == (e.fields[i].ty.name.name == "str"@)
        }),
{
    let f = e.fields;
    assert(kind_at(f, i) is Some);
    assert(held(f, i + 1));
    lemma_align(f, i);
    lemma_natural(f, i);
    lemma_round_up(end_of(f, i), crate::layout::kind_align(kind_at(f, i)->0));
    assert(start_of(f, i) + kind_size(kind_at(f, i)->0) <= u32::MAX);
}

} // verus!
