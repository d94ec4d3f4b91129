//! What the type of a kernel struct's member comes down to.

use crate::btf::{
    array_shape, big_endian, first_named, name_of_type, pointer_shape, shape_of, size_of_type,
    strip, stripped, wire_order, Info, Kernel, Part, Shape,
};
use crate::text::starts;
use vstd::prelude::*;
use vstd::utf8::encode_utf8;

verus! {

/// A type that only renames or qualifies another: a typedef, `volatile`, `const`
/// or `restrict`, by the numbers of their kinds.
pub open spec fn is_alias(t: Info) -> bool {
    8 <= t.kind <= 11
}

/// A way from one type to another over aliases.
pub open spec fn is_way(k: Kernel, path: Seq<u32>) -> bool {
    &&& path.len() > 0
    &&& forall|i: int| 0 <= i < path.len() ==> (#[trigger] path[i]) < k.types.len()
    &&& forall|i: int|
        0 <= i < path.len() - 1 ==> is_alias(k.types[(#[trigger] path[i]) as int])
            && k.types[path[i] as int].size_or_type == path[i + 1]
    &&& !is_alias(k.types[path.last() as int])
}

/// A type comes down to the end of the way over aliases that starts with it, if
/// that way has at most 32 types.
pub proof fn lemma_types_come_down(k: Kernel, path: Seq<u32>)
    requires
        is_way(k, path),
    ensures
        stripped(k, path[0]) == if path.len() <= 32 {
            Some(path.last())
        } else {
            None
        },
{
    lemma_way(k, path, 32);
}

proof fn lemma_way(k: Kernel, path: Seq<u32>, n: nat)
    requires
        is_way(k, path),
    ensures
        strip(k, path[0], n) == if path.len() <= n {
            Some(path.last())
        } else {
            None
        },
    decreases path.len(),
{
    assert(path[0] < k.types.len());
    if n > 0 && path.len() > 1 {
        let rest = path.drop_first();
        assert(is_alias(k.types[path[0] as int]));
        assert forall|i: int| 0 <= i < rest.len() implies (#[trigger] rest[i]) < k.types.len() by {
            assert(path[i + 1] == rest[i]);
        }
        assert forall|i: int| 0 <= i < rest.len() - 1 implies is_alias(
            k.types[(#[trigger] rest[i]) as int],
        ) && k.types[rest[i] as int].size_or_type == rest[i + 1] by {
            assert(path[i + 1] == rest[i]);
            assert(path[i + 2] == rest[i + 1]);
        }
        assert(rest.last() == path.last());
        lemma_way(k, rest, (n - 1) as nat);
        assert(rest[0] == path[1]);
    }
}

/// A name of the kernel for numbers in network order: `__be16` and the like,
/// `be16` and the like, and checksums.
pub open spec fn network_name(name: Seq<char>) -> bool {
    ||| name.len() >= 4 && name.subrange(0, 4) == seq!['_', '_', 'b', 'e']
    ||| name.len() >= 2 && name.subrange(0, 2) == seq!['b', 'e'] && encode_utf8(name).len() <= 4
    ||| name == seq!['_', '_', 's', 'u', 'm', '1', '6']
    ||| name == seq!['_', '_', 'w', 's', 'u', 'm']
}

proof fn lemma_network_name(name: Seq<char>)
    ensures
        wire_order(name) == network_name(name),
{
    reveal_strlit("__be");
    reveal_strlit("be");
    reveal_strlit("__sum16");
    reveal_strlit("__wsum");
    assert("__be"@ =~= seq!['_', '_', 'b', 'e']);
    assert("be"@ =~= seq!['b', 'e']);
    assert("__sum16"@ =~= seq!['_', '_', 's', 'u', 'm', '1', '6']);
    assert("__wsum"@ =~= seq!['_', '_', 'w', 's', 'u', 'm']);
    if name.len() >= 4 {
        assert(starts(name, "__be"@) == (name.subrange(0, 4) =~= "__be"@));
    }
    if name.len() >= 2 {
        assert(starts(name, "be"@) == (name.subrange(0, 2) =~= "be"@));
    }
}

/// A typedef on the way has a name for numbers in network order.
pub open spec fn network_way(k: Kernel, path: Seq<u32>) -> bool {
    exists|i: int|
        0 <= i < path.len() && k.types[(#[trigger] path[i]) as int].kind == 8 && network_name(
            k.types[path[i] as int].name,
        )
}

proof fn lemma_network(k: Kernel, path: Seq<u32>, n: nat)
    requires
        is_way(k, path),
        path.len() <= n,
    ensures
        big_endian(k, path[0], n) == network_way(k, path),
    decreases path.len(),
{
    let t = k.types[path[0] as int];
    assert(path[0] < k.types.len());
    lemma_network_name(t.name);
    if path.len() > 1 {
        let rest = path.drop_first();
        assert(is_alias(k.types[path[0] as int]));
        assert forall|i: int| 0 <= i < rest.len() implies (#[trigger] rest[i]) < k.types.len() by {
            assert(path[i + 1] == rest[i]);
        }
        assert forall|i: int| 0 <= i < rest.len() - 1 implies is_alias(
            k.types[(#[trigger] rest[i]) as int],
        ) && k.types[rest[i] as int].size_or_type == rest[i + 1] by {
            assert(path[i + 1] == rest[i]);
            assert(path[i + 2] == rest[i + 1]);
        }
        assert(rest.last() == path.last());
        lemma_network(k, rest, (n - 1) as nat);
        assert(rest[0] == path[1]);
        if network_way(k, rest) {
            let i = choose|i: int|
                0 <= i < rest.len() && k.types[(#[trigger] rest[i]) as int].kind == 8
                    && network_name(k.types[rest[i] as int].name);
            assert(path[i + 1] == rest[i]);
        }
        if network_way(k, path) {
            let i = choose|i: int|
                0 <= i < path.len() && k.types[(#[trigger] path[i]) as int].kind == 8
                    && network_name(k.types[path[i] as int].name);
            if i > 0 {
                assert(rest[i - 1] == path[i]);
            }
        }
    } else {
        assert(path.last() == path[0]);
        if network_way(k, path) {
            let i = choose|i: int|
                0 <= i < path.len() && k.types[(#[trigger] path[i]) as int].kind == 8
                    && network_name(k.types[path[i] as int].name);
            assert(i == 0);
        }
    }
}

/// What a type comes down to: an integer with its size and sign, in network order
/// where a typedef on the way says so; a struct or a union by its id and name; or
/// something else.
pub proof fn lemma_shapes(k: Kernel, path: Seq<u32>)
    requires
        is_way(k, path),
        path.len() <= 32,
    ensures
        ({
            let id = path.last();
            let t = k.types[id as int];
            let shape = shape_of(k, path[0]);
            &&& t.kind == 1 ==> shape == (Shape::Int {
                bytes: if t.size_or_type > 8 {
                    8
                } else {
                    t.size_or_type
                },
                signed: t.int_signed,
                big_endian: network_way(k, path),
            })
            &&& t.kind == 4 || t.kind == 5 ==> shape == (Shape::Struct { id, name: t.name })
            &&& t.kind == 3 ==> shape == array_shape(k, t)
            &&& t.kind == 2 ==> shape == pointer_shape(k, t.size_or_type)
            &&& t.kind == 0 || t.kind > 5 ==> shape is Other
            &&& t.kind == 4 || t.kind == 5 ==> size_of_type(k, path[0]) == Some(t.size_or_type)
                && name_of_type(k, path[0]) == Some(t.name)
            &&& t.kind != 4 && t.kind != 5 ==> size_of_type(k, path[0]) is None && name_of_type(
                k,
                path[0],
            ) is None
        }),
{
    lemma_types_come_down(k, path);
    lemma_network(k, path, 32);
}

/// What a pointer points at decides what it is: a struct or a union with a name, a
/// character, or something else.
pub proof fn lemma_pointers_by_what_they_point_at(k: Kernel, path: Seq<u32>)
    requires
        is_way(k, path),
        path.len() <= 32,
    ensures
        ({
            let id = path.last();
            let t = k.types[id as int];
            let shape = pointer_shape(k, path[0]);
            if (t.kind == 4 || t.kind == 5) && t.name.len() > 0 {
                shape == (Shape::PtrToStruct { id, name: t.name })
            } else if t.kind == 1 && t.size_or_type == 1 {
                shape is PtrToChar
            } else {
                shape is PtrToOther
            }
        }),
{
    lemma_types_come_down(k, path);
}

/// An array of integers has the size of an element and the number of elements.
pub proof fn lemma_arrays_by_their_elements(k: Kernel, t: Info, path: Seq<u32>, len: u32)
    requires
        is_way(k, path),
        path.len() <= 32,
        t.array == Some((path[0], len)),
    ensures
        ({
            let e = k.types[path.last() as int];
            if e.kind == 1 {
                array_shape(k, t) == (Shape::Array { elem_bytes: e.size_or_type, len })
            } else {
                array_shape(k, t) is Other
            }
        }),
{
    lemma_types_come_down(k, path);
}

/// Of members with one name, the first is found.
pub proof fn lemma_first_member_is_found(list: Seq<Part>, name: Seq<char>, i: int)
    requires
        0 <= i,
    ensures
        match first_named(list, name, i) {
            Some(m) => exists|p: int|
                {
                    &&& i <= p < list.len()
                    &&& (#[trigger] list[p]) == m
                    &&& m.name == name
                    &&& forall|q: int| i <= q < p ==> (#[trigger] list[q]).name != name
                },
            None => forall|q: int| i <= q < list.len() ==> (#[trigger] list[q]).name != name,
        },
    decreases list.len() - i,
{
    if i < list.len() {
        if list[i].name != name {
            lemma_first_member_is_found(list, name, i + 1);
            if let Some(m) = first_named(list, name, i + 1) {
                let p = choose|p: int|
                    {
                        &&& i + 1 <= p < list.len()
                        &&& (#[trigger] list[p]) == m
                        &&& m.name == name
                        &&& forall|q: int| i + 1 <= q < p ==> (#[trigger] list[q]).name != name
                    };
                assert(list[p] == m);
            }
        } else {
            assert(list[i] == list[i]);
        }
    }
}

} // verus!
