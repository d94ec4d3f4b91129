//! The type information of a kernel, as a compiler writes it.
//!
//! A table is a list of descriptions, each a row of 32-bit numbers. This module
//! says how each is written; reading a table back gives what was written.

use crate::btf::{
    has_kind_flag, is_struct_named, kernel_of, kind_of, le16, le32,
    lemma_names_find_the_first_struct, member_at, name_at, payload, readable, readable_from,
    str_section, type_at, type_end, type_start, types_from, vlen_of, void_type, Info, Part,
};
use vstd::prelude::*;
use vstd::utf8::encode_utf8;

verus! {

/// A member of a struct or a union, as a compiler describes it.
pub struct Slot {
    pub name: Seq<char>,
    pub type_id: u32,
    pub bit_offset: u32,
    pub bit_size: u32,
}

/// A type, as a compiler describes it.
pub enum Desc {
    Int { name: Seq<char>, size: u32, bits: u8, offset: u8, signed: bool, flavour: u8 },
    /// A pointer, a forward declaration, a typedef, `volatile`, `const`,
    /// `restrict`, a function, a float or a type tag.
    Plain { name: Seq<char>, kind: u32, flag: bool, target: u32 },
    Array { element: u32, index: u32, count: u32 },
    Struct { name: Seq<char>, size: u32, bitfields: bool, slots: Seq<Slot> },
    Union { name: Seq<char>, size: u32, bitfields: bool, slots: Seq<Slot> },
    Enum { name: Seq<char>, size: u32, signed: bool, values: Seq<(Seq<char>, u32)> },
    Proto { result: u32, params: Seq<(Seq<char>, u32)> },
    Var { name: Seq<char>, target: u32, linkage: u32 },
    Section { name: Seq<char>, size: u32, entries: Seq<(u32, u32, u32)> },
    Tag { name: Seq<char>, target: u32, component: u32 },
    Enum64 { name: Seq<char>, size: u32, signed: bool, values: Seq<(Seq<char>, u32, u32)> },
}

// ------------------------------------------------------------------- writing

/// The 32-bit number `w` stands at `o`, its lowest byte first.
pub open spec fn word_stands(b: Seq<u8>, o: int, w: u32) -> bool {
    &&& 0 <= o
    &&& o + 4 <= b.len()
    &&& b[o] == w as int % 0x100
    &&& b[o + 1] == w as int / 0x100 % 0x100
    &&& b[o + 2] == w as int / 0x1_0000 % 0x100
    &&& b[o + 3] == w as int / 0x100_0000
}

/// Numbers stand one behind the other from `o` on.
pub open spec fn words_stand(b: Seq<u8>, o: int, ws: Seq<u32>) -> bool {
    forall|i: int| 0 <= i < ws.len() ==> word_stands(b, o + 4 * i, #[trigger] ws[i])
}

/// A name stands at an offset of the strings, with a zero behind it.
pub open spec fn name_stands(strings: Seq<u8>, off: u32, name: Seq<char>) -> bool {
    let raw = encode_utf8(name);
    &&& off + raw.len() < strings.len()
    &&& strings.subrange(off as int, off + raw.len()) == raw
    &&& strings[off + raw.len()] == 0
    &&& forall|i: int| 0 <= i < raw.len() ==> #[trigger] raw[i] != 0
}

/// The second number of every type: how many things follow, the kind and a flag.
pub open spec fn info_word(count: nat, kind: u32, flag: bool) -> u32 {
    (count + 0x100_0000 * kind + (if flag {
        0x8000_0000int
    } else {
        0
    })) as u32
}

/// The numbers of a member, 12 bytes. In a struct with bitfields the width of
/// each member stands above its place.
pub open spec fn slot_words(at: spec_fn(Seq<char>) -> u32, bitfields: bool, s: Slot) -> Seq<u32> {
    seq![
        at(s.name),
        s.type_id,
        if bitfields {
            (s.bit_offset + 0x100_0000 * s.bit_size) as u32
        } else {
            s.bit_offset
        },
    ]
}

pub open spec fn slots_words(
    at: spec_fn(Seq<char>) -> u32,
    bitfields: bool,
    slots: Seq<Slot>,
) -> Seq<u32> {
    Seq::new(
        3 * slots.len(),
        |i: int| slot_words(at, bitfields, slots[i / 3])[i % 3],
    )
}

/// Pairs of a name and a number, 8 bytes each: enumerators and parameters.
pub open spec fn pairs_words(
    at: spec_fn(Seq<char>) -> u32,
    pairs: Seq<(Seq<char>, u32)>,
) -> Seq<u32> {
    Seq::new(
        2 * pairs.len(),
        |i: int| seq![at(pairs[i / 2].0), pairs[i / 2].1][i % 2],
    )
}

/// Enumerators of 64 bits, 12 bytes each.
pub open spec fn wide_words(
    at: spec_fn(Seq<char>) -> u32,
    values: Seq<(Seq<char>, u32, u32)>,
) -> Seq<u32> {
    Seq::new(
        3 * values.len(),
        |i: int| seq![at(values[i / 3].0), values[i / 3].1, values[i / 3].2][i % 3],
    )
}

/// The variables of a section, 12 bytes each.
pub open spec fn entry_words(entries: Seq<(u32, u32, u32)>) -> Seq<u32> {
    Seq::new(
        3 * entries.len(),
        |i: int| seq![entries[i / 3].0, entries[i / 3].1, entries[i / 3].2][i % 3],
    )
}

/// The numbers that a type is written as. `at` says where each name stands.
pub open spec fn desc_words(at: spec_fn(Seq<char>) -> u32, d: Desc) -> Seq<u32> {
    match d {
        Desc::Int { name, size, bits, offset, signed, flavour } => seq![
            at(name),
            info_word(0, 1, false),
            size,
            (bits + 0x1_0000 * offset + 0x100_0000 * (if signed {
                1int
            } else {
                0
            } + 2 * flavour)) as u32,
        ],
        Desc::Plain { name, kind, flag, target } => seq![
            at(name),
            info_word(0, kind, flag),
            target,
        ],
        Desc::Array { element, index, count } => seq![
            at(Seq::empty()),
            info_word(0, 3, false),
            0u32,
            element,
            index,
            count,
        ],
        Desc::Struct { name, size, bitfields, slots } => seq![
            at(name),
            info_word(slots.len(), 4, bitfields),
            size,
        ] + slots_words(at, bitfields, slots),
        Desc::Union { name, size, bitfields, slots } => seq![
            at(name),
            info_word(slots.len(), 5, bitfields),
            size,
        ] + slots_words(at, bitfields, slots),
        Desc::Enum { name, size, signed, values } => seq![
            at(name),
            info_word(values.len(), 6, signed),
            size,
        ] + pairs_words(at, values),
        Desc::Proto { result, params } => seq![
            at(Seq::empty()),
            info_word(params.len(), 13, false),
            result,
        ] + pairs_words(at, params),
        Desc::Var { name, target, linkage } => seq![
            at(name),
            info_word(0, 14, false),
            target,
            linkage,
        ],
        Desc::Section { name, size, entries } => seq![
            at(name),
            info_word(entries.len(), 15, false),
            size,
        ] + entry_words(entries),
        Desc::Tag { name, target, component } => seq![
            at(name),
            info_word(0, 17, false),
            target,
            component,
        ],
        Desc::Enum64 { name, size, signed, values } => seq![
            at(name),
            info_word(values.len(), 19, signed),
            size,
        ] + wide_words(at, values),
    }
}

/// The name of a type.
pub open spec fn desc_name(d: Desc) -> Seq<char> {
    match d {
        Desc::Int { name, .. } => name,
        Desc::Plain { name, .. } => name,
        Desc::Array { .. } => Seq::empty(),
        Desc::Struct { name, .. } => name,
        Desc::Union { name, .. } => name,
        Desc::Enum { name, .. } => name,
        Desc::Proto { .. } => Seq::empty(),
        Desc::Var { name, .. } => name,
        Desc::Section { name, .. } => name,
        Desc::Tag { name, .. } => name,
        Desc::Enum64 { name, .. } => name,
    }
}

/// Members that can be written.
pub open spec fn slots_fit(bitfields: bool, slots: Seq<Slot>) -> bool {
    &&& slots.len() < 0x1_0000
    &&& forall|i: int|
        0 <= i < slots.len() ==> if bitfields {
            (#[trigger] slots[i]).bit_offset < 0x100_0000 && slots[i].bit_size < 0x100
        } else {
            slots[i].bit_size == 0
        }
}

/// A description that can be written: the counts fit in 16 bits, and a plain
/// type is of a kind that has no more to say.
pub open spec fn desc_fits(d: Desc) -> bool {
    match d {
        Desc::Int { flavour, .. } => flavour < 128,
        Desc::Plain { kind, .. } => kind == 2 || 7 <= kind <= 12 || kind == 16 || kind == 18,
        Desc::Struct { bitfields, slots, .. } => slots_fit(bitfields, slots),
        Desc::Union { bitfields, slots, .. } => slots_fit(bitfields, slots),
        Desc::Enum { values, .. } => values.len() < 0x1_0000,
        Desc::Proto { params, .. } => params.len() < 0x1_0000,
        Desc::Section { entries, .. } => entries.len() < 0x1_0000,
        Desc::Enum64 { values, .. } => values.len() < 0x1_0000,
        _ => true,
    }
}

/// The names of a type and of its members stand among the strings.
pub open spec fn names_stand(strings: Seq<u8>, at: spec_fn(Seq<char>) -> u32, d: Desc) -> bool {
    &&& name_stands(strings, at(desc_name(d)), desc_name(d))
    &&& match d {
        Desc::Struct { slots, .. } => slot_names_stand(strings, at, slots),
        Desc::Union { slots, .. } => slot_names_stand(strings, at, slots),
        _ => true,
    }
}

pub open spec fn slot_names_stand(
    strings: Seq<u8>,
    at: spec_fn(Seq<char>) -> u32,
    slots: Seq<Slot>,
) -> bool {
    forall|i: int|
        0 <= i < slots.len() ==> name_stands(
            strings,
            at((#[trigger] slots[i]).name),
            slots[i].name,
        )
}

/// Types stand one behind the other from `p` to `end`.
pub open spec fn descs_stand(
    b: Seq<u8>,
    strings: Seq<u8>,
    at: spec_fn(Seq<char>) -> u32,
    list: Seq<Desc>,
    p: int,
    end: int,
) -> bool
    decreases list.len(),
{
    if list.len() == 0 {
        p == end
    } else {
        &&& desc_fits(list[0])
        &&& names_stand(strings, at, list[0])
        &&& words_stand(b, p, desc_words(at, list[0]))
        &&& descs_stand(
            b,
            strings,
            at,
            list.drop_first(),
            p + 4 * desc_words(at, list[0]).len(),
            end,
        )
    }
}

/// Where the two sections of a table stand.
pub struct Layout {
    pub header: u32,
    pub types: u32,
    pub types_len: u32,
    pub strings: u32,
    pub strings_len: u32,
}

/// A table of types: a header, the types and the strings with their names. The
/// places of the two sections count from the end of the header.
pub open spec fn table_stands(
    b: Seq<u8>,
    l: Layout,
    strings: Seq<u8>,
    at: spec_fn(Seq<char>) -> u32,
    list: Seq<Desc>,
) -> bool {
    &&& b.len() >= 24
    &&& b[0] == 0x9f
    &&& b[1] == 0xeb
    &&& words_stand(b, 4, seq![l.header, l.types, l.types_len, l.strings, l.strings_len])
    &&& l.header + l.types + l.types_len <= b.len()
    &&& l.header + l.strings + l.strings_len <= b.len()
    &&& strings == b.subrange(
        l.header + l.strings,
        l.header + l.strings + l.strings_len,
    )
    &&& descs_stand(
        b,
        strings,
        at,
        list,
        l.header + l.types,
        l.header + l.types + l.types_len,
    )
}

// ------------------------------------------------------------------- reading

/// The members of a type, as they are known afterwards.
pub open spec fn known_slots(slots: Seq<Slot>) -> Seq<Part> {
    Seq::new(
        slots.len(),
        |i: int|
            Part {
                name: slots[i].name,
                offset_bytes: slots[i].bit_offset / 8,
                type_id: slots[i].type_id,
                bit_offset: slots[i].bit_offset,
                bit_size: slots[i].bit_size,
            },
    )
}

/// What is known of a type afterwards.
pub open spec fn known(d: Desc) -> Info {
    let plain = Info {
        name: desc_name(d),
        kind: 0,
        size_or_type: 0,
        int_signed: false,
        members: Seq::empty(),
        array: None,
    };
    match d {
        Desc::Int { size, signed, .. } => Info {
            kind: 1,
            size_or_type: size,
            int_signed: signed,
            ..plain
        },
        Desc::Plain { kind, target, .. } => Info { kind, size_or_type: target, ..plain },
        Desc::Array { element, count, .. } => Info {
            kind: 3,
            array: Some((element, count)),
            ..plain
        },
        Desc::Struct { size, slots, .. } => Info {
            kind: 4,
            size_or_type: size,
            members: known_slots(slots),
            ..plain
        },
        Desc::Union { size, slots, .. } => Info {
            kind: 5,
            size_or_type: size,
            members: known_slots(slots),
            ..plain
        },
        Desc::Enum { size, .. } => Info { kind: 6, size_or_type: size, ..plain },
        Desc::Proto { result, .. } => Info { kind: 13, size_or_type: result, ..plain },
        Desc::Var { target, .. } => Info { kind: 14, size_or_type: target, ..plain },
        Desc::Section { size, .. } => Info { kind: 15, size_or_type: size, ..plain },
        Desc::Tag { target, .. } => Info { kind: 17, size_or_type: target, ..plain },
        Desc::Enum64 { size, .. } => Info { kind: 19, size_or_type: size, ..plain },
    }
}

proof fn lemma_word(b: Seq<u8>, o: int, w: u32)
    requires
        word_stands(b, o, w),
    ensures
        le32(b, o) == w,
{
}

proof fn lemma_nth(b: Seq<u8>, o: int, ws: Seq<u32>, i: int)
    requires
        words_stand(b, o, ws),
        0 <= i < ws.len(),
    ensures
        le32(b, o + 4 * i) == ws[i],
        0 <= o + 4 * i,
        o + 4 * i + 4 <= b.len(),
{
    lemma_word(b, o + 4 * i, ws[i]);
}

proof fn lemma_nul_found(s: Seq<u8>, i: int, end: int)
    requires
        0 <= i <= end < s.len(),
        s[end] == 0,
        forall|k: int| i <= k < end ==> #[trigger] s[k] != 0,
    ensures
        crate::btf::nul(s, i) == end,
    decreases end - i,
{
    if i < end {
        assert(s[i] != 0);
        lemma_nul_found(s, i + 1, end);
    }
}

/// A name is found where it stands.
pub proof fn lemma_names_are_found(strings: Seq<u8>, off: u32, name: Seq<char>)
    requires
        name_stands(strings, off, name),
    ensures
        name_at(strings, off) == name,
{
    let raw = encode_utf8(name);
    let end = off + raw.len();
    assert forall|k: int| off <= k < end implies #[trigger] strings[k] != 0 by {
        assert(raw[k - off] != 0);
        assert(strings.subrange(off as int, end)[k - off] == strings[k]);
    }
    lemma_nul_found(strings, off as int, end);
    crate::btf::lemma_text_reads_as_itself(name);
}

proof fn lemma_info_word(count: nat, kind: u32, flag: bool)
    requires
        count < 0x1_0000,
        kind < 32,
    ensures
        vlen_of(info_word(count, kind, flag)) == count,
        kind_of(info_word(count, kind, flag)) == kind,
        has_kind_flag(info_word(count, kind, flag)) == flag,
{
    let f: int = if flag {
        0x80
    } else {
        0
    };
    let n = count + 0x100_0000 * kind + 0x100_0000 * f;
    assert(info_word(count, kind, flag) == n);
    assert(n % 0x1_0000 == count);
    assert(n / 0x100_0000 == kind + f);
    assert((kind + f) % 32 == kind);
}

proof fn lemma_packed(place: u32, width: u32)
    requires
        place < 0x100_0000,
        width < 0x100,
    ensures
        (place + 0x100_0000 * width) as u32 % 0x100_0000 == place,
        (place + 0x100_0000 * width) as u32 / 0x100_0000 == width,
{
}

/// The kind of a type, how many things follow and whether the flag is set.
pub open spec fn heading(d: Desc) -> (nat, u32, bool) {
    match d {
        Desc::Int { .. } => (0, 1, false),
        Desc::Plain { kind, flag, .. } => (0, kind, flag),
        Desc::Array { .. } => (0, 3, false),
        Desc::Struct { bitfields, slots, .. } => (slots.len(), 4, bitfields),
        Desc::Union { bitfields, slots, .. } => (slots.len(), 5, bitfields),
        Desc::Enum { signed, values, .. } => (values.len(), 6, signed),
        Desc::Proto { params, .. } => (params.len(), 13, false),
        Desc::Var { .. } => (0, 14, false),
        Desc::Section { entries, .. } => (entries.len(), 15, false),
        Desc::Tag { .. } => (0, 17, false),
        Desc::Enum64 { signed, values, .. } => (values.len(), 19, signed),
    }
}

proof fn lemma_first_words(at: spec_fn(Seq<char>) -> u32, d: Desc)
    requires
        desc_fits(d),
    ensures
        desc_words(at, d).len() >= 3,
        desc_words(at, d)[0] == at(desc_name(d)),
        desc_words(at, d)[1] == info_word(heading(d).0, heading(d).1, heading(d).2),
        desc_words(at, d)[2] == known(d).size_or_type,
        heading(d).0 < 0x1_0000,
        heading(d).1 < 32,
        heading(d).1 == known(d).kind,
{
}

proof fn lemma_payload(at: spec_fn(Seq<char>) -> u32, d: Desc)
    requires
        desc_fits(d),
    ensures
        12 + payload(info_word(heading(d).0, heading(d).1, heading(d).2)) == 4 * desc_words(
            at,
            d,
        ).len(),
{
    let (count, kind, flag) = heading(d);
    lemma_info_word(count, kind, flag);
}

proof fn lemma_slot(
    b: Seq<u8>,
    strings: Seq<u8>,
    at: spec_fn(Seq<char>) -> u32,
    p: int,
    head: Seq<u32>,
    bitfields: bool,
    slots: Seq<Slot>,
    i: int,
)
    requires
        head.len() == 3,
        words_stand(b, p, head + slots_words(at, bitfields, slots)),
        slots_fit(bitfields, slots),
        slot_names_stand(strings, at, slots),
        0 <= i < slots.len(),
    ensures
        member_at(b, strings, p + 12 + 12 * i, bitfields) == known_slots(slots)[i],
{
    let ws = head + slots_words(at, bitfields, slots);
    let s = slots[i];
    let three = slot_words(at, bitfields, s);
    assert((3 * i) / 3 == i && (3 * i) % 3 == 0);
    assert((3 * i + 1) / 3 == i && (3 * i + 1) % 3 == 1);
    assert((3 * i + 2) / 3 == i && (3 * i + 2) % 3 == 2);
    assert(ws[3 + 3 * i] == three[0]);
    assert(ws[3 + 3 * i + 1] == three[1]);
    assert(ws[3 + 3 * i + 2] == three[2]);
    lemma_nth(b, p, ws, 3 + 3 * i);
    lemma_nth(b, p, ws, 3 + 3 * i + 1);
    lemma_nth(b, p, ws, 3 + 3 * i + 2);
    assert(p + 4 * (3 + 3 * i) == p + 12 + 12 * i);
    assert(p + 4 * (3 + 3 * i + 1) == p + 12 + 12 * i + 4);
    assert(p + 4 * (3 + 3 * i + 2) == p + 12 + 12 * i + 8);
    lemma_names_are_found(strings, at(s.name), s.name);
    if bitfields {
        lemma_packed(s.bit_offset, s.bit_size);
    }
}

proof fn lemma_slots(
    b: Seq<u8>,
    strings: Seq<u8>,
    at: spec_fn(Seq<char>) -> u32,
    p: int,
    head: Seq<u32>,
    bitfields: bool,
    slots: Seq<Slot>,
)
    requires
        head.len() == 3,
        words_stand(b, p, head + slots_words(at, bitfields, slots)),
        slots_fit(bitfields, slots),
        slot_names_stand(strings, at, slots),
    ensures
        Seq::new(
            slots.len(),
            |i: int| member_at(b, strings, p + 12 + 12 * i, bitfields),
        ) == known_slots(slots),
{
    let found = Seq::new(
        slots.len(),
        |i: int| member_at(b, strings, p + 12 + 12 * i, bitfields),
    );
    assert forall|i: int| 0 <= i < slots.len() implies #[trigger] found[i] == known_slots(
        slots,
    )[i] by {
        lemma_slot(b, strings, at, p, head, bitfields, slots, i);
    }
    assert(found =~= known_slots(slots));
}

proof fn lemma_signed_bit(bits: u8, offset: u8, signed: bool, flavour: u8)
    requires
        flavour < 128,
    ensures
        ({
            let w = (bits + 0x1_0000 * offset + 0x100_0000 * (if signed {
                1int
            } else {
                0
            } + 2 * flavour)) as u32;
            (w / 0x100_0000 % 2 == 1) == signed
        }),
{
    let s: int = if signed {
        1
    } else {
        0
    };
    let n = bits + 0x1_0000 * offset + 0x100_0000 * (s + 2 * flavour);
    assert(n / 0x100_0000 == s + 2 * flavour);
    assert((s + 2 * flavour) % 2 == s);
}

/// A type is read as it was written.
pub proof fn lemma_type_reads_back(
    b: Seq<u8>,
    strings: Seq<u8>,
    at: spec_fn(Seq<char>) -> u32,
    d: Desc,
    p: int,
)
    requires
        desc_fits(d),
        names_stand(strings, at, d),
        words_stand(b, p, desc_words(at, d)),
    ensures
        type_at(b, strings, p) == known(d),
        12 + payload(le32(b, p + 4)) == 4 * desc_words(at, d).len(),
        0 <= p,
        p + 4 * desc_words(at, d).len() <= b.len(),
{
    let ws = desc_words(at, d);
    let (count, kind, flag) = heading(d);
    lemma_first_words(at, d);
    lemma_payload(at, d);
    lemma_info_word(count, kind, flag);
    lemma_nth(b, p, ws, 0);
    lemma_nth(b, p, ws, 1);
    lemma_nth(b, p, ws, 2);
    lemma_nth(b, p, ws, ws.len() - 1);
    lemma_names_are_found(strings, at(desc_name(d)), desc_name(d));
    match d {
        Desc::Int { bits, offset, signed, flavour, .. } => {
            lemma_nth(b, p, ws, 3);
            lemma_signed_bit(bits, offset, signed, flavour);
            assert(type_at(b, strings, p) == known(d));
        },
        Desc::Array { .. } => {
            lemma_nth(b, p, ws, 3);
            lemma_nth(b, p, ws, 5);
            assert(type_at(b, strings, p) == known(d));
        },
        Desc::Struct { name, size, bitfields, slots } => {
            let head = seq![at(name), info_word(slots.len(), 4, bitfields), size];
            lemma_slots(b, strings, at, p, head, bitfields, slots);
            assert(type_at(b, strings, p).members =~= known(d).members);
        },
        Desc::Union { name, size, bitfields, slots } => {
            let head = seq![at(name), info_word(slots.len(), 5, bitfields), size];
            lemma_slots(b, strings, at, p, head, bitfields, slots);
            assert(type_at(b, strings, p).members =~= known(d).members);
        },
        _ => {
            assert(type_at(b, strings, p) == known(d));
        },
    }
}

/// What is known of a list of types afterwards.
pub open spec fn all_known(list: Seq<Desc>) -> Seq<Info> {
    Seq::new(list.len(), |i: int| known(list[i]))
}

proof fn lemma_types_read_back(
    b: Seq<u8>,
    strings: Seq<u8>,
    at: spec_fn(Seq<char>) -> u32,
    list: Seq<Desc>,
    p: int,
    end: int,
    done: Seq<Info>,
)
    requires
        descs_stand(b, strings, at, list, p, end),
    ensures
        p <= end,
        types_from(b, strings, end, p, done) == done + all_known(list),
        readable_from(b, end, p),
    decreases list.len(),
{
    if list.len() == 0 {
        assert(done + all_known(list) =~= done);
    } else {
        let d = list[0];
        let rest = list.drop_first();
        let q = p + 4 * desc_words(at, d).len();
        lemma_type_reads_back(b, strings, at, d, p);
        lemma_first_words(at, d);
        lemma_types_read_back(b, strings, at, rest, q, end, done.push(known(d)));
        assert(done.push(known(d)) + all_known(rest) =~= done + all_known(list));
    }
}

/// Reading undoes writing: a table of types that was written is read as exactly
/// those types, in that order, behind the void type.
pub proof fn lemma_tables_read_back(
    b: Seq<u8>,
    l: Layout,
    strings: Seq<u8>,
    at: spec_fn(Seq<char>) -> u32,
    list: Seq<Desc>,
)
    requires
        table_stands(b, l, strings, at, list),
    ensures
        readable(b),
        kernel_of(b) matches Ok(k) && k.types == seq![void_type()] + all_known(list),
{
    let ws = seq![l.header, l.types, l.types_len, l.strings, l.strings_len];
    lemma_nth(b, 4, ws, 0);
    lemma_nth(b, 4, ws, 1);
    lemma_nth(b, 4, ws, 2);
    lemma_nth(b, 4, ws, 3);
    lemma_nth(b, 4, ws, 4);
    assert(le16(b, 0) == 0xeb9f);
    assert(str_section(b) =~= strings);
    lemma_types_read_back(
        b,
        strings,
        at,
        list,
        type_start(b),
        type_end(b),
        seq![void_type()],
    );
}

/// A struct or a union of a name.
pub open spec fn named_struct(d: Desc, name: Seq<char>) -> bool {
    name.len() > 0 && desc_name(d) == name && (d is Struct || d is Union)
}

/// A name finds the first struct or union of that name that was written, by its
/// place in the list, counted from 1; and no other name finds anything.
pub proof fn lemma_structs_are_found(
    b: Seq<u8>,
    l: Layout,
    strings: Seq<u8>,
    at: spec_fn(Seq<char>) -> u32,
    list: Seq<Desc>,
    name: Seq<char>,
    i: int,
)
    requires
        table_stands(b, l, strings, at, list),
        0 <= i <= list.len(),
        forall|j: int| 0 <= j < i ==> !named_struct(#[trigger] list[j], name),
        i < list.len() ==> named_struct(list[i], name),
    ensures
        kernel_of(b) matches Ok(k) && if i < list.len() {
            k.structs.contains_key(name) && k.structs[name] == i + 1
        } else {
            !k.structs.contains_key(name)
        },
{
    lemma_tables_read_back(b, l, strings, at, list);
    lemma_names_find_the_first_struct(b, name);
    let k = kernel_of(b)->Ok_0;
    assert(!is_struct_named(k.types[0], name));
    assert forall|j: int| 0 <= j < list.len() implies is_struct_named(
        #[trigger] k.types[j + 1],
        name,
    ) == named_struct(list[j], name) by {
        lemma_kinds(b, strings, at, list, j, l.header + l.types, l.header + l.types + l.types_len);
        assert(k.types[j + 1] == known(list[j]));
    }
    if i < list.len() {
        assert(is_struct_named(k.types[i + 1], name));
        if k.structs.contains_key(name) {
            let id = k.structs[name];
            if id > 0 {
                assert(is_struct_named(k.types[(id - 1) + 1], name));
                assert(named_struct(list[id - 1], name));
            }
        }
    } else if k.structs.contains_key(name) {
        let id = k.structs[name];
        if id > 0 {
            assert(is_struct_named(k.types[(id - 1) + 1], name));
        }
    }
}

/// A plain type is no struct.
proof fn lemma_kinds(
    b: Seq<u8>,
    strings: Seq<u8>,
    at: spec_fn(Seq<char>) -> u32,
    list: Seq<Desc>,
    j: int,
    p: int,
    end: int,
)
    requires
        descs_stand(b, strings, at, list, p, end),
        0 <= j < list.len(),
    ensures
        desc_fits(list[j]),
    decreases list.len(),
{
    if j > 0 {
        let rest = list.drop_first();
        lemma_kinds(b, strings, at, rest, j - 1, p + 4 * desc_words(at, list[0]).len(), end);
        assert(rest[j - 1] == list[j]);
    }
}

} // verus!
