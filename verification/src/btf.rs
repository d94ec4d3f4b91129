//! A minimal reader for the kernel's BTF (BPF Type Format).
//!
//! BTF is the type information the kernel ships. honey reads it at compile
//! time to answer two questions about a kernel struct field: does it exist,
//! and where and of what type is it?
//!
//! Only what those questions need is read: the type table, the string table,
//! and struct/union members. Every other kind is skipped over (correctly, so
//! the table stays aligned) but not interpreted.
//!
//! The format: a header, then a type section, then a string section. Each type
//! has a 12-byte common part (`name_off`, `info`, `size_or_type`) followed by
//! kind-specific data. `info` packs `vlen` (low 16 bits), `kind` (bits 24..28),
//! and a `kind_flag` (bit 31). All little-endian.

use crate::text::{hex_padded, owned, push_hex_padded, same, starts, starts_with};
use vstd::hash_map::StringHashMap;
use vstd::prelude::*;
use vstd::slice::slice_subrange;
use vstd::utf8::{decode_utf8, encode_utf8, is_ascii_chars, valid_utf8};

verus! {

/// The first two bytes of every table.
pub const MAGIC: u16 = 0xeb9f;

// Kind numbers.
pub const INT: u32 = 1;

pub const PTR: u32 = 2;

pub const ARRAY: u32 = 3;

pub const STRUCT: u32 = 4;

pub const UNION: u32 = 5;

pub const ENUM: u32 = 6;

pub const TYPEDEF: u32 = 8;

pub const VOLATILE: u32 = 9;

pub const CONST: u32 = 10;

pub const RESTRICT: u32 = 11;

pub const FUNC_PROTO: u32 = 13;

pub const VAR: u32 = 14;

pub const DATASEC: u32 = 15;

pub const DECL_TAG: u32 = 17;

pub const ENUM64: u32 = 19;

/// A parsed type (only the fields honey uses).
#[derive(Debug)]
struct BtfType {
    name: String,
    kind: u32,
    /// For INT/STRUCT/UNION/ENUM: the size in bytes. For PTR/TYPEDEF/CONST/
    /// VOLATILE/RESTRICT: the referenced type id.
    size_or_type: u32,
    /// Signed flag, for INT only.
    int_signed: bool,
    members: Vec<Member>,
    /// For ARRAY: (element type id, element count).
    array: Option<(u32, u32)>,
}

/// A struct/union member, as honey needs it.
#[derive(Debug, PartialEq, Eq)]
pub struct Member {
    pub name: String,
    pub offset_bytes: u32,
    pub type_id: u32,
    /// Bit offset from the start of the struct (little-endian numbering).
    pub bit_offset: u32,
    /// Width in bits for a bitfield member, 0 otherwise.
    pub bit_size: u32,
}

/// A loaded table, indexed by type id (id 0 is the void type).
pub struct Btf {
    types: Vec<BtfType>,
    struct_by_name: StringHashMap<u32>,
}

/// What a field's type resolves to, after stripping typedef/const/volatile.
#[derive(Debug, PartialEq, Eq)]
pub enum Resolved {
    /// An integer of `bytes` width. `big_endian` when the field was declared
    /// through a `__be16`/`__be32`/`__be64` typedef (network byte order).
    Int { bytes: u32, signed: bool, big_endian: bool },
    /// An array of `len` elements of `elem_bytes` each.
    Array { elem_bytes: u32, len: u32 },
    /// An embedded struct/union: its address is `base + offset`, no read.
    /// `name` is empty for an anonymous type; `id` always identifies it.
    Struct { id: u32, name: String },
    /// A pointer to a named struct: read 8 bytes to get that struct's address.
    PtrToStruct { id: u32, name: String },
    /// A pointer to a `char`: read 8 bytes to get a string address.
    PtrToChar,
    /// A pointer to anything else: read 8 bytes to get an address.
    PtrToOther,
    /// Anything honey does not model (enums, function pointers, ...).
    Other,
}

// ------------------------------------------------------------------- models

/// A member of a struct or union.
pub struct Part {
    pub name: Seq<char>,
    pub offset_bytes: u32,
    pub type_id: u32,
    pub bit_offset: u32,
    pub bit_size: u32,
}

/// One entry of the type table.
pub struct Info {
    pub name: Seq<char>,
    pub kind: u32,
    pub size_or_type: u32,
    pub int_signed: bool,
    pub members: Seq<Part>,
    pub array: Option<(u32, u32)>,
}

/// The type table, and the id of each named struct or union.
pub struct Kernel {
    pub types: Seq<Info>,
    pub structs: Map<Seq<char>, u32>,
}

/// What a type resolves to.
pub enum Shape {
    Int { bytes: u32, signed: bool, big_endian: bool },
    Array { elem_bytes: u32, len: u32 },
    Struct { id: u32, name: Seq<char> },
    PtrToStruct { id: u32, name: Seq<char> },
    PtrToChar,
    PtrToOther,
    Other,
}

impl View for Member {
    type V = Part;

    open spec fn view(&self) -> Part {
        Part {
            name: self.name@,
            offset_bytes: self.offset_bytes,
            type_id: self.type_id,
            bit_offset: self.bit_offset,
            bit_size: self.bit_size,
        }
    }
}

/// The models of a list of members.
pub open spec fn parts(v: Seq<Member>) -> Seq<Part> {
    v.map_values(|m: Member| m@)
}

impl View for BtfType {
    type V = Info;

    closed spec fn view(&self) -> Info {
        Info {
            name: self.name@,
            kind: self.kind,
            size_or_type: self.size_or_type,
            int_signed: self.int_signed,
            members: parts(self.members@),
            array: self.array,
        }
    }
}

spec fn infos(v: Seq<BtfType>) -> Seq<Info> {
    v.map_values(|t: BtfType| t@)
}

impl View for Btf {
    type V = Kernel;

    closed spec fn view(&self) -> Kernel {
        Kernel { types: infos(self.types@), structs: self.struct_by_name@ }
    }
}

impl View for Resolved {
    type V = Shape;

    open spec fn view(&self) -> Shape {
        match *self {
            Resolved::Int { bytes, signed, big_endian } => Shape::Int { bytes, signed, big_endian },
            Resolved::Array { elem_bytes, len } => Shape::Array { elem_bytes, len },
            Resolved::Struct { id, name } => Shape::Struct { id, name: name@ },
            Resolved::PtrToStruct { id, name } => Shape::PtrToStruct { id, name: name@ },
            Resolved::PtrToChar => Shape::PtrToChar,
            Resolved::PtrToOther => Shape::PtrToOther,
            Resolved::Other => Shape::Other,
        }
    }
}

impl Clone for Member {
    fn clone(&self) -> (r: Self)
        ensures
            r@ == self@,
    {
        Member {
            name: self.name.clone(),
            offset_bytes: self.offset_bytes,
            type_id: self.type_id,
            bit_offset: self.bit_offset,
            bit_size: self.bit_size,
        }
    }
}

impl Clone for Resolved {
    fn clone(&self) -> (r: Self)
        ensures
            r@ == self@,
    {
        match self {
            Resolved::Int { bytes, signed, big_endian } => Resolved::Int {
                bytes: *bytes,
                signed: *signed,
                big_endian: *big_endian,
            },
            Resolved::Array { elem_bytes, len } => Resolved::Array {
                elem_bytes: *elem_bytes,
                len: *len,
            },
            Resolved::Struct { id, name } => Resolved::Struct { id: *id, name: name.clone() },
            Resolved::PtrToStruct { id, name } => Resolved::PtrToStruct {
                id: *id,
                name: name.clone(),
            },
            Resolved::PtrToChar => Resolved::PtrToChar,
            Resolved::PtrToOther => Resolved::PtrToOther,
            Resolved::Other => Resolved::Other,
        }
    }
}

// ------------------------------------------------------- reading the table

/// What `String::from_utf8_lossy` makes of bytes.
pub uninterp spec fn lossy(b: Seq<u8>) -> Seq<char>;

/// `String::from_utf8_lossy`: valid UTF-8 is decoded. Where the bytes are not
/// valid, what stands for the bad ones is left to std.
#[verifier::external_body]
fn lossy_text(b: &[u8]) -> (r: String)
    ensures
        r@ == lossy(b@),
        valid_utf8(b@) ==> r@ == decode_utf8(b@),
{
    String::from_utf8_lossy(b).into_owned()
}

/// The 16-bit number at `o`.
pub open spec fn le16(b: Seq<u8>, o: int) -> int {
    b[o] + 0x100 * b[o + 1]
}

/// The 32-bit number at `o`.
pub open spec fn le32(b: Seq<u8>, o: int) -> u32 {
    (b[o] + 0x100 * b[o + 1] + 0x1_0000 * b[o + 2] + 0x100_0000 * b[o + 3]) as u32
}

/// Where the type section starts and ends.
pub open spec fn type_start(b: Seq<u8>) -> int {
    le32(b, 4) + le32(b, 8)
}

pub open spec fn type_end(b: Seq<u8>) -> int {
    type_start(b) + le32(b, 12)
}

/// Where the string section starts and ends.
pub open spec fn str_start(b: Seq<u8>) -> int {
    le32(b, 4) + le32(b, 16)
}

pub open spec fn str_end(b: Seq<u8>) -> int {
    str_start(b) + le32(b, 20)
}

/// The string section.
pub open spec fn str_section(b: Seq<u8>) -> Seq<u8> {
    b.subrange(str_start(b), str_end(b))
}

/// The first zero byte at or behind `i`, or the end.
pub open spec fn nul(s: Seq<u8>, i: int) -> int
    decreases s.len() - i,
{
    if i >= s.len() || s[i] == 0 {
        i
    } else {
        nul(s, i + 1)
    }
}

/// What bytes read as: valid UTF-8 is decoded, and what stands for other bytes
/// is left to `String::from_utf8_lossy`.
pub open spec fn read_as(b: Seq<u8>) -> Seq<char> {
    if valid_utf8(b) {
        decode_utf8(b)
    } else {
        lossy(b)
    }
}

/// The name at an offset into the string section; nothing behind its end.
pub open spec fn name_at(strings: Seq<u8>, off: u32) -> Seq<char> {
    if off >= strings.len() {
        Seq::empty()
    } else {
        read_as(strings.subrange(off as int, nul(strings, off as int)))
    }
}

proof fn lemma_nul(strings: Seq<u8>, i: int, end: int)
    requires
        0 <= i <= end < strings.len(),
        strings[end] == 0,
        forall|k: int| i <= k < end ==> #[trigger] strings[k] != 0,
    ensures
        nul(strings, i) == end,
    decreases end - i,
{
    if i < end {
        assert(strings[i] != 0);
        lemma_nul(strings, i + 1, end);
    }
}

/// Text that was written as UTF-8 reads as itself.
pub proof fn lemma_text_reads_as_itself(s: Seq<char>)
    ensures
        read_as(encode_utf8(s)) == s,
{
    vstd::utf8::encode_utf8_valid_utf8(s);
    vstd::utf8::encode_utf8_decode_utf8(s);
}

/// An ASCII name in the string section, with a zero behind it, is found as it is
/// written.
pub proof fn lemma_ascii_names_read_as_themselves(strings: Seq<u8>, off: u32, s: Seq<char>)
    requires
        off + s.len() < strings.len(),
        strings[off + s.len()] == 0,
        is_ascii_chars(s),
        forall|i: int|
            0 <= i < s.len() ==> (#[trigger] s[i]) != '\0' && strings[off + i] == s[i] as u8,
    ensures
        name_at(strings, off) == s,
{
    let end = off + s.len();
    assert forall|k: int| off <= k < end implies #[trigger] strings[k] != 0 by {
        assert(s[k - off] != '\0' && strings[off + (k - off)] == s[k - off] as u8);
    }
    lemma_nul(strings, off as int, end);
    vstd::utf8::is_ascii_chars_encode_utf8(s);
    assert(strings.subrange(off as int, end) =~= encode_utf8(s)) by {
        assert forall|i: int| 0 <= i < s.len() implies #[trigger] strings.subrange(
            off as int,
            end,
        )[i] == encode_utf8(s)[i] by {
            assert(strings[off + i] == s[i] as u8);
        }
    }
    lemma_text_reads_as_itself(s);
}

pub open spec fn vlen_of(info: u32) -> int {
    info as int % 0x1_0000
}

pub open spec fn kind_of(info: u32) -> u32 {
    (info / 0x100_0000 % 32) as u32
}

pub open spec fn has_kind_flag(info: u32) -> bool {
    info >= 0x8000_0000
}

/// How many bytes stand behind the common part of a type.
pub open spec fn payload(info: u32) -> int {
    let kind = kind_of(info);
    if kind == INT || kind == VAR || kind == DECL_TAG {
        4
    } else if kind == ARRAY {
        12
    } else if kind == STRUCT || kind == UNION || kind == ENUM64 || kind == DATASEC {
        12 * vlen_of(info)
    } else if kind == ENUM || kind == FUNC_PROTO {
        8 * vlen_of(info)
    } else {
        0
    }
}

/// Whether the bytes behind the common part are read, not only skipped.
pub open spec fn payload_is_read(info: u32) -> bool {
    let kind = kind_of(info);
    kind == INT || kind == STRUCT || kind == UNION || kind == ARRAY
}

/// The member at `o`. With the kind flag, a bitfield's width is packed above
/// its bit offset.
pub open spec fn member_at(b: Seq<u8>, strings: Seq<u8>, o: int, flag: bool) -> Part {
    let off = le32(b, o + 8);
    let bit_offset = if flag {
        (off % 0x100_0000) as u32
    } else {
        off
    };
    Part {
        name: name_at(strings, le32(b, o)),
        offset_bytes: (bit_offset / 8) as u32,
        type_id: le32(b, o + 4),
        bit_offset,
        bit_size: if flag {
            (off / 0x100_0000) as u32
        } else {
            0
        },
    }
}

/// The type at `p`.
pub open spec fn type_at(b: Seq<u8>, strings: Seq<u8>, p: int) -> Info {
    let info = le32(b, p + 4);
    let kind = kind_of(info);
    Info {
        name: name_at(strings, le32(b, p)),
        kind,
        size_or_type: le32(b, p + 8),
        int_signed: kind == INT && le32(b, p + 12) / 0x100_0000 % 2 == 1,
        members: if kind == STRUCT || kind == UNION {
            Seq::new(
                vlen_of(info) as nat,
                |i: int| member_at(b, strings, p + 12 + 12 * i, has_kind_flag(info)),
            )
        } else {
            Seq::empty()
        },
        array: if kind == ARRAY {
            Some((le32(b, p + 12), le32(b, p + 20)))
        } else {
            None
        },
    }
}

/// The types from `p` to `end`, behind those read so far.
pub open spec fn types_from(
    b: Seq<u8>,
    strings: Seq<u8>,
    end: int,
    p: int,
    done: Seq<Info>,
) -> Seq<Info>
    decreases (if p <= end { end - p + 1 } else { 0 }),
{
    if p + 12 <= end {
        types_from(
            b,
            strings,
            end,
            p + 12 + payload(le32(b, p + 4)),
            done.push(type_at(b, strings, p)),
        )
    } else {
        done
    }
}

/// Every type from `p` to `end` lies inside the bytes, as far as it is read.
pub open spec fn readable_from(b: Seq<u8>, end: int, p: int) -> bool
    decreases (if p <= end { end - p + 1 } else { 0 }),
{
    if p + 12 <= end {
        let info = le32(b, p + 4);
        &&& payload_is_read(info) ==> p + 12 + payload(info) <= b.len()
        &&& readable_from(b, end, p + 12 + payload(info))
    } else {
        true
    }
}

/// The header names a table that is here.
pub open spec fn has_sections(b: Seq<u8>) -> bool {
    &&& b.len() >= 24
    &&& le16(b, 0) == MAGIC
    &&& type_end(b) <= b.len()
    &&& str_end(b) <= b.len()
}

/// Where the header names a table, every type in it lies inside the bytes.
pub open spec fn readable(b: Seq<u8>) -> bool {
    has_sections(b) ==> readable_from(b, type_end(b), type_start(b))
}

/// Type id 0 is the void type.
pub open spec fn void_type() -> Info {
    Info {
        name: Seq::empty(),
        kind: 0,
        size_or_type: 0,
        int_signed: false,
        members: Seq::empty(),
        array: None,
    }
}

/// The ids of the named structs and unions among the first `n` types. Of two
/// with one name, the first counts.
pub open spec fn structs_of(types: Seq<Info>, n: int) -> Map<Seq<char>, u32>
    decreases n,
{
    if n <= 0 {
        Map::empty()
    } else {
        let before = structs_of(types, n - 1);
        let t = types[n - 1];
        if (t.kind == STRUCT || t.kind == UNION) && t.name.len() > 0 && !before.contains_key(
            t.name,
        ) {
            before.insert(t.name, (n - 1) as u32)
        } else {
            before
        }
    }
}

/// The table that the bytes hold, or why they hold none.
pub open spec fn kernel_of(b: Seq<u8>) -> Result<Kernel, Seq<char>> {
    if b.len() < 24 {
        Err("BTF too short"@)
    } else if le16(b, 0) != MAGIC {
        Err("bad BTF magic 0x"@ + hex_padded(le16(b, 0) as nat, 4))
    } else if type_end(b) > b.len() || str_end(b) > b.len() {
        Err("BTF sections out of bounds"@)
    } else {
        let types = types_from(
            b,
            str_section(b),
            type_end(b),
            type_start(b),
            seq![void_type()],
        );
        Ok(Kernel { types, structs: structs_of(types, types.len() as int) })
    }
}

/// A struct or a union of the given name.
pub open spec fn is_struct_named(t: Info, name: Seq<char>) -> bool {
    (t.kind == STRUCT || t.kind == UNION) && t.name.len() > 0 && t.name == name
}

/// The id of a name is that of the first struct or union that has it.
pub open spec fn first_of_name(types: Seq<Info>, name: Seq<char>, id: u32) -> bool {
    &&& id < types.len()
    &&& is_struct_named(types[id as int], name)
    &&& forall|j: int| 0 <= j < id ==> !is_struct_named(#[trigger] types[j], name)
}

proof fn lemma_structs_of(types: Seq<Info>, n: int, name: Seq<char>)
    requires
        0 <= n <= types.len() <= u32::MAX,
    ensures
        structs_of(types, n).contains_key(name) ==> structs_of(types, n)[name] < n
            && first_of_name(types, name, structs_of(types, n)[name]),
        !structs_of(types, n).contains_key(name) ==> forall|j: int|
            0 <= j < n ==> !is_struct_named(#[trigger] types[j], name),
    decreases n,
{
    if n > 0 {
        lemma_structs_of(types, n - 1, name);
    }
}

proof fn lemma_types_from(b: Seq<u8>, strings: Seq<u8>, end: int, p: int, done: Seq<Info>)
    requires
        p <= end,
    ensures
        types_from(b, strings, end, p, done).len() <= done.len() + (end - p) / 12,
    decreases end - p,
{
    assert((end - p) / 12 >= 0);
    if p + 12 <= end {
        let next = p + 12 + payload(le32(b, p + 4));
        let more = done.push(type_at(b, strings, p));
        assert(next >= p + 12);
        assert((end - p) / 12 >= 1);
        if next <= end {
            lemma_types_from(b, strings, end, next, more);
            assert((end - next) / 12 + 1 <= (end - p) / 12);
        } else {
            assert(types_from(b, strings, end, next, more) == more);
        }
    }
}

/// A name finds the first struct or union of that name, and nothing where
/// there is none.
pub proof fn lemma_names_find_the_first_struct(b: Seq<u8>, name: Seq<char>)
    requires
        kernel_of(b) is Ok,
    ensures
        ({
            let k = kernel_of(b)->Ok_0;
            &&& k.structs.contains_key(name) ==> first_of_name(k.types, name, k.structs[name])
            &&& !k.structs.contains_key(name) ==> forall|j: int|
                0 <= j < k.types.len() ==> !is_struct_named(#[trigger] k.types[j], name)
        }),
{
    let k = kernel_of(b)->Ok_0;
    lemma_types_from(b, str_section(b), type_end(b), type_start(b), seq![void_type()]);
    lemma_structs_of(k.types, k.types.len() as int, name);
}

fn read16(b: &[u8], o: usize) -> (r: u32)
    requires
        o + 2 <= b.len(),
    ensures
        r == le16(b@, o as int),
{
    b[o] as u32 + 0x100 * b[o + 1] as u32
}

fn read32(b: &[u8], o: usize) -> (r: u32)
    requires
        o + 4 <= b.len(),
    ensures
        r == le32(b@, o as int),
{
    b[o] as u32 + 0x100 * b[o + 1] as u32 + 0x1_0000 * b[o + 2] as u32 + 0x100_0000
        * b[o + 3] as u32
}

fn read_name(strings: &[u8], off: u32) -> (r: String)
    ensures
        r@ == name_at(strings@, off),
{
    if off as u64 >= strings.len() as u64 {
        return String::new();
    }
    let from: usize = off as usize;
    let mut to: usize = from;
    while to < strings.len() && strings[to] != 0
        invariant
            from <= to <= strings@.len(),
            nul(strings@, to as int) == nul(strings@, from as int),
        decreases strings@.len() - to,
    {
        to += 1;
    }
    lossy_text(slice_subrange(strings, from, to))
}

fn read_member(b: &[u8], strings: &[u8], o: usize, flag: bool) -> (r: Member)
    requires
        o + 12 <= b.len(),
    ensures
        r@ == member_at(b@, strings@, o as int, flag),
{
    let off: u32 = read32(b, o + 8);
    let bit_offset: u32 = if flag {
        off % 0x100_0000
    } else {
        off
    };
    let bit_size: u32 = if flag {
        off / 0x100_0000
    } else {
        0
    };
    Member {
        name: read_name(strings, read32(b, o)),
        offset_bytes: bit_offset / 8,
        type_id: read32(b, o + 4),
        bit_offset,
        bit_size,
    }
}

fn read_members(b: &[u8], strings: &[u8], p: usize, n: usize, flag: bool) -> (r: Vec<Member>)
    requires
        p + 12 * n <= b.len(),
    ensures
        parts(r@) == Seq::new(
            n as nat,
            |i: int| member_at(b@, strings@, p + 12 * i, flag),
        ),
{
    let mut list: Vec<Member> = Vec::new();
    let mut i: usize = 0;
    while i < n
        invariant
            0 <= i <= n,
            p + 12 * n <= b.len(),
            list@.len() == i,
            forall|k: int|
                0 <= k < i ==> #[trigger] parts(list@)[k] == member_at(
                    b@,
                    strings@,
                    p + 12 * k,
                    flag,
                ),
        decreases n - i,
    {
        let ghost before = list@;
        assert(12 * i + 12 <= 12 * n);
        let m = read_member(b, strings, p + 12 * i, flag);
        list.push(m);
        assert forall|k: int| 0 <= k < i + 1 implies #[trigger] parts(list@)[k] == member_at(
            b@,
            strings@,
            p + 12 * k,
            flag,
        ) by {
            if k < i {
                assert(parts(list@)[k] == parts(before)[k]);
            }
        }
        i += 1;
    }
    assert(parts(list@) =~= Seq::new(
        n as nat,
        |i: int| member_at(b@, strings@, p + 12 * i, flag),
    ));
    list
}

fn payload_of(info: u32) -> (r: usize)
    ensures
        r == payload(info),
        r <= 0x10_0000,
{
    let kind: u32 = info / 0x100_0000 % 32;
    let vlen: usize = (info % 0x1_0000) as usize;
    if kind == INT || kind == VAR || kind == DECL_TAG {
        4
    } else if kind == ARRAY {
        12
    } else if kind == STRUCT || kind == UNION || kind == ENUM64 || kind == DATASEC {
        12 * vlen
    } else if kind == ENUM || kind == FUNC_PROTO {
        8 * vlen
    } else {
        0
    }
}

fn read_type(b: &[u8], strings: &[u8], p: usize) -> (r: BtfType)
    requires
        p + 12 <= b.len(),
        payload_is_read(le32(b@, p + 4)) ==> p + 12 + payload(le32(b@, p + 4)) <= b.len(),
    ensures
        r@ == type_at(b@, strings@, p as int),
{
    let info: u32 = read32(b, p + 4);
    let kind: u32 = info / 0x100_0000 % 32;
    let vlen: usize = (info % 0x1_0000) as usize;
    let name = read_name(strings, read32(b, p));
    let size_or_type: u32 = read32(b, p + 8);
    let mut int_signed = false;
    let mut members: Vec<Member> = Vec::new();
    let mut array: Option<(u32, u32)> = None;
    if kind == INT {
        // Bits 24..28 hold the encoding; bit 0 of it means signed.
        int_signed = read32(b, p + 12) / 0x100_0000 % 2 == 1;
    } else if kind == STRUCT || kind == UNION {
        members = read_members(b, strings, p + 12, vlen, info >= 0x8000_0000);
    } else if kind == ARRAY {
        array = Some((read32(b, p + 12), read32(b, p + 20)));
    }
    let t = BtfType { name, kind, size_or_type, int_signed, members, array };
    assert(t@.members =~= type_at(b@, strings@, p as int).members);
    t
}

/// The bounds of the two sections, if they are inside the bytes.
fn sections(b: &[u8]) -> (r: Option<(usize, usize, usize, usize)>)
    requires
        b@.len() >= 24,
    ensures
        match r {
            Some((ts, te, ss, se)) => {
                &&& ts == type_start(b@)
                &&& te == type_end(b@)
                &&& ss == str_start(b@)
                &&& se == str_end(b@)
                &&& ts <= te <= b@.len()
                &&& ss <= se <= b@.len()
            },
            None => type_end(b@) > b@.len() || str_end(b@) > b@.len(),
        },
{
    let header: u64 = read32(b, 4) as u64;
    let ts: u64 = header + read32(b, 8) as u64;
    let te: u64 = ts + read32(b, 12) as u64;
    let ss: u64 = header + read32(b, 16) as u64;
    let se: u64 = ss + read32(b, 20) as u64;
    if te > b.len() as u64 || se > b.len() as u64 {
        return None;
    }
    Some((ts as usize, te as usize, ss as usize, se as usize))
}

/// Whether [`Btf::parse`] can read the bytes: every type that the header
/// claims lies inside them.
pub fn is_readable(b: &[u8]) -> (r: bool)
    ensures
        r == readable(b@),
{
    if b.len() < 24 || read16(b, 0) != MAGIC as u32 {
        return true;
    }
    match sections(b) {
        None => true,
        Some((ts, te, _, _)) => {
            let mut p: usize = ts;
            while p <= te && te - p >= 12
                invariant
                    te <= b@.len(),
                    has_sections(b@),
                    te == type_end(b@),
                    readable(b@) == readable_from(b@, te as int, p as int),
                decreases te + 0x20_0000 - p,
            {
                let info: u32 = read32(b, p + 4);
                let n: usize = payload_of(info);
                let kind: u32 = info / 0x100_0000 % 32;
                let read = kind == INT || kind == STRUCT || kind == UNION || kind == ARRAY;
                let left: usize = b.len() - p - 12;
                if n > left {
                    assert(readable_from(b@, te as int, p + 12 + n));
                    return !read;
                }
                p = p + 12 + n;
            }
            true
        },
    }
}

impl Member {
    pub fn bitfield(&self) -> (r: bool)
        ensures
            r == (self.bit_size > 0),
    {
        self.bit_size > 0
    }
}

impl Btf {
    pub fn parse(b: &[u8]) -> (r: Result<Btf, String>)
        requires
            readable(b@),
        ensures
            match (r, kernel_of(b@)) {
                (Ok(btf), Ok(k)) => btf@ == k,
                (Err(e), Err(message)) => e@ == message,
                _ => false,
            },
    {
        if b.len() < 24 {
            return Err(owned("BTF too short"));
        }
        let magic: u32 = read16(b, 0);
        if magic != MAGIC as u32 {
            let mut e = owned("bad BTF magic 0x");
            push_hex_padded(&mut e, magic as u64, 4);
            return Err(e);
        }
        match sections(b) {
            None => Err(owned("BTF sections out of bounds")),
            Some((ts, te, ss, se)) => {
                let strings = slice_subrange(b, ss, se);
                Ok(Btf::read_table(b, strings, ts, te))
            },
        }
    }

    /// Read every type between two positions.
    fn read_table(b: &[u8], strings: &[u8], from: usize, end: usize) -> (r: Btf)
        requires
            from <= end <= b@.len(),
            readable_from(b@, end as int, from as int),
        ensures
            ({
                let types = types_from(
                    b@,
                    strings@,
                    end as int,
                    from as int,
                    seq![void_type()],
                );
                r@ == (Kernel { types, structs: structs_of(types, types.len() as int) })
            }),
    {
        // Type id 0 is the implicit void type.
        let mut types: Vec<BtfType> = Vec::new();
        let void = BtfType {
            name: String::new(),
            kind: 0,
            size_or_type: 0,
            int_signed: false,
            members: Vec::new(),
            array: None,
        };
        assert(void@.members =~= Seq::empty());
        types.push(void);
        assert(infos(types@) =~= seq![void_type()]);
        let mut struct_by_name: StringHashMap<u32> = StringHashMap::new();
        proof {
            reveal_with_fuel(structs_of, 2);
        }
        let ghost first = seq![void_type()];
        let mut p: usize = from;
        let mut more = true;
        while more && p <= end && end - p >= 12
            invariant
                end <= b@.len(),
                more ==> readable_from(b@, end as int, p as int),
                struct_by_name@ == structs_of(infos(types@), types@.len() as int),
                more ==> types_from(b@, strings@, end as int, from as int, first) == types_from(
                    b@,
                    strings@,
                    end as int,
                    p as int,
                    infos(types@),
                ),
                !more ==> types_from(b@, strings@, end as int, from as int, first) == infos(
                    types@,
                ),
            decreases end + 0x20_0000 - p, if more { 1int } else { 0int },
        {
            let info: u32 = read32(b, p + 4);
            let n: usize = payload_of(info);
            let t = read_type(b, strings, p);
            let ghost before = infos(types@);
            let id: u32 = types.len() as u32;
            if (t.kind == STRUCT || t.kind == UNION) && !same(&t.name, "") {
                if !struct_by_name.contains_key(&t.name) {
                    struct_by_name.insert(t.name.clone(), id);
                }
            }
            let ghost named = t.name@;
            types.push(t);
            proof {
                reveal_strlit("");
                assert(infos(types@) =~= before.push(t@));
                lemma_structs_of_prefix(before, infos(types@), before.len() as int);
                if named.len() == 0 {
                    assert(named =~= ""@);
                }
            }
            let left: usize = b.len() - p - 12;
            if n > left {
                assert(types_from(b@, strings@, end as int, p + 12 + n, infos(types@)) == infos(
                    types@,
                ));
                more = false;
            } else {
                p = p + 12 + n;
            }
        }
        let btf = Btf { types, struct_by_name };
        btf
    }

    /// The type id of a struct by name, if present.
    pub fn struct_id(&self, name: &str) -> (r: Option<u32>)
        ensures
            r == id_of(self@, name@),
    {
        match self.struct_by_name.get(name) {
            Some(id) => Some(*id),
            None => None,
        }
    }

    pub fn is_struct(&self, name: &str) -> (r: bool)
        ensures
            r == self@.structs.contains_key(name@),
    {
        self.struct_by_name.contains_key(name)
    }

    fn get(&self, id: u32) -> (r: Option<&BtfType>)
        ensures
            match r {
                Some(t) => info_of(self@, id) == Some(t@),
                None => info_of(self@, id) is None,
            },
    {
        if (id as u64) < self.types.len() as u64 {
            let i: usize = id as usize;
            assert(self@.types[i as int] == self.types@[i as int]@);
            Some(&self.types[i])
        } else {
            None
        }
    }

    /// The members of a struct named `name`.
    pub fn members(&self, name: &str) -> (r: Option<Vec<Member>>)
        ensures
            match r {
                Some(v) => members_of(self@, name@) == Some(parts(v@)),
                None => members_of(self@, name@) is None,
            },
    {
        let id: u32 = self.struct_id(name)?;
        let t = self.get(id)?;
        let mut list: Vec<Member> = Vec::new();
        let mut i: usize = 0;
        while i < t.members.len()
            invariant
                0 <= i <= t.members@.len(),
                parts(list@) == parts(t.members@).take(i as int),
            decreases t.members@.len() - i,
        {
            let m = t.members[i].clone();
            let ghost before = parts(list@);
            list.push(m);
            assert(parts(list@) =~= before.push(m@));
            assert(before.push(m@) =~= parts(t.members@).take(i + 1));
            i += 1;
        }
        assert(parts(t.members@).take(i as int) =~= parts(t.members@));
        Some(list)
    }

    /// Find a member by name in a struct, looking through anonymous
    /// struct/union members. The returned offset is relative to the outer
    /// struct.
    pub fn member(&self, struct_name: &str, field: &str) -> (r: Option<Member>)
        requires
            member_named(self@, struct_name@, field@) is Some,
        ensures
            opt_part(r) == member_named(self@, struct_name@, field@)->0,
    {
        match self.find_member(struct_name, field) {
            Some(r) => r,
            None => None,
        }
    }

    /// [`Btf::member`], or nothing where the search has no answer: where it
    /// would go round in a circle, or an offset does not fit in 32 bits.
    pub fn find_member(&self, struct_name: &str, field: &str) -> (r: Option<Option<Member>>)
        ensures
            match r {
                Some(m) => member_named(self@, struct_name@, field@) == Some(opt_part(m)),
                None => member_named(self@, struct_name@, field@) is None,
            },
    {
        match self.struct_id(struct_name) {
            Some(id) => self.find_member_of(id, field),
            None => Some(None),
        }
    }

    /// `member`, by type id: the way to reach fields of anonymous
    /// structs/unions, which have no name to look up.
    pub fn member_of(&self, type_id: u32, field: &str) -> (r: Option<Member>)
        requires
            member_under(self@, type_id, field@) is Some,
        ensures
            opt_part(r) == member_under(self@, type_id, field@)->0,
    {
        match self.find_member_of(type_id, field) {
            Some(r) => r,
            None => None,
        }
    }

    /// [`Btf::member_of`], or nothing where the search has no answer.
    pub fn find_member_of(&self, type_id: u32, field: &str) -> (r: Option<Option<Member>>)
        ensures
            match r {
                Some(m) => member_under(self@, type_id, field@) == Some(opt_part(m)),
                None => member_under(self@, type_id, field@) is None,
            },
    {
        assert(self@.types.len() == self.types@.len());
        self.member_in(type_id, field, 0, self.types.len())
    }

    /// Size in bytes of a struct/union by id (through typedefs).
    pub fn type_size(&self, type_id: u32) -> (r: Option<u32>)
        ensures
            r == size_of_type(self@, type_id),
    {
        let (_, t) = self.strip_id(type_id)?;
        if t.kind == STRUCT || t.kind == UNION {
            Some(t.size_or_type)
        } else {
            None
        }
    }

    /// The name of a struct/union by id: `Some("")` when it is anonymous.
    pub fn struct_name(&self, type_id: u32) -> (r: Option<String>)
        ensures
            match r {
                Some(s) => name_of_type(self@, type_id) == Some(s@),
                None => name_of_type(self@, type_id) is None,
            },
    {
        let (_, t) = self.strip_id(type_id)?;
        if t.kind == STRUCT || t.kind == UNION {
            Some(t.name.clone())
        } else {
            None
        }
    }

    fn member_in(&self, type_id: u32, field: &str, base: u32, fuel: usize) -> (r: Option<
        Option<Member>,
    >)
        ensures
            match r {
                Some(m) => member_in(self@, type_id, field@, base, fuel as nat) == Some(
                    opt_part(m),
                ),
                None => member_in(self@, type_id, field@, base, fuel as nat) is None,
            },
        decreases fuel, 1int, 0int,
    {
        if fuel == 0 {
            return None;
        }
        let (_, t) = match self.strip_id(type_id) {
            Some(found) => found,
            None => {
                return Some(None);
            },
        };
        if t.kind != STRUCT && t.kind != UNION {
            return Some(None);
        }
        let ghost list = parts(t.members@);
        let mut i: usize = 0;
        while i < t.members.len()
            invariant
                0 <= i <= t.members@.len(),
                list == parts(t.members@),
                first_named(list, field@, 0) == first_named(list, field@, i as int),
                fuel > 0,
                stripped(self@, type_id) matches Some(id) && self@.types[id as int] == t@,
                t.kind == STRUCT || t.kind == UNION,
            decreases t.members@.len() - i,
        {
            let m = &t.members[i];
            assert(list[i as int] == m@);
            if same(&m.name, field) {
                let offset: u64 = base as u64 + m.offset_bytes as u64;
                let bits: u64 = base as u64 * 8 + m.bit_offset as u64;
                if offset > u32::MAX as u64 || bits > u32::MAX as u64 {
                    return None;
                }
                let found = Member {
                    name: m.name.clone(),
                    offset_bytes: offset as u32,
                    type_id: m.type_id,
                    bit_offset: bits as u32,
                    bit_size: m.bit_size,
                };
                return Some(Some(found));
            }
            i += 1;
        }
        self.member_in_anonymous(&t.members, 0, field, base, fuel - 1)
    }

    /// Look through the anonymous members from `i` on.
    fn member_in_anonymous(
        &self,
        members: &Vec<Member>,
        i: usize,
        field: &str,
        base: u32,
        fuel: usize,
    ) -> (r: Option<Option<Member>>)
        requires
            i <= members@.len(),
        ensures
            match r {
                Some(m) => member_in_anonymous(
                    self@,
                    parts(members@),
                    i as int,
                    field@,
                    base,
                    fuel as nat,
                ) == Some(opt_part(m)),
                None => member_in_anonymous(
                    self@,
                    parts(members@),
                    i as int,
                    field@,
                    base,
                    fuel as nat,
                ) is None,
            },
        decreases fuel, 2int, members@.len() - i,
    {
        if i >= members.len() {
            return Some(None);
        }
        let m = &members[i];
        assert(parts(members@)[i as int] == m@);
        proof {
            reveal_strlit("");
            if m.name@.len() == 0 {
                assert(m.name@ =~= ""@);
            }
        }
        if same(&m.name, "") {
            let offset: u64 = base as u64 + m.offset_bytes as u64;
            if offset > u32::MAX as u64 {
                return None;
            }
            match self.member_in(m.type_id, field, offset as u32, fuel) {
                None => {
                    return None;
                },
                Some(Some(found)) => {
                    return Some(Some(found));
                },
                Some(None) => {},
            }
        }
        self.member_in_anonymous(members, i + 1, field, base, fuel)
    }

    /// Size in bytes of a named struct.
    pub fn struct_size(&self, name: &str) -> (r: Option<u32>)
        ensures
            r == (match id_of(self@, name@) {
                Some(id) => match info_of(self@, id) {
                    Some(t) => Some(t.size_or_type),
                    None => None,
                },
                None => None,
            }),
    {
        let id: u32 = self.struct_id(name)?;
        let t = self.get(id)?;
        Some(t.size_or_type)
    }

    /// Follow typedef/const/volatile/restrict until a concrete type; gives its
    /// id too.
    fn strip_id(&self, type_id: u32) -> (r: Option<(u32, &BtfType)>)
        ensures
            match r {
                Some((id, t)) => {
                    &&& stripped(self@, type_id) == Some(id)
                    &&& info_of(self@, id) == Some(t@)
                },
                None => stripped(self@, type_id) is None,
            },
    {
        let mut id: u32 = type_id;
        let mut n: u32 = 32;
        while n > 0
            invariant
                n <= 32,
                strip(self@, type_id, 32) == strip(self@, id, n as nat),
            decreases n,
        {
            let t = match self.get(id) {
                Some(t) => t,
                None => {
                    return None;
                },
            };
            if t.kind == TYPEDEF || t.kind == CONST || t.kind == VOLATILE || t.kind == RESTRICT {
                id = t.size_or_type;
            } else {
                return Some((id, t));
            }
            n -= 1;
        }
        None
    }

    /// Does the typedef chain name a big-endian type (`__be16`, `__be32`, ...)?
    fn is_big_endian(&self, type_id: u32) -> (r: bool)
        ensures
            r == big_endian(self@, type_id, 32),
    {
        let mut id: u32 = type_id;
        let mut n: u32 = 32;
        while n > 0
            invariant
                n <= 32,
                big_endian(self@, type_id, 32) == big_endian(self@, id, n as nat),
            decreases n,
        {
            let t = match self.get(id) {
                Some(t) => t,
                None => {
                    return false;
                },
            };
            if t.kind == TYPEDEF {
                if names_wire_order(&t.name) {
                    return true;
                }
                id = t.size_or_type;
            } else if t.kind == CONST || t.kind == VOLATILE || t.kind == RESTRICT {
                id = t.size_or_type;
            } else {
                return false;
            }
            n -= 1;
        }
        false
    }

    /// Resolve a member's type id into honey's field model.
    pub fn resolve(&self, type_id: u32) -> (r: Resolved)
        ensures
            r@ == shape_of(self@, type_id),
    {
        let big_endian = self.is_big_endian(type_id);
        match self.strip_id(type_id) {
            None => Resolved::Other,
            Some((id, t)) => {
                if t.kind == INT {
                    let bytes: u32 = if t.size_or_type < 8 {
                        t.size_or_type
                    } else {
                        8
                    };
                    Resolved::Int { bytes, signed: t.int_signed, big_endian }
                } else if t.kind == ARRAY {
                    self.resolve_array(t)
                } else if t.kind == STRUCT || t.kind == UNION {
                    Resolved::Struct { id, name: t.name.clone() }
                } else if t.kind == PTR {
                    self.resolve_pointer(t.size_or_type)
                } else {
                    Resolved::Other
                }
            },
        }
    }

    fn resolve_array(&self, t: &BtfType) -> (r: Resolved)
        ensures
            r@ == array_shape(self@, t@),
    {
        match t.array {
            None => Resolved::Other,
            Some((elem, len)) => match self.strip_id(elem) {
                None => Resolved::Other,
                Some((_, e)) => {
                    if e.kind == INT {
                        Resolved::Array { elem_bytes: e.size_or_type, len }
                    } else {
                        Resolved::Other
                    }
                },
            },
        }
    }

    fn resolve_pointer(&self, pointee: u32) -> (r: Resolved)
        ensures
            r@ == pointer_shape(self@, pointee),
    {
        match self.strip_id(pointee) {
            None => Resolved::PtrToOther,
            Some((id, t)) => {
                proof {
                    reveal_strlit("");
                    if t.name@.len() == 0 {
                        assert(t.name@ =~= ""@);
                    }
                }
                if (t.kind == STRUCT || t.kind == UNION) && !same(&t.name, "") {
                    Resolved::PtrToStruct { id, name: t.name.clone() }
                } else if t.kind == INT && t.size_or_type == 1 {
                    Resolved::PtrToChar
                } else {
                    Resolved::PtrToOther
                }
            },
        }
    }
}

proof fn lemma_structs_of_prefix(a: Seq<Info>, b: Seq<Info>, n: int)
    requires
        0 <= n <= a.len() <= b.len(),
        forall|i: int| 0 <= i < a.len() ==> a[i] == b[i],
    ensures
        structs_of(a, n) == structs_of(b, n),
    decreases n,
{
    if n > 0 {
        lemma_structs_of_prefix(a, b, n - 1);
    }
}

// ------------------------------------------------------ answering questions

/// The id of a named struct or union.
pub open spec fn id_of(k: Kernel, name: Seq<char>) -> Option<u32> {
    if k.structs.contains_key(name) {
        Some(k.structs[name])
    } else {
        None
    }
}

/// The type of an id.
pub open spec fn info_of(k: Kernel, id: u32) -> Option<Info> {
    if id < k.types.len() {
        Some(k.types[id as int])
    } else {
        None
    }
}

pub open spec fn members_of(k: Kernel, name: Seq<char>) -> Option<Seq<Part>> {
    match id_of(k, name) {
        Some(id) => match info_of(k, id) {
            Some(t) => Some(t.members),
            None => None,
        },
        None => None,
    }
}

/// An optional member.
pub open spec fn opt_part(m: Option<Member>) -> Option<Part> {
    match m {
        Some(m) => Some(m@),
        None => None,
    }
}

/// Follow typedef/const/volatile/restrict, over at most `n` types.
pub open spec fn strip(k: Kernel, id: u32, n: nat) -> Option<u32>
    decreases n,
{
    if n == 0 || info_of(k, id) is None {
        None
    } else {
        let t = info_of(k, id)->0;
        if t.kind == TYPEDEF || t.kind == CONST || t.kind == VOLATILE || t.kind == RESTRICT {
            strip(k, t.size_or_type, (n - 1) as nat)
        } else {
            Some(id)
        }
    }
}

/// The concrete type behind an id.
pub open spec fn stripped(k: Kernel, id: u32) -> Option<u32> {
    strip(k, id, 32)
}

/// The first member of the given name from `i` on.
pub open spec fn first_named(list: Seq<Part>, name: Seq<char>, i: int) -> Option<Part>
    decreases list.len() - i,
{
    if i < 0 || i >= list.len() {
        None
    } else if list[i].name == name {
        Some(list[i])
    } else {
        first_named(list, name, i + 1)
    }
}

/// A member moved by `base` bytes; nothing where it does not fit.
pub open spec fn moved(m: Part, base: u32) -> Option<Option<Part>> {
    if base + m.offset_bytes > u32::MAX || base * 8 + m.bit_offset > u32::MAX {
        None
    } else {
        Some(
            Some(
                Part {
                    offset_bytes: (base + m.offset_bytes) as u32,
                    bit_offset: (base * 8 + m.bit_offset) as u32,
                    ..m
                },
            ),
        )
    }
}

/// The member of the given name in a type that starts at `base`, through at
/// most `fuel` nested types: its own members first, then those of each
/// anonymous member. Nothing where the search has no answer.
pub open spec fn member_in(
    k: Kernel,
    type_id: u32,
    field: Seq<char>,
    base: u32,
    fuel: nat,
) -> Option<Option<Part>>
    decreases fuel, 1int, 0int,
{
    if fuel == 0 {
        None
    } else {
        match stripped(k, type_id) {
            None => Some(None),
            Some(id) => {
                let t = k.types[id as int];
                if t.kind != STRUCT && t.kind != UNION {
                    Some(None)
                } else {
                    match first_named(t.members, field, 0) {
                        Some(m) => moved(m, base),
                        None => member_in_anonymous(
                            k,
                            t.members,
                            0,
                            field,
                            base,
                            (fuel - 1) as nat,
                        ),
                    }
                }
            },
        }
    }
}

/// The member of the given name in the anonymous members from `i` on.
pub open spec fn member_in_anonymous(
    k: Kernel,
    members: Seq<Part>,
    i: int,
    field: Seq<char>,
    base: u32,
    fuel: nat,
) -> Option<Option<Part>>
    decreases fuel, 2int, members.len() - i,
{
    if i < 0 || i >= members.len() {
        Some(None)
    } else {
        let m = members[i];
        if m.name.len() > 0 {
            member_in_anonymous(k, members, i + 1, field, base, fuel)
        } else if base + m.offset_bytes > u32::MAX {
            None
        } else {
            match member_in(k, m.type_id, field, (base + m.offset_bytes) as u32, fuel) {
                None => None,
                Some(Some(found)) => Some(Some(found)),
                Some(None) => member_in_anonymous(k, members, i + 1, field, base, fuel),
            }
        }
    }
}

/// The member of the given name in the type of an id. A search that passes
/// more types than there are goes round in a circle.
pub open spec fn member_under(k: Kernel, type_id: u32, field: Seq<char>) -> Option<Option<Part>> {
    member_in(k, type_id, field, 0, k.types.len())
}

/// The member of the given name in a named struct.
pub open spec fn member_named(k: Kernel, name: Seq<char>, field: Seq<char>) -> Option<
    Option<Part>,
> {
    match id_of(k, name) {
        Some(id) => member_under(k, id, field),
        None => Some(None),
    }
}

/// A member further inside by so many bytes.
pub open spec fn shifted(m: Part, by: int) -> Part {
    Part {
        offset_bytes: (m.offset_bytes + by) as u32,
        bit_offset: (m.bit_offset + 8 * by) as u32,
        ..m
    }
}

/// An answer from a start that lies `by` bytes further on.
spec fn further(far: Option<Option<Part>>, near: Option<Option<Part>>, by: int) -> bool {
    far matches Some(r) ==> near is Some && match r {
        Some(f) => near->0 matches Some(m) && f == shifted(m, by) && m.offset_bytes + by
            <= u32::MAX && m.bit_offset + 8 * by <= u32::MAX,
        None => near->0 is None,
    }
}

/// More fuel changes no answer.
proof fn lemma_fuel(k: Kernel, id: u32, field: Seq<char>, base: u32, less: nat, more: nat)
    requires
        less <= more,
    ensures
        member_in(k, id, field, base, less) is Some ==> member_in(k, id, field, base, more)
            == member_in(k, id, field, base, less),
    decreases less, 1int, 0int,
{
    if less > 0 {
        if let Some(at) = stripped(k, id) {
            lemma_fuel_anonymous(
                k,
                k.types[at as int].members,
                0,
                field,
                base,
                (less - 1) as nat,
                (more - 1) as nat,
            );
        }
    }
}

proof fn lemma_fuel_anonymous(
    k: Kernel,
    members: Seq<Part>,
    i: int,
    field: Seq<char>,
    base: u32,
    less: nat,
    more: nat,
)
    requires
        less <= more,
    ensures
        member_in_anonymous(k, members, i, field, base, less) is Some ==> member_in_anonymous(
            k,
            members,
            i,
            field,
            base,
            more,
        ) == member_in_anonymous(k, members, i, field, base, less),
    decreases less, 2int, members.len() - i,
{
    if 0 <= i < members.len() {
        let m = members[i];
        lemma_fuel_anonymous(k, members, i + 1, field, base, less, more);
        if m.name.len() == 0 && base + m.offset_bytes <= u32::MAX {
            lemma_fuel(k, m.type_id, field, (base + m.offset_bytes) as u32, less, more);
        }
    }
}

/// Where the search starts only moves what it finds.
proof fn lemma_base(k: Kernel, id: u32, field: Seq<char>, near: u32, far: u32, fuel: nat)
    requires
        near <= far,
    ensures
        further(
            member_in(k, id, field, far, fuel),
            member_in(k, id, field, near, fuel),
            far - near,
        ),
    decreases fuel, 1int, 0int,
{
    if fuel > 0 {
        if let Some(at) = stripped(k, id) {
            lemma_base_anonymous(
                k,
                k.types[at as int].members,
                0,
                field,
                near,
                far,
                (fuel - 1) as nat,
            );
        }
    }
}

proof fn lemma_base_anonymous(
    k: Kernel,
    members: Seq<Part>,
    i: int,
    field: Seq<char>,
    near: u32,
    far: u32,
    fuel: nat,
)
    requires
        near <= far,
    ensures
        further(
            member_in_anonymous(k, members, i, field, far, fuel),
            member_in_anonymous(k, members, i, field, near, fuel),
            far - near,
        ),
    decreases fuel, 2int, members.len() - i,
{
    if 0 <= i < members.len() {
        let m = members[i];
        lemma_base_anonymous(k, members, i + 1, field, near, far, fuel);
        if m.name.len() == 0 && far + m.offset_bytes <= u32::MAX {
            lemma_base(
                k,
                m.type_id,
                field,
                (near + m.offset_bytes) as u32,
                (far + m.offset_bytes) as u32,
                fuel,
            );
        }
    }
}

/// What the first of the anonymous members from `i` on that has the field says
/// of it, moved by where that member stands.
pub open spec fn nested(k: Kernel, members: Seq<Part>, i: int, field: Seq<char>) -> Option<Part>
    decreases members.len() - i,
{
    if i < 0 || i >= members.len() {
        None
    } else {
        match (members[i].name.len() == 0, member_under(k, members[i].type_id, field)) {
            (true, Some(Some(f))) => Some(shifted(f, members[i].offset_bytes as int)),
            _ => nested(k, members, i + 1, field),
        }
    }
}

proof fn lemma_nested(k: Kernel, members: Seq<Part>, i: int, field: Seq<char>, fuel: nat)
    requires
        0 <= i,
        fuel <= k.types.len(),
        member_in_anonymous(k, members, i, field, 0, fuel) is Some,
    ensures
        member_in_anonymous(k, members, i, field, 0, fuel) == Some(nested(k, members, i, field)),
    decreases members.len() - i,
{
    if i < members.len() {
        let m = members[i];
        if m.name.len() == 0 {
            lemma_base(k, m.type_id, field, 0, m.offset_bytes, fuel);
            lemma_fuel(k, m.type_id, field, 0, fuel, k.types.len());
        }
        if m.name.len() > 0 || member_in(k, m.type_id, field, m.offset_bytes, fuel) == Some(
            None::<Part>,
        ) {
            lemma_nested(k, members, i + 1, field, fuel);
        }
    }
}

/// Where the search for a member has an answer, it is: nothing for what is no
/// struct or union; else the first member of that name, as it is stored; else
/// what the first anonymous member whose own type has the field says of it,
/// moved by where that member stands. A struct is searched by its id.
pub proof fn lemma_members_of_anonymous_members(k: Kernel, type_id: u32, field: Seq<char>)
    requires
        member_under(k, type_id, field) is Some,
    ensures
        member_under(k, type_id, field)->0 == match stripped(k, type_id) {
            None => None,
            Some(id) => {
                let t = k.types[id as int];
                if t.kind != STRUCT && t.kind != UNION {
                    None
                } else {
                    match first_named(t.members, field, 0) {
                        Some(m) => Some(m),
                        None => nested(k, t.members, 0, field),
                    }
                }
            },
        },
        forall|name: Seq<char>|
            id_of(k, name) == Some(type_id) ==> #[trigger] member_named(k, name, field)
                == member_under(k, type_id, field),
{
    if let Some(id) = stripped(k, type_id) {
        let t = k.types[id as int];
        if (t.kind == STRUCT || t.kind == UNION) && first_named(t.members, field, 0) is None {
            lemma_nested(k, t.members, 0, field, (k.types.len() - 1) as nat);
        }
    }
}

pub open spec fn size_of_type(k: Kernel, type_id: u32) -> Option<u32> {
    match stripped(k, type_id) {
        Some(id) => {
            let t = k.types[id as int];
            if t.kind == STRUCT || t.kind == UNION {
                Some(t.size_or_type)
            } else {
                None
            }
        },
        None => None,
    }
}

pub open spec fn name_of_type(k: Kernel, type_id: u32) -> Option<Seq<char>> {
    match stripped(k, type_id) {
        Some(id) => {
            let t = k.types[id as int];
            if t.kind == STRUCT || t.kind == UNION {
                Some(t.name)
            } else {
                None
            }
        },
        None => None,
    }
}

/// Whether a typedef's name says that the value stands in network order.
/// Checksums count: they are stored as they sit on the wire.
pub open spec fn wire_order(name: Seq<char>) -> bool {
    ||| starts(name, "__be"@)
    ||| starts(name, "be"@) && encode_utf8(name).len() <= 4
    ||| name == "__sum16"@
    ||| name == "__wsum"@
}

fn names_wire_order(name: &str) -> (r: bool)
    ensures
        r == wire_order(name@),
{
    starts_with(name, "__be") || (starts_with(name, "be") && name.as_bytes().len() <= 4) || same(
        name,
        "__sum16",
    ) || same(name, "__wsum")
}

/// Whether the typedef chain names a big-endian type, within `n` types.
pub open spec fn big_endian(k: Kernel, id: u32, n: nat) -> bool
    decreases n,
{
    if n == 0 || info_of(k, id) is None {
        false
    } else {
        let t = info_of(k, id)->0;
        if t.kind == TYPEDEF {
            wire_order(t.name) || big_endian(k, t.size_or_type, (n - 1) as nat)
        } else if t.kind == CONST || t.kind == VOLATILE || t.kind == RESTRICT {
            big_endian(k, t.size_or_type, (n - 1) as nat)
        } else {
            false
        }
    }
}

pub open spec fn array_shape(k: Kernel, t: Info) -> Shape {
    match t.array {
        None => Shape::Other,
        Some((elem, len)) => match stripped(k, elem) {
            None => Shape::Other,
            Some(id) => {
                let e = k.types[id as int];
                if e.kind == INT {
                    Shape::Array { elem_bytes: e.size_or_type, len }
                } else {
                    Shape::Other
                }
            },
        },
    }
}

pub open spec fn pointer_shape(k: Kernel, pointee: u32) -> Shape {
    match stripped(k, pointee) {
        None => Shape::PtrToOther,
        Some(id) => {
            let t = k.types[id as int];
            if (t.kind == STRUCT || t.kind == UNION) && t.name.len() > 0 {
                Shape::PtrToStruct { id, name: t.name }
            } else if t.kind == INT && t.size_or_type == 1 {
                Shape::PtrToChar
            } else {
                Shape::PtrToOther
            }
        },
    }
}

/// What a type resolves to.
pub open spec fn shape_of(k: Kernel, type_id: u32) -> Shape {
    match stripped(k, type_id) {
        None => Shape::Other,
        Some(id) => {
            let t = k.types[id as int];
            if t.kind == INT {
                Shape::Int {
                    bytes: if t.size_or_type < 8 {
                        t.size_or_type
                    } else {
                        8
                    },
                    signed: t.int_signed,
                    big_endian: big_endian(k, type_id, 32),
                }
            } else if t.kind == ARRAY {
                array_shape(k, t)
            } else if t.kind == STRUCT || t.kind == UNION {
                Shape::Struct { id, name: t.name }
            } else if t.kind == PTR {
                pointer_shape(k, t.size_or_type)
            } else {
                Shape::Other
            }
        },
    }
}

} // verus!
