//! The manifest: what the loader has to know of a compiled probe besides its
//! instructions, as JSON.

use crate::codegen::{Compiled, MapKind, MapSpec};
use crate::layout::{EventLayout, FieldKind, FieldLayout};
use crate::text::{chars_of, dec, hex_padded, push_dec, push_hex_padded};
use vstd::prelude::*;

verus! {

// ------------------------------------------------------------------ strings

/// One character of a string as JSON writes it.
pub open spec fn json_char(c: char) -> Seq<char> {
    if c == '"' || c == '\\' {
        seq!['\\', c]
    } else if (c as u32) < 0x20 {
        "\\u"@ + hex_padded((c as u32) as nat, 4)
    } else {
        seq![c]
    }
}

/// The characters from `i` on.
pub open spec fn json_chars(s: Seq<char>, i: int) -> Seq<char>
    decreases s.len() - i,
{
    if 0 <= i < s.len() {
        json_char(s[i]) + json_chars(s, i + 1)
    } else {
        Seq::empty()
    }
}

/// A string as JSON writes it.
pub open spec fn quoted_text(s: Seq<char>) -> Seq<char> {
    seq!['"'] + json_chars(s, 0) + seq!['"']
}

proof fn lemma_control(c: char)
    requires
        (c as u32) < 0x20,
    ensures
        hex_padded((c as u32) as nat, 4) == seq![
            '0',
            '0',
            crate::text::digit_char(c as int / 16),
            crate::text::digit_char(c as int % 16),
        ],
{
    reveal_with_fuel(hex_padded, 5);
}

/// What a character is written as tells it, whatever comes behind.
proof fn lemma_json_char(c: char, d: char, x: Seq<char>, y: Seq<char>)
    requires
        json_char(c) + x == json_char(d) + y,
    ensures
        c == d,
        x == y,
{
    reveal_strlit("\\u");
    let a = json_char(c) + x;
    let b = json_char(d) + y;
    if (c as u32) < 0x20 {
        lemma_control(c);
    }
    if (d as u32) < 0x20 {
        lemma_control(d);
    }
    assert(a[0] == b[0]);
    assert(a[1] == b[1] || json_char(c).len() == 1);
    assert(a[4] == b[4] || json_char(c).len() != 6);
    assert(a[5] == b[5] || json_char(c).len() != 6);
    assert(c == d);
    assert(x =~= a.skip(json_char(c).len() as int));
    assert(y =~= b.skip(json_char(d).len() as int));
}

proof fn lemma_json_chars(a: Seq<char>, b: Seq<char>, i: int)
    requires
        0 <= i <= a.len(),
        i <= b.len(),
        json_chars(a, i) + seq!['"'] == json_chars(b, i) + seq!['"'],
    ensures
        a.skip(i) == b.skip(i),
    decreases a.len() - i,
{
    let x = json_chars(a, i) + seq!['"'];
    let y = json_chars(b, i) + seq!['"'];
    if i < a.len() && i < b.len() {
        let p = json_chars(a, i + 1) + seq!['"'];
        let q = json_chars(b, i + 1) + seq!['"'];
        assert(x =~= json_char(a[i]) + p);
        assert(y =~= json_char(b[i]) + q);
        lemma_json_char(a[i], b[i], p, q);
        lemma_json_chars(a, b, i + 1);
        assert(a.skip(i) =~= seq![a[i]] + a.skip(i + 1));
        assert(b.skip(i) =~= seq![b[i]] + b.skip(i + 1));
    } else if i < a.len() {
        reveal_strlit("\\u");
        assert(x[0] == json_char(a[i])[0]);
        assert(y[0] == '"');
    } else if i < b.len() {
        reveal_strlit("\\u");
        assert(y[0] == json_char(b[i])[0]);
        assert(x[0] == '"');
    } else {
        assert(a.skip(i) =~= b.skip(i));
    }
}

/// Different strings are written differently.
pub proof fn lemma_quoting_keeps_strings_apart(a: Seq<char>, b: Seq<char>)
    requires
        quoted_text(a) == quoted_text(b),
    ensures
        a == b,
{
    assert(json_chars(a, 0) + seq!['"'] =~= quoted_text(a).skip(1));
    assert(json_chars(b, 0) + seq!['"'] =~= quoted_text(b).skip(1));
    lemma_json_chars(a, b, 0);
    assert(a.skip(0) =~= a);
    assert(b.skip(0) =~= b);
}

fn push_quoted(out: &mut String, s: &str)
    ensures
        final(out)@ == old(out)@ + quoted_text(s@),
{
    let ghost before = out@;
    out.push('"');
    let chars = chars_of(s);
    let ghost start = out@;
    let mut i: usize = 0;
    while i < chars.len()
        invariant
            0 <= i <= chars@.len(),
            chars@ == s@,
            out@ + json_chars(s@, i as int) == start + json_chars(s@, 0),
        decreases chars@.len() - i,
    {
        let ghost here = out@;
        let c = chars[i];
        if c == '"' || c == '\\' {
            out.push('\\');
            out.push(c);
        } else if (c as u32) < 0x20 {
            out.append("\\u");
            push_hex_padded(out, (c as u32) as u64, 4);
        } else {
            out.push(c);
        }
        assert(out@ =~= here + json_char(c));
        assert(out@ + json_chars(s@, i + 1) =~= here + json_chars(s@, i as int));
        i += 1;
    }
    assert(out@ + json_chars(s@, i as int) =~= out@);
    out.push('"');
    assert(out@ =~= before + quoted_text(s@));
}

// -------------------------------------------------------------- the manifest

pub open spec fn map_kind_text(k: MapKind) -> Seq<char> {
    match k {
        MapKind::Hash => "hash"@,
        MapKind::Array => "array"@,
    }
}

/// What a field holds, as its type is written.
pub open spec fn field_kind_text(k: FieldKind) -> Seq<char> {
    match k {
        FieldKind::Uint(bytes) => "u"@ + dec(8 * bytes as nat),
        FieldKind::Str(n) => "str<"@ + dec(n as nat) + ">"@,
        FieldKind::Bool => "bool"@,
    }
}

/// A map that the loader has to create.
pub open spec fn map_text(m: MapSpec) -> Seq<char> {
    "{\"name\": "@ + quoted_text(m.name@) + ", \"kind\": \""@ + map_kind_text(m.kind)
        + "\", \"key_size\": "@ + dec(m.key_size as nat) + ", \"value_size\": "@ + dec(
        m.value_size as nat,
    ) + ", \"max_entries\": "@ + dec(m.max_entries as nat) + "}"@
}

/// A field of the record that the loader reads back.
pub open spec fn field_text(f: FieldLayout) -> Seq<char> {
    "{\"name\": "@ + quoted_text(f.name@) + ", \"offset\": "@ + dec(f.offset as nat)
        + ", \"size\": "@ + dec(f.size as nat) + ", \"kind\": \""@ + field_kind_text(f.kind)
        + "\"}"@
}

pub open spec fn comma(i: int) -> Seq<char> {
    if i > 0 {
        ", "@
    } else {
        Seq::empty()
    }
}

/// The maps from `i` on.
pub open spec fn maps_text(maps: Seq<MapSpec>, i: int) -> Seq<char>
    decreases maps.len() - i,
{
    if 0 <= i < maps.len() {
        comma(i) + map_text(maps[i]) + maps_text(maps, i + 1)
    } else {
        Seq::empty()
    }
}

/// The fields from `i` on.
pub open spec fn fields_text(fields: Seq<FieldLayout>, i: int) -> Seq<char>
    decreases fields.len() - i,
{
    if 0 <= i < fields.len() {
        comma(i) + field_text(fields[i]) + fields_text(fields, i + 1)
    } else {
        Seq::empty()
    }
}

pub open spec fn event_text(e: EventLayout) -> Seq<char> {
    "{\"name\": "@ + quoted_text(e.name@) + ", \"size\": "@ + dec(e.size as nat)
        + ", \"fields\": ["@ + fields_text(e.fields@, 0) + "]}"@
}

/// Everything but the bytecode.
pub open spec fn manifest_text(c: Compiled) -> Seq<char> {
    "{\"tracepoint\": ["@ + quoted_text(c.tracepoint.0@) + ", "@ + quoted_text(c.tracepoint.1@)
        + "], \"ringbuf_bytes\": "@ + dec(c.ringbuf_bytes as nat) + ", \"maps\": ["@ + maps_text(
        c.maps@,
        0,
    ) + "], \"event\": "@ + event_text(c.event) + ", \"stack_bytes\": "@ + dec(
        c.stack_bytes as nat,
    ) + ", \"license\": "@ + quoted_text(c.license@) + "}\n"@
}

fn push_map(out: &mut String, m: &MapSpec)
    ensures
        final(out)@ == old(out)@ + map_text(*m),
{
    let ghost before = out@;
    out.append("{\"name\": ");
    push_quoted(out, &m.name);
    out.append(", \"kind\": \"");
    match m.kind {
        MapKind::Hash => out.append("hash"),
        MapKind::Array => out.append("array"),
    }
    out.append("\", \"key_size\": ");
    push_dec(out, m.key_size as u64);
    out.append(", \"value_size\": ");
    push_dec(out, m.value_size as u64);
    out.append(", \"max_entries\": ");
    push_dec(out, m.max_entries as u64);
    out.append("}");
    assert(out@ =~= before + map_text(*m));
}

fn push_field(out: &mut String, f: &FieldLayout)
    ensures
        final(out)@ == old(out)@ + field_text(*f),
{
    let ghost before = out@;
    out.append("{\"name\": ");
    push_quoted(out, &f.name);
    out.append(", \"offset\": ");
    push_dec(out, f.offset as u64);
    out.append(", \"size\": ");
    push_dec(out, f.size as u64);
    out.append(", \"kind\": \"");
    match f.kind {
        FieldKind::Uint(bytes) => {
            out.append("u");
            push_dec(out, 8 * bytes as u64);
        },
        FieldKind::Str(n) => {
            out.append("str<");
            push_dec(out, n as u64);
            out.append(">");
        },
        FieldKind::Bool => out.append("bool"),
    }
    out.append("\"}");
    assert(out@ =~= before + field_text(*f));
}

fn push_event(out: &mut String, e: &EventLayout)
    ensures
        final(out)@ == old(out)@ + event_text(*e),
{
    let ghost before = out@;
    out.append("{\"name\": ");
    push_quoted(out, &e.name);
    out.append(", \"size\": ");
    push_dec(out, e.size as u64);
    out.append(", \"fields\": [");
    let ghost start = out@;
    let mut i: usize = 0;
    while i < e.fields.len()
        invariant
            0 <= i <= e.fields@.len(),
            out@ + fields_text(e.fields@, i as int) == start + fields_text(e.fields@, 0),
        decreases e.fields@.len() - i,
    {
        let ghost here = out@;
        if i > 0 {
            out.append(", ");
        }
        push_field(out, &e.fields[i]);
        assert(out@ + fields_text(e.fields@, i + 1) =~= here + fields_text(e.fields@, i as int));
        i += 1;
    }
    assert(out@ + fields_text(e.fields@, i as int) =~= out@);
    out.append("]}");
    assert(out@ =~= before + event_text(*e));
}

fn push_maps(out: &mut String, maps: &Vec<MapSpec>)
    ensures
        final(out)@ == old(out)@ + maps_text(maps@, 0),
{
    let ghost start = out@;
    let mut i: usize = 0;
    while i < maps.len()
        invariant
            0 <= i <= maps@.len(),
            out@ + maps_text(maps@, i as int) == start + maps_text(maps@, 0),
        decreases maps@.len() - i,
    {
        let ghost here = out@;
        if i > 0 {
            out.append(", ");
        }
        push_map(out, &maps[i]);
        assert(out@ + maps_text(maps@, i + 1) =~= here + maps_text(maps@, i as int));
        i += 1;
    }
    assert(out@ + maps_text(maps@, i as int) =~= out@);
}

/// The manifest of a compiled probe.
pub fn manifest(c: &Compiled) -> (r: String)
    ensures
        r@ == manifest_text(*c),
{
    let mut out = String::new();
    out.append("{\"tracepoint\": [");
    push_quoted(&mut out, &c.tracepoint.0);
    out.append(", ");
    push_quoted(&mut out, &c.tracepoint.1);
    out.append("], \"ringbuf_bytes\": ");
    push_dec(&mut out, c.ringbuf_bytes as u64);
    out.append(", \"maps\": [");
    push_maps(&mut out, &c.maps);
    out.append("], \"event\": ");
    push_event(&mut out, &c.event);
    out.append(", \"stack_bytes\": ");
    push_dec(&mut out, c.stack_bytes as u64);
    out.append(", \"license\": ");
    push_quoted(&mut out, &c.license);
    out.append("}\n");
    assert(out@ =~= manifest_text(*c));
    out
}

} // verus!
