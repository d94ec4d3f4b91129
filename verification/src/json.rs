//! The manifest's strings, as any reader of JSON takes them.

use crate::layout::field_kind;
use crate::manifest::{field_kind_text, json_char, json_chars, quoted_text};
use crate::pretty::{comma, type_arg_text, type_args_text, type_text};
use crate::reading::{lemma_padded_numbers_are_written, positional};
use crate::text::{dec, hex_padded};
use crate::tree;
use vstd::prelude::*;

verus! {

/// What a JSON string holds, and what comes behind it; `t` starts behind the opening
/// quote.
pub open spec fn told(t: Seq<char>) -> Option<(Seq<char>, Seq<char>)>
    decreases t.len(),
{
    if t.len() == 0 {
        None
    } else if t[0] == '"' {
        Some((Seq::empty(), t.skip(1)))
    } else if t[0] == '\\' {
        if t.len() >= 2 && (t[1] == '"' || t[1] == '\\' || t[1] == '/') {
            led(t[1], told(t.skip(2)))
        } else if t.len() >= 6 && t[1] == 'u' {
            led(positional(t.subrange(2, 6), 16) as char, told(t.skip(6)))
        } else {
            None
        }
    } else if (t[0] as u32) < 0x20 {
        None
    } else {
        led(t[0], told(t.skip(1)))
    }
}

/// The same with one character before it.
pub open spec fn led(c: char, rest: Option<(Seq<char>, Seq<char>)>) -> Option<
    (Seq<char>, Seq<char>),
> {
    match rest {
        None => None,
        Some((s, behind)) => Some((seq![c] + s, behind)),
    }
}

proof fn lemma_char_is_told(c: char, t: Seq<char>)
    ensures
        told(json_char(c) + t) == led(c, told(t)),
        (c as u32) >= 0x20 && c != '"' && c != '\\' ==> json_char(c) == seq![c],
{
    let all = json_char(c) + t;
    if c == '"' || c == '\\' {
        assert(all[0] == '\\' && all[1] == c);
        assert(all.skip(2) =~= t);
    } else if (c as u32) < 0x20 {
        reveal_strlit("\\u");
        let n = (c as u32) as nat;
        lemma_padded_numbers_are_written(n, 4);
        assert(all[0] == '\\' && all[1] == 'u');
        assert(all.subrange(2, 6) =~= hex_padded(n, 4));
        assert(all.skip(6) =~= t);
        assert(vstd::arithmetic::power::pow(16, 4) == 65536) by {
            reveal_with_fuel(vstd::arithmetic::power::pow, 5);
        }
        assert(n as int % 65536 == n);
    } else {
        assert(all[0] == c);
        assert(all.skip(1) =~= t);
    }
}

proof fn lemma_chars_are_told(s: Seq<char>, i: int, t: Seq<char>)
    requires
        0 <= i <= s.len(),
    ensures
        told(json_chars(s, i) + seq!['"'] + t) == Some((s.skip(i), t)),
    decreases s.len() - i,
{
    let all = json_chars(s, i) + seq!['"'] + t;
    if i < s.len() {
        let less = json_chars(s, i + 1) + seq!['"'] + t;
        assert(all =~= json_char(s[i]) + less);
        lemma_char_is_told(s[i], less);
        lemma_chars_are_told(s, i + 1, t);
        assert(s.skip(i) =~= seq![s[i]] + s.skip(i + 1));
    } else {
        assert(all[0] == '"');
        assert(all.skip(1) =~= t);
        assert(s.skip(i) =~= Seq::empty());
    }
}

/// A string is read back from what is written for it, whatever stands behind; a
/// character that needs no escape has none.
pub proof fn lemma_strings_are_told(s: Seq<char>, behind: Seq<char>, c: char)
    ensures
        quoted_text(s)[0] == '"',
        told(quoted_text(s).skip(1) + behind) == Some((s, behind)),
        (c as u32) >= 0x20 && c != '"' && c != '\\' ==> quoted_text(seq![c]) == seq!['"', c, '"'],
{
    lemma_chars_are_told(s, 0, behind);
    assert(quoted_text(s).skip(1) + behind =~= json_chars(s, 0) + seq!['"'] + behind);
    assert(s.skip(0) =~= s);
    lemma_char_is_told(c, Seq::empty());
    if (c as u32) >= 0x20 && c != '"' && c != '\\' {
        let one = seq![c];
        reveal_with_fuel(json_chars, 2);
        assert(json_chars(one, 0) =~= seq![c]);
        assert(quoted_text(one) =~= seq!['"', c, '"']);
    }
}

/// What a field holds is shown as its type was written, an argument to `str` alone.
pub proof fn lemma_field_types_are_shown(t: tree::Type)
    requires
        field_kind(t.name.name, t.args) is Some,
        t.args.len() == 0 || t.name.name == "str"@,
    ensures
        field_kind_text(field_kind(t.name.name, t.args)->Some_0) == type_text(t),
{
    let name = t.name.name;
    reveal_strlit("u");
    reveal_strlit("u8");
    reveal_strlit("u16");
    reveal_strlit("u32");
    reveal_strlit("u64");
    reveal_strlit("bool");
    reveal_strlit("str");
    reveal_strlit("str<");
    reveal_strlit(">");
    reveal_with_fuel(dec, 3);
    assert(dec(8) =~= seq!['8']);
    assert(dec(16) =~= seq!['1', '6']);
    assert(dec(32) =~= seq!['3', '2']);
    assert(dec(64) =~= seq!['6', '4']);
    if t.args.len() == 0 {
        assert(field_kind_text(field_kind(name, t.args)->Some_0) =~= name);
    } else {
        let n = t.args[0]->Int_0;
        assert(name[0] == 's');
        assert(type_args_text(t.args, 1) =~= Seq::empty());
        assert(comma(0) =~= Seq::empty());
        assert(type_args_text(t.args, 0) =~= type_arg_text(t.args[0]));
        assert("str<"@ + dec(n as nat) + ">"@ =~= name + seq!['<'] + dec(n as nat) + seq!['>']);
    }
}

} // verus!
