//! Parsing an address undoes writing it.
//!
//! The writers here are the textbook ones: four decimal octets between dots, six
//! pairs of hexadecimal digits between colons, eight hexadecimal groups between
//! colons, and a slash with a decimal prefix length.

use crate::addr::{
    all_digits, find, find_gap, group, groups, ipv4, ipv6, ipv6_groups, mac, mac_byte, mask_byte,
    network, number, octet, prefix, split, value,
};
use crate::lexer::digit_value;
use crate::text::{dec, digit_char, hex, hex_padded};
use vstd::prelude::*;

verus! {

// -------------------------------------------------------- pieces and between

/// Texts with a separator between them.
pub open spec fn joined(list: Seq<Seq<char>>, sep: char) -> Seq<char>
    decreases list.len(),
{
    if list.len() == 0 {
        Seq::empty()
    } else if list.len() == 1 {
        list[0]
    } else {
        list[0] + (seq![sep] + joined(list.drop_first(), sep))
    }
}

/// A text in which a character does not occur.
pub open spec fn lacks(s: Seq<char>, c: char) -> bool {
    forall|i: int| 0 <= i < s.len() ==> #[trigger] s[i] != c
}

proof fn lemma_find(s: Seq<char>, c: char, i: int, k: int)
    requires
        0 <= i <= k <= s.len(),
        forall|j: int| i <= j < k ==> #[trigger] s[j] != c,
        k < s.len() ==> s[k] == c,
    ensures
        find(s, c, i) == k,
    decreases k - i,
{
    if i < k {
        assert(s[i] != c);
        lemma_find(s, c, i + 1, k);
    }
}

proof fn lemma_find_skip(s: Seq<char>, c: char, n: int, i: int)
    requires
        0 <= n <= i <= s.len(),
    ensures
        find(s, c, i) == find(s.skip(n), c, i - n) + n,
        i <= find(s, c, i) <= s.len(),
        forall|j: int| i <= j < find(s, c, i) ==> #[trigger] s[j] != c,
        find(s, c, i) < s.len() ==> s[find(s, c, i)] == c,
    decreases s.len() - i,
{
    if i < s.len() {
        assert(s.skip(n)[i - n] == s[i]);
        if s[i] != c {
            lemma_find_skip(s, c, n, i + 1);
        }
    }
}

proof fn lemma_split_skip(s: Seq<char>, sep: char, n: int, i: int)
    requires
        0 <= n <= i <= s.len(),
    ensures
        split(s, sep, i) == split(s.skip(n), sep, i - n),
    decreases s.len() - i,
{
    let k = find(s, sep, i);
    lemma_find_skip(s, sep, n, i);
    let t = s.skip(n);
    if k < s.len() {
        lemma_split_skip(s, sep, n, k + 1);
        assert(t.subrange(i - n, k - n) =~= s.subrange(i, k));
    } else {
        assert(t.subrange(i - n, t.len() as int) =~= s.subrange(i, s.len() as int));
    }
}

/// Cutting at each separator undoes joining.
pub proof fn lemma_split_undoes_joined(list: Seq<Seq<char>>, sep: char)
    requires
        list.len() > 0,
        forall|i: int| 0 <= i < list.len() ==> lacks(#[trigger] list[i], sep),
    ensures
        split(joined(list, sep), sep, 0) == list,
    decreases list.len(),
{
    let s = joined(list, sep);
    let first = list[0];
    assert(lacks(list[0], sep));
    if list.len() == 1 {
        lemma_find(s, sep, 0, s.len() as int);
        assert(s.subrange(0, s.len() as int) =~= first);
        assert(split(s, sep, 0) =~= list);
    } else {
        let rest = list.drop_first();
        let k = first.len() as int;
        assert forall|i: int| 0 <= i < rest.len() implies lacks(#[trigger] rest[i], sep) by {
            assert(rest[i] == list[i + 1]);
        }
        assert forall|j: int| 0 <= j < k implies #[trigger] s[j] != sep by {
            assert(s[j] == first[j]);
        }
        assert(s[k] == sep);
        lemma_find(s, sep, 0, k);
        lemma_split_undoes_joined(rest, sep);
        lemma_split_skip(s, sep, k + 1, k + 1);
        assert(s.skip(k + 1) =~= joined(rest, sep));
        assert(s.subrange(0, k) =~= first);
        assert(split(s, sep, 0) =~= seq![first] + rest);
        assert(seq![first] + rest =~= list);
    }
}

/// Joining undoes cutting, and no piece holds a separator.
pub proof fn lemma_joined_undoes_split(s: Seq<char>, sep: char)
    ensures
        split(s, sep, 0).len() > 0,
        joined(split(s, sep, 0), sep) == s,
        forall|i: int| 0 <= i < split(s, sep, 0).len() ==> lacks(#[trigger] split(s, sep, 0)[i], sep),
    decreases s.len(),
{
    let k = find(s, sep, 0);
    lemma_find_skip(s, sep, 0, 0);
    let p = split(s, sep, 0);
    if k < s.len() {
        let t = s.skip(k + 1);
        lemma_split_skip(s, sep, k + 1, k + 1);
        lemma_joined_undoes_split(t, sep);
        let rest = split(t, sep, 0);
        assert(p =~= seq![s.subrange(0, k)] + rest);
        assert(p.drop_first() =~= rest);
        assert(joined(p, sep) =~= s);
        assert forall|i: int| 0 <= i < p.len() implies lacks(#[trigger] p[i], sep) by {
            if i > 0 {
                assert(p[i] == rest[i - 1]);
            }
        }
    } else {
        assert(s.subrange(0, s.len() as int) =~= s);
        assert(p =~= seq![s]);
    }
}

// ------------------------------------------------------------------- digits

/// A number below a thousand is written with one to three decimal digits.
proof fn lemma_dec_value(n: nat)
    ensures
        all_digits(dec(n), 10),
        value(dec(n), 10) == n,
        dec(n).len() > 0,
        n < 10 ==> dec(n).len() == 1,
        n < 100 ==> dec(n).len() <= 2,
        n < 1000 ==> dec(n).len() <= 3,
        dec(n)[0] != '+',
        lacks(dec(n), '.'),
        lacks(dec(n), '/'),
        lacks(dec(n), ':'),
    decreases n,
{
    let d = digit_char((n % 10) as int);
    assert(digit_value(d) == n % 10);
    let s = dec(n);
    if n < 10 {
        assert(s =~= seq![d]);
        assert(s.drop_last() =~= Seq::empty());
        assert(value(s.drop_last(), 10) == 0);
    } else {
        lemma_dec_value(n / 10);
        let t = dec(n / 10);
        assert(s =~= t.push(d));
        assert(s.drop_last() =~= t);
        assert forall|i: int| 0 <= i < s.len() implies digit_value(#[trigger] s[i]) < 10 && s[i]
            != '.' && s[i] != '/' && s[i] != ':' by {
            if i < t.len() {
                assert(s[i] == t[i]);
            }
        }
        assert(s[0] == t[0]);
    }
}

/// A number below 2^16 is written with one to four hexadecimal digits.
proof fn lemma_hex_value(n: nat)
    ensures
        all_digits(hex(n), 16),
        value(hex(n), 16) == n,
        hex(n).len() > 0,
        n < 0x10 ==> hex(n).len() == 1,
        n < 0x100 ==> hex(n).len() <= 2,
        n < 0x1000 ==> hex(n).len() <= 3,
        n < 0x1_0000 ==> hex(n).len() <= 4,
        lacks(hex(n), ':'),
        lacks(hex(n), '/'),
    decreases n,
{
    let d = digit_char((n % 16) as int);
    assert(digit_value(d) == n % 16);
    let s = hex(n);
    if n < 16 {
        assert(s =~= seq![d]);
        assert(s.drop_last() =~= Seq::empty());
        assert(value(s.drop_last(), 16) == 0);
    } else {
        lemma_hex_value(n / 16);
        let t = hex(n / 16);
        assert(s =~= t.push(d));
        assert(s.drop_last() =~= t);
        assert forall|i: int| 0 <= i < s.len() implies digit_value(#[trigger] s[i]) < 16 && s[i]
            != ':' && s[i] != '/' by {
            if i < t.len() {
                assert(s[i] == t[i]);
            }
        }
    }
}

proof fn lemma_pair_value(n: nat)
    requires
        n < 0x100,
    ensures
        hex_padded(n, 2).len() == 2,
        all_digits(hex_padded(n, 2), 16),
        value(hex_padded(n, 2), 16) == n,
        lacks(hex_padded(n, 2), ':'),
{
    reveal_with_fuel(hex_padded, 3);
    reveal_with_fuel(value, 3);
    let s = hex_padded(n, 2);
    let a = digit_char((n / 16 % 16) as int);
    let b = digit_char((n % 16) as int);
    assert(s =~= seq![a, b]);
    assert(digit_value(a) == n / 16);
    assert(digit_value(b) == n % 16);
    assert(s.drop_last() =~= seq![a]);
    assert(seq![a].drop_last() =~= Seq::empty());
    assert(value(seq![a], 16) == n / 16);
}

// --------------------------------------------------------------------- IPv4

/// Four numbers between dots.
pub open spec fn dotted(a: nat, b: nat, c: nat, d: nat) -> Seq<char> {
    dec(a) + seq!['.'] + dec(b) + seq!['.'] + dec(c) + seq!['.'] + dec(d)
}

proof fn lemma_dotted(a: nat, b: nat, c: nat, d: nat)
    ensures
        split(dotted(a, b, c, d), '.', 0) == seq![dec(a), dec(b), dec(c), dec(d)],
{
    let list = seq![dec(a), dec(b), dec(c), dec(d)];
    lemma_dec_value(a);
    lemma_dec_value(b);
    lemma_dec_value(c);
    lemma_dec_value(d);
    assert(list.drop_first() =~= seq![dec(b), dec(c), dec(d)]);
    assert(list.drop_first().drop_first() =~= seq![dec(c), dec(d)]);
    assert(list.drop_first().drop_first().drop_first() =~= seq![dec(d)]);
    reveal_with_fuel(joined, 5);
    assert(joined(list, '.') =~= dotted(a, b, c, d));
    lemma_split_undoes_joined(list, '.');
}

proof fn lemma_four(n: int, a: int, b: int, c: int, d: int)
    requires
        n == ((a * 256 + b) * 256 + c) * 256 + d,
        0 <= a < 256,
        0 <= b < 256,
        0 <= c < 256,
        0 <= d < 256,
    ensures
        0 <= n < 0x1_0000_0000,
        n / 0x100_0000 == a,
        n / 0x1_0000 % 0x100 == b,
        n / 0x100 % 0x100 == c,
        n % 0x100 == d,
{
    assert(n / 0x100 == (a * 256 + b) * 256 + c);
    assert(n / 0x1_0000 == a * 256 + b);
}

/// Parsing an IPv4 address undoes writing it: the first octet is the highest
/// byte of the number, the last the lowest.
pub proof fn lemma_ipv4_undoes_writing(a: nat, b: nat, c: nat, d: nat)
    requires
        a < 256,
        b < 256,
        c < 256,
        d < 256,
    ensures
        ({
            &&& ipv4(dotted(a, b, c, d)) matches Some(n)
            &&& n as int / 0x100_0000 == a
            &&& n as int / 0x1_0000 % 0x100 == b
            &&& n as int / 0x100 % 0x100 == c
            &&& n as int % 0x100 == d
        }),
{
    lemma_dotted(a, b, c, d);
    lemma_dec_value(a);
    lemma_dec_value(b);
    lemma_dec_value(c);
    lemma_dec_value(d);
    let p = split(dotted(a, b, c, d), '.', 0);
    assert(p[0] == dec(a) && p[1] == dec(b) && p[2] == dec(c) && p[3] == dec(d));
    assert(octet(dec(a)) == Some(a as int) && octet(dec(b)) == Some(b as int));
    assert(octet(dec(c)) == Some(c as int) && octet(dec(d)) == Some(d as int));
    let n = ((a * 256 + b) * 256 + c) * 256 + d;
    lemma_four(n as int, a as int, b as int, c as int, d as int);
    assert(ipv4(dotted(a, b, c, d)) == Some(n as u32));
}

/// A number above 255 is no octet, wherever it stands.
pub proof fn lemma_ipv4_refuses_large_octets(a: nat, b: nat, c: nat, d: nat)
    requires
        a > 255 || b > 255 || c > 255 || d > 255,
    ensures
        ipv4(dotted(a, b, c, d)) is None,
{
    lemma_dotted(a, b, c, d);
    lemma_dec_value(a);
    lemma_dec_value(b);
    lemma_dec_value(c);
    lemma_dec_value(d);
    let p = split(dotted(a, b, c, d), '.', 0);
    assert(p[0] == dec(a) && p[1] == dec(b) && p[2] == dec(c) && p[3] == dec(d));
}

/// A digit of the decimal system.
pub open spec fn decimal(c: char) -> bool {
    '0' as u32 <= c as u32 <= '9' as u32
}

/// What parses as an IPv4 address is made of digits, three at most in a row, and
/// three dots.
pub proof fn lemma_ipv4_is_four_numbers(s: Seq<char>)
    requires
        ipv4(s) is Some,
    ensures
        exists|p: Seq<Seq<char>>|
            #![trigger joined(p, '.')]
            p.len() == 4 && s == joined(p, '.') && forall|i: int, k: int|
                0 <= i < 4 && 0 <= k < p[i].len() ==> 1 <= p[i].len() <= 3 && decimal(
                    #[trigger] p[i][k],
                ),
{
    let p = split(s, '.', 0);
    lemma_joined_undoes_split(s, '.');
    assert forall|i: int, k: int| 0 <= i < 4 && 0 <= k < p[i].len() implies 1 <= p[i].len() <= 3
        && decimal(#[trigger] p[i][k]) by {
        assert(octet(p[i]) is Some) by {
            assert(i == 0 || i == 1 || i == 2 || i == 3);
        }
        assert(digit_value(p[i][k]) < 10);
    }
    assert(s == joined(p, '.'));
}

// ---------------------------------------------------------------------- MAC

/// The texts of six bytes, two digits each.
pub open spec fn pairs(b: Seq<u8>) -> Seq<Seq<char>> {
    Seq::new(b.len(), |i: int| hex_padded(b[i] as nat, 2))
}

/// Parsing a hardware address undoes writing it.
pub proof fn lemma_mac_undoes_writing(b: Seq<u8>)
    requires
        b.len() == 6,
    ensures
        mac(joined(pairs(b), ':')) == Some(b),
{
    let list = pairs(b);
    assert forall|i: int| 0 <= i < 6 implies lacks(#[trigger] list[i], ':') && mac_byte(list[i])
        == Some(b[i] as int) by {
        lemma_pair_value(b[i] as nat);
    }
    lemma_split_undoes_joined(list, ':');
    let p = split(joined(list, ':'), ':', 0);
    assert(p == list);
    assert(mac(joined(list, ':'))->0 =~= b);
}

/// A digit of the hexadecimal system.
pub open spec fn hexadecimal(c: char) -> bool {
    ||| decimal(c)
    ||| 'a' as u32 <= c as u32 <= 'f' as u32
    ||| 'A' as u32 <= c as u32 <= 'F' as u32
}

/// What parses as a hardware address is six pairs of digits between colons.
pub proof fn lemma_mac_is_six_pairs(s: Seq<char>)
    requires
        mac(s) is Some,
    ensures
        s.len() == 17,
        forall|i: int|
            0 <= i < 17 ==> if i % 3 == 2 {
                #[trigger] s[i] == ':'
            } else {
                hexadecimal(s[i])
            },
{
    let p = split(s, ':', 0);
    lemma_joined_undoes_split(s, ':');
    assert forall|i: int| 0 <= i < p.len() implies (#[trigger] p[i]).len() == 2 by {
        assert(mac_byte(p[i]) is Some);
    }
    lemma_joined_pairs(p);
    assert forall|i: int| 0 <= i < 17 implies if i % 3 == 2 {
        #[trigger] s[i] == ':'
    } else {
        hexadecimal(s[i])
    } by {
        let k = i / 3;
        assert(is_pair_char(p, s, i));
        if i % 3 != 2 {
            assert(mac_byte(p[k]) is Some);
            assert(digit_value(p[k][i % 3]) < 16);
        }
    }
}

/// Character `i` of pairs between colons.
spec fn is_pair_char(p: Seq<Seq<char>>, s: Seq<char>, i: int) -> bool {
    s[i] == if i % 3 == 2 {
        ':'
    } else {
        p[i / 3][i % 3]
    }
}

proof fn lemma_joined_pairs(p: Seq<Seq<char>>)
    requires
        p.len() > 0,
        forall|i: int| 0 <= i < p.len() ==> (#[trigger] p[i]).len() == 2,
    ensures
        joined(p, ':').len() == 3 * p.len() - 1,
        forall|i: int|
            0 <= i < 3 * p.len() - 1 ==> #[trigger] is_pair_char(p, joined(p, ':'), i),
    decreases p.len(),
{
    let s = joined(p, ':');
    assert(p[0].len() == 2);
    if p.len() > 1 {
        let rest = p.drop_first();
        let t = joined(rest, ':');
        assert forall|i: int| 0 <= i < rest.len() implies (#[trigger] rest[i]).len() == 2 by {
            assert(p[i + 1].len() == 2);
        }
        lemma_joined_pairs(rest);
        assert(s == p[0] + (seq![':'] + t));
        assert forall|i: int| 0 <= i < 3 * p.len() - 1 implies #[trigger] is_pair_char(p, s, i) by {
            if i >= 3 {
                assert(is_pair_char(rest, t, i - 3));
                assert(s[i] == t[i - 3]);
                assert((i - 3) % 3 == i % 3 && (i - 3) / 3 == i / 3 - 1);
                if i % 3 != 2 {
                    assert(rest[i / 3 - 1] == p[i / 3]);
                }
            }
        }
    }
}

// --------------------------------------------------------------------- IPv6

/// The texts of a list of 16-bit numbers.
pub open spec fn hexes(g: Seq<u16>) -> Seq<Seq<char>> {
    Seq::new(g.len(), |i: int| hex(g[i] as nat))
}

/// Groups between colons.
pub open spec fn colons(g: Seq<u16>) -> Seq<char> {
    joined(hexes(g), ':')
}

/// The bytes of an address, each group with its high byte first.
pub open spec fn wire(g: Seq<u16>) -> Seq<u8>
    decreases g.len(),
{
    if g.len() == 0 {
        Seq::empty()
    } else {
        wire(g.drop_last()) + seq![(g.last() / 256) as u8, (g.last() % 256) as u8]
    }
}

proof fn lemma_wire(g: Seq<u16>)
    ensures
        wire(g).len() == 2 * g.len(),
        forall|i: int|
            0 <= i < wire(g).len() ==> #[trigger] wire(g)[i] == (if i % 2 == 0 {
                g[i / 2] / 256
            } else {
                g[i / 2] % 256
            }) as u8,
    decreases g.len(),
{
    if g.len() > 0 {
        let less = g.drop_last();
        lemma_wire(less);
        assert forall|i: int| 0 <= i < wire(g).len() implies #[trigger] wire(g)[i] == (if i % 2
            == 0 {
            g[i / 2] / 256
        } else {
            g[i / 2] % 256
        }) as u8 by {
            if i < wire(less).len() {
                assert(wire(g)[i] == wire(less)[i]);
                assert(less[i / 2] == g[i / 2]);
            }
        }
    }
}

/// Numbers as the parser counts them.
spec fn counted(g: Seq<u16>) -> Seq<int> {
    Seq::new(g.len(), |i: int| g[i] as int)
}

proof fn lemma_groups(g: Seq<u16>)
    ensures
        groups(colons(g)) == Some(counted(g)),
        g.len() > 0 ==> colons(g).len() > 0,
{
    let list = hexes(g);
    if g.len() > 0 {
        assert forall|i: int| 0 <= i < list.len() implies lacks(#[trigger] list[i], ':') && group(
            list[i],
        ) == Some(g[i] as int) by {
            lemma_hex_value(g[i] as nat);
        }
        lemma_split_undoes_joined(list, ':');
        assert(lacks(list[0], ':') && group(list[0]) is Some);
        assert(list[0].len() > 0);
        assert(colons(g).len() > 0);
        let p = split(colons(g), ':', 0);
        assert(p == list);
        assert(groups(colons(g))->0 =~= counted(g));
    } else {
        assert(list =~= Seq::empty());
        assert(counted(g) =~= Seq::empty());
    }
}

/// No two colons in a row between groups, none at the start and none at the
/// end.
proof fn lemma_no_gap(g: Seq<u16>)
    ensures
        forall|i: int|
            0 <= i && i + 1 < colons(g).len() ==> !(#[trigger] colons(g)[i] == ':' && colons(g)[i
                + 1] == ':'),
        colons(g).len() > 0 ==> colons(g)[0] != ':' && colons(g)[colons(g).len() - 1] != ':',
        lacks(colons(g), '/'),
    decreases g.len(),
{
    let list = hexes(g);
    let s = colons(g);
    if g.len() > 0 {
        lemma_hex_value(g[0] as nat);
        let first = list[0];
        assert(first == hex(g[0] as nat));
        if g.len() > 1 {
            let rest = g.drop_first();
            lemma_no_gap(rest);
            lemma_groups(rest);
            assert(list.drop_first() =~= hexes(rest));
            let t = colons(rest);
            assert(s == first + (seq![':'] + t));
            let k = first.len() as int;
            assert forall|i: int| 0 <= i && i + 1 < s.len() implies !(#[trigger] s[i] == ':' && s[i
                + 1] == ':') by {
                if i < k {
                    assert(s[i] == first[i]);
                } else if i == k {
                    assert(s[i + 1] == t[0]);
                } else {
                    assert(s[i] == t[i - k - 1]);
                    assert(s[i + 1] == t[i - k]);
                }
            }
            assert(s[0] == first[0]);
            assert(s[s.len() - 1] == t[t.len() - 1]);
            assert forall|i: int| 0 <= i < s.len() implies #[trigger] s[i] != '/' by {
                if i < k {
                    assert(s[i] == first[i]);
                } else if i > k {
                    assert(s[i] == t[i - k - 1]);
                }
            }
        }
    }
}

proof fn lemma_find_gap(s: Seq<char>, i: int, k: int)
    requires
        0 <= i <= k <= s.len(),
        forall|j: int|
            i <= j < k && j + 1 < s.len() ==> !(#[trigger] s[j] == ':' && s[j + 1] == ':'),
        k < s.len() ==> k + 1 < s.len() && s[k] == ':' && s[k + 1] == ':',
    ensures
        find_gap(s, i) == k,
    decreases k - i,
{
    if i < k {
        assert(i + 1 < s.len() ==> !(s[i] == ':' && s[i + 1] == ':'));
        lemma_find_gap(s, i + 1, k);
    }
}

/// Parsing an IPv6 address that is written in full undoes writing it.
pub proof fn lemma_ipv6_undoes_writing(g: Seq<u16>)
    requires
        g.len() == 8,
    ensures
        ipv6(colons(g)) == Some(wire(g)),
{
    let s = colons(g);
    lemma_no_gap(g);
    lemma_find_gap(s, 0, s.len() as int);
    lemma_groups(g);
    lemma_wire(g);
    assert(ipv6(s)->0 =~= wire(g)) by {
        assert(ipv6_groups(s) == Some(counted(g)));
        assert forall|i: int| 0 <= i < 16 implies #[trigger] ipv6(s)->0[i] == wire(g)[i] by {
            assert(counted(g)[i / 2] == g[i / 2]);
        }
    }
}

/// `::` stands for the zero groups that are missing.
pub proof fn lemma_ipv6_fills_the_gap(l: Seq<u16>, r: Seq<u16>)
    requires
        l.len() + r.len() <= 7,
    ensures
        ipv6(colons(l) + seq![':', ':'] + colons(r)) == Some(
            wire(l + Seq::new((8 - l.len() - r.len()) as nat, |i: int| 0u16) + r),
        ),
{
    let a = colons(l);
    let b = colons(r);
    let s = a + seq![':', ':'] + b;
    let k = a.len() as int;
    let all = l + Seq::new((8 - l.len() - r.len()) as nat, |i: int| 0u16) + r;
    lemma_no_gap(l);
    lemma_no_gap(r);
    assert forall|j: int| 0 <= j < k && j + 1 < s.len() implies !(#[trigger] s[j] == ':' && s[j
        + 1] == ':') by {
        assert(s[j] == a[j]);
        if j + 1 < k {
            assert(s[j + 1] == a[j + 1]);
        } else {
            assert(a[j] != ':');
        }
    }
    lemma_find_gap(s, 0, k);
    assert(s.take(k) =~= a);
    assert(s.skip(k + 2) =~= b);
    lemma_find_gap(b, 0, b.len() as int);
    lemma_groups(l);
    lemma_groups(r);
    lemma_wire(all);
    let g = counted(l) + Seq::new((8 - l.len() - r.len()) as nat, |i: int| 0int) + counted(r);
    assert(counted(l).len() == l.len() && counted(r).len() == r.len());
    assert(ipv6_groups(s) == Some(g));
    assert forall|i: int| 0 <= i < 8 implies #[trigger] g[i] == all[i] by {}
    assert(ipv6(s)->0 =~= wire(all)) by {
        assert forall|i: int| 0 <= i < 16 implies #[trigger] ipv6(s)->0[i] == wire(all)[i] by {
            assert(g[i / 2] == all[i / 2]);
        }
    }
}

/// More groups than eight are no address, and fewer are none without `::`.
pub proof fn lemma_ipv6_needs_eight_groups(g: Seq<u16>)
    requires
        g.len() != 8,
    ensures
        ipv6(colons(g)) is None,
{
    let s = colons(g);
    lemma_no_gap(g);
    lemma_find_gap(s, 0, s.len() as int);
    lemma_groups(g);
}

// --------------------------------------------------------------------- CIDR

/// An address with a prefix length behind it.
pub open spec fn slashed(addr: Seq<char>, n: nat) -> Seq<char> {
    addr + seq!['/'] + dec(n)
}

/// The prefix length and the address are what stands behind the slash and
/// before it; a length above the most is refused.
pub proof fn lemma_prefix_undoes_writing(addr: Seq<char>, n: nat, max: int)
    requires
        lacks(addr, '/'),
        0 <= max <= 255,
    ensures
        network(slashed(addr, n)) == addr,
        n <= max ==> prefix(slashed(addr, n), max) == Some(n as int),
        n > max ==> prefix(slashed(addr, n), max) is None,
{
    let s = slashed(addr, n);
    let k = addr.len() as int;
    assert forall|j: int| 0 <= j < k implies #[trigger] s[j] != '/' by {
        assert(s[j] == addr[j]);
    }
    lemma_find(s, '/', 0, k);
    lemma_dec_value(n);
    assert(s.take(k) =~= addr);
    assert(s.skip(k + 1) =~= dec(n));
}

/// Without a slash the whole text is the address, of full length.
pub proof fn lemma_bare_address(addr: Seq<char>, max: int)
    requires
        lacks(addr, '/'),
    ensures
        network(addr) == addr,
        prefix(addr, max) == Some(max),
{
    lemma_find(addr, '/', 0, addr.len() as int);
    assert(addr.take(addr.len() as int) =~= addr);
}

/// Bit number `b` of a byte, counted from the highest.
pub open spec fn high_bit(x: u8, b: int) -> bool {
    if b == 0 {
        x / 128 % 2 == 1
    } else if b == 1 {
        x / 64 % 2 == 1
    } else if b == 2 {
        x / 32 % 2 == 1
    } else if b == 3 {
        x / 16 % 2 == 1
    } else if b == 4 {
        x / 8 % 2 == 1
    } else if b == 5 {
        x / 4 % 2 == 1
    } else if b == 6 {
        x / 2 % 2 == 1
    } else {
        x % 2 == 1
    }
}

/// A netmask of length `len` has its first `len` bits set, and no other.
pub proof fn lemma_mask6_sets_the_first_bits(len: u8, i: int, b: int)
    requires
        0 <= i < 16,
        0 <= b < 8,
    ensures
        high_bit(mask_byte(len, i), b) == (8 * i + b < len),
{
}

} // verus!
