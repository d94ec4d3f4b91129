//! Parsing of address literals: `"127.0.0.1"`, `"::1"`, `"aa:bb:cc:dd:ee:ff"`.
//! Used by the type checker (to validate) and the code generator (to get the
//! bytes).

use crate::lexer::digit_value;
use crate::text::chars_of;
use vstd::arithmetic::power2::{lemma2_to64, pow2};
use vstd::prelude::*;

verus! {

// ------------------------------------------------------------ pieces of text

/// The first position of `c` at or behind `i`, or the end.
pub open spec fn find(s: Seq<char>, c: char, i: int) -> int
    decreases s.len() - i,
{
    if i >= s.len() || s[i] == c {
        i
    } else {
        find(s, c, i + 1)
    }
}

/// The first position of `::` at or behind `i`, or the end.
pub open spec fn find_gap(s: Seq<char>, i: int) -> int
    decreases s.len() - i,
{
    if i >= s.len() || (i + 1 < s.len() && s[i] == ':' && s[i + 1] == ':') {
        i
    } else {
        find_gap(s, i + 1)
    }
}

proof fn lemma_find_gap(s: Seq<char>, i: int)
    requires
        0 <= i <= s.len(),
    ensures
        i <= find_gap(s, i) <= s.len(),
        find_gap(s, i) < s.len() ==> find_gap(s, i) + 1 < s.len(),
    decreases s.len() - i,
{
    if i < s.len() && !(i + 1 < s.len() && s[i] == ':' && s[i + 1] == ':') {
        lemma_find_gap(s, i + 1);
    }
}

/// The pieces of `s` from `i` on, cut at every `sep`.
pub open spec fn split(s: Seq<char>, sep: char, i: int) -> Seq<Seq<char>>
    decreases s.len() - i,
{
    let k = find(s, sep, i);
    if i <= k < s.len() {
        seq![s.subrange(i, k)] + split(s, sep, k + 1)
    } else {
        seq![s.subrange(i, s.len() as int)]
    }
}

fn find_from(s: &Vec<char>, c: char, from: usize) -> (r: usize)
    requires
        from <= s@.len(),
    ensures
        r == find(s@, c, from as int),
        from <= r <= s@.len(),
{
    let mut i: usize = from;
    while i < s.len() && s[i] != c
        invariant
            from <= i <= s@.len(),
            find(s@, c, i as int) == find(s@, c, from as int),
        decreases s@.len() - i,
    {
        i += 1;
    }
    i
}

fn find_gap_from(s: &Vec<char>, from: usize) -> (r: usize)
    requires
        from <= s@.len(),
    ensures
        r == find_gap(s@, from as int),
        from <= r <= s@.len(),
        r < s@.len() ==> r + 1 < s@.len(),
{
    let mut i: usize = from;
    while i < s.len() && !(s.len() - i > 1 && s[i] == ':' && s[i + 1] == ':')
        invariant
            from <= i <= s@.len(),
            find_gap(s@, i as int) == find_gap(s@, from as int),
        decreases s@.len() - i,
    {
        i += 1;
    }
    proof {
        lemma_find_gap(s@, from as int);
    }
    i
}

fn piece(s: &Vec<char>, from: usize, to: usize) -> (r: Vec<char>)
    requires
        from <= to <= s@.len(),
    ensures
        r@ == s@.subrange(from as int, to as int),
{
    let mut v: Vec<char> = Vec::new();
    let mut i: usize = from;
    while i < to
        invariant
            from <= i <= to <= s@.len(),
            v@ == s@.subrange(from as int, i as int),
        decreases to - i,
    {
        v.push(s[i]);
        i += 1;
    }
    v
}

/// The texts of a list of pieces.
pub open spec fn pieces(v: Seq<Vec<char>>) -> Seq<Seq<char>> {
    v.map_values(|p: Vec<char>| p@)
}

fn split_at_each(s: &Vec<char>, sep: char) -> (r: Vec<Vec<char>>)
    ensures
        pieces(r@) == split(s@, sep, 0),
{
    let mut list: Vec<Vec<char>> = Vec::new();
    let mut from: usize = 0;
    let mut to: usize = find_from(s, sep, 0);
    assert(pieces(list@) + split(s@, sep, 0) =~= split(s@, sep, 0));
    while to < s.len()
        invariant
            from <= to <= s@.len(),
            to == find(s@, sep, from as int),
            pieces(list@) + split(s@, sep, from as int) == split(s@, sep, 0),
        decreases s@.len() - to,
    {
        let p = piece(s, from, to);
        let ghost before = pieces(list@);
        list.push(p);
        assert(pieces(list@) =~= before.push(p@));
        assert(before + split(s@, sep, from as int) =~= pieces(list@) + split(s@, sep, to + 1));
        from = to + 1;
        to = find_from(s, sep, from);
    }
    let p = piece(s, from, s.len());
    let ghost before = pieces(list@);
    list.push(p);
    assert(pieces(list@) =~= before.push(p@));
    assert(before + split(s@, sep, from as int) =~= pieces(list@));
    list
}

// ------------------------------------------------------------------ numbers

/// Whether every character is a digit of the radix.
pub open spec fn all_digits(s: Seq<char>, radix: int) -> bool {
    forall|i: int| 0 <= i < s.len() ==> digit_value(#[trigger] s[i]) < radix
}

/// The number that a run of digits denotes.
pub open spec fn value(s: Seq<char>, radix: int) -> int
    decreases s.len(),
{
    if s.len() == 0 {
        0
    } else {
        value(s.drop_last(), radix) * radix + digit_value(s.last())
    }
}

/// An unsigned number: digits, with at most a plus sign before them, that come
/// to no more than `max`.
pub open spec fn number(s: Seq<char>, radix: int, max: int) -> Option<int> {
    let digits = if s.len() > 0 && s[0] == '+' {
        s.skip(1)
    } else {
        s
    };
    if digits.len() > 0 && all_digits(digits, radix) && value(digits, radix) <= max {
        Some(value(digits, radix))
    } else {
        None
    }
}

fn digit_of(c: char) -> (r: u8)
    ensures
        r == digit_value(c),
{
    if '0' <= c && c <= '9' {
        (c as u32 - '0' as u32) as u8
    } else if 'a' <= c && c <= 'f' {
        (c as u32 - 'a' as u32 + 10) as u8
    } else if 'A' <= c && c <= 'F' {
        (c as u32 - 'A' as u32 + 10) as u8
    } else {
        99
    }
}

/// The value of the digits from `from` on, if they are digits and it is no
/// more than `max`.
fn digits_value(s: &Vec<char>, from: usize, radix: u8, max: u32) -> (r: Option<u32>)
    requires
        from <= s@.len(),
        2 <= radix <= 16,
    ensures
        ({
            let digits = s@.skip(from as int);
            let good = all_digits(digits, radix as int) && value(digits, radix as int) <= max;
            match r {
                Some(v) => good && v == value(digits, radix as int),
                None => !good,
            }
        }),
{
    let ghost all = s@.skip(from as int);
    let mut over = false;
    let mut sum: u32 = 0;
    let mut i: usize = from;
    while i < s.len()
        invariant
            from <= i <= s@.len(),
            2 <= radix <= 16,
            all == s@.skip(from as int),
            all_digits(all.take(i - from), radix as int),
            0 <= value(all.take(i - from), radix as int),
            over == (value(all.take(i - from), radix as int) > max),
            !over ==> sum == value(all.take(i - from), radix as int),
        decreases s@.len() - i,
    {
        let d: u8 = digit_of(s[i]);
        let ghost k = i - from;
        let ghost next = all.take(k + 1);
        assert(all[k] == s@[i as int]);
        if d >= radix {
            assert(!all_digits(all, radix as int));
            return None;
        }
        let ghost n = value(all.take(k), radix as int);
        proof {
            assert(next.drop_last() =~= all.take(k));
            assert(next.last() == s@[i as int]);
            assert(value(next, radix as int) == n * radix + d);
            assert(n * radix >= n) by (nonlinear_arith)
                requires
                    n >= 0,
                    radix >= 2,
            ;
            assert(n <= max ==> n * radix <= max * 16) by (nonlinear_arith)
                requires
                    n >= 0,
                    2 <= radix <= 16,
            ;
            assert forall|j: int| 0 <= j < next.len() implies digit_value(#[trigger] next[j])
                < radix by {
                if j < k {
                    assert(all.take(k)[j] == next[j]);
                }
            }
        }
        if !over {
            let v: u64 = (sum as u64) * (radix as u64) + (d as u64);
            if v > max as u64 {
                over = true;
            } else {
                sum = v as u32;
            }
        }
        i += 1;
    }
    assert(all.take(i - from) =~= all);
    if over {
        None
    } else {
        Some(sum)
    }
}

/// So many hexadecimal digits hold so many halves of a byte.
proof fn lemma_hex_bound(s: Seq<char>)
    requires
        s.len() <= 4,
        all_digits(s, 16),
    ensures
        0 <= value(s, 16),
        s.len() == 0 ==> value(s, 16) == 0,
        s.len() == 1 ==> value(s, 16) < 0x10,
        s.len() == 2 ==> value(s, 16) < 0x100,
        s.len() == 3 ==> value(s, 16) < 0x1000,
        s.len() == 4 ==> value(s, 16) < 0x1_0000,
    decreases s.len(),
{
    if s.len() > 0 {
        assert forall|j: int| 0 <= j < s.len() - 1 implies digit_value(
            #[trigger] s.drop_last()[j],
        ) < 16 by {
            assert(s[j] == s.drop_last()[j]);
        }
        lemma_hex_bound(s.drop_last());
        assert(digit_value(s[s.len() - 1]) < 16);
    }
}

/// The value of a text of at most four hexadecimal digits.
fn hex_of(s: &Vec<char>) -> (r: Option<u32>)
    requires
        s@.len() <= 4,
    ensures
        match r {
            Some(v) => all_digits(s@, 16) && v == value(s@, 16),
            None => !all_digits(s@, 16),
        },
{
    proof {
        assert(s@.skip(0) =~= s@);
        if all_digits(s@, 16) {
            lemma_hex_bound(s@);
        }
    }
    digits_value(s, 0, 16, 0xffff)
}

fn number_of(s: &Vec<char>, radix: u8, max: u32) -> (r: Option<u32>)
    requires
        2 <= radix <= 16,
    ensures
        match r {
            Some(v) => number(s@, radix as int, max as int) == Some(v as int),
            None => number(s@, radix as int, max as int) is None,
        },
{
    let from: usize = if s.len() > 0 && s[0] == '+' {
        1
    } else {
        0
    };
    assert(s@.skip(0) =~= s@);
    if s.len() == from {
        return None;
    }
    digits_value(s, from, radix, max)
}

// --------------------------------------------------------------------- IPv4

/// One to three decimal digits that come to no more than 255.
pub open spec fn octet(s: Seq<char>) -> Option<int> {
    if 1 <= s.len() <= 3 && all_digits(s, 10) && value(s, 10) <= 255 {
        Some(value(s, 10))
    } else {
        None
    }
}

/// Four octets between dots, as a number in host order.
pub open spec fn ipv4(s: Seq<char>) -> Option<u32> {
    let p = split(s, '.', 0);
    if p.len() == 4 && octet(p[0]) is Some && octet(p[1]) is Some && octet(p[2]) is Some && octet(
        p[3],
    ) is Some {
        Some(
            (((octet(p[0])->0 * 256 + octet(p[1])->0) * 256 + octet(p[2])->0) * 256 + octet(
                p[3],
            )->0) as u32,
        )
    } else {
        None
    }
}

fn octet_of(s: &Vec<char>) -> (r: Option<u32>)
    ensures
        match r {
            Some(v) => octet(s@) == Some(v as int) && v <= 255,
            None => octet(s@) is None,
        },
{
    assert(s@.skip(0) =~= s@);
    if s.len() == 0 || s.len() > 3 {
        return None;
    }
    digits_value(s, 0, 10, 255)
}

/// `"a.b.c.d"` as a host-order u32 (what `pkt.u32` yields).
pub fn parse_ipv4(s: &str) -> (r: Option<u32>)
    ensures
        r == ipv4(s@),
{
    let chars = chars_of(s);
    parse_ipv4_chars(&chars)
}

fn parse_ipv4_chars(chars: &Vec<char>) -> (r: Option<u32>)
    ensures
        r == ipv4(chars@),
{
    let parts = split_at_each(chars, '.');
    assert(parts@.len() == pieces(parts@).len());
    if parts.len() != 4 {
        return None;
    }
    proof {
        let p = pieces(parts@);
        assert(p[0] == parts@[0]@ && p[1] == parts@[1]@ && p[2] == parts@[2]@ && p[3]
            == parts@[3]@);
    }
    let a: u32 = octet_of(&parts[0])?;
    let b: u32 = octet_of(&parts[1])?;
    let c: u32 = octet_of(&parts[2])?;
    let d: u32 = octet_of(&parts[3])?;
    Some(((a * 256 + b) * 256 + c) * 256 + d)
}

// ---------------------------------------------------------------------- MAC

/// Two hexadecimal digits.
pub open spec fn mac_byte(s: Seq<char>) -> Option<int> {
    if s.len() == 2 && all_digits(s, 16) {
        Some(value(s, 16))
    } else {
        None
    }
}

/// Six bytes between colons.
pub open spec fn mac(s: Seq<char>) -> Option<Seq<u8>> {
    let p = split(s, ':', 0);
    if p.len() == 6 && forall|i: int| 0 <= i < 6 ==> mac_byte(#[trigger] p[i]) is Some {
        Some(Seq::new(6, |i: int| (mac_byte(p[i])->0) as u8))
    } else {
        None
    }
}

/// `"aa:bb:cc:dd:ee:ff"` as 6 bytes.
pub fn parse_mac(s: &str) -> (r: Option<[u8; 6]>)
    ensures
        match r {
            Some(a) => mac(s@) == Some(a@),
            None => mac(s@) is None,
        },
{
    let chars = chars_of(s);
    let parts = split_at_each(&chars, ':');
    let ghost p = split(s@, ':', 0);
    assert(parts@.len() == p.len());
    if parts.len() != 6 {
        return None;
    }
    let mut out: Vec<u8> = Vec::new();
    let mut i: usize = 0;
    while i < 6
        invariant
            0 <= i <= 6,
            parts@.len() == 6,
            p == split(s@, ':', 0),
            p == pieces(parts@),
            out@.len() == i,
            forall|k: int|
                0 <= k < i ==> mac_byte(#[trigger] p[k]) is Some && out@[k] == mac_byte(p[k])->0,
        decreases 6 - i,
    {
        assert(p[i as int] == parts@[i as int]@);
        if parts[i].len() != 2 {
            return None;
        }
        match hex_of(&parts[i]) {
            Some(v) => {
                proof {
                    lemma_hex_bound(parts@[i as int]@);
                }
                out.push(v as u8)
            },
            None => {
                return None;
            },
        }
        i += 1;
    }
    let a: [u8; 6] = [out[0], out[1], out[2], out[3], out[4], out[5]];
    assert(a@ =~= Seq::new(6, |i: int| (mac_byte(p[i])->0) as u8));
    Some(a)
}

// --------------------------------------------------------------------- IPv6

/// One to four hexadecimal digits.
pub open spec fn group(s: Seq<char>) -> Option<int> {
    if 1 <= s.len() <= 4 && all_digits(s, 16) {
        Some(value(s, 16))
    } else {
        None
    }
}

/// The groups between the colons of a text; none of an empty one.
pub open spec fn groups(s: Seq<char>) -> Option<Seq<int>> {
    let p = split(s, ':', 0);
    if s.len() == 0 {
        Some(Seq::empty())
    } else if forall|i: int| 0 <= i < p.len() ==> group(#[trigger] p[i]) is Some {
        Some(Seq::new(p.len(), |i: int| group(p[i])->0))
    } else {
        None
    }
}

/// The eight groups of an address: all written out, or with one `::` for the
/// run of zero groups.
pub open spec fn ipv6_groups(s: Seq<char>) -> Option<Seq<int>> {
    let k = find_gap(s, 0);
    if k >= s.len() {
        match groups(s) {
            Some(g) => if g.len() == 8 {
                Some(g)
            } else {
                None
            },
            None => None,
        }
    } else {
        let right = s.skip(k + 2);
        if find_gap(right, 0) < right.len() {
            None
        } else {
            match (groups(s.take(k)), groups(right)) {
                (Some(l), Some(r)) => if l.len() + r.len() <= 7 {
                    Some(l + Seq::new((8 - l.len() - r.len()) as nat, |i: int| 0int) + r)
                } else {
                    None
                },
                _ => None,
            }
        }
    }
}

/// The bytes of a list of groups, each high byte first.
pub open spec fn group_bytes(g: Seq<int>) -> Seq<u8> {
    Seq::new(
        2 * g.len(),
        |i: int|
            if i % 2 == 0 {
                (g[i / 2] / 256) as u8
            } else {
                (g[i / 2] % 256) as u8
            },
    )
}

/// An address as 16 bytes.
pub open spec fn ipv6(s: Seq<char>) -> Option<Seq<u8>> {
    match ipv6_groups(s) {
        Some(g) => Some(group_bytes(g)),
        None => None,
    }
}

/// A list of groups as numbers.
spec fn ints(v: Seq<u16>) -> Seq<int> {
    v.map_values(|g: u16| g as int)
}

fn groups_of(s: &Vec<char>) -> (r: Option<Vec<u16>>)
    ensures
        match r {
            Some(v) => groups(s@) == Some(ints(v@)),
            None => groups(s@) is None,
        },
{
    let mut list: Vec<u16> = Vec::new();
    if s.len() == 0 {
        assert(ints(list@) =~= Seq::empty());
        return Some(list);
    }
    let parts = split_at_each(s, ':');
    let ghost p = split(s@, ':', 0);
    let mut i: usize = 0;
    while i < parts.len()
        invariant
            0 <= i <= parts@.len(),
            s@.len() > 0,
            p == split(s@, ':', 0),
            p == pieces(parts@),
            list@.len() == i,
            forall|k: int|
                0 <= k < i ==> group(#[trigger] p[k]) is Some && list@[k] == group(p[k])->0,
        decreases parts@.len() - i,
    {
        assert(p[i as int] == parts@[i as int]@);
        if parts[i].len() == 0 || parts[i].len() > 4 {
            return None;
        }
        match hex_of(&parts[i]) {
            Some(v) => {
                proof {
                    lemma_hex_bound(parts@[i as int]@);
                }
                list.push(v as u16)
            },
            None => {
                return None;
            },
        }
        i += 1;
    }
    assert(ints(list@) =~= Seq::new(p.len(), |i: int| group(p[i])->0));
    Some(list)
}

fn ipv6_groups_of(s: &Vec<char>) -> (r: Option<Vec<u16>>)
    ensures
        match r {
            Some(v) => ipv6_groups(s@) == Some(ints(v@)) && v@.len() == 8,
            None => ipv6_groups(s@) is None,
        },
{
    let k: usize = find_gap_from(s, 0);
    if k >= s.len() {
        let g = groups_of(s)?;
        assert(ints(g@).len() == g@.len());
        if g.len() != 8 {
            return None;
        }
        return Some(g);
    }
    let left = piece(s, 0, k);
    let right = piece(s, k + 2, s.len());
    assert(left@ =~= s@.take(k as int));
    assert(right@ =~= s@.skip(k + 2));
    let second: usize = find_gap_from(&right, 0);
    if second < right.len() {
        return None;
    }
    let l = groups_of(&left)?;
    let r = groups_of(&right)?;
    assert(ints(l@).len() == l@.len());
    assert(ints(r@).len() == r@.len());
    if l.len() > 7 || r.len() > 7 - l.len() {
        return None;
    }
    let ghost zeros = Seq::new((8 - l@.len() - r@.len()) as nat, |i: int| 0int);
    let ghost (gl, gr) = (ints(l@), ints(r@));
    let mut all = l;
    let mut n: usize = 8 - all.len() - r.len();
    while n > 0
        invariant
            all@.len() + n + r@.len() == 8,
            n <= zeros.len(),
            gl.len() + zeros.len() + r@.len() == 8,
            zeros == Seq::new(zeros.len(), |i: int| 0int),
            ints(all@) == gl + zeros.take(zeros.len() - n),
        decreases n,
    {
        let ghost before = ints(all@);
        all.push(0);
        n -= 1;
        assert(ints(all@) =~= before.push(0));
        assert(before.push(0) =~= gl + zeros.take(zeros.len() - n));
    }
    assert(zeros.take(zeros.len() as int) =~= zeros);
    let mut j: usize = 0;
    while j < r.len()
        invariant
            0 <= j <= r@.len(),
            all@.len() == 8 - r@.len() + j,
            gr == ints(r@),
            ints(all@) == gl + zeros + gr.take(j as int),
        decreases r@.len() - j,
    {
        let ghost before = ints(all@);
        all.push(r[j]);
        assert(ints(all@) =~= before.push(gr[j as int]));
        assert(before.push(gr[j as int]) =~= gl + zeros + gr.take(j + 1));
        j += 1;
    }
    assert(gr.take(j as int) =~= gr);
    Some(all)
}

fn parse_ipv6_chars(chars: &Vec<char>) -> (r: Option<[u8; 16]>)
    ensures
        match r {
            Some(a) => ipv6(chars@) == Some(a@),
            None => ipv6(chars@) is None,
        },
{
    let g = ipv6_groups_of(chars)?;
    let mut out: Vec<u8> = Vec::new();
    let mut i: usize = 0;
    while i < 8
        invariant
            0 <= i <= 8,
            g@.len() == 8,
            out@.len() == 2 * i,
            forall|k: int|
                0 <= k < 2 * i ==> #[trigger] out@[k] == (if k % 2 == 0 {
                    g@[k / 2] / 256
                } else {
                    g@[k / 2] % 256
                }),
        decreases 8 - i,
    {
        out.push((g[i] / 256) as u8);
        out.push((g[i] % 256) as u8);
        i += 1;
    }
    let a: [u8; 16] = [
        out[0],
        out[1],
        out[2],
        out[3],
        out[4],
        out[5],
        out[6],
        out[7],
        out[8],
        out[9],
        out[10],
        out[11],
        out[12],
        out[13],
        out[14],
        out[15],
    ];
    proof {
        let b = group_bytes(ints(g@));
        assert(a@ =~= out@);
        assert forall|k: int| 0 <= k < 16 implies #[trigger] a@[k] == b[k] by {
            assert(a@[k] == out@[k]);
            assert(ints(g@)[k / 2] == g@[k / 2]);
        }
        assert(a@ =~= b);
    }
    Some(a)
}

/// RFC 4291 text form as 16 bytes: up to eight 16-bit hex groups, one `::`
/// standing for the run of zero groups. No embedded IPv4, no zone ids.
pub fn parse_ipv6(s: &str) -> (r: Option<[u8; 16]>)
    ensures
        match r {
            Some(a) => ipv6(s@) == Some(a@),
            None => ipv6(s@) is None,
        },
{
    let chars = chars_of(s);
    parse_ipv6_chars(&chars)
}

// --------------------------------------------------------------------- CIDR

/// The prefix length behind a slash, or `max` where there is none.
pub open spec fn prefix(s: Seq<char>, max: int) -> Option<int> {
    let k = find(s, '/', 0);
    if k >= s.len() {
        Some(max)
    } else {
        match number(s.skip(k + 1), 10, 255) {
            Some(n) => if n <= max {
                Some(n)
            } else {
                None
            },
            None => None,
        }
    }
}

/// What stands before the slash.
pub open spec fn network(s: Seq<char>) -> Seq<char> {
    s.take(find(s, '/', 0))
}

/// The text before the slash, and the prefix length.
fn cut_prefix(s: &Vec<char>, max: u8) -> (r: Option<(Vec<char>, u8)>)
    ensures
        match r {
            Some((net, len)) => {
                &&& net@ == network(s@)
                &&& prefix(s@, max as int) == Some(len as int)
            },
            None => prefix(s@, max as int) is None,
        },
{
    let k: usize = find_from(s, '/', 0);
    let net = piece(s, 0, k);
    assert(net@ =~= s@.take(k as int));
    if k >= s.len() {
        return Some((net, max));
    }
    let tail = piece(s, k + 1, s.len());
    assert(tail@ =~= s@.skip(k + 1));
    let n: u32 = number_of(&tail, 10, 255)?;
    if n <= max as u32 {
        Some((net, n as u8))
    } else {
        None
    }
}

/// `"10.0.0.0/8"` as (network in host order, prefix length). A bare address is
/// a /32.
pub fn parse_cidr4(s: &str) -> (r: Option<(u32, u8)>)
    ensures
        match r {
            Some((net, len)) => {
                &&& prefix(s@, 32) == Some(len as int)
                &&& ipv4(network(s@)) == Some(net)
            },
            None => prefix(s@, 32) is None || ipv4(network(s@)) is None,
        },
{
    let chars = chars_of(s);
    let (net, len) = cut_prefix(&chars, 32)?;
    let addr: u32 = parse_ipv4_chars(&net)?;
    Some((addr, len))
}

/// `"fe80::/10"` as (network bytes, prefix length). A bare address is a /128.
pub fn parse_cidr6(s: &str) -> (r: Option<([u8; 16], u8)>)
    ensures
        match r {
            Some((net, len)) => {
                &&& prefix(s@, 128) == Some(len as int)
                &&& ipv6(network(s@)) == Some(net@)
            },
            None => prefix(s@, 128) is None || ipv6(network(s@)) is None,
        },
{
    let chars = chars_of(s);
    let (net, len) = cut_prefix(&chars, 128)?;
    let addr = parse_ipv6_chars(&net)?;
    Some((addr, len))
}

// -------------------------------------------------------------------- masks

/// The netmask for a prefix length, as a host-order u32: the `len` highest bits
/// are set, the others are not.
pub fn mask4(len: u8) -> (r: u32)
    requires
        len <= 32,
    ensures
        r == 0x1_0000_0000 - pow2((32 - len) as nat),
        forall|i: u32| i < 32 ==> (#[trigger] (r >> i) & 1 == 1) == (i + len >= 32),
{
    if len == 0 {
        proof {
            lemma2_to64();
        }
        assert(forall|i: u32| i < 32 ==> #[trigger] (0u32 >> i) & 1 == 0) by (bit_vector);
        0
    } else {
        let n: u32 = 32 - len as u32;
        assert(forall|i: u32|
            i < 32 ==> (#[trigger] ((0xffff_ffffu32 << n) >> i) & 1 == 1) == (i >= n))
            by (bit_vector)
            requires
                n < 32,
        ;
        assert((0xffff_ffffu32 << n) + (1u32 << n) == 0x1_0000_0000) by (bit_vector)
            requires
                n < 32,
        ;
        proof {
            vstd::bits::lemma_u32_pow2_no_overflow(n as nat);
            vstd::bits::lemma_u32_shl_is_mul(1, n);
        }
        0xffff_ffffu32 << n
    }
}

/// Byte number `i` of the netmask for a prefix length.
pub open spec fn mask_byte(len: u8, i: int) -> u8 {
    if len >= 8 * i + 8 {
        0xff
    } else if len <= 8 * i {
        0
    } else if len == 8 * i + 1 {
        0x80
    } else if len == 8 * i + 2 {
        0xc0
    } else if len == 8 * i + 3 {
        0xe0
    } else if len == 8 * i + 4 {
        0xf0
    } else if len == 8 * i + 5 {
        0xf8
    } else if len == 8 * i + 6 {
        0xfc
    } else {
        0xfe
    }
}

fn mask_byte_of(left: u8) -> (r: u8)
    ensures
        r == mask_byte(left, 0),
{
    if left >= 8 {
        0xff
    } else if left == 0 {
        0
    } else {
        let n: u8 = 8 - left;
        let b: u8 = 0xffu8 << n;
        assert((n == 7 ==> b == 0x80) && (n == 6 ==> b == 0xc0) && (n == 5 ==> b == 0xe0) && (n
            == 4 ==> b == 0xf0) && (n == 3 ==> b == 0xf8) && (n == 2 ==> b == 0xfc) && (n == 1 ==> b
            == 0xfe)) by (bit_vector)
            requires
                b == 0xffu8 << n,
        ;
        b
    }
}

/// The netmask for a prefix length, as 16 wire-order bytes.
pub fn mask6(len: u8) -> (r: [u8; 16])
    ensures
        r@ == Seq::new(16, |i: int| mask_byte(len, i)),
{
    let mut m: Vec<u8> = Vec::new();
    let mut left: u8 = len;
    let mut i: u8 = 0;
    while i < 16
        invariant
            0 <= i <= 16,
            m@.len() == i,
            left == (if len >= 8 * i {
                len - 8 * i
            } else {
                0
            }),
            forall|k: int| 0 <= k < i ==> #[trigger] m@[k] == mask_byte(len, k),
        decreases 16 - i,
    {
        m.push(mask_byte_of(left));
        left = if left >= 8 {
            left - 8
        } else {
            0
        };
        i += 1;
    }
    let a: [u8; 16] = [
        m[0],
        m[1],
        m[2],
        m[3],
        m[4],
        m[5],
        m[6],
        m[7],
        m[8],
        m[9],
        m[10],
        m[11],
        m[12],
        m[13],
        m[14],
        m[15],
    ];
    assert(a@ =~= Seq::new(16, |i: int| mask_byte(len, i))) by {
        assert(a@ =~= m@);
    }
    a
}

} // verus!
