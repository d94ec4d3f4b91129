//! Reading the kernel's types, at their edges.

use honeyc::btf::{is_readable, Btf, Resolved, INT, STRUCT};

/// A table of the given types, each a name offset, its kind and its size, with
/// the names behind them.
fn table(types: &[(u32, u32, u32)], names: &[u8]) -> Vec<u8> {
    let mut body: Vec<u8> = Vec::new();
    for (name, kind, size) in types {
        for w in [*name, kind << 24, *size] {
            body.extend_from_slice(&w.to_le_bytes());
        }
        if *kind == INT {
            body.extend_from_slice(&[0, 0, 0, 1]);
        }
    }
    let len = body.len() as u32;
    let mut b: Vec<u8> = vec![0x9f, 0xeb, 1, 0];
    for w in [24, 0, len, len, names.len() as u32] {
        b.extend_from_slice(&w.to_le_bytes());
    }
    b.extend_from_slice(&body);
    b.extend_from_slice(names);
    b
}

#[test]
fn of_two_structs_with_one_name_the_first_counts() {
    let b = table(&[(0, INT, 4), (1, STRUCT, 8), (1, STRUCT, 16)], b"\0s\0");
    let btf = Btf::parse(&b).unwrap();
    assert_eq!(btf.struct_id("s"), Some(2));
    assert_eq!(btf.struct_size("s"), Some(8));
    assert_eq!(btf.type_size(3), Some(16));
    assert_eq!(btf.struct_id(""), None);
}

#[test]
fn an_integer_knows_its_sign() {
    let b = table(&[(1, INT, 8)], b"\0long\0");
    let btf = Btf::parse(&b).unwrap();
    assert_eq!(btf.resolve(1), Resolved::Int { bytes: 8, signed: true, big_endian: false });
    assert_eq!(btf.resolve(1).clone(), btf.resolve(1));
    assert_eq!(btf.resolve(2), Resolved::Other);
}

#[test]
fn a_name_behind_the_names_is_empty() {
    let b = table(&[(9, STRUCT, 8)], b"\0s\0");
    let btf = Btf::parse(&b).unwrap();
    assert!(!btf.is_struct("s"));
    assert!(!btf.is_struct(""));
}

#[test]
fn members_outside_the_bytes_are_not_readable() {
    // A struct that claims one member, with no bytes for it.
    let mut b = table(&[(1, STRUCT, 8)], b"\0");
    b[28] = 1;
    assert!(!is_readable(&b));
    assert!(is_readable(&table(&[(1, STRUCT, 8)], b"\0")));
    assert!(is_readable(b"neither magic nor types"));
}

/// `struct s { <8 bytes>; struct { <4 bytes>; int x; }; }`, types 2 and 3.
fn nested() -> Vec<u8> {
    let names = b"\0s\0x\0";
    let mut body: Vec<u8> = Vec::new();
    for w in [0, INT << 24, 4, 0x0100_0000] {
        body.extend_from_slice(&u32::to_le_bytes(w));
    }
    for w in [1, STRUCT << 24 | 1, 16, 0, 3, 64] {
        body.extend_from_slice(&u32::to_le_bytes(w));
    }
    for w in [0, STRUCT << 24 | 1, 8, 3, 1, 32] {
        body.extend_from_slice(&u32::to_le_bytes(w));
    }
    let len = body.len() as u32;
    let mut b: Vec<u8> = vec![0x9f, 0xeb, 1, 0];
    for w in [24, 0, len, len, names.len() as u32] {
        b.extend_from_slice(&w.to_le_bytes());
    }
    b.extend_from_slice(&body);
    b.extend_from_slice(names);
    b
}

#[test]
fn members_of_an_anonymous_member_are_found() {
    let btf = Btf::parse(&nested()).unwrap();
    let inner = btf.member_of(3, "x").unwrap();
    assert_eq!((inner.offset_bytes, inner.type_id), (4, 1));
    let outer = btf.member_of(2, "x").unwrap();
    assert_eq!((outer.offset_bytes, outer.type_id), (12, 1));
    assert_eq!(btf.member("s", "x").map(|m| m.offset_bytes), Some(12));
    assert!(btf.member_of(2, "y").is_none());
}
