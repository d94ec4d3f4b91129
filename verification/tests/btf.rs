//! Kernel type information.

use honeyc::btf::{Btf, Resolved, INT, MAGIC, PTR, STRUCT};

/// Encode a tiny BTF blob by hand, so the parser is tested without a real
/// kernel. Types: [1] u32 int, [2] char int, [3] ptr->char, [4] struct
/// qstr { name: ptr->char @8 }, [5] ptr->qstr, [6] struct dentry {
/// d_name: qstr @32 (embedded), d_parent: ptr->dentry @24 }.
fn sample() -> Vec<u8> {
    let mut types: Vec<u8> = Vec::new();
    let push = |v: &mut Vec<u8>, name_off: u32, info: u32, sot: u32| {
        v.extend_from_slice(&name_off.to_le_bytes());
        v.extend_from_slice(&info.to_le_bytes());
        v.extend_from_slice(&sot.to_le_bytes());
    };
    let kind = |k: u32, vlen: u32, flag: u32| (flag << 31) | (k << 24) | vlen;

    // string table: build offsets as we go
    let mut strs = vec![0u8]; // first byte is the empty string
    let soff = |s: &str, strs: &mut Vec<u8>| -> u32 {
        let off = strs.len() as u32;
        strs.extend_from_slice(s.as_bytes());
        strs.push(0);
        off
    };
    let s_u32 = soff("u32", &mut strs);
    let s_char = soff("char", &mut strs);
    let s_qstr = soff("qstr", &mut strs);
    let s_name = soff("name", &mut strs);
    let s_dentry = soff("dentry", &mut strs);
    let s_dname = soff("d_name", &mut strs);
    let s_dparent = soff("d_parent", &mut strs);

    // [1] INT u32 (size 4, unsigned)
    push(&mut types, s_u32, kind(INT, 0, 0), 4);
    types.extend_from_slice(&0u32.to_le_bytes()); // int encoding
    // [2] INT char (size 1)
    push(&mut types, s_char, kind(INT, 0, 0), 1);
    types.extend_from_slice(&(2u32 << 24).to_le_bytes()); // char encoding bit
    // [3] PTR -> char (type 2)
    push(&mut types, 0, kind(PTR, 0, 0), 2);
    // [4] STRUCT qstr { name: ptr(3) @ byte 8 }
    push(&mut types, s_qstr, kind(STRUCT, 1, 0), 16);
    types.extend_from_slice(&s_name.to_le_bytes());
    types.extend_from_slice(&3u32.to_le_bytes());
    types.extend_from_slice(&(8u32 * 8).to_le_bytes()); // bit offset
    // [5] PTR -> dentry (type 6, forward ref is fine by id)
    push(&mut types, 0, kind(PTR, 0, 0), 6);
    // [6] STRUCT dentry { d_name: qstr(4) @32, d_parent: ptr(5) @24 }
    push(&mut types, s_dentry, kind(STRUCT, 2, 0), 192);
    types.extend_from_slice(&s_dname.to_le_bytes());
    types.extend_from_slice(&4u32.to_le_bytes());
    types.extend_from_slice(&(32u32 * 8).to_le_bytes());
    types.extend_from_slice(&s_dparent.to_le_bytes());
    types.extend_from_slice(&5u32.to_le_bytes());
    types.extend_from_slice(&(24u32 * 8).to_le_bytes());

    // header
    let hdr_len = 24u32;
    let type_len = types.len() as u32;
    let str_len = strs.len() as u32;
    let mut out = Vec::new();
    out.extend_from_slice(&MAGIC.to_le_bytes());
    out.push(1); // version
    out.push(0); // flags
    out.extend_from_slice(&hdr_len.to_le_bytes());
    out.extend_from_slice(&0u32.to_le_bytes()); // type_off
    out.extend_from_slice(&type_len.to_le_bytes());
    out.extend_from_slice(&type_len.to_le_bytes()); // str_off = after types
    out.extend_from_slice(&str_len.to_le_bytes());
    out.extend_from_slice(&types);
    out.extend_from_slice(&strs);
    out
}

#[test]
fn parses_structs_and_members() {
    let btf = Btf::parse(&sample()).unwrap();
    assert!(btf.is_struct("qstr"));
    assert!(btf.is_struct("dentry"));
    assert!(!btf.is_struct("nope"));

    let name = btf.member("qstr", "name").unwrap();
    assert_eq!(name.offset_bytes, 8);
    assert_eq!(btf.resolve(name.type_id), Resolved::PtrToChar);

    let dname = btf.member("dentry", "d_name").unwrap();
    assert_eq!(dname.offset_bytes, 32);
    assert_eq!(btf.resolve(dname.type_id), Resolved::Struct { id: 4, name: "qstr".into() });

    let dparent = btf.member("dentry", "d_parent").unwrap();
    assert_eq!(dparent.offset_bytes, 24);
    assert_eq!(btf.resolve(dparent.type_id), Resolved::PtrToStruct { id: 6, name: "dentry".into() });
    assert_eq!(btf.member_of(6, "d_name").map(|m| m.offset_bytes), Some(32));
    assert_eq!(btf.type_size(6), Some(192));
    assert_eq!(btf.struct_name(4).as_deref(), Some("qstr"));
    assert_eq!(btf.struct_size("dentry"), Some(192));
    assert_eq!(btf.resolve(1), Resolved::Int { bytes: 4, signed: false, big_endian: false });
}

#[test]
fn unknown_member_is_none() {
    let btf = Btf::parse(&sample()).unwrap();
    assert!(btf.member("qstr", "missing").is_none());
    assert!(btf.member("nostruct", "x").is_none());
}

#[test]
fn rejects_bad_magic() {
    let mut b = sample();
    b[0] = 0;
    assert!(Btf::parse(&b).is_err());
}