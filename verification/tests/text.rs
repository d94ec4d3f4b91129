//! Numbers and characters as text.

use honeyc::text::{
    cat3, chars_of, dec_text, push_hex, push_hex_padded, same, signed_text, starts_with, width_of,
};

#[test]
fn numbers_are_written_in_full() {
    assert_eq!(dec_text(0), "0");
    assert_eq!(dec_text(u64::MAX), "18446744073709551615");
    assert_eq!(signed_text(-7), "-7");
    assert_eq!(signed_text(i64::MIN), "-9223372036854775808");
}

#[test]
fn hexadecimal_is_padded_on_the_left() {
    let mut s = String::new();
    push_hex(&mut s, 0xbeef);
    s.push(' ');
    push_hex_padded(&mut s, 0x9f, 4);
    assert_eq!(s, "beef 009f");
}

#[test]
fn characters_are_as_wide_as_their_encoding() {
    for c in ['a', 'é', '日', '🐝'] {
        assert_eq!(width_of(c), c.len_utf8());
    }
    assert_eq!(chars_of("é日"), vec!['é', '日']);
}

#[test]
fn texts_are_compared_and_joined() {
    assert!(same("str", "str"));
    assert!(!same("str", "st"));
    assert!(starts_with("__be32", "__be"));
    assert!(!starts_with("be", "be3"));
    assert_eq!(cat3("a", "", "c"), "ac");
}
