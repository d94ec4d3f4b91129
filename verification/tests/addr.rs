//! Address literals.

use honeyc::addr::{mask4, mask6, parse_cidr4, parse_cidr6, parse_ipv4, parse_ipv6, parse_mac};

#[test]
fn cidr() {
    assert_eq!(parse_cidr4("10.0.0.0/8"), Some((0x0a00_0000, 8)));
    assert_eq!(parse_cidr4("127.0.0.1"), Some((0x7f00_0001, 32)));
    assert_eq!(parse_cidr4("10.0.0.0/33"), None);
    assert_eq!(mask4(8), 0xff00_0000);
    assert_eq!(mask4(0), 0);
    assert_eq!(mask4(32), u32::MAX);
    let (net, len) = parse_cidr6("fe80::/10").unwrap();
    assert_eq!((net[0], net[1], len), (0xfe, 0x80, 10));
    assert_eq!(mask6(10)[..2], [0xff, 0xc0]);
    assert_eq!(mask6(10)[2], 0);
    assert_eq!(mask6(128), [0xff; 16]);
    assert_eq!(parse_cidr6("::1/129"), None);
}

#[test]
fn ipv4() {
    assert_eq!(parse_ipv4("127.0.0.1"), Some(0x7f00_0001));
    assert_eq!(parse_ipv4("255.255.255.255"), Some(u32::MAX));
    assert_eq!(parse_ipv4("1.2.3"), None);
    assert_eq!(parse_ipv4("1.2.3.256"), None);
    assert_eq!(parse_ipv4("a.b.c.d"), None);
}

#[test]
fn mac() {
    assert_eq!(parse_mac("aa:bb:cc:dd:ee:ff"), Some([0xaa, 0xbb, 0xcc, 0xdd, 0xee, 0xff]));
    assert_eq!(parse_mac("00:00:00:00:00:00"), Some([0; 6]));
    assert_eq!(parse_mac("aa:bb:cc:dd:ee"), None);
    assert_eq!(parse_mac("aa:bb:cc:dd:ee:f"), None);
}

#[test]
fn ipv6() {
    let mut one = [0u8; 16];
    one[15] = 1;
    assert_eq!(parse_ipv6("::1"), Some(one));
    assert_eq!(parse_ipv6("::"), Some([0; 16]));
    let mut fe80 = [0u8; 16];
    fe80[0] = 0xfe;
    fe80[1] = 0x80;
    fe80[15] = 0x01;
    assert_eq!(parse_ipv6("fe80::1"), Some(fe80));
    assert_eq!(parse_ipv6("2001:db8:0:0:0:0:0:1"), parse_ipv6("2001:db8::1"));
    assert_eq!(parse_ipv6("1:2:3:4:5:6:7"), None); // too few without ::
    assert_eq!(parse_ipv6("1::2::3"), None);
    assert_eq!(parse_ipv6("12345::"), None);
}
#[test]
fn groups_are_hexadecimal_digits_only() {
    assert_eq!(parse_ipv6("+1::"), None);
    assert_eq!(parse_ipv6("::-1"), None);
    assert_eq!(parse_ipv6("::12345"), None);
    assert_eq!(parse_ipv6("1:::2"), None);
    assert_eq!(parse_mac("+1:bb:cc:dd:ee:ff"), None);
    assert_eq!(parse_mac("001:bb:cc:dd:ee:ff"), None);
    assert_eq!(parse_mac("g0:bb:cc:dd:ee:ff"), None);
}
