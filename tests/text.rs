use crabtrics::address::{parse_address, IpAddress};
use crabtrics::text::{is_valid_utf8, parse_decimal, position_of};

#[test]
fn decimals() {
    assert_eq!(parse_decimal(b"0", 10), Some(0));
    assert_eq!(parse_decimal(b"007", 10), Some(7));
    assert_eq!(parse_decimal(b"+42", 100), Some(42));
    assert_eq!(parse_decimal(b"101", 100), None);
    assert_eq!(parse_decimal(b"", 100), None);
    assert_eq!(parse_decimal(b"+", 100), None);
    assert_eq!(parse_decimal(b"1 2", 100), None);
    assert_eq!(parse_decimal(b"4294967295", u32::MAX), Some(u32::MAX));
    assert_eq!(parse_decimal(b"99999999999999999999", u32::MAX), None);
}

#[test]
fn utf8_validity() {
    assert!(is_valid_utf8(b""));
    assert!(is_valid_utf8("h\u{e9}llo \u{20ac} \u{1f980}".as_bytes()));
    assert!(!is_valid_utf8(&[0xC0, 0x80]));
    assert!(!is_valid_utf8(&[0xED, 0xA0, 0x80]));
    assert!(!is_valid_utf8(&[0xE2, 0x82]));
    assert!(!is_valid_utf8(&[0xF4, 0x90, 0x80, 0x80]));
    assert!(!is_valid_utf8(&[0x80]));
}

#[test]
fn positions() {
    assert_eq!(position_of(b"a.b.c", b'.', 0), Some(1));
    assert_eq!(position_of(b"a.b.c", b'.', 2), Some(3));
    assert_eq!(position_of(b"a.b.c", b'.', 4), None);
    assert_eq!(position_of(b"abc", b'.', 9), None);
}

#[test]
fn addresses() {
    assert_eq!(parse_address(b"172.56.208.121"), Some(IpAddress::V4(172, 56, 208, 121)));
    assert_eq!(parse_address(b"0.0.0.0"), Some(IpAddress::V4(0, 0, 0, 0)));
    assert_eq!(parse_address(b"255.255.255.255"), Some(IpAddress::V4(255, 255, 255, 255)));
    assert_eq!(parse_address(b"256.1.1.1"), None);
    assert_eq!(parse_address(b"1.1.1"), None);
    assert_eq!(parse_address(b"1.1.1.1."), None);
    assert_eq!(parse_address(b"1..1.1"), None);
    assert_eq!(parse_address(b"00.1.1.1"), None);
    assert_eq!(parse_address(b"1.1.1.+1"), None);
    assert_eq!(parse_address(b""), None);
}

#[test]
fn ipv6_addresses() {
    assert_eq!(parse_address(b"::"), Some(IpAddress::V6(0)));
    assert_eq!(parse_address(b"::1"), Some(IpAddress::V6(1)));
    assert_eq!(
        parse_address(b"2001:db8::1"),
        Some(IpAddress::V6(0x2001_0db8_0000_0000_0000_0000_0000_0001))
    );
    assert_eq!(
        parse_address(b"2001:DB8:0:0:8:800:200C:417A"),
        Some(IpAddress::V6(0x2001_0db8_0000_0000_0008_0800_200c_417a))
    );
    assert_eq!(parse_address(b"::ffff:1.2.3.4"), Some(IpAddress::V6(0xffff_0102_0304)));
    assert_eq!(
        parse_address(b"1:2:3:4:5:6:1.2.3.4"),
        Some(IpAddress::V6(0x0001_0002_0003_0004_0005_0006_0102_0304))
    );
    assert_eq!(
        parse_address(b"1:2:3:4:5:6:7::"),
        Some(IpAddress::V6(0x0001_0002_0003_0004_0005_0006_0007_0000))
    );
    assert_eq!(
        parse_address(b"fe80::"),
        Some(IpAddress::V6(0xfe80_0000_0000_0000_0000_0000_0000_0000))
    );
    for bad in [
        &b":::1"[..],
        b"1::2::3",
        b"12345::",
        b"1.2.3.4::",
        b"1:2:3:4:5:6:7:8:9",
        b"1:2:3:4:5:6:7",
        b"::1.2.3.4:5",
        b"1:2:3:4:5:6:7:1.2.3.4",
        b"1:2:3:4:5:1.2.3.4",
        b"g::1",
        b":1::",
        b"1:2:3:4::5:6:7:8",
        b"::1.2.3",
    ] {
        assert_eq!(parse_address(bad), None, "{}", String::from_utf8_lossy(bad));
    }
}
