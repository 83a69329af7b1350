use cidr_trie::cidr::{Cidr, CidrParseError};
use cidr_trie::prefix::Prefix;

#[test]
fn parse_v4_forms() {
    assert!(Prefix::from_str("0.0.0.0").unwrap() == Prefix::V4([0, 0, 0, 0]));
    assert!(Prefix::from_str("255.255.255.255").unwrap() == Prefix::V4([255, 255, 255, 255]));
    assert!(Prefix::from_str("192.168.0.1").unwrap() == Prefix::V4([1, 0, 168, 192]));
}

#[test]
fn parse_v4_rejects() {
    assert!(Prefix::from_str("").is_err());
    assert!(Prefix::from_str("1.2.3").is_err());
    assert!(Prefix::from_str("1.2.3.4.5").is_err());
    assert!(Prefix::from_str("256.0.0.0").is_err());
    assert!(Prefix::from_str("01.2.3.4").is_err());
    assert!(Prefix::from_str("1..2.3").is_err());
    assert!(Prefix::from_str("1.2.3.x").is_err());
}

#[test]
fn parse_v6_forms() {
    assert!(
        Prefix::from_str("::").unwrap()
            == Prefix::V6([0, 0, 0, 0, 0, 0, 0, 0, 0, 0, 0, 0, 0, 0, 0, 0])
    );
    assert!(
        Prefix::from_str("::1").unwrap()
            == Prefix::V6([1, 0, 0, 0, 0, 0, 0, 0, 0, 0, 0, 0, 0, 0, 0, 0])
    );
    assert!(
        Prefix::from_str("1::").unwrap()
            == Prefix::V6([0, 0, 0, 0, 0, 0, 0, 0, 0, 0, 0, 0, 0, 0, 1, 0])
    );
    assert!(
        Prefix::from_str("1:2:3:4:5:6:7:8").unwrap()
            == Prefix::V6([8, 0, 7, 0, 6, 0, 5, 0, 4, 0, 3, 0, 2, 0, 1, 0])
    );
    // both hex-digit cases
    assert!(
        Prefix::from_str("ABcd::").unwrap()
            == Prefix::V6([0, 0, 0, 0, 0, 0, 0, 0, 0, 0, 0, 0, 0, 0, 0xcd, 0xab])
    );
    // an embedded dotted-quad after six groups
    assert!(
        Prefix::from_str("1:2:3:4:5:6:9.8.7.6").unwrap()
            == Prefix::V6([6, 7, 8, 9, 6, 0, 5, 0, 4, 0, 3, 0, 2, 0, 1, 0])
    );
}

#[test]
fn parse_v6_rejects() {
    assert!(Prefix::from_str("1:2:3:4:5:6:7").is_err());
    assert!(Prefix::from_str("1:2:3:4:5:6:7:8:9").is_err());
    assert!(Prefix::from_str("1:2:3:4:5:6:7:8::").is_err());
    assert!(Prefix::from_str(":::").is_err());
    assert!(Prefix::from_str("1::2::3").is_err());
    assert!(Prefix::from_str(":1::2").is_err());
    assert!(Prefix::from_str("12345::").is_err());
    assert!(Prefix::from_str("g::").is_err());
    assert!(Prefix::from_str("1.2.3.4::").is_err());
}

#[test]
fn cidr_default_length_is_family_wide() {
    assert!(Cidr::from_str("1.2.3.4").unwrap().length == 32);
    assert!(Cidr::from_str("8000::").unwrap().length == 128);
}

#[test]
fn cidr_length_bounds() {
    assert!(Cidr::from_str("1.2.3.4/32").unwrap().length == 32);
    assert!(Cidr::from_str("8000::/128").unwrap().length == 128);
    assert!(Cidr::from_str("8000::/0").unwrap().length == 0);
    // leading zeros are accepted in the length part
    assert!(Cidr::from_str("1.2.3.4/032").unwrap().length == 32);
    assert!(matches!(
        Cidr::from_str("1.2.3.4/33"),
        Err(CidrParseError::Length(_))
    ));
    assert!(matches!(
        Cidr::from_str("8000::/129"),
        Err(CidrParseError::Length(_))
    ));
}

#[test]
fn cidr_error_variants() {
    assert!(matches!(
        Cidr::from_str("hello"),
        Err(CidrParseError::Prefix(_))
    ));
    assert!(matches!(
        Cidr::from_str("1.2.3.4/abc"),
        Err(CidrParseError::Length(_))
    ));
    assert!(matches!(
        Cidr::from_str("1.2.3.4/"),
        Err(CidrParseError::Length(_))
    ));
    // a second slash spoils the length part
    assert!(matches!(
        Cidr::from_str("1.2.3.4/8/9"),
        Err(CidrParseError::Length(_))
    ));
    // a bad address reports the address even when a length follows
    assert!(matches!(
        Cidr::from_str("1.2.3/8"),
        Err(CidrParseError::Prefix(_))
    ));
}

#[test]
fn constructors_and_accessors() {
    let c = Cidr::from_bits(0x01020304, 24).unwrap();
    assert!(c.length == 24);
    assert!(c.prefix_bits() == 0x01020304);
    assert!(c.prefix.octets() == [1, 2, 3, 4]);
    assert!(c.prefix == Prefix::from_str("1.2.3.4").unwrap());

    assert!(Cidr::from_bits(0, 33).is_none());

    let d = Cidr::from_slice([10, 20, 30, 40], 16);
    assert!(d.length == 16);
    assert!(d.prefix == Prefix::from_str("10.20.30.40").unwrap());
    assert!(d.prefix_bits() == 0x0a141e28);

    assert!(Prefix::from_ipv4([1, 2, 3, 4]) == Prefix::from_str("1.2.3.4").unwrap());
    let o16: [u8; 16] = [0x80, 0, 0, 0, 0, 0, 0, 0, 0, 0, 0, 0, 0, 0, 0, 1];
    assert!(Prefix::from_ipv6(o16) == Prefix::from_str("8000::1").unwrap());
}

#[test]
fn cidr_leading_bit() {
    // the universal block has no leading bit to test
    assert!(Cidr::from_str("255.0.0.0/0").unwrap().msbit() == 0);
    assert!(Cidr::from_str("8000::/1").unwrap().msbit() == 1);
    assert!(Cidr::from_str("7000::/1").unwrap().msbit() == 0);
}

#[test]
fn next_shifts_the_leading_bit_out() {
    let c = Cidr::from_str("192.0.0.0/2").unwrap();
    let n = c.next();
    assert!(n.length == 1);
    // 192.0.0.0 shifted left one bit is 128.0.0.0
    assert!(n.prefix == Prefix::from_str("128.0.0.0").unwrap());
    assert!(n.msbit() == 1);
}
