use cidr_trie::cidr::Cidr;

#[test]
fn cidr_test_from_str() {
    assert!(
        Cidr::from_str("1.2.3.4/32").unwrap().prefix == Cidr::from_str("1.2.3.4").unwrap().prefix
    );

    assert!(Cidr::from_str("1.2.3.4/32").unwrap().length == 32);
    assert!(Cidr::from_str("1.2.3.4/0").unwrap().length == 0);

    let from_bits = Cidr::from_bits(0x80000000, 1).unwrap();
    let from_str = Cidr::from_str("128.0.0.0/1").unwrap();
    assert!(from_bits == from_str);
}

#[test]
fn test_msbit() {
    assert!(Cidr::from_str("0.0.0.0/32").unwrap().msbit() == 0);
    assert!(Cidr::from_str("255.0.0.0/32").unwrap().msbit() == 1);
}
