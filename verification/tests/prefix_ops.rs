use cidr_trie::prefix::Prefix;

#[test]
fn prefix_test_from_str() {
    let p = Prefix::from_str("1.2.3.4").unwrap();
    assert!(p == Prefix::V4([4, 3, 2, 1]));

    let p = Prefix::from_str("::1.2.3.4").unwrap();
    assert!(p == Prefix::V6([4, 3, 2, 1, 0, 0, 0, 0, 0, 0, 0, 0, 0, 0, 0, 0]));
}

#[test]
fn test_from_msbit() {
    assert!(0 == Prefix::from_str("1.0.0.0").unwrap().msbit());
    assert!(1 == Prefix::from_str("128.0.0.0").unwrap().msbit());
}

#[test]
fn test_shift_left_v4() {
    assert!(Prefix::V4([0, 0, 0, 1]).shift_left(1) == Prefix::V4([0, 0, 0, 2]));

    assert!(Prefix::V4([0, 0, 0, 128]).shift_left(1) == Prefix::V4([0, 0, 0, 0]));

    assert!(Prefix::V4([128, 0, 0, 0]).shift_left(1) == Prefix::V4([0, 1, 0, 0]));
}

#[test]
fn test_shift_left_v6() {
    assert!(
        Prefix::V6([0, 0, 0, 0, 0, 0, 0, 0, 0, 0, 0, 0, 0, 0, 0, 1]).shift_left(1)
            == Prefix::V6([0, 0, 0, 0, 0, 0, 0, 0, 0, 0, 0, 0, 0, 0, 0, 2])
    );

    assert!(
        Prefix::V6([0, 0, 0, 0, 0, 0, 0, 128, 0, 0, 0, 0, 0, 0, 0, 128]).shift_left(1)
            == Prefix::V6([0, 0, 0, 0, 0, 0, 0, 0, 1, 0, 0, 0, 0, 0, 0, 0])
    );

    assert!(
        Prefix::V6([128, 0, 0, 0, 0, 0, 0, 0, 0, 0, 0, 0, 0, 0, 0, 0]).shift_left(1)
            == Prefix::V6([0, 1, 0, 0, 0, 0, 0, 0, 0, 0, 0, 0, 0, 0, 0, 0])
    );
}

#[test]
fn test_reverse_bytes_v4() {
    assert!(Prefix::V4([1, 2, 3, 4]).reverse_bytes() == Prefix::V4([4, 3, 2, 1]));
}

#[test]
fn test_reverse_bytes_v6() {
    assert!(
        Prefix::V6([1, 2, 3, 4, 5, 6, 7, 8, 9, 10, 11, 12, 13, 14, 15, 16]).reverse_bytes()
            == Prefix::V6([16, 15, 14, 13, 12, 11, 10, 9, 8, 7, 6, 5, 4, 3, 2, 1])
    );
}
