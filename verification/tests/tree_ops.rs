use cidr_trie::cidr::Cidr;
use cidr_trie::cidr_tree::CidrTree;

#[test]
fn test_insert_v4() {
    let mut t = CidrTree::<String>::new();

    t.insert(&Cidr::from_str("128.0.0.0/1").unwrap(), Some("first".to_string()));

    assert!(t.get_from_str("1.0.0.0").is_empty());
    assert!(t.get_from_str("128.0.0.0").len() == 1);
    assert!(t.get_from_str("255.0.0.0").len() == 1);
    assert!(t.get_from_str("128.0.0.0")[0].as_str() == "first");
    assert!(t.get_from_str("128.1.0.0").len() == 1);
    assert!(t.get_from_str("128.0.0.0/8").len() == 1);

    t.insert(&Cidr::from_str("255.0.0.0/2").unwrap(), Some("second".to_string()));

    assert!(t.get_from_str("1.0.0.0").is_empty());
    assert!(t.get_from_str("128.0.0.0").len() == 1);
    assert!(t.get_from_str("255.0.0.0").len() == 2);
    assert!(t.get_from_str("128.0.0.0")[0].as_str() == "first");
    assert!(t.get_from_str("128.1.0.0").len() == 1);
    assert!(t.get_from_str("128.0.0.0/8").len() == 1);
    assert!(t.get_from_str("255.0.0.0").len() == 2);
    assert!(t.get_from_str("255.1.0.0").len() == 2);
    assert!(t.get_from_str("255.0.0.0/8").len() == 2);
}

#[test]
fn test_insert_v6() {
    let mut t = CidrTree::<String>::new();

    t.insert(&Cidr::from_str("8000:0:0:0::/1").unwrap(), Some("first".to_string()));
    assert!(t.get_from_str("0001:0:0:0::").is_empty());
    assert!(t.get_from_str("8000::").len() == 1);
    assert!(t.get_from_str("F000::").len() == 1);
    assert!(t.get_from_str("8000::1").len() == 1);
    assert!(t.get_from_str("8000::/8").len() == 1);

    t.insert(&Cidr::from_str("F000:0:0:0::/2").unwrap(), Some("second".to_string()));

    assert!(t.get_from_str("0001:0:0:0::").is_empty());
    assert!(t.get_from_str("8000::").len() == 1);
    assert!(t.get_from_str("F000::").len() == 2);
    assert!(t.get_from_str("8000::1").len() == 1);
    assert!(t.get_from_str("8000::/8").len() == 1);
    assert!(t.get_from_str("F000::").len() == 2);
    assert!(t.get_from_str("F800::").len() == 2);
    assert!(t.get_from_str("F000::/8").len() == 2);
}

#[test]
fn test_has_exact() {
    let mut t = CidrTree::<String>::new();

    t.insert(&Cidr::from_str("128.0.0.0/1").unwrap(), None);

    assert!(!t.has_exact(&Cidr::from_str("1.0.0.0").unwrap()));
    assert!(t.has_exact(&Cidr::from_str("128.0.0.0/1").unwrap()));
    assert!(t.has_exact(&Cidr::from_str("128.0.0.0/0").unwrap()));
    assert!(!t.has_exact(&Cidr::from_str("128.0.0.0/32").unwrap()));

    t.insert(&Cidr::from_str("255.0.0.0/8").unwrap(), None);

    assert!(t.has_exact(&Cidr::from_str("255.0.0.0/8").unwrap()));
    assert!(!t.has_exact(&Cidr::from_str("128.0.0.0/8").unwrap()));
}

#[test]
fn test_covers() {
    let mut t = CidrTree::<String>::new();

    assert!(t.covers(&Cidr::from_str("0.0.0.0/0").unwrap()));
    assert!(!t.covers(&Cidr::from_str("128.0.0.0/1").unwrap()));

    t.insert(&Cidr::from_str("128.0.0.0/1").unwrap(), None);

    assert!(t.covers(&Cidr::from_str("128.0.0.0/1").unwrap()));
    assert!(t.covers(&Cidr::from_str("128.0.0.0/32").unwrap()));
    assert!(!t.covers(&Cidr::from_str("1.0.0.0").unwrap()));
}
