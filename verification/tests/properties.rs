use cidr_trie::cidr::Cidr;
use cidr_trie::cidr_tree::CidrTree;
use cidr_trie::prefix::Prefix;

#[test]
fn repeated_single_shifts_equal_one_shift() {
    let p = Prefix::from_str("1.2.3.4").unwrap();
    let step = p.shift_left(1).shift_left(1).shift_left(1);
    assert!(step == p.shift_left(3));
    assert!(p.shift_left(0) == p);

    let q = Prefix::from_str("8000::1").unwrap();
    let step6 = q.shift_left(1).shift_left(1).shift_left(1).shift_left(1);
    assert!(step6 == q.shift_left(4));

    // a shift that crosses the 64-bit halves of a V6 address
    let r = Prefix::from_str("0:0:0:1::").unwrap();
    assert!(r.shift_left(1) == Prefix::from_str("0:0:0:2::").unwrap());
}

#[test]
fn next_decrements_length() {
    let c = Cidr::from_str("255.0.0.0/8").unwrap();
    assert!(c.next().length == c.length - 1);

    let mut d = Cidr::from_str("F000::/2").unwrap();
    assert!(d.next().length == 1);
    d = d.next();
    assert!(d.next().length == 0);
}

#[test]
fn lookup_on_empty_tree_is_empty() {
    let t = CidrTree::<String>::new();
    assert!(t.get_from_str("0.0.0.0/0").is_empty());
    assert!(t.get_from_str("1.2.3.4").is_empty());
    assert!(t.get_from_str("255.255.255.255/32").is_empty());
    assert!(t.get_from_str("::").is_empty());
    assert!(t.get_from_str("ffff::/16").is_empty());
}

#[test]
fn lookup_inside_and_outside_inserted_block() {
    let mut t = CidrTree::<String>::new();
    t.insert(&Cidr::from_str("10.0.0.0/8").unwrap(), Some("ten".to_string()));

    // queries inside 10.0.0.0/8 include the value
    assert!(t.get_from_str("10.0.0.0/8").iter().any(|v| v.as_str() == "ten"));
    assert!(t.get_from_str("10.1.2.3").iter().any(|v| v.as_str() == "ten"));
    assert!(t.get_from_str("10.255.0.0/16").iter().any(|v| v.as_str() == "ten"));

    // queries outside do not
    assert!(!t.get_from_str("11.0.0.0").iter().any(|v| v.as_str() == "ten"));
    assert!(!t.get_from_str("9.255.255.255").iter().any(|v| v.as_str() == "ten"));
    // a coarser query is not inside the block
    assert!(!t.get_from_str("10.0.0.0/4").iter().any(|v| v.as_str() == "ten"));
}

#[test]
fn nested_blocks_in_root_to_leaf_order() {
    let mut t = CidrTree::<String>::new();
    t.insert(&Cidr::from_str("128.0.0.0/1").unwrap(), Some("first".to_string()));
    t.insert(&Cidr::from_str("255.0.0.0/2").unwrap(), Some("second".to_string()));

    let hits = t.get_from_str("1.0.0.0");
    assert!(hits.is_empty());

    let hits = t.get_from_str("128.0.0.0");
    assert!(hits.len() == 1);
    assert!(hits[0].as_str() == "first");

    let hits = t.get_from_str("255.0.0.0");
    assert!(hits.len() == 2);
    assert!(hits[0].as_str() == "first");
    assert!(hits[1].as_str() == "second");

    let hits = t.get_from_str("128.0.0.0/8");
    assert!(hits.len() == 1);
    assert!(hits[0].as_str() == "first");
}

#[test]
fn nested_blocks_v6() {
    let mut t = CidrTree::<String>::new();
    t.insert(&Cidr::from_str("8000::/1").unwrap(), Some("first".to_string()));
    t.insert(&Cidr::from_str("F000::/2").unwrap(), Some("second".to_string()));

    let hits = t.get_from_str("F000::");
    assert!(hits.len() == 2);
    assert!(hits[0].as_str() == "first");
    assert!(hits[1].as_str() == "second");

    assert!(t.get_from_str("0001::").is_empty());
}

#[test]
fn has_exact_marks_structure_not_data() {
    let mut t = CidrTree::<String>::new();
    t.insert(&Cidr::from_str("255.0.0.0/8").unwrap(), None);
    assert!(t.has_exact(&Cidr::from_str("255.0.0.0/8").unwrap()));
    assert!(!t.has_exact(&Cidr::from_str("128.0.0.0/8").unwrap()));
    // marking with no value stores nothing that a lookup would return
    assert!(t.get_from_str("255.0.0.0").is_empty());
}

#[test]
fn covers_follows_the_first_branch() {
    let mut t = CidrTree::<String>::new();
    t.insert(&Cidr::from_str("128.0.0.0/2").unwrap(), None);
    // the branch for the leading one-bit exists, and below it the
    // sibling path falls off the tree, which counts as covered
    assert!(t.covers(&Cidr::from_str("192.0.0.0/2").unwrap()));
    // no branch exists for a leading zero-bit
    assert!(!t.covers(&Cidr::from_str("64.0.0.0/2").unwrap()));
}

#[test]
fn root_value_applies_to_everything() {
    let t = CidrTree::new_with_data("everything");
    assert!(t.get_from_str("0.0.0.0/0").len() == 1);
    assert!(t.get_from_str("1.2.3.4").len() == 1);
    let universal = t.get_from_str("9.9.9.9/0");
    assert!(universal.len() == 1 && *universal[0] == "everything");
}

#[test]
fn overwriting_a_value() {
    let mut t = CidrTree::<&str>::new();
    let b = Cidr::from_str("192.0.0.0/2").unwrap();
    t.insert(&b, Some("old"));
    t.insert(&b, Some("new"));
    let hits = t.get_from_str("192.0.0.0");
    assert!(hits.len() == 1 && *hits[0] == "new");
    // overwriting with no value removes it from lookups
    t.insert(&b, None);
    assert!(t.get_from_str("192.0.0.0").is_empty());
    // but the node's path still exists
    assert!(t.has_exact(&b));
}
