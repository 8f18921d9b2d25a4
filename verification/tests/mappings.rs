use ipld_cbor::text::{compare, Order};
use ipld_cbor::{Ipld, IpldMap};

fn key_list(m: &IpldMap) -> Vec<String> {
    m.entries().iter().map(|e| e.0.clone()).collect()
}

#[test]
fn new_mapping_is_empty() {
    let m = IpldMap::new();
    assert!(m.is_empty());
    assert_eq!(m.len(), 0);
    assert_eq!(m.entries().len(), 0);
    assert_eq!(m.get("a"), None);
}

#[test]
fn insert_keeps_keys_ascending() {
    let mut m = IpldMap::new();
    for key in ["m", "b", "x", "a", "c", "", "mm"] {
        m.insert(key.to_string(), Ipld::Null);
    }
    assert_eq!(
        key_list(&m),
        vec!["", "a", "b", "c", "m", "mm", "x"].iter().map(|s| s.to_string()).collect::<Vec<_>>()
    );
    assert_eq!(m.len(), 7);
    assert!(!m.is_empty());
}

#[test]
fn insert_overwrites_the_value_of_a_key() {
    let mut m = IpldMap::new();
    m.insert("a".to_string(), Ipld::Integer(1));
    m.insert("b".to_string(), Ipld::Integer(2));
    m.insert("a".to_string(), Ipld::Integer(3));
    assert_eq!(m.len(), 2);
    assert_eq!(m.get("a"), Some(&Ipld::Integer(3)));
    assert_eq!(m.get("b"), Some(&Ipld::Integer(2)));
    assert_eq!(m.get("c"), None);
    assert_eq!(m.entries()[0], ("a".to_string(), Ipld::Integer(3)));
    assert_eq!(m.entries()[1], ("b".to_string(), Ipld::Integer(2)));
}

#[test]
fn mappings_with_the_same_entries_are_equal_whatever_the_order_of_writing() {
    let mut m = IpldMap::new();
    m.insert("a".to_string(), Ipld::Integer(1));
    m.insert("b".to_string(), Ipld::Integer(2));
    let mut n = IpldMap::new();
    n.insert("b".to_string(), Ipld::Integer(0));
    n.insert("b".to_string(), Ipld::Integer(2));
    n.insert("a".to_string(), Ipld::Integer(1));
    assert_eq!(m, n);
    assert_eq!(m.clone(), n);
}

#[test]
fn order_agrees_with_the_order_of_strings() {
    let samples = [
        "", "a", "aa", "ab", "b", "B", "z", "é", "e", "ée", "😀", "日本", "日", "\u{0}",
        "\u{10ffff}", "\u{d7ff}", "\u{e000}", "~", "a\u{0}",
    ];
    for a in samples.iter() {
        for b in samples.iter() {
            let expected = if a < b {
                Order::Before
            } else if a == b {
                Order::Same
            } else {
                Order::After
            };
            assert_eq!(compare(a, b), expected);
        }
    }
}

#[test]
fn order_of_given_pairs() {
    assert_eq!(compare("a", "b"), Order::Before);
    assert_eq!(compare("b", "a"), Order::After);
    assert_eq!(compare("a", "a"), Order::Same);
    assert_eq!(compare("", "a"), Order::Before);
    assert_eq!(compare("a", ""), Order::After);
    assert_eq!(compare("", ""), Order::Same);
    assert_eq!(compare("ab", "b"), Order::Before);
    assert_eq!(compare("a", "ab"), Order::Before);
    assert_eq!(compare("z", "é"), Order::Before);
}

#[test]
fn insert_orders_as_strings_sort() {
    let mut keys = vec!["pear", "apple", "fig", "Apple", "éclair", "zebra", "apple pie", "日本"];
    let mut m = IpldMap::new();
    for key in keys.iter() {
        m.insert(key.to_string(), Ipld::Null);
    }
    keys.sort();
    assert_eq!(key_list(&m), keys.iter().map(|s| s.to_string()).collect::<Vec<_>>());
}
