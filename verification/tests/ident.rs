use gossip_node::ident::{decimal_string, generate_id};

#[test]
fn decimal_of_zero_is_a_single_zero() {
    assert_eq!(decimal_string(0), "0");
}

#[test]
fn decimal_of_single_digits() {
    for n in 0..10u64 {
        assert_eq!(decimal_string(n), format!("{}", n));
    }
}

#[test]
fn decimal_has_no_leading_zero() {
    assert_eq!(decimal_string(10), "10");
    assert_eq!(decimal_string(100), "100");
    assert_eq!(decimal_string(1005), "1005");
}

#[test]
fn decimal_of_a_long_number() {
    assert_eq!(decimal_string(1234567890), "1234567890");
}

#[test]
fn decimal_of_the_largest_counter() {
    assert_eq!(decimal_string(u64::MAX), "18446744073709551615");
}

#[test]
fn decimal_agrees_with_std_formatting() {
    let mut n: u64 = 1;
    for _ in 0..64 {
        assert_eq!(decimal_string(n), n.to_string());
        assert_eq!(decimal_string(n - 1), (n - 1).to_string());
        n = n.wrapping_mul(2);
        if n == 0 {
            break;
        }
    }
}

#[test]
fn generated_id_is_node_dash_counter() {
    assert_eq!(generate_id(&"n1".to_string(), 0), "n1-0");
    assert_eq!(generate_id(&"n1".to_string(), 42), "n1-42");
    assert_eq!(generate_id(&"node-b".to_string(), 7), "node-b-7");
}

#[test]
fn generated_id_of_an_empty_node_id() {
    assert_eq!(generate_id(&String::new(), 3), "-3");
}

#[test]
fn generated_ids_differ_between_counters() {
    let node = "n1".to_string();
    let mut seen = std::collections::HashSet::new();
    for counter in 0..200u64 {
        assert!(seen.insert(generate_id(&node, counter)));
    }
}

#[test]
fn generated_ids_differ_between_nodes() {
    // "n1" at counter 11 and "n11" at counter 1 share their digits
    // but not their identifiers.
    assert_ne!(generate_id(&"n1".to_string(), 11), generate_id(&"n11".to_string(), 1));
    assert_ne!(generate_id(&"a".to_string(), 5), generate_id(&"a-5".to_string(), 5));
    assert_ne!(generate_id(&"n1".to_string(), 0), generate_id(&"n2".to_string(), 0));
}
