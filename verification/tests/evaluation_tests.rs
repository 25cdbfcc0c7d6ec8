use truth_table::bitstring_trait::BitString;
use truth_table::parser::Parser;

#[test]
fn test_and_evaluation_scenario() {
    let exp = Parser::new(b"A && B".to_vec()).parse().unwrap();
    assert!(exp.is_well_formed());
    // counter 0b10: A = 1, B = 0
    assert_eq!(exp.evaluate(0b10u128), 0);
    // counter 0b11: A = 1, B = 1
    assert_eq!(exp.evaluate(0b11u128), 1);
}

#[test]
fn test_evaluation_is_deterministic() {
    let exp = Parser::new(b"A && !B || C ^ A".to_vec()).parse().unwrap();
    assert!(exp.is_well_formed());
    for counter in 0u128..8 {
        let first = exp.evaluate(counter);
        let second = exp.evaluate(counter);
        assert_eq!(first, second);
    }
}

#[test]
fn test_not_evaluation() {
    let exp = Parser::new(b"!A".to_vec()).parse().unwrap();
    assert!(exp.is_well_formed());
    assert_eq!(exp.evaluate(0u128), 1);
    assert_eq!(exp.evaluate(1u128), 0);
}

#[test]
fn test_xor_evaluation() {
    let exp = Parser::new(b"A ^ B".to_vec()).parse().unwrap();
    assert_eq!(exp.evaluate(0b00u64), 0);
    assert_eq!(exp.evaluate(0b01u64), 1);
    assert_eq!(exp.evaluate(0b10u64), 1);
    assert_eq!(exp.evaluate(0b11u64), 0);
}

#[test]
fn test_truth_table_of_and() {
    let exp = Parser::new(b"A && B".to_vec()).parse().unwrap();
    assert!(exp.is_well_formed());
    let rows = exp.truth_table();
    // 2 variables: exactly 2^2 rows, one per assignment, in counter order.
    assert_eq!(rows, vec![0, 0, 0, 1]);
}

#[test]
fn test_truth_table_row_count() {
    let exp = Parser::new(b"A && B || C ^ D".to_vec()).parse().unwrap();
    assert_eq!(exp.variables().len(), 4);
    let rows = exp.truth_table();
    assert_eq!(rows.len(), 16);
}

#[test]
fn test_truth_table_of_precedence_mix() {
    // XOR binds loosest: A && !B || C ^ D parses as ((A && !B) || C) ^ D.
    let exp = Parser::new(b"A && !B || C ^ D".to_vec()).parse().unwrap();
    let rows = exp.truth_table();
    for counter in 0..16u8 {
        let a = (counter >> 3) & 1 == 1;
        let b = (counter >> 2) & 1 == 1;
        let c = (counter >> 1) & 1 == 1;
        let d = counter & 1 == 1;
        let expected = ((a && !b) || c) != d;
        assert_eq!(rows[counter as usize] == 1, expected);
    }
}

#[test]
fn test_empty_group_is_not_well_formed() {
    // "()" passes the parser's adjacency validation but yields an empty
    // postfix sequence, which no evaluation can consume.
    let exp = Parser::new(b"()".to_vec()).parse().unwrap();
    assert!(!exp.is_well_formed());
    let exp2 = Parser::new(b"A && ()".to_vec()).parse().unwrap();
    assert!(!exp2.is_well_formed());
}

#[test]
fn test_bitstring_get_bit_u128() {
    let v: u128 = 0b1010;
    assert_eq!(v.get_bit(0), Some(0));
    assert_eq!(v.get_bit(1), Some(1));
    assert_eq!(v.get_bit(2), Some(0));
    assert_eq!(v.get_bit(3), Some(1));
    assert_eq!(v.get_bit(127), Some(0));
    assert_eq!(v.get_bit(128), None);
}

#[test]
fn test_bitstring_set_clear_toggle_u64() {
    let mut v: u64 = 0;
    assert!(v.set_bit(3));
    assert_eq!(v, 8);
    assert!(v.toggle_bit(0));
    assert_eq!(v, 9);
    assert!(v.toggle_bit(3));
    assert_eq!(v, 1);
    assert!(v.clear_bit(0));
    assert_eq!(v, 0);
    assert!(!v.set_bit(64));
    assert!(!v.clear_bit(64));
    assert!(!v.toggle_bit(64));
    assert_eq!(v, 0);
}

#[test]
fn test_bitstring_clear_string() {
    let mut v: u128 = u128::MAX;
    v.clear_string();
    assert_eq!(v, 0);
    let mut w: u64 = 0xdead;
    w.clear_string();
    assert_eq!(w, 0);
}
