use build_orders::bignat::{product_at_most, BigNat};

fn value(n: &BigNat) -> u128 {
    n.digits.iter().rev().fold(0u128, |acc, d| (acc << 32) | *d as u128)
}

#[test]
fn one_is_one() {
    assert_eq!(value(&BigNat::one()), 1);
}

#[test]
fn times_multiplies() {
    let n = BigNat::one().times(7).times(0xffff_ffff).times(0xffff_ffff).times(12345);
    assert_eq!(value(&n), 7u128 * 0xffff_ffff * 0xffff_ffff * 12345);
    assert_eq!(value(&BigNat::one().times(0)), 0);
    assert_eq!(value(&n.times(0)), 0);
}

#[test]
fn times_all_multiplies_by_every_factor() {
    let n = BigNat::one().times_all(&vec![3, 5, 7, 4_000_000_000]);
    assert_eq!(value(&n), 105u128 * 4_000_000_000);
    assert_eq!(value(&BigNat::one().times_all(&vec![])), 1);
}

#[test]
fn at_most_compares_values() {
    let small = BigNat::one().times_all(&vec![0xffff_ffff, 0xffff_ffff]);
    let large = BigNat::one().times_all(&vec![0xffff_ffff, 0xffff_ffff, 2]);
    assert!(small.at_most(&large));
    assert!(!large.at_most(&small));
    assert!(small.at_most(&small));
    // digits of 0 in front change nothing
    let padded = BigNat { digits: vec![5, 0, 0, 0] };
    let plain = BigNat { digits: vec![5] };
    assert!(padded.at_most(&plain));
    assert!(plain.at_most(&padded));
    assert!(!BigNat { digits: vec![0, 1] }.at_most(&BigNat { digits: vec![0xffff_ffff] }));
    assert!(BigNat { digits: vec![] }.at_most(&BigNat { digits: vec![0] }));
}

#[test]
fn product_at_most_compares_fractions() {
    // 2/3 <= 3/4 as 2 * 4 <= 3 * 3
    assert!(product_at_most(&vec![2], &vec![4], &vec![3], &vec![3]));
    assert!(!product_at_most(&vec![3], &vec![3], &vec![2], &vec![4]));
    assert!(product_at_most(&vec![1, 2], &vec![6], &vec![3], &vec![2, 2]));
    // far beyond 128 bits
    let big = vec![0xffff_ffff; 40];
    let mut bigger = big.clone();
    bigger.push(2);
    assert!(product_at_most(&big, &big, &bigger, &big));
    assert!(!product_at_most(&bigger, &big, &big, &big));
    assert!(product_at_most(&big, &bigger, &bigger, &big));
}
