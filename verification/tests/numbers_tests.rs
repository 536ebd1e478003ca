use advent::numbers::{gcd, lcm};

#[test]
fn gcd_of_coprime_numbers_is_one() {
    assert_eq!(gcd(7, 12), 1);
}

#[test]
fn gcd_is_symmetric_on_examples() {
    assert_eq!(gcd(12, 18), 6);
    assert_eq!(gcd(18, 12), 6);
}

#[test]
fn lcm_of_interior_dimensions() {
    assert_eq!(lcm(4, 6), 12);
    assert_eq!(lcm(25, 120), 600);
    assert_eq!(lcm(5, 5), 5);
}
