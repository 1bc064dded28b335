use cdf_header::helpers::{modulo, padding_for};

#[test]
fn padding_brings_lengths_to_a_multiple_of_four() {
    assert_eq!(padding_for(0), 0);
    assert_eq!(padding_for(1), 3);
    assert_eq!(padding_for(2), 2);
    assert_eq!(padding_for(3), 1);
    assert_eq!(padding_for(4), 0);
    assert_eq!(padding_for(5), 3);
    assert_eq!(padding_for(u64::MAX), 1);
}

#[test]
fn modulo_follows_the_sign_of_the_divisor() {
    assert_eq!(modulo(-5, 4), 3);
    assert_eq!(modulo(5, 4), 1);
    assert_eq!(modulo(-8, 4), 0);
    assert_eq!(modulo(5, -4), -3);
    assert_eq!(modulo(-5, -4), -1);
    assert_eq!(modulo(i32::MIN, -1), 0);
    assert_eq!(modulo(i32::MAX, i32::MAX), 0);
    assert_eq!(modulo(i32::MAX - 1, i32::MAX), i32::MAX - 1);
}
