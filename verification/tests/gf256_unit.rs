//! Unit tests of GF(256) arithmetic.

use error_forest::gf256::GF256;

#[test]
fn test_add_sub_same() {
    let a = GF256(0x57);
    let b = GF256(0x83);
    assert_eq!(a.add(b), a.sub(b));
}

#[test]
fn test_mul_identity() {
    let a = GF256(0x53);
    assert_eq!(a.mul(GF256(1)), a);
}

#[test]
fn test_mul_zero() {
    let a = GF256(0x42);
    assert_eq!(a.mul(GF256(0)), GF256(0));
}

#[test]
fn test_div_inverse() {
    let a = GF256(0x73);
    assert_eq!(a.mul(a.inv()), GF256(1));
}

#[test]
fn test_pow() {
    let a = GF256(0x02);
    // The multiplicative group has order 255.
    assert_eq!(a.pow(255), GF256(1));
}
