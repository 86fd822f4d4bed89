use nmg_core::fixed::{self, LIMIT, ONE};
use nmg_core::vector::Vec3;

#[test]
fn fixed_arithmetic() {
    assert_eq!(fixed::mul(3 * ONE / 2, 2 * ONE), 3 * ONE);
    assert_eq!(fixed::mul(-ONE / 2, ONE / 2), -ONE / 4);
    assert_eq!(fixed::div(ONE, 4 * ONE), ONE / 4);
    assert_eq!(fixed::add(LIMIT, ONE), LIMIT);
    assert_eq!(fixed::sub(-LIMIT, ONE), -LIMIT);
    assert_eq!(fixed::div_toward_zero(-7, 2), -3);
}

#[test]
fn integer_square_root() {
    assert_eq!(fixed::isqrt(0), 0);
    assert_eq!(fixed::isqrt(15), 3);
    assert_eq!(fixed::isqrt(16), 4);
    assert_eq!(fixed::isqrt(1u128 << 80), 1u128 << 40);
}

#[test]
fn vector_lengths() {
    assert_eq!(Vec3::new(3 * ONE, 4 * ONE, 0).mag(), 5 * ONE);
    assert_eq!(Vec3::new(ONE, 0, 0).dist(Vec3::new(ONE, 2 * ONE, 0)), 2 * ONE);
    assert_eq!(Vec3::new(ONE, 2 * ONE, 3 * ONE).dot(Vec3::new(ONE, ONE, ONE)), 6 * ONE);
}
