use nbody::gravity::{isqrt, pairwise_gravity, softened_factor};
use nbody::vector::Vector;

#[test]
fn integer_square_root() {
    assert_eq!(isqrt(0), 0);
    assert_eq!(isqrt(1), 1);
    assert_eq!(isqrt(15), 3);
    assert_eq!(isqrt(16), 4);
    assert_eq!(isqrt(40010), 200);
    assert_eq!(isqrt(u64::MAX as u128), 4294967295);
    assert_eq!(isqrt((1u128 << 66) - 1), (1u64 << 33) - 1);
}

#[test]
fn softened_factor_at_zero_separation_is_finite() {
    // G * dt / 10^1.5 = 1000 / 31.62..., rounded down
    assert_eq!(softened_factor(1000, 10, 0), 31);
    // G / SOFTENING^1.5 = 100000 / 31.62... = 3162.27...
    assert_eq!(softened_factor(100_000, 10, 0), 3162);
}

#[test]
fn softened_factor_values() {
    // r2 = 100, sqrt = 10: 1000 / 1000
    assert_eq!(softened_factor(1000, 10, 90), 1);
    assert_eq!(softened_factor(1_000_000, 1, 0), 1_000_000);
}

#[test]
fn softened_factor_decreases_with_separation() {
    let mut last = softened_factor(1_000_000_000, 10, 0);
    for sep in [1u64, 2, 5, 10, 100, 1000, 1_000_000, u64::MAX] {
        let f = softened_factor(1_000_000_000, 10, sep);
        assert!(f <= last);
        last = f;
    }
}

#[test]
fn pairwise_gravity_points_toward_the_source() {
    // delta (3, 4), r2 = 35, r2^1.5 = 207.06...: (1448.8..., 1931.8...)
    let g = pairwise_gravity(100_000, 10, Vector::new(0, 0), Vector::new(3, 4));
    assert_eq!(g, (1448, 1931));
}

#[test]
fn pairwise_gravity_matches_the_softened_law() {
    // delta (2, 0), r2 = 14: 200000 / 14^1.5 = 3818.1..., below the cap 2G / (3 sqrt(3) SOFT) = 3849.0...
    let g = pairwise_gravity(100_000, 10, Vector::new(0, 0), Vector::new(2, 0));
    assert_eq!(g, (3818, 0));
}

#[test]
fn pairwise_gravity_is_antisymmetric() {
    let a = Vector::new(-17, 250);
    let b = Vector::new(40, -3);
    let g = pairwise_gravity(1_000_000_000, 10, a, b);
    let h = pairwise_gravity(1_000_000_000, 10, b, a);
    assert_eq!(g.0, -h.0);
    assert_eq!(g.1, -h.1);
    assert!(g.0 > 0 && g.1 < 0);
}

#[test]
fn pairwise_gravity_at_zero_separation_is_zero() {
    let a = Vector::new(5, 5);
    assert_eq!(pairwise_gravity(1_000_000_000, 10, a, a), (0, 0));
}

#[test]
fn pairwise_gravity_rounds_toward_zero() {
    // delta (-3, -4): (-1448.8..., -1931.8...) rounded toward zero
    let g = pairwise_gravity(100_000, 10, Vector::new(3, 4), Vector::new(0, 0));
    assert_eq!(g, (-1448, -1931));
}

#[test]
fn pairwise_gravity_at_extreme_separation() {
    // Far apart, the pull rounds to nothing.
    let a = Vector::new(i32::MIN, i32::MIN);
    let b = Vector::new(i32::MAX, i32::MAX);
    assert_eq!(pairwise_gravity(u64::MAX, 1, a, b), (0, 0));
    // Close, with the largest constant: r2 = 2, u64::MAX / 2^1.5.
    let g = pairwise_gravity(u64::MAX, 1, Vector::new(0, 0), Vector::new(1, 0));
    assert_eq!(g, (6521908912666391105, 0));
}

#[test]
fn pairwise_gravity_never_exceeds_the_softened_maximum() {
    // 27 * SOFT^2 * c^2 <= 4 * G^2, with G = 100000 and SOFT = 10
    let mut largest = 0i128;
    for x in 0..12 {
        for y in 0..12 {
            let g = pairwise_gravity(100_000, 10, Vector::new(0, 0), Vector::new(x, y));
            for c in [g.0, g.1] {
                assert!(27 * 100 * c * c <= 4 * 100_000i128 * 100_000);
                largest = largest.max(c);
            }
        }
    }
    // The maximum, 3849.0..., is approached near an offset of sqrt(5).
    assert!(largest >= 3818);
}
