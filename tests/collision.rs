use nbody::collision::will_collide;
use nbody::vector::Vector;

fn v(x: i32, y: i32) -> Vector {
    Vector::new(x, y)
}

#[test]
fn head_on_approach_collides_at_half_step() {
    // A at (0,0) moving (10,0); B static at (5,0); radii 1 and 1; dt = 1.
    assert!(will_collide(1, 2, v(5, 0), Some(v(10, 0)), None));
}

#[test]
fn moving_away_never_collides() {
    for dt in [1u32, 2, 10, 1000] {
        assert!(!will_collide(dt, 2, v(5, 0), Some(v(-10, 0)), None));
    }
}

#[test]
fn overlapping_bodies_collide_whatever_their_velocities() {
    assert!(will_collide(1, 2, v(1, 0), Some(v(0, 0)), None));
    assert!(will_collide(1, 2, v(1, 1), Some(v(-100, 7)), Some(v(3, 3))));
    assert!(will_collide(0, 2, v(2, 0), Some(v(-5, 0)), None));
}

#[test]
fn two_static_bodies_never_collide_even_overlapping() {
    assert!(!will_collide(1, 10, v(0, 0), None, None));
    assert!(!will_collide(1, 10, v(3, 4), None, None));
}

#[test]
fn separating_bodies_do_not_collide() {
    assert!(!will_collide(100, 2, v(10, 0), Some(v(-1, 0)), Some(v(1, 0))));
    assert!(!will_collide(100, 2, v(10, 10), Some(v(0, -3)), Some(v(0, 0))));
}

#[test]
fn zero_relative_velocity_does_not_collide() {
    assert!(!will_collide(100, 2, v(10, 0), Some(v(7, 7)), Some(v(7, 7))));
}

#[test]
fn closest_approach_after_the_interval_is_not_checked() {
    // Closest approach at t0 = 10, beyond dt = 1.
    assert!(!will_collide(1, 2, v(100, 0), Some(v(10, 0)), None));
    // With dt = 10 it lies inside the interval.
    assert!(will_collide(10, 2, v(100, 0), Some(v(10, 0)), None));
}

#[test]
fn closest_approach_exactly_at_the_end_of_the_interval_counts() {
    assert!(will_collide(1, 1, v(10, 0), Some(v(10, 0)), None));
}

#[test]
fn near_miss_is_decided_exactly() {
    // B passes A at a distance of 3 at t0 = 1.
    assert!(!will_collide(2, 2, v(10, 3), Some(v(10, 0)), None));
    assert!(will_collide(2, 3, v(10, 3), Some(v(10, 0)), None));
}

#[test]
fn threshold_is_square_of_radius_sum() {
    // Radii 3 and 4 at distance 6: (3 + 4)^2 = 49 >= 36, while 3^2 + 4^2 = 25 < 36.
    assert!(will_collide(1, 3 + 4, v(6, 0), Some(v(0, 0)), None));
}

#[test]
fn extreme_coordinates_do_not_overflow() {
    assert!(!will_collide(
        u32::MAX,
        0,
        v(i32::MIN, i32::MAX),
        Some(v(i32::MAX, i32::MIN)),
        Some(v(i32::MIN, i32::MAX)),
    ));
    assert!(will_collide(
        u32::MAX,
        u64::MAX,
        v(i32::MIN, i32::MIN),
        Some(v(i32::MAX, i32::MIN)),
        None,
    ));
}
