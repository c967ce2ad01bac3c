use nbody::catalog::{Config, DynamicBody, StaticBody, TestBody, WORLD_LIMIT};
use nbody::simulation::{SetupError, Simulation, StepError};
use nbody::vector::Vector;

fn v(x: i32, y: i32) -> Vector {
    Vector::new(x, y)
}

fn config(step: u32) -> Config {
    Config { grav: 1_000_000_000, softening: 10, step }
}

fn two_bodies() -> Vec<DynamicBody> {
    vec![
        DynamicBody::new(1, v(0, -100), v(40, 0), 5),
        DynamicBody::new(1, v(0, 100), v(-40, 0), 5),
    ]
}

fn momentum(sim: &Simulation) -> (i64, i64) {
    let mut p = (0i64, 0i64);
    for b in sim.dynamic_bodies() {
        p.0 += b.mass as i64 * b.velocity.x as i64;
        p.1 += b.mass as i64 * b.velocity.y as i64;
    }
    p
}

#[test]
fn rejects_zero_softening() {
    let c = Config { grav: 1, softening: 0, step: 1 };
    assert_eq!(Simulation::new(c, vec![], vec![], vec![]).err(), Some(SetupError::NonPositiveSoftening));
}

#[test]
fn rejects_zero_step() {
    let c = Config { grav: 1, softening: 10, step: 0 };
    assert_eq!(Simulation::new(c, vec![], vec![], vec![]).err(), Some(SetupError::NonPositiveStep));
}

#[test]
fn rejects_gravity_times_step_beyond_u64() {
    let c = Config { grav: u64::MAX, softening: 10, step: 2 };
    assert_eq!(Simulation::new(c, vec![], vec![], vec![]).err(), Some(SetupError::GravityTooLarge));
}

#[test]
fn rejects_bodies_outside_the_world() {
    let s = vec![StaticBody::new(1, v(WORLD_LIMIT + 1, 0), 1)];
    assert_eq!(Simulation::new(config(1), s, vec![], vec![]).err(), Some(SetupError::OutsideWorld));
}

#[test]
fn one_step_kicks_then_drifts() {
    let mut sim = Simulation::new(config(1), vec![], two_bodies(), vec![]).ok().unwrap();
    assert_eq!(sim.step(), Ok(()));
    // separation (0, 200): r2 = 40010, pull = 200 * 10^9 / 40010^1.5 = 24990.6...
    let d = sim.dynamic_bodies();
    assert_eq!(d[0].velocity, v(40, 24990));
    assert_eq!(d[0].position, v(40, 24890));
    assert_eq!(d[1].velocity, v(-40, -24990));
    assert_eq!(d[1].position, v(-40, -24890));
    assert_eq!(sim.time(), 1);
}

#[test]
fn newton_third_law_in_one_step() {
    let bodies = vec![
        DynamicBody::new(3, v(-50, 20), v(1, 2), 1),
        DynamicBody::new(7, v(60, -10), v(-3, 0), 1),
    ];
    let mut sim = Simulation::new(config(1), vec![], bodies.clone(), vec![]).ok().unwrap();
    sim.step().unwrap();
    let d = sim.dynamic_bodies();
    let dv0 = (d[0].velocity.x - bodies[0].velocity.x, d[0].velocity.y - bodies[0].velocity.y);
    let dv1 = (d[1].velocity.x - bodies[1].velocity.x, d[1].velocity.y - bodies[1].velocity.y);
    assert!(dv0 != (0, 0));
    assert_eq!(3 * dv0.0, -(7 * dv1.0));
    assert_eq!(3 * dv0.1, -(7 * dv1.1));
}

#[test]
fn two_body_momentum_is_conserved() {
    let bodies = vec![
        DynamicBody::new(1, v(0, -1000), v(400, 0), 1),
        DynamicBody::new(1, v(0, 1000), v(-400, 0), 1),
    ];
    let c = Config { grav: 100_000_000, softening: 10, step: 1 };
    let mut sim = Simulation::new(c, vec![], bodies, vec![]).ok().unwrap();
    let p0 = momentum(&sim);
    for _ in 0..200 {
        sim.step().unwrap();
        assert_eq!(momentum(&sim), p0);
    }
    assert_eq!(p0, (0, 0));
}

#[test]
fn static_bodies_never_move() {
    let statics = vec![StaticBody::new(3, v(0, 0), 5), StaticBody::new(2, v(700, 700), 1)];
    let c = Config { grav: 1_000_000, softening: 10, step: 1 };
    let mut sim = Simulation::new(c, statics.clone(), two_bodies(), vec![]).ok().unwrap();
    assert_eq!(sim.integrate(50), Ok(()));
    assert_eq!(sim.static_bodies(), &statics[..]);
}

#[test]
fn integrate_lands_exactly_on_whole_steps() {
    let mut sim = Simulation::new(config(3), vec![], vec![], vec![]).ok().unwrap();
    assert_eq!(sim.integrate(3 * 7), Ok(()));
    assert_eq!(sim.time(), 21);
}

#[test]
fn integrate_overshoots_by_less_than_one_step() {
    let mut sim = Simulation::new(config(3), vec![], vec![], vec![]).ok().unwrap();
    assert_eq!(sim.integrate(10), Ok(()));
    assert_eq!(sim.time(), 12);
    // Already past the target: nothing happens.
    assert_eq!(sim.integrate(5), Ok(()));
    assert_eq!(sim.time(), 12);
}

#[test]
fn test_bodies_are_pulled_but_do_not_pull() {
    let statics = vec![StaticBody::new(3, v(0, 0), 5)];
    let tests = vec![TestBody::new(v(200, 0), v(0, 0), 1)];
    let c = Config { grav: 1_000_000_000, softening: 10, step: 1 };
    let mut sim = Simulation::new(c, statics.clone(), vec![], tests).ok().unwrap();
    sim.step().unwrap();
    let t = sim.test_bodies()[0];
    // delta (-200, 0): r2 = 40010, unit pull = -24990, times mass 3
    assert_eq!(t.velocity, v(-74970, 0));
    assert_eq!(t.position, v(200 - 74970, 0));
    assert_eq!(sim.static_bodies(), &statics[..]);
}

#[test]
fn step_out_of_range_leaves_state_unchanged() {
    let bodies = vec![DynamicBody::new(1, v(0, 0), v(2_000_000_000, 0), 1)];
    let mut sim = Simulation::new(config(1), vec![], bodies.clone(), vec![]).ok().unwrap();
    assert_eq!(sim.step(), Err(StepError::OutOfRange));
    assert_eq!(sim.dynamic_bodies(), &bodies[..]);
    assert_eq!(sim.time(), 0);
    assert_eq!(sim.integrate(10), Err(StepError::OutOfRange));
    assert_eq!(sim.time(), 0);
}

#[test]
fn collisions_lists_touching_pairs() {
    let statics = vec![StaticBody::new(1, v(0, 0), 5), StaticBody::new(1, v(3, 0), 5)];
    let dynamics = vec![DynamicBody::new(1, v(30, 0), v(-10, 0), 5)];
    let tests = vec![TestBody::new(v(2, 2), v(0, 0), 1)];
    let sim = Simulation::new(config(1), statics, dynamics, tests).ok().unwrap();
    // dynamic body 2 reaches the static ones only after two time units.
    assert_eq!(sim.collisions(1), vec![(0, 3), (1, 3)]);
    // Within three time units it also sweeps past the test body at t0 = 2.8.
    assert_eq!(sim.collisions(3), vec![(0, 2), (0, 3), (1, 2), (1, 3), (2, 3)]);
}

#[test]
fn positions_read_back_in_body_order() {
    let statics = vec![StaticBody::new(1, v(1, 1), 1)];
    let tests = vec![TestBody::new(v(3, 3), v(0, 0), 1)];
    let sim = Simulation::new(config(1), statics, two_bodies(), tests).ok().unwrap();
    assert_eq!(sim.positions(), vec![v(1, 1), v(0, -100), v(0, 100), v(3, 3)]);
}

#[test]
fn many_body_momentum_is_conserved_without_static_bodies() {
    let bodies = vec![
        DynamicBody::new(2, v(0, -1000), v(300, 10), 1),
        DynamicBody::new(5, v(900, 200), v(-120, 40), 1),
        DynamicBody::new(1, v(-700, 500), v(0, -250), 1),
        DynamicBody::new(3, v(100, 100), v(7, 7), 1),
    ];
    let tests = vec![TestBody::new(v(5000, 0), v(0, 0), 1)];
    let c = Config { grav: 100_000_000, softening: 10, step: 1 };
    let mut sim = Simulation::new(c, vec![], bodies, tests).ok().unwrap();
    let p0 = momentum(&sim);
    assert_eq!(sim.integrate(100), Ok(()));
    assert_eq!(momentum(&sim), p0);
    assert_ne!(sim.dynamic_bodies()[0].velocity, v(300, 10));
}
