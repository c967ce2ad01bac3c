//! The simulation driver: the catalog of bodies, the fixed step (kick, then
//! drift) and the clock.
use vstd::prelude::*;

use crate::catalog::{
    in_world, position_in_world, Config, DynamicBody, StaticBody, TestBody, MAX_BODIES,
    WORLD_LIMIT,
};
use crate::integrator::{
    dynamic_pull, dynamic_pull_exec, lemma_dynamic_pull_bounded, lemma_static_pull_bounded,
    mutual_pulls, static_pull, static_pull_exec,
};
use crate::collision::{will_collide, will_collide_spec};
use crate::vector::Vector;

verus! {

/// Why a simulation could not be set up.
#[derive(Clone, Copy, Debug, PartialEq, Eq, Structural)]
pub enum SetupError {
    /// The softening term is zero.
    NonPositiveSoftening,
    /// The step length is zero.
    NonPositiveStep,
    /// The gravitational constant times the step length exceeds `u64::MAX`.
    GravityTooLarge,
    /// More than `MAX_BODIES` bodies were given.
    TooManyBodies,
    /// A body starts outside the world.
    OutsideWorld,
}

/// Why a step could not be taken; the simulation is left as it was.
#[derive(Clone, Copy, Debug, PartialEq, Eq, Structural)]
pub enum StepError {
    /// The clock would pass the largest representable time.
    ClockOverflow,
    /// A velocity would leave the `i32` range, or a body would leave the world.
    OutOfRange,
}

/// What a simulation is: its constants, its clock and its bodies.
pub struct SimState {
    pub config: Config,
    pub time: nat,
    pub statics: Seq<StaticBody>,
    pub dynamics: Seq<DynamicBody>,
    pub tests: Seq<TestBody>,
}

pub open spec fn fits_i32(v: int) -> bool {
    i32::MIN <= v <= i32::MAX
}

pub open spec fn to_vector(v: (int, int)) -> Vector {
    Vector { x: v.0 as i32, y: v.1 as i32 }
}

/// The velocity of dynamic body `i` after the kick: its velocity plus the
/// pull of every static body and of every other dynamic body.
pub open spec fn kicked_dynamic(s: SimState, i: int) -> (int, int) {
    let b = s.dynamics[i];
    let sp = static_pull(s.config, b.position, s.statics);
    let dp = dynamic_pull(s.config, b.position, s.dynamics, i);
    (b.velocity.x + sp.0 + dp.0, b.velocity.y + sp.1 + dp.1)
}

/// The velocity of a test body after the kick.
pub open spec fn kicked_test(s: SimState, b: TestBody) -> (int, int) {
    let sp = static_pull(s.config, b.position, s.statics);
    let dp = dynamic_pull(s.config, b.position, s.dynamics, -1);
    (b.velocity.x + sp.0 + dp.0, b.velocity.y + sp.1 + dp.1)
}

/// The position after the drift: the old position moved for one step at the
/// new velocity.
pub open spec fn drifted(cfg: Config, x: Vector, v: (int, int)) -> (int, int) {
    (x.x + cfg.step * v.0, x.y + cfg.step * v.1)
}

/// Whether a body at `x` with new velocity `v` stays representable: the
/// velocity fits an `i32` and the new position lies within the world.
pub open spec fn lands(cfg: Config, x: Vector, v: (int, int)) -> bool {
    let p = drifted(cfg, x, v);
    fits_i32(v.0) && fits_i32(v.1) && -WORLD_LIMIT <= p.0 <= WORLD_LIMIT && -WORLD_LIMIT <= p.1
        <= WORLD_LIMIT
}

pub open spec fn next_dynamic(s: SimState, i: int) -> DynamicBody {
    let v = kicked_dynamic(s, i);
    DynamicBody {
        velocity: to_vector(v),
        position: to_vector(drifted(s.config, s.dynamics[i].position, v)),
        ..s.dynamics[i]
    }
}

pub open spec fn next_test(s: SimState, b: TestBody) -> TestBody {
    let v = kicked_test(s, b);
    TestBody {
        velocity: to_vector(v),
        position: to_vector(drifted(s.config, b.position, v)),
        ..b
    }
}

/// Whether every moving body stays representable through the next step.
pub open spec fn bodies_land(s: SimState) -> bool {
    &&& forall|i: int|
        0 <= i < s.dynamics.len() ==> lands(s.config, s.dynamics[i].position, kicked_dynamic(s, i))
    &&& forall|j: int|
        0 <= j < s.tests.len() ==> lands(s.config, s.tests[j].position, kicked_test(s, s.tests[j]))
}

/// The state after one step, taken with exact arithmetic: every velocity
/// kicked by the pulls at the current positions, then every position drifted
/// at its new velocity, then the clock advanced. Static bodies stay as they are.
pub open spec fn next_state(s: SimState) -> SimState {
    SimState {
        config: s.config,
        time: (s.time + s.config.step) as nat,
        statics: s.statics,
        dynamics: Seq::new(s.dynamics.len(), |i: int| next_dynamic(s, i)),
        tests: Seq::new(s.tests.len(), |j: int| next_test(s, s.tests[j])),
    }
}

/// The outcome of one step.
pub open spec fn step_result(s: SimState) -> Result<SimState, StepError> {
    if s.time + s.config.step > u64::MAX {
        Err(StepError::ClockOverflow)
    } else if !bodies_land(s) {
        Err(StepError::OutOfRange)
    } else {
        Ok(next_state(s))
    }
}

/// The state after stepping until the clock reaches `target`, and the error
/// that stopped the run early, if one did.
pub open spec fn integrate_result(s: SimState, target: int) -> (SimState, Option<StepError>)
    decreases (if s.time < target { target - s.time } else { 0 }),
{
    if s.time >= target || s.config.step == 0 {
        (s, None)
    } else {
        match step_result(s) {
            Err(e) => (s, Some(e)),
            Ok(n) => integrate_result(next_state(s), target),
        }
    }
}

/// One body's share of a step: its velocity kicked by `pull`, then its
/// position drifted at the new velocity; `None` when the result does not land.
fn kick_and_drift(cfg: &Config, position: Vector, velocity: Vector, pull_x: i128, pull_y: i128) -> (r:
    Option<(Vector, Vector)>)
    requires
        cfg.valid(),
        -0x4000_0000_0000_0000_0000_0000_0000_0000 <= pull_x <= 0x4000_0000_0000_0000_0000_0000_0000_0000,
        -0x4000_0000_0000_0000_0000_0000_0000_0000 <= pull_y <= 0x4000_0000_0000_0000_0000_0000_0000_0000,
    ensures
        ({
            let kv = (velocity.x + pull_x, velocity.y + pull_y);
            match r {
                Some((p, v)) => lands(*cfg, position, kv) && v == to_vector(kv) && p == to_vector(
                    drifted(*cfg, position, kv),
                ),
                None => !lands(*cfg, position, kv),
            }
        }),
{
    let step = cfg.step;
    let vx: i128 = velocity.x as i128 + pull_x;
    let vy: i128 = velocity.y as i128 + pull_y;
    if vx < i32::MIN as i128 || vx > i32::MAX as i128 || vy < i32::MIN as i128 || vy
        > i32::MAX as i128 {
        return None;
    }
    assert(-0x1_0000_0000_0000_0000 <= step * vx <= 0x1_0000_0000_0000_0000
        && -0x1_0000_0000_0000_0000 <= step * vy <= 0x1_0000_0000_0000_0000) by (nonlinear_arith)
        requires
            0 <= step <= 0x1_0000_0000,
            -0x8000_0000 <= vx <= 0x8000_0000,
            -0x8000_0000 <= vy <= 0x8000_0000,
    ;
    let px: i128 = position.x as i128 + step as i128 * vx;
    let py: i128 = position.y as i128 + step as i128 * vy;
    if px < -WORLD_LIMIT as i128 || px > WORLD_LIMIT as i128 || py < -WORLD_LIMIT as i128 || py
        > WORLD_LIMIT as i128 {
        return None;
    }
    Some((Vector { x: px as i32, y: py as i32 }, Vector { x: vx as i32, y: vy as i32 }))
}

/// The number of bodies of all kinds. Bodies are numbered statics first,
/// then dynamic bodies, then test bodies, each kind in catalog order.
pub open spec fn body_count(s: SimState) -> int {
    (s.statics.len() + s.dynamics.len() + s.tests.len()) as int
}

pub open spec fn body_radius(s: SimState, i: int) -> int {
    if i < s.statics.len() {
        s.statics[i].radius as int
    } else if i < s.statics.len() + s.dynamics.len() {
        s.dynamics[i - s.statics.len()].radius as int
    } else {
        s.tests[i - s.statics.len() - s.dynamics.len()].radius as int
    }
}

pub open spec fn body_position(s: SimState, i: int) -> Vector {
    if i < s.statics.len() {
        s.statics[i].position
    } else if i < s.statics.len() + s.dynamics.len() {
        s.dynamics[i - s.statics.len()].position
    } else {
        s.tests[i - s.statics.len() - s.dynamics.len()].position
    }
}

/// The velocity of body `i`; `None` for a static body.
pub open spec fn body_velocity(s: SimState, i: int) -> Option<Vector> {
    if i < s.statics.len() {
        None
    } else if i < s.statics.len() + s.dynamics.len() {
        Some(s.dynamics[i - s.statics.len()].velocity)
    } else {
        Some(s.tests[i - s.statics.len() - s.dynamics.len()].velocity)
    }
}

/// Whether bodies `a` and `b` touch during the next `dt` time units.
pub open spec fn pair_collides(s: SimState, dt: int, a: int, b: int) -> bool {
    let pa = body_position(s, a);
    let pb = body_position(s, b);
    will_collide_spec(
        dt,
        body_radius(s, a) + body_radius(s, b),
        Vector { x: (pb.x - pa.x) as i32, y: (pb.y - pa.y) as i32 },
        body_velocity(s, a),
        body_velocity(s, b),
    )
}

/// Lexicographic order on pairs of body numbers.
pub open spec fn pair_before(p: (usize, usize), q: (usize, usize)) -> bool {
    p.0 < q.0 || (p.0 == q.0 && p.1 < q.1)
}

/// A simulation: a fixed catalog of bodies under mutual gravity, advanced in
/// fixed steps.
pub struct Simulation {
    config: Config,
    time: u64,
    statics: Vec<StaticBody>,
    dynamics: Vec<DynamicBody>,
    tests: Vec<TestBody>,
}

impl View for Simulation {
    type V = SimState;

    closed spec fn view(&self) -> SimState {
        SimState {
            config: self.config,
            time: self.time as nat,
            statics: self.statics@,
            dynamics: self.dynamics@,
            tests: self.tests@,
        }
    }
}

/// Whether a state is one that a simulation can be in: valid constants, at
/// most `MAX_BODIES` bodies, and every body within the world.
pub open spec fn state_wf(s: SimState) -> bool {
    &&& s.config.valid()
    &&& s.time <= u64::MAX
    &&& s.statics.len() + s.dynamics.len() + s.tests.len() <= MAX_BODIES
    &&& forall|i: int| 0 <= i < s.statics.len() ==> in_world(#[trigger] s.statics[i].position)
    &&& forall|i: int| 0 <= i < s.dynamics.len() ==> in_world(#[trigger] s.dynamics[i].position)
    &&& forall|i: int| 0 <= i < s.tests.len() ==> in_world(#[trigger] s.tests[i].position)
}

impl Simulation {
    pub open spec fn wf(&self) -> bool {
        state_wf(self@)
    }

    /// Sets up a simulation at time zero with the given bodies.
    pub fn new(
        config: Config,
        statics: Vec<StaticBody>,
        dynamics: Vec<DynamicBody>,
        tests: Vec<TestBody>,
    ) -> (r: Result<Simulation, SetupError>)
        ensures
            config.softening == 0 ==> r == Err::<Simulation, _>(SetupError::NonPositiveSoftening),
            config.softening > 0 && config.step == 0 ==> r == Err::<Simulation, _>(
                SetupError::NonPositiveStep,
            ),
            config.softening > 0 && config.step > 0 && !config.valid() ==> r == Err::<
                Simulation,
                _,
            >(SetupError::GravityTooLarge),
            config.valid() && statics.len() + dynamics.len() + tests.len() > MAX_BODIES ==> r
                == Err::<Simulation, _>(SetupError::TooManyBodies),
            config.valid() && statics.len() + dynamics.len() + tests.len() <= MAX_BODIES ==> (
            r is Ok <==> state_wf(
                SimState { config, time: 0, statics: statics@, dynamics: dynamics@, tests: tests@ },
            )),
            config.valid() && statics.len() + dynamics.len() + tests.len() <= MAX_BODIES && !(
            r is Ok) ==> r == Err::<Simulation, _>(SetupError::OutsideWorld),
            r matches Ok(sim) ==> sim.wf() && sim@ == (SimState {
                config,
                time: 0,
                statics: statics@,
                dynamics: dynamics@,
                tests: tests@,
            }),
    {
        if config.softening == 0 {
            return Err(SetupError::NonPositiveSoftening);
        }
        if config.step == 0 {
            return Err(SetupError::NonPositiveStep);
        }
        if config.checked_grav_dt().is_none() {
            return Err(SetupError::GravityTooLarge);
        }
        if statics.len() > MAX_BODIES || dynamics.len() > MAX_BODIES - statics.len()
            || tests.len() > MAX_BODIES - statics.len() - dynamics.len() {
            return Err(SetupError::TooManyBodies);
        }
        let mut i: usize = 0;
        while i < statics.len()
            invariant
                config.valid(),
                statics.len() + dynamics.len() + tests.len() <= MAX_BODIES,
                forall|q: int| 0 <= q < i ==> in_world(#[trigger] statics@[q].position),
            decreases statics.len() - i,
        {
            if !position_in_world(statics[i].position) {
                return Err(SetupError::OutsideWorld);
            }
            i += 1;
        }
        let mut i: usize = 0;
        while i < dynamics.len()
            invariant
                config.valid(),
                statics.len() + dynamics.len() + tests.len() <= MAX_BODIES,
                forall|q: int| 0 <= q < statics.len() ==> in_world(#[trigger] statics@[q].position),
                forall|q: int| 0 <= q < i ==> in_world(#[trigger] dynamics@[q].position),
            decreases dynamics.len() - i,
        {
            if !position_in_world(dynamics[i].position) {
                return Err(SetupError::OutsideWorld);
            }
            i += 1;
        }
        let mut i: usize = 0;
        while i < tests.len()
            invariant
                config.valid(),
                statics.len() + dynamics.len() + tests.len() <= MAX_BODIES,
                forall|q: int| 0 <= q < statics.len() ==> in_world(#[trigger] statics@[q].position),
                forall|q: int| 0 <= q < dynamics.len() ==> in_world(#[trigger] dynamics@[q].position),
                forall|q: int| 0 <= q < i ==> in_world(#[trigger] tests@[q].position),
            decreases tests.len() - i,
        {
            if !position_in_world(tests[i].position) {
                return Err(SetupError::OutsideWorld);
            }
            i += 1;
        }
        Ok(Simulation { config, time: 0, statics, dynamics, tests })
    }

    /// Advances the simulation by one fixed step: every dynamic and test body
    /// is kicked by the pulls evaluated at the current positions, then drifted
    /// at its new velocity, then the clock advances by one step. Static bodies
    /// are untouched. The step is atomic: when it cannot be represented, the
    /// simulation is left exactly as it was.
    pub fn step(&mut self) -> (r: Result<(), StepError>)
        requires
            old(self).wf(),
        ensures
            final(self).wf(),
            match step_result(old(self)@) {
                Ok(n) => r is Ok && final(self)@ == n,
                Err(e) => r == Err::<(), StepError>(e) && final(self)@ == old(self)@,
            },
    {
        if self.time > u64::MAX - self.config.step as u64 {
            return Err(StepError::ClockOverflow);
        }
        let ghost s0 = self@;
        let (mx, my) = mutual_pulls(&self.config, &self.dynamics);
        let mut new_dynamics: Vec<DynamicBody> = Vec::new();
        let mut i: usize = 0;
        while i < self.dynamics.len()
            invariant
                self.wf(),
                self@ == s0,
                *self == *old(self),
                s0.time + s0.config.step <= u64::MAX,
                i <= s0.dynamics.len(),
                mx.len() == s0.dynamics.len(),
                my.len() == s0.dynamics.len(),
                forall|q: int|
                    0 <= q < s0.dynamics.len() ==> (#[trigger] mx[q] as int, my[q] as int)
                        == dynamic_pull(s0.config, s0.dynamics[q].position, s0.dynamics, q),
                new_dynamics.len() == i,
                forall|q: int| 0 <= q < i ==> #[trigger] new_dynamics@[q] == next_dynamic(s0, q),
                forall|q: int|
                    0 <= q < i ==> lands(
                        s0.config,
                        s0.dynamics[q].position,
                        #[trigger] kicked_dynamic(s0, q),
                    ),
            decreases s0.dynamics.len() - i,
        {
            let b = self.dynamics[i];
            let (sx, sy) = static_pull_exec(&self.config, b.position, &self.statics);
            proof {
                lemma_static_pull_bounded(s0.config, b.position, s0.statics);
                lemma_dynamic_pull_bounded(s0.config, b.position, s0.dynamics, i as int);
            }
            let ghost kv = kicked_dynamic(s0, i as int);
            assert((b.velocity.x + (sx + mx[i as int]), b.velocity.y + (sy + my[i as int])) == kv);
            match kick_and_drift(&self.config, b.position, b.velocity, sx + mx[i], sy + my[i]) {
                Some((position, velocity)) => {
                    let nb = DynamicBody { radius: b.radius, mass: b.mass, position, velocity };
                    assert(nb == next_dynamic(s0, i as int));
                    new_dynamics.push(nb);
                },
                None => {
                    assert(!lands(s0.config, s0.dynamics[i as int].position, kv));
                    assert(!bodies_land(s0));
                    return Err(StepError::OutOfRange);
                },
            }
            i += 1;
        }
        let mut new_tests: Vec<TestBody> = Vec::new();
        let mut j: usize = 0;
        while j < self.tests.len()
            invariant
                self.wf(),
                self@ == s0,
                *self == *old(self),
                s0.time + s0.config.step <= u64::MAX,
                j <= s0.tests.len(),
                new_dynamics.len() == s0.dynamics.len(),
                forall|q: int| 0 <= q < s0.dynamics.len() ==> #[trigger] new_dynamics@[q] == next_dynamic(s0, q),
                forall|q: int|
                    0 <= q < s0.dynamics.len() ==> lands(
                        s0.config,
                        s0.dynamics[q].position,
                        #[trigger] kicked_dynamic(s0, q),
                    ),
                new_tests.len() == j,
                forall|q: int| 0 <= q < j ==> #[trigger] new_tests@[q] == next_test(s0, s0.tests[q]),
                forall|q: int|
                    0 <= q < j ==> lands(
                        s0.config,
                        s0.tests[q].position,
                        #[trigger] kicked_test(s0, s0.tests[q]),
                    ),
            decreases s0.tests.len() - j,
        {
            let b = self.tests[j];
            let (sx, sy) = static_pull_exec(&self.config, b.position, &self.statics);
            let (dx, dy) = dynamic_pull_exec(&self.config, b.position, &self.dynamics);
            proof {
                lemma_static_pull_bounded(s0.config, b.position, s0.statics);
                lemma_dynamic_pull_bounded(s0.config, b.position, s0.dynamics, -1);
            }
            let ghost kv = kicked_test(s0, s0.tests[j as int]);
            assert((b.velocity.x + (sx + dx), b.velocity.y + (sy + dy)) == kv);
            match kick_and_drift(&self.config, b.position, b.velocity, sx + dx, sy + dy) {
                Some((position, velocity)) => {
                    let nb = TestBody { radius: b.radius, position, velocity };
                    assert(nb == next_test(s0, s0.tests[j as int]));
                    new_tests.push(nb);
                },
                None => {
                    assert(!lands(s0.config, s0.tests[j as int].position, kv));
                    assert(!bodies_land(s0));
                    return Err(StepError::OutOfRange);
                },
            }
            j += 1;
        }
        proof {
            let n = next_state(s0);
            assert(new_dynamics@ =~= n.dynamics);
            assert(new_tests@ =~= n.tests);
            assert forall|q: int| 0 <= q < s0.dynamics.len() implies lands(
                s0.config,
                s0.dynamics[q].position,
                kicked_dynamic(s0, q),
            ) by {
                assert(new_dynamics@[q] == next_dynamic(s0, q));
            }
            assert forall|q: int| 0 <= q < s0.tests.len() implies lands(
                s0.config,
                s0.tests[q].position,
                kicked_test(s0, s0.tests[q]),
            ) by {
                assert(new_tests@[q] == next_test(s0, s0.tests[q]));
            }
            assert(bodies_land(s0));
        }
        self.dynamics = new_dynamics;
        self.tests = new_tests;
        self.time = self.time + self.config.step as u64;
        Ok(())
    }

    /// The simulation time elapsed, in time units.
    pub fn time(&self) -> (r: u64)
        ensures
            r == self@.time,
    {
        self.time
    }

    pub fn config(&self) -> (r: Config)
        ensures
            r == self@.config,
    {
        self.config
    }

    pub fn static_bodies(&self) -> (r: &[StaticBody])
        ensures
            r@ == self@.statics,
    {
        self.statics.as_slice()
    }

    pub fn dynamic_bodies(&self) -> (r: &[DynamicBody])
        ensures
            r@ == self@.dynamics,
    {
        self.dynamics.as_slice()
    }

    pub fn test_bodies(&self) -> (r: &[TestBody])
        ensures
            r@ == self@.tests,
    {
        self.tests.as_slice()
    }

    /// The current position of every body, in body numbering (statics, then
    /// dynamic bodies, then test bodies). Nothing is changed.
    pub fn positions(&self) -> (r: Vec<Vector>)
        requires
            self.wf(),
        ensures
            r.len() == body_count(self@),
            forall|i: int| 0 <= i < r.len() ==> #[trigger] r[i] == body_position(self@, i),
    {
        let n = self.statics.len() + self.dynamics.len() + self.tests.len();
        let mut out: Vec<Vector> = Vec::new();
        let mut i: usize = 0;
        while i < n
            invariant
                self.wf(),
                n == body_count(self@),
                i <= n,
                out.len() == i,
                forall|k: int| 0 <= k < i ==> #[trigger] out[k] == body_position(self@, k),
            decreases n - i,
        {
            let (_, p, _) = self.body_at(i);
            out.push(p);
            i += 1;
        }
        out
    }

    fn body_at(&self, i: usize) -> (r: (u32, Vector, Option<Vector>))
        requires
            self.wf(),
            i < body_count(self@),
        ensures
            r.0 == body_radius(self@, i as int),
            r.1 == body_position(self@, i as int),
            r.2 == body_velocity(self@, i as int),
            in_world(r.1),
    {
        let ns = self.statics.len();
        let nd = self.dynamics.len();
        if i < ns {
            let b = self.statics[i];
            (b.radius, b.position, None)
        } else if i < ns + nd {
            let b = self.dynamics[i - ns];
            (b.radius, b.position, Some(b.velocity))
        } else {
            let b = self.tests[i - ns - nd];
            (b.radius, b.position, Some(b.velocity))
        }
    }

    /// Lists, in lexicographic order, every pair `(a, b)` with `a < b` of
    /// bodies that touch during the next `dt` time units, each body moving at
    /// its current velocity. Nothing is changed.
    pub fn collisions(&self, dt: u32) -> (r: Vec<(usize, usize)>)
        requires
            self.wf(),
        ensures
            forall|k: int|
                0 <= k < r.len() ==> (#[trigger] r[k]).0 < r[k].1 < body_count(self@)
                    && pair_collides(self@, dt as int, r[k].0 as int, r[k].1 as int),
            forall|a: int, b: int|
                0 <= a < b < body_count(self@) && #[trigger] pair_collides(self@, dt as int, a, b)
                    ==> r@.contains((a as usize, b as usize)),
            forall|k: int, l: int| 0 <= k < l < r.len() ==> pair_before(#[trigger] r[k], #[trigger] r[l]),
    {
        let n = self.statics.len() + self.dynamics.len() + self.tests.len();
        let mut out: Vec<(usize, usize)> = Vec::new();
        let mut i: usize = 0;
        while i < n
            invariant
                self.wf(),
                n == body_count(self@),
                i <= n,
                forall|k: int|
                    0 <= k < out.len() ==> (#[trigger] out[k]).0 < out[k].1 < n && pair_collides(
                        self@,
                        dt as int,
                        out[k].0 as int,
                        out[k].1 as int,
                    ) && out[k].0 < i,
                forall|a: int, b: int|
                    0 <= a < i && a < b < n && #[trigger] pair_collides(self@, dt as int, a, b)
                        ==> out@.contains((a as usize, b as usize)),
                forall|k: int, l: int|
                    0 <= k < l < out.len() ==> pair_before(#[trigger] out[k], #[trigger] out[l]),
            decreases n - i,
        {
            let (ra, pa, va) = self.body_at(i);
            let mut j: usize = i + 1;
            while j < n
                invariant
                    self.wf(),
                    n == body_count(self@),
                    i < j <= n,
                    ra == body_radius(self@, i as int),
                    pa == body_position(self@, i as int),
                    va == body_velocity(self@, i as int),
                    in_world(pa),
                    forall|k: int|
                        0 <= k < out.len() ==> (#[trigger] out[k]).0 < out[k].1 < n && pair_collides(
                            self@,
                            dt as int,
                            out[k].0 as int,
                            out[k].1 as int,
                        ) && pair_before(out[k], (i, j)),
                    forall|a: int, b: int|
                        0 <= a < n && a < b < n && (a < i || (a == i && b < j))
                            && #[trigger] pair_collides(self@, dt as int, a, b) ==> out@.contains(
                            (a as usize, b as usize),
                        ),
                    forall|k: int, l: int|
                        0 <= k < l < out.len() ==> pair_before(#[trigger] out[k], #[trigger] out[l]),
                decreases n - j,
            {
                let (rb, pb, vb) = self.body_at(j);
                let rel = Vector { x: pb.x - pa.x, y: pb.y - pa.y };
                if will_collide(dt, ra as u64 + rb as u64, rel, va, vb) {
                    let ghost before = out@;
                    out.push((i, j));
                    proof {
                        assert forall|a: int, b: int|
                            0 <= a < n && a < b < n && (a < i || (a == i && b < j + 1))
                                && #[trigger] pair_collides(self@, dt as int, a, b) implies out@.contains(
                            (a as usize, b as usize),
                        ) by {
                            if a == i && b == j {
                                assert(out@[out@.len() - 1] == (a as usize, b as usize));
                            } else {
                                let k = choose|k: int| 0 <= k < before.len() && before[k] == (a as usize, b as usize);
                                assert(out@[k] == before[k]);
                            }
                        }
                    }
                }
                j += 1;
            }
            i += 1;
        }
        out
    }

    /// Steps until the clock reaches `target`. The clock advances in whole
    /// steps, so it may pass `target` by less than one step; it never stops
    /// short of it. A step that fails stops the run, with the state as the
    /// last successful step left it.
    pub fn integrate(&mut self, target: u64) -> (r: Result<(), StepError>)
        requires
            old(self).wf(),
        ensures
            final(self).wf(),
            integrate_result(old(self)@, target as int) == (
            final(self)@,
            match r {
                Ok(_) => None::<StepError>,
                Err(e) => Some(e),
            },
            ),
    {
        while self.time < target
            invariant
                self.wf(),
                integrate_result(old(self)@, target as int) == integrate_result(self@, target as int),
            decreases (if self.time < target { target - self.time } else { 0 }),
        {
            let ghost before = self@;
            match self.step() {
                Ok(()) => {
                    assert(self.time == before.time + before.config.step);
                },
                Err(e) => {
                    return Err(e);
                },
            }
        }
        Ok(())
    }
}

} // verus!
