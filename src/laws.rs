//! Properties of the simulation as a whole, proved over the step and the
//! driver's specifications.
use vstd::prelude::*;

use crate::catalog::{Config, DynamicBody};
use crate::gravity::{lemma_unit_pull_antisymmetric, unit_pull};
use crate::integrator::{dynamic_pull, static_pull};
use crate::simulation::{
    bodies_land, integrate_result, kicked_dynamic, lands, next_state, step_result, SimState,
    StepError,
};
use crate::vector::Vector;

verus! {

/// The total momentum of the dynamic bodies.
pub open spec fn momentum(d: Seq<DynamicBody>) -> (int, int)
    decreases d.len(),
{
    if d.len() == 0 {
        (0, 0)
    } else {
        let rest = momentum(d.drop_last());
        (rest.0 + d.last().mass * d.last().velocity.x, rest.1 + d.last().mass * d.last().velocity.y)
    }
}

/// Integrating to `target` from a clock at or before it ends, when no step
/// fails, after some whole number of steps `k`, at or past `target` and less
/// than one step beyond it. The clock stops short of the target only when a
/// step fails, and the failure is then reported.
pub proof fn lemma_integrate_clock(s: SimState, target: int) -> (k: nat)
    requires
        s.config.valid(),
        s.time <= target,
    ensures
        integrate_result(s, target).1 is None ==> {
            let t = integrate_result(s, target).0.time;
            &&& t == s.time + k * s.config.step
            &&& target <= t < target + s.config.step
        },
        integrate_result(s, target).1 is Some ==> integrate_result(s, target).0.time < target,
    decreases target - s.time,
{
    if s.time >= target {
        assert(s.time + 0 * s.config.step == s.time);
        0
    } else {
        match step_result(s) {
            Err(_) => 0,
            Ok(n) => {
                assert(integrate_result(s, target) == integrate_result(n, target));
                if n.time >= target {
                    assert(integrate_result(n, target) == (n, None::<StepError>));
                    assert(s.time + 1 * s.config.step == n.time);
                    1
                } else {
                    let k = lemma_integrate_clock(n, target);
                    assert(s.time + (k + 1) * s.config.step == n.time + k * s.config.step)
                        by (nonlinear_arith)
                        requires
                            n.time == s.time + s.config.step,
                    ;
                    k + 1
                }
            },
        }
    }
}

/// Integrating to a target exactly `n` steps ahead, when no step fails,
/// leaves the clock exactly at the target.
pub proof fn lemma_integrate_whole_steps(s: SimState, n: nat)
    requires
        s.config.valid(),
    ensures
        integrate_result(s, s.time + n * s.config.step).1 is None ==> integrate_result(
            s,
            s.time + n * s.config.step,
        ).0.time == s.time + n * s.config.step,
{
    let step = s.config.step as int;
    let target = s.time + n * step;
    assert(n * step >= 0) by (nonlinear_arith)
        requires
            step > 0,
    ;
    let k = lemma_integrate_clock(s, target);
    if integrate_result(s, target).1 is None {
        assert(k == n) by (nonlinear_arith)
            requires
                n * step <= k * step < n * step + step,
                step > 0,
        ;
    }
}

/// Static bodies are never changed by integrating, however many steps it
/// takes and whether or not a step fails.
pub proof fn lemma_integrate_keeps_statics(s: SimState, target: int)
    requires
        s.config.valid(),
    ensures
        integrate_result(s, target).0.statics == s.statics,
    decreases (if s.time < target { target - s.time } else { 0 }),
{
    if s.time < target {
        if let Ok(n) = step_result(s) {
            lemma_integrate_keeps_statics(n, target);
        }
    }
}

/// Newton's third law for one pair: the velocity change that a body of mass
/// `mb` at `pb` gives a body of mass `ma` at `pa`, weighted by `ma`, is the
/// exact opposite of the change the latter gives the former, weighted by `mb`.
pub proof fn lemma_pair_reaction(cfg: Config, ma: u32, pa: Vector, mb: u32, pb: Vector)
    requires
        cfg.valid(),
    ensures
        ma * (mb * unit_pull(cfg.grav_dt(), cfg.softening as int, pa, pb).0) == -(mb * (ma
            * unit_pull(cfg.grav_dt(), cfg.softening as int, pb, pa).0)),
        ma * (mb * unit_pull(cfg.grav_dt(), cfg.softening as int, pa, pb).1) == -(mb * (ma
            * unit_pull(cfg.grav_dt(), cfg.softening as int, pb, pa).1)),
{
    let k = cfg.grav_dt();
    let soft = cfg.softening as int;
    lemma_unit_pull_antisymmetric(k, soft, pa, pb);
    let u = unit_pull(k, soft, pa, pb);
    let w = unit_pull(k, soft, pb, pa);
    assert(ma * (mb * u.0) == -(mb * (ma * w.0)) && ma * (mb * u.1) == -(mb * (ma * w.1)))
        by (nonlinear_arith)
        requires
            w.0 == -u.0,
            w.1 == -u.1,
    ;
}

/// In a system of two dynamic bodies and no static ones, one step changes
/// their velocities by opposite amounts of momentum: `m0 * dv0 == -(m1 * dv1)`.
pub proof fn lemma_two_body_step(s: SimState)
    requires
        s.config.valid(),
        s.statics.len() == 0,
        s.dynamics.len() == 2,
        step_result(s) is Ok,
    ensures
        ({
            let n = next_state(s);
            let (a, b) = (s.dynamics[0], s.dynamics[1]);
            let (a2, b2) = (n.dynamics[0], n.dynamics[1]);
            &&& a.mass * (a2.velocity.x - a.velocity.x) == -(b.mass * (b2.velocity.x
                - b.velocity.x))
            &&& a.mass * (a2.velocity.y - a.velocity.y) == -(b.mass * (b2.velocity.y
                - b.velocity.y))
        }),
{
    let d = s.dynamics;
    let (a, b) = (d[0], d[1]);
    let cfg = s.config;
    let k = cfg.grav_dt();
    let soft = cfg.softening as int;
    assert(d.drop_last().drop_last().len() == 0);
    assert(d.drop_last().last() == a);
    assert(d.last() == b);
    let u = unit_pull(k, soft, a.position, b.position);
    let w = unit_pull(k, soft, b.position, a.position);
    assert(static_pull(cfg, a.position, s.statics) == (0int, 0int));
    assert(static_pull(cfg, b.position, s.statics) == (0int, 0int));
    assert(dynamic_pull(cfg, a.position, d.drop_last().drop_last(), 0) == (0int, 0int));
    assert(dynamic_pull(cfg, a.position, d.drop_last(), 0) == (0int, 0int));
    assert(dynamic_pull(cfg, a.position, d, 0) == (b.mass * u.0, b.mass * u.1));
    assert(dynamic_pull(cfg, b.position, d.drop_last().drop_last(), 1) == (0int, 0int));
    assert(dynamic_pull(cfg, b.position, d.drop_last(), 1) == (a.mass * w.0, a.mass * w.1));
    assert(dynamic_pull(cfg, b.position, d, 1) == (a.mass * w.0, a.mass * w.1));
    let n = next_state(s);
    assert(lands(cfg, a.position, kicked_dynamic(s, 0)));
    assert(lands(cfg, b.position, kicked_dynamic(s, 1)));
    assert(n.dynamics[0].velocity.x == a.velocity.x + b.mass * u.0);
    assert(n.dynamics[0].velocity.y == a.velocity.y + b.mass * u.1);
    assert(n.dynamics[1].velocity.x == b.velocity.x + a.mass * w.0);
    assert(n.dynamics[1].velocity.y == b.velocity.y + a.mass * w.1);
    lemma_pair_reaction(cfg, a.mass, a.position, b.mass, b.position);
    let nd = n.dynamics;
    assert(a.mass * (nd[0].velocity.x - a.velocity.x) == a.mass * nd[0].velocity.x - a.mass
        * a.velocity.x) by (nonlinear_arith);
    assert(a.mass * (nd[0].velocity.y - a.velocity.y) == a.mass * nd[0].velocity.y - a.mass
        * a.velocity.y) by (nonlinear_arith);
    assert(b.mass * (nd[1].velocity.x - b.velocity.x) == b.mass * nd[1].velocity.x - b.mass
        * b.velocity.x) by (nonlinear_arith);
    assert(b.mass * (nd[1].velocity.y - b.velocity.y) == b.mass * nd[1].velocity.y - b.mass
        * b.velocity.y) by (nonlinear_arith);
}

/// The pulls among the first `n` dynamic bodies on each of the first `k`,
/// weighted by the receiving body's mass and summed.
pub open spec fn weighted_pulls(cfg: Config, d: Seq<DynamicBody>, n: int, k: int) -> (int, int)
    decreases k,
{
    if k <= 0 {
        (0, 0)
    } else {
        let r = weighted_pulls(cfg, d, n, k - 1);
        let p = dynamic_pull(cfg, d[k - 1].position, d.subrange(0, n), k - 1);
        (r.0 + d[k - 1].mass * p.0, r.1 + d[k - 1].mass * p.1)
    }
}

/// The pulls of dynamic body `n` on each of the first `k`, weighted by both
/// masses and summed.
pub open spec fn weighted_column(cfg: Config, d: Seq<DynamicBody>, n: int, k: int) -> (int, int)
    decreases k,
{
    if k <= 0 {
        (0, 0)
    } else {
        let r = weighted_column(cfg, d, n, k - 1);
        let u = unit_pull(cfg.grav_dt(), cfg.softening as int, d[k - 1].position, d[n].position);
        (r.0 + d[k - 1].mass * (d[n].mass * u.0), r.1 + d[k - 1].mass * (d[n].mass * u.1))
    }
}

proof fn lemma_distribute(m: int, a: int, b: int) by (nonlinear_arith)
    ensures
        m * (a + b) == m * a + m * b,
{
}

proof fn lemma_add_source(cfg: Config, d: Seq<DynamicBody>, n: int, k: int)
    requires
        0 <= k <= n < d.len(),
    ensures
        weighted_pulls(cfg, d, n + 1, k) == ({
            let a = weighted_pulls(cfg, d, n, k);
            let c = weighted_column(cfg, d, n, k);
            (a.0 + c.0, a.1 + c.1)
        }),
    decreases k,
{
    if k > 0 {
        lemma_add_source(cfg, d, n, k - 1);
        let i = k - 1;
        assert(d.subrange(0, n + 1).drop_last() =~= d.subrange(0, n));
        assert(d.subrange(0, n + 1).last() == d[n]);
        let p = dynamic_pull(cfg, d[i].position, d.subrange(0, n), i);
        let u = unit_pull(cfg.grav_dt(), cfg.softening as int, d[i].position, d[n].position);
        lemma_distribute(d[i].mass as int, p.0, d[n].mass * u.0);
        lemma_distribute(d[i].mass as int, p.1, d[n].mass * u.1);
    }
}

proof fn lemma_reaction_column(cfg: Config, d: Seq<DynamicBody>, n: int, k: int)
    requires
        cfg.valid(),
        0 <= k <= n < d.len(),
    ensures
        d[n].mass * dynamic_pull(cfg, d[n].position, d.subrange(0, k), n).0 == -weighted_column(
            cfg,
            d,
            n,
            k,
        ).0,
        d[n].mass * dynamic_pull(cfg, d[n].position, d.subrange(0, k), n).1 == -weighted_column(
            cfg,
            d,
            n,
            k,
        ).1,
    decreases k,
{
    if k > 0 {
        lemma_reaction_column(cfg, d, n, k - 1);
        let j = k - 1;
        assert(d.subrange(0, k).drop_last() =~= d.subrange(0, j));
        assert(d.subrange(0, k).last() == d[j]);
        let p = dynamic_pull(cfg, d[n].position, d.subrange(0, j), n);
        let mn = d[n].mass as int;
        let mj = d[j].mass as int;
        let w = unit_pull(cfg.grav_dt(), cfg.softening as int, d[n].position, d[j].position);
        let u = unit_pull(cfg.grav_dt(), cfg.softening as int, d[j].position, d[n].position);
        lemma_unit_pull_antisymmetric(cfg.grav_dt(), cfg.softening as int, d[j].position, d[n].position);
        lemma_distribute(mn, p.0, mj * w.0);
        lemma_distribute(mn, p.1, mj * w.1);
        assert(mn * (mj * w.0) == -(mj * (mn * u.0)) && mn * (mj * w.1) == -(mj * (mn * u.1)))
            by (nonlinear_arith)
            requires
                w.0 == -u.0,
                w.1 == -u.1,
        ;
        assert(dynamic_pull(cfg, d[n].position, d.subrange(0, k), n) == (p.0 + mj * w.0, p.1 + mj
            * w.1));
    } else {
        let mn = d[n].mass as int;
        assert(dynamic_pull(cfg, d[n].position, d.subrange(0, k), n) == (0int, 0int));
        assert(mn * 0 == 0) by (nonlinear_arith);
    }
}

/// The mutual pulls of the dynamic bodies, weighted by mass, sum to zero:
/// every pair's two contributions cancel exactly.
pub proof fn lemma_mutual_pulls_cancel(cfg: Config, d: Seq<DynamicBody>, n: int)
    requires
        cfg.valid(),
        0 <= n <= d.len(),
    ensures
        weighted_pulls(cfg, d, n, n) == (0int, 0int),
    decreases n,
{
    if n > 0 {
        let m = n - 1;
        lemma_mutual_pulls_cancel(cfg, d, m);
        lemma_add_source(cfg, d, m, m);
        lemma_reaction_column(cfg, d, m, m);
        assert(d.subrange(0, n).drop_last() =~= d.subrange(0, m));
    }
}

proof fn lemma_momentum_after_kick(s: SimState, k: int)
    requires
        s.config.valid(),
        s.statics.len() == 0,
        bodies_land(s),
        0 <= k <= s.dynamics.len(),
    ensures
        momentum(next_state(s).dynamics.subrange(0, k)) == ({
            let a = momentum(s.dynamics.subrange(0, k));
            let w = weighted_pulls(s.config, s.dynamics, s.dynamics.len() as int, k);
            (a.0 + w.0, a.1 + w.1)
        }),
    decreases k,
{
    let d = s.dynamics;
    let nd = next_state(s).dynamics;
    if k > 0 {
        let i = k - 1;
        lemma_momentum_after_kick(s, i);
        assert(nd.subrange(0, k).drop_last() =~= nd.subrange(0, i));
        assert(d.subrange(0, k).drop_last() =~= d.subrange(0, i));
        assert(d.subrange(0, d.len() as int) =~= d);
        assert(lands(s.config, d[i].position, kicked_dynamic(s, i)));
        let p = dynamic_pull(s.config, d[i].position, d, i);
        assert(static_pull(s.config, d[i].position, s.statics) == (0int, 0int));
        assert(nd[i].velocity.x == d[i].velocity.x + p.0);
        assert(nd[i].velocity.y == d[i].velocity.y + p.1);
        lemma_distribute(d[i].mass as int, d[i].velocity.x as int, p.0);
        lemma_distribute(d[i].mass as int, d[i].velocity.y as int, p.1);
    } else {
        assert(nd.subrange(0, 0).len() == 0);
        assert(d.subrange(0, 0).len() == 0);
    }
}

/// With no static bodies, a step leaves the total momentum of the dynamic
/// bodies exactly unchanged, however many there are.
pub proof fn lemma_step_conserves_momentum(s: SimState)
    requires
        s.config.valid(),
        s.statics.len() == 0,
        step_result(s) is Ok,
    ensures
        momentum(next_state(s).dynamics) == momentum(s.dynamics),
{
    let n = s.dynamics.len() as int;
    lemma_momentum_after_kick(s, n);
    lemma_mutual_pulls_cancel(s.config, s.dynamics, n);
    assert(next_state(s).dynamics.subrange(0, n) =~= next_state(s).dynamics);
    assert(s.dynamics.subrange(0, n) =~= s.dynamics);
}

/// With no static bodies, the total momentum of the dynamic bodies is the
/// same after integrating for any length of time, whether or not a step
/// fails along the way.
pub proof fn lemma_integrate_conserves_momentum(s: SimState, target: int)
    requires
        s.config.valid(),
        s.statics.len() == 0,
    ensures
        momentum(integrate_result(s, target).0.dynamics) == momentum(s.dynamics),
    decreases (if s.time < target { target - s.time } else { 0 }),
{
    if s.time < target {
        if let Ok(n) = step_result(s) {
            lemma_step_conserves_momentum(s);
            lemma_integrate_conserves_momentum(n, target);
        }
    }
}

} // verus!
