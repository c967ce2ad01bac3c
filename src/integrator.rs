//! The kick phase of a step: the velocity change that every receiving body
//! gathers from every source, evaluated on one snapshot of the positions.
use vstd::prelude::*;

use crate::catalog::{Config, DynamicBody, StaticBody, MAX_BODIES};
use crate::gravity::{lemma_unit_pull_antisymmetric, lemma_unit_pull_bounded, pairwise_gravity, unit_pull};
use crate::vector::Vector;

verus! {

/// A bound on the size of one source's contribution: a mass below `2^32`
/// times a unit pull below `2^64`.
pub const TERM_BOUND: u128 = 0x1_0000_0000_0000_0000_0000_0000;

/// The velocity change over one step of a body at `p` due to the static
/// sources `s`.
pub open spec fn static_pull(cfg: Config, p: Vector, s: Seq<StaticBody>) -> (int, int)
    decreases s.len(),
{
    if s.len() == 0 {
        (0, 0)
    } else {
        let rest = static_pull(cfg, p, s.drop_last());
        let u = unit_pull(cfg.grav_dt(), cfg.softening as int, p, s.last().position);
        (rest.0 + s.last().mass * u.0, rest.1 + s.last().mass * u.1)
    }
}

/// The velocity change over one step of a body at `p` due to the dynamic
/// sources `d`, leaving out the one at index `skip` (the body itself; `-1`
/// leaves out none).
pub open spec fn dynamic_pull(cfg: Config, p: Vector, d: Seq<DynamicBody>, skip: int) -> (int, int)
    decreases d.len(),
{
    if d.len() == 0 {
        (0, 0)
    } else {
        let rest = dynamic_pull(cfg, p, d.drop_last(), skip);
        if d.len() - 1 == skip {
            rest
        } else {
            let u = unit_pull(cfg.grav_dt(), cfg.softening as int, p, d.last().position);
            (rest.0 + d.last().mass * u.0, rest.1 + d.last().mass * u.1)
        }
    }
}

proof fn lemma_term_bounded(cfg: Config, mass: u32, p: Vector, q: Vector)
    requires
        cfg.valid(),
    ensures
        -(TERM_BOUND as int) <= mass * unit_pull(cfg.grav_dt(), cfg.softening as int, p, q).0
            <= TERM_BOUND,
        -(TERM_BOUND as int) <= mass * unit_pull(cfg.grav_dt(), cfg.softening as int, p, q).1
            <= TERM_BOUND,
{
    let k = cfg.grav_dt();
    assert(0 <= k <= 0x1_0000_0000_0000_0000) by (nonlinear_arith)
        requires
            k == cfg.grav * cfg.step,
            k <= u64::MAX,
            cfg.grav >= 0,
            cfg.step >= 0,
    ;
    lemma_unit_pull_bounded(k, cfg.softening as int, p, q);
    let u = unit_pull(k, cfg.softening as int, p, q);
    assert(-(TERM_BOUND as int) <= mass * u.0 <= TERM_BOUND && -(TERM_BOUND as int) <= mass * u.1
        <= TERM_BOUND) by (nonlinear_arith)
        requires
            0 <= mass <= 0x1_0000_0000,
            -k <= u.0 <= k,
            -k <= u.1 <= k,
            k <= 0x1_0000_0000_0000_0000,
            TERM_BOUND == 0x1_0000_0000_0000_0000_0000_0000,
    ;
}

pub proof fn lemma_static_pull_bounded(cfg: Config, p: Vector, s: Seq<StaticBody>)
    requires
        cfg.valid(),
    ensures
        -(s.len() * TERM_BOUND) <= static_pull(cfg, p, s).0 <= s.len() * TERM_BOUND,
        -(s.len() * TERM_BOUND) <= static_pull(cfg, p, s).1 <= s.len() * TERM_BOUND,
    decreases s.len(),
{
    if s.len() > 0 {
        lemma_static_pull_bounded(cfg, p, s.drop_last());
        lemma_term_bounded(cfg, s.last().mass, p, s.last().position);
    }
}

pub proof fn lemma_dynamic_pull_bounded(cfg: Config, p: Vector, d: Seq<DynamicBody>, skip: int)
    requires
        cfg.valid(),
    ensures
        -(d.len() * TERM_BOUND) <= dynamic_pull(cfg, p, d, skip).0 <= d.len() * TERM_BOUND,
        -(d.len() * TERM_BOUND) <= dynamic_pull(cfg, p, d, skip).1 <= d.len() * TERM_BOUND,
    decreases d.len(),
{
    if d.len() > 0 {
        lemma_dynamic_pull_bounded(cfg, p, d.drop_last(), skip);
        lemma_term_bounded(cfg, d.last().mass, p, d.last().position);
    }
}

/// Sums the pull of every static source on a body at `p`.
pub fn static_pull_exec(cfg: &Config, p: Vector, statics: &Vec<StaticBody>) -> (r: (i128, i128))
    requires
        cfg.valid(),
        statics.len() <= MAX_BODIES,
    ensures
        (r.0 as int, r.1 as int) == static_pull(*cfg, p, statics@),
{
    let k = cfg.grav_dt_exec();
    let mut ax: i128 = 0;
    let mut ay: i128 = 0;
    let mut j: usize = 0;
    while j < statics.len()
        invariant
            j <= statics.len() <= MAX_BODIES,
            cfg.valid(),
            k == cfg.grav_dt(),
            (ax as int, ay as int) == static_pull(*cfg, p, statics@.subrange(0, j as int)),
        decreases statics.len() - j,
    {
        let src = statics[j];
        let g = pairwise_gravity(k, cfg.softening, p, src.position);
        proof {
            assert(statics@.subrange(0, j + 1).drop_last() =~= statics@.subrange(0, j as int));
            lemma_static_pull_bounded(*cfg, p, statics@.subrange(0, j + 1));
            lemma_term_bounded(*cfg, src.mass, p, src.position);
        }
        ax = ax + src.mass as i128 * g.0;
        ay = ay + src.mass as i128 * g.1;
        j += 1;
    }
    proof {
        assert(statics@.subrange(0, statics.len() as int) =~= statics@);
    }
    (ax, ay)
}

/// Sums the pull of every dynamic source on a massless body at `p`.
pub fn dynamic_pull_exec(cfg: &Config, p: Vector, dynamics: &Vec<DynamicBody>) -> (r: (i128, i128))
    requires
        cfg.valid(),
        dynamics.len() <= MAX_BODIES,
    ensures
        (r.0 as int, r.1 as int) == dynamic_pull(*cfg, p, dynamics@, -1),
{
    let k = cfg.grav_dt_exec();
    let mut ax: i128 = 0;
    let mut ay: i128 = 0;
    let mut j: usize = 0;
    while j < dynamics.len()
        invariant
            j <= dynamics.len() <= MAX_BODIES,
            cfg.valid(),
            k == cfg.grav_dt(),
            (ax as int, ay as int) == dynamic_pull(*cfg, p, dynamics@.subrange(0, j as int), -1),
        decreases dynamics.len() - j,
    {
        let src = dynamics[j];
        let g = pairwise_gravity(k, cfg.softening, p, src.position);
        proof {
            assert(dynamics@.subrange(0, j + 1).drop_last() =~= dynamics@.subrange(0, j as int));
            lemma_dynamic_pull_bounded(*cfg, p, dynamics@.subrange(0, j + 1), -1);
            lemma_term_bounded(*cfg, src.mass, p, src.position);
        }
        ax = ax + src.mass as i128 * g.0;
        ay = ay + src.mass as i128 * g.1;
        j += 1;
    }
    proof {
        assert(dynamics@.subrange(0, dynamics.len() as int) =~= dynamics@);
    }
    (ax, ay)
}

/// Sums, for every dynamic body, the pull of every other dynamic body. Each
/// unordered pair is evaluated once: the pull of `j` on `i` is applied to `i`
/// scaled by `j`'s mass, and its exact negation to `j` scaled by `i`'s mass.
pub fn mutual_pulls(cfg: &Config, d: &Vec<DynamicBody>) -> (r: (Vec<i128>, Vec<i128>))
    requires
        cfg.valid(),
        d.len() <= MAX_BODIES,
    ensures
        r.0.len() == d.len(),
        r.1.len() == d.len(),
        forall|i: int|
            0 <= i < d.len() ==> (#[trigger] r.0[i] as int, r.1[i] as int) == dynamic_pull(
                *cfg,
                d[i].position,
                d@,
                i,
            ),
{
    let n = d.len();
    let k = cfg.grav_dt_exec();
    let mut ax: Vec<i128> = Vec::new();
    let mut ay: Vec<i128> = Vec::new();
    let mut z: usize = 0;
    while z < n
        invariant
            z <= n,
            ax.len() == z,
            ay.len() == z,
            forall|q: int| 0 <= q < z ==> #[trigger] ax[q] == 0 && ay[q] == 0,
        decreases n - z,
    {
        ax.push(0);
        ay.push(0);
        z += 1;
    }
    proof {
        assert forall|q: int| 0 <= q < n implies (#[trigger] ax[q] as int, ay[q] as int)
            == dynamic_pull(*cfg, d[q].position, d@.subrange(0, 0), q) by {}
    }
    let mut i: usize = 0;
    while i < n
        invariant
            i <= n,
            n == d.len() <= MAX_BODIES,
            ax.len() == n,
            ay.len() == n,
            cfg.valid(),
            k == cfg.grav_dt(),
            forall|q: int|
                0 <= q < i ==> (#[trigger] ax[q] as int, ay[q] as int) == dynamic_pull(
                    *cfg,
                    d[q].position,
                    d@,
                    q,
                ),
            forall|q: int|
                i <= q < n ==> (#[trigger] ax[q] as int, ay[q] as int) == dynamic_pull(
                    *cfg,
                    d[q].position,
                    d@.subrange(0, i as int),
                    q,
                ),
        decreases n - i,
    {
        let bi = d[i];
        proof {
            assert(d@.subrange(0, i + 1).drop_last() =~= d@.subrange(0, i as int));
        }
        let mut j: usize = i + 1;
        while j < n
            invariant
                i < j <= n,
                n == d.len() <= MAX_BODIES,
                ax.len() == n,
                ay.len() == n,
                cfg.valid(),
                k == cfg.grav_dt(),
                bi == d[i as int],
                d@.subrange(0, i + 1).drop_last() == d@.subrange(0, i as int),
                forall|q: int|
                    0 <= q < i ==> (#[trigger] ax[q] as int, ay[q] as int) == dynamic_pull(
                        *cfg,
                        d[q].position,
                        d@,
                        q,
                    ),
                (ax[i as int] as int, ay[i as int] as int) == dynamic_pull(
                    *cfg,
                    bi.position,
                    d@.subrange(0, j as int),
                    i as int,
                ),
                forall|q: int|
                    i < q < j ==> (#[trigger] ax[q] as int, ay[q] as int) == dynamic_pull(
                        *cfg,
                        d[q].position,
                        d@.subrange(0, i + 1),
                        q,
                    ),
                forall|q: int|
                    j <= q < n ==> (#[trigger] ax[q] as int, ay[q] as int) == dynamic_pull(
                        *cfg,
                        d[q].position,
                        d@.subrange(0, i as int),
                        q,
                    ),
            decreases n - j,
        {
            let bj = d[j];
            let g = pairwise_gravity(k, cfg.softening, bi.position, bj.position);
            proof {
                assert(d@.subrange(0, j + 1).drop_last() =~= d@.subrange(0, j as int));
                lemma_unit_pull_antisymmetric(k as int, cfg.softening as int, bi.position, bj.position);
                lemma_dynamic_pull_bounded(*cfg, bi.position, d@.subrange(0, j + 1), i as int);
                lemma_dynamic_pull_bounded(*cfg, bj.position, d@.subrange(0, i + 1), j as int);
                lemma_term_bounded(*cfg, bj.mass, bi.position, bj.position);
                lemma_term_bounded(*cfg, bi.mass, bj.position, bi.position);
                assert(bi.mass * (-g.0) == -(bi.mass * g.0) && bi.mass * (-g.1) == -(bi.mass * g.1))
                    by (nonlinear_arith);
            }
            let new_ix = ax[i] + bj.mass as i128 * g.0;
            let new_iy = ay[i] + bj.mass as i128 * g.1;
            ax.set(i, new_ix);
            ay.set(i, new_iy);
            let new_jx = ax[j] - bi.mass as i128 * g.0;
            let new_jy = ay[j] - bi.mass as i128 * g.1;
            ax.set(j, new_jx);
            ay.set(j, new_jy);
            j += 1;
        }
        proof {
            assert(d@.subrange(0, n as int) =~= d@);
        }
        i += 1;
    }
    (ax, ay)
}

} // verus!
