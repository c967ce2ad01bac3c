//! The softened (Plummer) gravity law.
//!
//! Over one step of length `dt`, a source of unit mass at `b` changes the
//! velocity of a body at `a` by
//!
//! `(b - a) * G * dt / r2^(3/2)`, with `r2 = |b - a|^2 + softening`,
//!
//! each component being the exact real value rounded toward zero: the
//! component `c` for an offset `d` is the largest `|c|` with
//! `c^2 * r2^3 <= (d * G * dt)^2`, with the sign of `d`. So the pull of `a`
//! on `b` is the exact negation of the pull of `b` on `a`, and a source of
//! mass `m` pulls `m` times as hard. The softening term keeps the pull finite
//! when the separation reaches zero; it is part of the force law, not a
//! numerical afterthought.
use vstd::prelude::*;

use crate::vector::{norm_sq, Vector};
use crate::wide::{mul_wide, wide_le, wide_value};

verus! {

/// The integer square root: the largest `r` with `r * r <= n`.
pub open spec fn floor_sqrt(n: nat) -> nat
    decreases n,
{
    if n == 0 {
        0
    } else {
        let r = floor_sqrt((n - 1) as nat);
        if (r + 1) * (r + 1) <= n {
            r + 1
        } else {
            r
        }
    }
}

/// The largest `q >= 0` with `q * q * r2^3 <= n * n`: the real quotient
/// `|n| / r2^(3/2)` rounded down.
pub open spec fn root_quotient(n: int, r2: int) -> int {
    floor_sqrt(((n * n) / (r2 * r2 * r2)) as nat) as int
}

/// The size of `x`.
pub open spec fn magnitude(x: int) -> int {
    if x < 0 {
        -x
    } else {
        x
    }
}

/// `n / r2^(3/2)` rounded toward zero.
pub open spec fn signed_root_quotient(n: int, r2: int) -> int {
    if n >= 0 {
        root_quotient(n, r2)
    } else {
        -root_quotient(n, r2)
    }
}

/// The softened gravity factor `(G * dt) / r2^(3/2)` rounded down, with
/// `r2 = sep_sq + softening`; `grav_dt` is `G * dt`.
pub open spec fn softened_factor_spec(grav_dt: int, softening: int, sep_sq: int) -> int {
    root_quotient(grav_dt, sep_sq + softening)
}

/// The velocity change over one step that a source of unit mass at `b`
/// imparts on a body at `a`: directed from `a` toward `b`.
pub open spec fn unit_pull(grav_dt: int, softening: int, a: Vector, b: Vector) -> (int, int) {
    let dx = b.x - a.x;
    let dy = b.y - a.y;
    let r2 = norm_sq(dx, dy) + softening;
    (signed_root_quotient(dx * grav_dt, r2), signed_root_quotient(dy * grav_dt, r2))
}

proof fn lemma_square_monotone(a: int, b: int) by (nonlinear_arith)
    requires
        0 <= a <= b,
    ensures
        a * a <= b * b,
{
}

/// `floor_sqrt(n)` is bracketed by the squares around it.
pub proof fn lemma_floor_sqrt_bounds(n: nat)
    ensures
        floor_sqrt(n) * floor_sqrt(n) <= n,
        n < (floor_sqrt(n) + 1) * (floor_sqrt(n) + 1),
    decreases n,
{
    if n > 0 {
        let r = floor_sqrt((n - 1) as nat);
        lemma_floor_sqrt_bounds((n - 1) as nat);
        assert((r + 2) * (r + 2) == (r + 1) * (r + 1) + 2 * r + 3) by (nonlinear_arith);
        let q = floor_sqrt(n);
        if (r + 1) * (r + 1) <= n {
            assert(q == r + 1);
            assert((q + 1) * (q + 1) == (r + 2) * (r + 2));
        } else {
            assert(q == r);
        }
    } else {
        let q = floor_sqrt(n);
        assert(q == 0);
        assert(q * q == 0 && (q + 1) * (q + 1) == 1) by (nonlinear_arith)
            requires
                q == 0,
        ;
    }
}

/// Any `r` bracketed by squares around `n` is `floor_sqrt(n)`.
pub proof fn lemma_floor_sqrt_unique(n: nat, r: nat)
    requires
        r * r <= n < (r + 1) * (r + 1),
    ensures
        floor_sqrt(n) == r,
{
    let q = floor_sqrt(n);
    lemma_floor_sqrt_bounds(n);
    if q < r {
        lemma_square_monotone((q + 1) as int, r as int);
    } else if r < q {
        lemma_square_monotone((r + 1) as int, q as int);
    }
}

/// The integer square root is monotone.
pub proof fn lemma_floor_sqrt_monotone(a: nat, b: nat)
    requires
        a <= b,
    ensures
        floor_sqrt(a) <= floor_sqrt(b),
{
    lemma_floor_sqrt_bounds(a);
    lemma_floor_sqrt_bounds(b);
    if floor_sqrt(b) < floor_sqrt(a) {
        lemma_square_monotone((floor_sqrt(b) + 1) as int, floor_sqrt(a) as int);
    }
}

/// Computes `floor_sqrt(n)` by bisection.
pub fn isqrt(n: u128) -> (r: u64)
    requires
        n < 0x4_0000_0000_0000_0000,
    ensures
        r as nat == floor_sqrt(n as nat),
        r <= 0x2_0000_0000,
{
    let mut lo: u64 = 0;
    let mut hi: u64 = 0x2_0000_0000;
    assert(0x2_0000_0000u64 * 0x2_0000_0000u64 == 0x4_0000_0000_0000_0000) by (nonlinear_arith);
    while hi - lo > 1
        invariant
            lo < hi <= 0x2_0000_0000,
            lo * lo <= n,
            n < hi * hi,
        decreases hi - lo,
    {
        let mid: u64 = lo + (hi - lo) / 2;
        assert(mid * mid <= 0x4_0000_0000_0000_0000) by (nonlinear_arith)
            requires
                mid <= 0x2_0000_0000,
        ;
        if (mid as u128) * (mid as u128) <= n {
            lo = mid;
        } else {
            hi = mid;
        }
    }
    proof {
        lemma_floor_sqrt_unique(n as nat, lo as nat);
    }
    lo
}

/// The softened gravity factor `(G * dt) / r2^(3/2)` rounded down, for
/// squared separation `sep_sq`, with `grav_dt = G * dt` and
/// `r2 = sep_sq + softening`.
pub fn softened_factor(grav_dt: u64, softening: u64, sep_sq: u64) -> (r: u64)
    requires
        softening > 0,
    ensures
        r == softened_factor_spec(grav_dt as int, softening as int, sep_sq as int),
        ({
            let r2 = sep_sq + softening;
            r * r * (r2 * r2 * r2) <= grav_dt * grav_dt < (r + 1) * (r + 1) * (r2 * r2 * r2)
        }),
        r <= grav_dt,
{
    let r2: u128 = sep_sq as u128 + softening as u128;
    let s = isqrt(r2);
    proof {
        lemma_floor_sqrt_bounds(r2 as nat);
        assert(s >= 1) by (nonlinear_arith)
            requires
                r2 >= 1,
                r2 < (s + 1) * (s + 1),
        ;
        lemma_root_quotient_bracket(grav_dt as int, r2 as int);
        assert(1 * grav_dt == grav_dt);
    }
    let f = root_quotient_exec(1, grav_dt, r2, s);
    proof {
        assert(f <= grav_dt) by (nonlinear_arith)
            requires
                f * r2 <= grav_dt,
                r2 >= 1,
                f >= 0,
        ;
    }
    f
}

proof fn lemma_cube_positive(r2: int) by (nonlinear_arith)
    requires
        r2 >= 1,
    ensures
        r2 * r2 * r2 >= 1,
        r2 * r2 * r2 >= r2,
{
}

/// `root_quotient(n, r2)` is bracketed: `q^2 * r2^3 <= n^2 < (q + 1)^2 * r2^3`.
pub proof fn lemma_root_quotient_bracket(n: int, r2: int)
    requires
        r2 >= 1,
    ensures
        root_quotient(n, r2) >= 0,
        root_quotient(n, r2) * root_quotient(n, r2) * (r2 * r2 * r2) <= n * n,
        n * n < (root_quotient(n, r2) + 1) * (root_quotient(n, r2) + 1) * (r2 * r2 * r2),
{
    let big_r = r2 * r2 * r2;
    lemma_cube_positive(r2);
    assert(n * n >= 0) by (nonlinear_arith);
    let f = (n * n) / big_r;
    vstd::arithmetic::div_mod::lemma_fundamental_div_mod(n * n, big_r);
    vstd::arithmetic::div_mod::lemma_mod_pos_bound(n * n, big_r);
    vstd::arithmetic::div_mod::lemma_div_pos_is_pos(n * n, big_r);
    lemma_floor_sqrt_bounds(f as nat);
    let q = root_quotient(n, r2);
    assert(q * q * big_r <= n * n) by (nonlinear_arith)
        requires
            q * q <= f,
            big_r >= 1,
            n * n == big_r * f + (n * n) % big_r,
            (n * n) % big_r >= 0,
    ;
    assert(n * n < (q + 1) * (q + 1) * big_r) by (nonlinear_arith)
        requires
            f < (q + 1) * (q + 1),
            big_r >= 1,
            n * n == big_r * f + (n * n) % big_r,
            (n * n) % big_r < big_r,
    ;
}

/// A bracketed `q` is `root_quotient(n, r2)`.
pub proof fn lemma_root_quotient_unique(n: int, r2: int, q: int)
    requires
        r2 >= 1,
        q >= 0,
        q * q * (r2 * r2 * r2) <= n * n,
        n * n < (q + 1) * (q + 1) * (r2 * r2 * r2),
    ensures
        root_quotient(n, r2) == q,
{
    let p = root_quotient(n, r2);
    lemma_root_quotient_bracket(n, r2);
    let big_r = r2 * r2 * r2;
    lemma_cube_positive(r2);
    if p < q {
        assert((p + 1) * (p + 1) * big_r <= q * q * big_r) by (nonlinear_arith)
            requires
                0 <= p + 1 <= q,
                big_r >= 1,
        ;
    } else if q < p {
        assert((q + 1) * (q + 1) * big_r <= p * p * big_r) by (nonlinear_arith)
            requires
                0 <= q + 1 <= p,
                big_r >= 1,
        ;
    }
}

/// The root quotient depends on `n` only through its size.
pub proof fn lemma_root_quotient_even(n: int, r2: int)
    ensures
        root_quotient(-n, r2) == root_quotient(n, r2),
{
    assert((-n) * (-n) == n * n) by (nonlinear_arith);
}

/// A pull is at most `k` when the offset `d` is at most the separation.
pub proof fn lemma_root_quotient_at_most(d: int, k: int, r2: int)
    requires
        d * d <= r2,
        r2 >= 1,
        k >= 0,
    ensures
        0 <= root_quotient(d * k, r2) <= k,
{
    lemma_root_quotient_bracket(d * k, r2);
    let q = root_quotient(d * k, r2);
    assert((d * k) * (d * k) <= r2 * (k * k)) by (nonlinear_arith)
        requires
            d * d <= r2,
    ;
    assert(q * q <= k * k) by (nonlinear_arith)
        requires
            q * q * (r2 * r2 * r2) <= r2 * (k * k),
            r2 >= 1,
            q >= 0,
    ;
    if q > k {
        lemma_square_monotone(k + 1, q);
        assert((k + 1) * (k + 1) > k * k) by (nonlinear_arith)
            requires
                k >= 0,
        ;
    }
}

proof fn lemma_bisection_start(n: int, r2: int, s: int, h: int)
    requires
        n >= 0,
        r2 >= 1,
        s >= 1,
        s * s <= r2,
        h >= 0,
        h * (r2 * s) > n,
    ensures
        n * n < h * h * (r2 * r2 * r2),
{
    assert(n * n < (h * r2 * s) * (h * r2 * s)) by (nonlinear_arith)
        requires
            0 <= n < h * (r2 * s),
    ;
    assert((h * r2 * s) * (h * r2 * s) <= h * h * (r2 * r2 * r2)) by (nonlinear_arith)
        requires
            s * s <= r2,
            h >= 0,
            r2 >= 1,
    ;
}

proof fn lemma_below_start(m: int, n: int, den: int, r2: int, s: int, ad: int, k: int)
    requires
        0 <= m <= n / den,
        den == r2 * s,
        den >= 1,
        n == ad * k,
        0 <= ad <= s,
        s >= 1,
        k >= 0,
        r2 >= 1,
    ensures
        m * r2 <= k,
{
    vstd::arithmetic::div_mod::lemma_fundamental_div_mod(n, den);
    vstd::arithmetic::div_mod::lemma_mod_pos_bound(n, den);
    assert(m * den <= n) by (nonlinear_arith)
        requires
            0 <= m <= n / den,
            den >= 1,
            n == den * (n / den) + n % den,
            n % den >= 0,
    ;
    assert(m * r2 <= k) by (nonlinear_arith)
        requires
            m * (r2 * s) <= ad * k,
            0 <= ad <= s,
            s >= 1,
            k >= 0,
            m >= 0,
            r2 >= 1,
    ;
}

/// Computes `root_quotient(ad * k, r2)` by bisection, comparing
/// `q^2 * r2^3` against `(ad * k)^2` in 256 bits.
fn root_quotient_exec(ad: u64, k: u64, r2: u128, s: u64) -> (q: u64)
    requires
        1 <= s,
        1 <= r2,
        s * s <= r2 < (s + 1) * (s + 1),
        ad <= s,
        ad <= 0x1_0000_0000,
        r2 < 0x4_0000_0000_0000_0000,
    ensures
        q == root_quotient(ad * k, r2 as int),
        q * r2 <= k,
{
    assert(ad * k <= 0x1_0000_0000 * 0xffff_ffff_ffff_ffff) by (nonlinear_arith)
        requires
            ad <= 0x1_0000_0000,
            k <= 0xffff_ffff_ffff_ffff,
    ;
    let n: u128 = ad as u128 * k as u128;
    let nn = mul_wide(n, n);
    assert(s <= 0x2_0000_0000) by (nonlinear_arith)
        requires
            s * s <= r2 < 0x4_0000_0000_0000_0000,
            s >= 1,
    ;
    assert(1 <= r2 * s <= 0x4_0000_0000_0000_0000 * 0x2_0000_0000) by (nonlinear_arith)
        requires
            1 <= r2 < 0x4_0000_0000_0000_0000,
            1 <= s <= 0x2_0000_0000,
    ;
    let den: u128 = r2 * s as u128;
    let ghost big_r = r2 * r2 * r2;
    let mut lo: u128 = 0;
    let mut hi: u128 = n / den + 1;
    proof {
        lemma_cube_positive(r2 as int);
        assert(0 * 0 * big_r == 0) by (nonlinear_arith);
        vstd::arithmetic::div_mod::lemma_fundamental_div_mod(n as int, den as int);
        vstd::arithmetic::div_mod::lemma_mod_pos_bound(n as int, den as int);
        assert(hi * (r2 * s) > n) by (nonlinear_arith)
            requires
                hi == n / den + 1,
                den == r2 * s,
                n == den * (n / den) + n % den,
                n % den < den,
        ;
        lemma_bisection_start(n as int, r2 as int, s as int, hi as int);
    }
    while hi - lo > 1
        invariant
            lo < hi <= n / den + 1,
            n == ad * k,
            den == r2 * s,
            den >= 1,
            1 <= s,
            s * s <= r2,
            ad <= s,
            big_r == r2 * r2 * r2,
            wide_value(nn.0, nn.1) == n * n,
            lo * lo * big_r <= n * n,
            n * n < hi * hi * big_r,
        decreases hi - lo,
    {
        let mid: u128 = lo + (hi - lo) / 2;
        proof {
            lemma_below_start(mid as int, n as int, den as int, r2 as int, s as int, ad as int, k as int);
        }
        let t: u128 = mid * r2;
        assert(t * t < 0x1_0000_0000_0000_0000_0000_0000_0000_0000) by (nonlinear_arith)
            requires
                0 <= t <= 0xffff_ffff_ffff_ffff,
        ;
        let lhs = mul_wide(t * t, r2);
        assert((t * t) * r2 == mid * mid * big_r) by (nonlinear_arith)
            requires
                t == mid * r2,
                big_r == r2 * r2 * r2,
        ;
        if wide_le(lhs, nn) {
            lo = mid;
        } else {
            hi = mid;
        }
    }
    proof {
        assert(hi == lo + 1);
        lemma_root_quotient_unique(n as int, r2 as int, lo as int);
        lemma_below_start(lo as int, n as int, den as int, r2 as int, s as int, ad as int, k as int);
        assert(lo <= k) by (nonlinear_arith)
            requires
                lo * r2 <= k,
                r2 >= 1,
                lo >= 0,
        ;
    }
    lo as u64
}

/// Computes the velocity change over one step that a source of unit mass at
/// `b` imparts on a body at `a`, with `grav_dt = G * dt`: each component is
/// the exact real pull `d * grav_dt / r2^(3/2)` rounded toward zero, for the
/// offset `d` along that axis. Each component is at most `grav_dt` in size.
pub fn pairwise_gravity(grav_dt: u64, softening: u64, a: Vector, b: Vector) -> (r: (i128, i128))
    requires
        softening > 0,
    ensures
        (r.0 as int, r.1 as int) == unit_pull(grav_dt as int, softening as int, a, b),
        ({
            let dx = b.x - a.x;
            let dy = b.y - a.y;
            let r2 = norm_sq(dx, dy) + softening;
            &&& r.0 * r.0 * (r2 * r2 * r2) <= (dx * grav_dt) * (dx * grav_dt) < (magnitude(r.0 as int) + 1) * (
            magnitude(r.0 as int) + 1) * (r2 * r2 * r2)
            &&& r.1 * r.1 * (r2 * r2 * r2) <= (dy * grav_dt) * (dy * grav_dt) < (magnitude(r.1 as int) + 1) * (
            magnitude(r.1 as int) + 1) * (r2 * r2 * r2)
            &&& (dx > 0 ==> r.0 >= 0) && (dx < 0 ==> r.0 <= 0)
            &&& (dy > 0 ==> r.1 >= 0) && (dy < 0 ==> r.1 <= 0)
        }),
        -(grav_dt as int) <= r.0 <= grav_dt,
        -(grav_dt as int) <= r.1 <= grav_dt,
{
    let dx: i64 = b.x as i64 - a.x as i64;
    let dy: i64 = b.y as i64 - a.y as i64;
    assert(0 <= dx * dx <= 0x1_0000_0000_0000_0000 && 0 <= dy * dy <= 0x1_0000_0000_0000_0000)
        by (nonlinear_arith)
        requires
            -0x1_0000_0000 <= dx <= 0x1_0000_0000,
            -0x1_0000_0000 <= dy <= 0x1_0000_0000,
    ;
    let sep_sq: u128 = (dx as i128 * dx as i128 + dy as i128 * dy as i128) as u128;
    let r2: u128 = sep_sq + softening as u128;
    let s = isqrt(r2);
    proof {
        lemma_floor_sqrt_bounds(r2 as nat);
        assert(dx * dx <= r2 && dy * dy <= r2);
        assert(s >= 1) by (nonlinear_arith)
            requires
                r2 >= 1,
                r2 < (s + 1) * (s + 1),
        ;
    }
    let cx = signed_component(dx, grav_dt, r2, s);
    let cy = signed_component(dy, grav_dt, r2, s);
    (cx, cy)
}

/// One component of a pull: `d * k / r2^(3/2)` rounded toward zero.
fn signed_component(d: i64, k: u64, r2: u128, s: u64) -> (c: i128)
    requires
        1 <= s,
        1 <= r2,
        s * s <= r2 < (s + 1) * (s + 1),
        d * d <= r2,
        -0x1_0000_0000 <= d <= 0x1_0000_0000,
        r2 < 0x4_0000_0000_0000_0000,
    ensures
        c == signed_root_quotient(d * k, r2 as int),
        c * c * (r2 * r2 * r2) <= (d * k) * (d * k) < (magnitude(c as int) + 1) * (magnitude(c as int) + 1) * (r2 * r2
            * r2),
        d > 0 ==> c >= 0,
        d < 0 ==> c <= 0,
        -(k as int) <= c <= k,
{
    let ad: u64 = if d < 0 {
        (-d) as u64
    } else {
        d as u64
    };
    proof {
        assert(ad * ad == d * d) by (nonlinear_arith)
            requires
                ad == d || ad == -d,
        ;
        if ad > s {
            lemma_square_monotone(s + 1, ad as int);
        }
    }
    let q = root_quotient_exec(ad, k, r2, s);
    proof {
        lemma_root_quotient_bracket(ad * k, r2 as int);
        assert(q <= k) by (nonlinear_arith)
            requires
                q * r2 <= k,
                r2 >= 1,
                q >= 0,
        ;
        if d < 0 {
            assert(d * k == -(ad * k)) by (nonlinear_arith)
                requires
                    ad == -d,
            ;
            lemma_root_quotient_even(ad * k, r2 as int);
            if k == 0 {
                assert(d * k == 0);
                assert(q == 0);
            }
        }
        assert((-q) * (-q) == q * q) by (nonlinear_arith);
        assert((ad * k) * (ad * k) == (d * k) * (d * k)) by (nonlinear_arith)
            requires
                ad * ad == d * d,
        ;
    }
    if d < 0 {
        -(q as i128)
    } else {
        q as i128
    }
}

/// The pull of `a` on `b` is the exact opposite of the pull of `b` on `a`:
/// the basis of Newton's third law for the integrator.
pub proof fn lemma_unit_pull_antisymmetric(grav_dt: int, softening: int, a: Vector, b: Vector)
    requires
        softening > 0,
    ensures
        unit_pull(grav_dt, softening, b, a).0 == -unit_pull(grav_dt, softening, a, b).0,
        unit_pull(grav_dt, softening, b, a).1 == -unit_pull(grav_dt, softening, a, b).1,
{
    let dx = b.x - a.x;
    let dy = b.y - a.y;
    assert(norm_sq(-dx, -dy) == norm_sq(dx, dy)) by (nonlinear_arith);
    let r2 = norm_sq(dx, dy) + softening;
    assert(r2 >= 1) by (nonlinear_arith)
        requires
            r2 == dx * dx + dy * dy + softening,
            softening > 0,
    ;
    assert((-dx) * grav_dt == -(dx * grav_dt) && (-dy) * grav_dt == -(dy * grav_dt))
        by (nonlinear_arith);
    lemma_signed_root_quotient_odd(dx * grav_dt, r2);
    lemma_signed_root_quotient_odd(dy * grav_dt, r2);
}

proof fn lemma_signed_root_quotient_odd(n: int, r2: int)
    requires
        r2 >= 1,
    ensures
        signed_root_quotient(-n, r2) == -signed_root_quotient(n, r2),
{
    lemma_root_quotient_even(n, r2);
    if n == 0 {
        assert(0int * 0int == 0);
        assert(root_quotient(0, r2) == floor_sqrt(((0int * 0int) / (r2 * r2 * r2)) as nat));
        lemma_cube_positive(r2);
        let big_r = r2 * r2 * r2;
        assert(0int / big_r == 0) by (nonlinear_arith)
            requires
                big_r >= 1,
        ;
        assert(floor_sqrt(0) == 0);
    }
}

/// The softened factor is finite at every separation, zero included, where it
/// is `(G * dt) / softening^(3/2)` rounded down, and it never increases as the
/// separation grows.
pub proof fn lemma_softened_factor_decreasing(grav_dt: int, softening: int, near: int, far: int)
    requires
        grav_dt >= 0,
        softening > 0,
        0 <= near <= far,
    ensures
        ({
            let f0 = softened_factor_spec(grav_dt, softening, 0);
            let c = softening * softening * softening;
            f0 * f0 * c <= grav_dt * grav_dt < (f0 + 1) * (f0 + 1) * c
        }),
        0 <= softened_factor_spec(grav_dt, softening, far) <= softened_factor_spec(
            grav_dt,
            softening,
            near,
        ) <= grav_dt,
{
    lemma_root_quotient_bracket(grav_dt, softening);
    let r1 = near + softening;
    let r2 = far + softening;
    let c1 = r1 * r1 * r1;
    let c2 = r2 * r2 * r2;
    assert(1 <= r1 * r1 <= r2 * r2) by (nonlinear_arith)
        requires
            1 <= r1 <= r2,
    ;
    assert(1 <= c1 <= c2) by (nonlinear_arith)
        requires
            1 <= r1 <= r2,
            1 <= r1 * r1 <= r2 * r2,
            c1 == (r1 * r1) * r1,
            c2 == (r2 * r2) * r2,
    ;
    assert(grav_dt * grav_dt >= 0) by (nonlinear_arith);
    vstd::arithmetic::div_mod::lemma_div_is_ordered_by_denominator(grav_dt * grav_dt, c1, c2);
    vstd::arithmetic::div_mod::lemma_div_pos_is_pos(grav_dt * grav_dt, c2);
    lemma_floor_sqrt_monotone(((grav_dt * grav_dt) / c2) as nat, ((grav_dt * grav_dt) / c1) as nat);
    assert(1 * 1 <= r1);
    assert(1 * grav_dt == grav_dt);
    lemma_root_quotient_at_most(1, grav_dt, r1);
}

/// Each component of a unit pull is at most `grav_dt` in size.
pub proof fn lemma_unit_pull_bounded(grav_dt: int, softening: int, a: Vector, b: Vector)
    requires
        grav_dt >= 0,
        softening > 0,
    ensures
        -grav_dt <= unit_pull(grav_dt, softening, a, b).0 <= grav_dt,
        -grav_dt <= unit_pull(grav_dt, softening, a, b).1 <= grav_dt,
{
    let dx = b.x - a.x;
    let dy = b.y - a.y;
    let r2 = norm_sq(dx, dy) + softening;
    assert(dx * dx <= r2 && dy * dy <= r2 && r2 >= 1) by (nonlinear_arith)
        requires
            r2 == dx * dx + dy * dy + softening,
            softening > 0,
    ;
    lemma_root_quotient_at_most(dx, grav_dt, r2);
    lemma_root_quotient_at_most(dy, grav_dt, r2);
}

proof fn lemma_softening_cap(x: int, soft: int, r2: int)
    requires
        x >= 0,
        soft > 0,
        r2 >= x + soft,
    ensures
        27 * (soft * soft) * x <= 4 * (r2 * r2 * r2),
{
    let y = x + soft;
    assert(4 * (y * y * y) - 27 * (soft * soft) * x == (x + 4 * soft) * ((2 * x - soft) * (2 * x
        - soft))) by (nonlinear_arith)
        requires
            y == x + soft,
    ;
    assert((x + 4 * soft) * ((2 * x - soft) * (2 * x - soft)) >= 0) by (nonlinear_arith)
        requires
            x + 4 * soft >= 0,
    ;
    assert(y * y * y <= r2 * r2 * r2) by (nonlinear_arith)
        requires
            0 <= y <= r2,
    ;
}

/// However close the bodies, each component `c` of a unit pull stays within
/// the softened law's maximum `2 * G * dt / (3 * sqrt(3) * softening)`:
/// `27 * softening^2 * c^2 <= 4 * (G * dt)^2`.
pub proof fn lemma_unit_pull_capped(grav_dt: int, softening: int, a: Vector, b: Vector)
    requires
        softening > 0,
    ensures
        27 * (softening * softening) * (unit_pull(grav_dt, softening, a, b).0 * unit_pull(
            grav_dt,
            softening,
            a,
            b,
        ).0) <= 4 * (grav_dt * grav_dt),
        27 * (softening * softening) * (unit_pull(grav_dt, softening, a, b).1 * unit_pull(
            grav_dt,
            softening,
            a,
            b,
        ).1) <= 4 * (grav_dt * grav_dt),
{
    let dx = b.x - a.x;
    let dy = b.y - a.y;
    let r2 = norm_sq(dx, dy) + softening;
    assert(r2 >= dx * dx + softening && r2 >= dy * dy + softening && dx * dx >= 0 && dy * dy >= 0)
        by (nonlinear_arith)
        requires
            r2 == dx * dx + dy * dy + softening,
    ;
    lemma_component_capped(dx, grav_dt, softening, r2);
    lemma_component_capped(dy, grav_dt, softening, r2);
}

proof fn lemma_component_capped(d: int, k: int, soft: int, r2: int)
    requires
        soft > 0,
        r2 >= d * d + soft,
        d * d >= 0,
    ensures
        27 * (soft * soft) * (signed_root_quotient(d * k, r2) * signed_root_quotient(d * k, r2))
            <= 4 * (k * k),
{
    lemma_root_quotient_bracket(d * k, r2);
    lemma_softening_cap(d * d, soft, r2);
    lemma_cube_positive(r2);
    let q = root_quotient(d * k, r2);
    let c = signed_root_quotient(d * k, r2);
    assert(c * c == q * q) by (nonlinear_arith)
        requires
            c == q || c == -q,
    ;
    let big_r = r2 * r2 * r2;
    let w = 27 * (soft * soft);
    assert(w >= 0 && k * k >= 0) by (nonlinear_arith)
        requires
            w == 27 * (soft * soft),
    ;
    assert(w * (q * q) * big_r <= 4 * big_r * (k * k)) by (nonlinear_arith)
        requires
            q * q * big_r <= (d * k) * (d * k),
            w * (d * d) <= 4 * big_r,
            w >= 0,
            k * k >= 0,
    ;
    assert(w * (q * q) <= 4 * (k * k)) by (nonlinear_arith)
        requires
            w * (q * q) * big_r <= 4 * big_r * (k * k),
            big_r >= 1,
    ;
}

} // verus!
