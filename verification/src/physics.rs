//! Pure integer physics: square roots, the mass-to-radius formula, the
//! fixed-point base-10 logarithm behind cell speed, and the collision test.
//!
//! Quantities are fixed-point milli-units throughout (1000 = 1.0).

use vstd::prelude::*;
use crate::consts::{DEFAULT_MASS, MASS_LIMIT, PLAYER_MASS_LIMIT, POS_MAX, SPLIT_MOMENTUM};

verus! {

/// Floor of the square root of `n`, defined by stepping `n` down to zero.
pub open spec fn sqrt_floor(n: nat) -> nat
    decreases n,
{
    if n == 0 {
        0
    } else {
        let r = sqrt_floor((n - 1) as nat);
        if (r + 1) * (r + 1) <= n {
            r + 1
        } else {
            r
        }
    }
}

pub proof fn lemma_sqrt_floor_bounds(n: nat)
    ensures
        (sqrt_floor(n) as int) * (sqrt_floor(n) as int) <= n as int,
        (n as int) < (sqrt_floor(n) as int + 1) * (sqrt_floor(n) as int + 1),
    decreases n,
{
    if n > 0 {
        lemma_sqrt_floor_bounds((n - 1) as nat);
        let r0 = sqrt_floor((n - 1) as nat);
        if (r0 + 1) * (r0 + 1) <= n {
            assert(sqrt_floor(n) == r0 + 1);
            assert(n == (r0 + 1) * (r0 + 1));
            assert(n < (r0 + 2) * (r0 + 2)) by (nonlinear_arith)
                requires
                    n == (r0 + 1) * (r0 + 1),
            {}
        } else {
            assert(sqrt_floor(n) == r0);
        }
    } else {
        assert(sqrt_floor(n) == 0);
    }
}

pub proof fn lemma_sqrt_floor_unique(n: nat, r: nat)
    requires
        (r as int) * (r as int) <= n as int,
        (n as int) < (r as int + 1) * (r as int + 1),
    ensures
        r == sqrt_floor(n),
{
    lemma_sqrt_floor_bounds(n);
    let s = sqrt_floor(n);
    assert(r == s) by (nonlinear_arith)
        requires
            (r as int) * (r as int) <= n as int,
            (n as int) < (r as int + 1) * (r as int + 1),
            (s as int) * (s as int) <= n as int,
            (n as int) < (s as int + 1) * (s as int + 1),
    {}
}

/// If `n` lies strictly under `(k+1)^2`, its root floor is at most `k`.
pub proof fn lemma_sqrt_floor_le(n: nat, k: nat)
    requires
        (n as int) < (k as int + 1) * (k as int + 1),
    ensures
        sqrt_floor(n) <= k,
{
    lemma_sqrt_floor_bounds(n);
    let s = sqrt_floor(n);
    assert(s <= k) by (nonlinear_arith)
        requires
            (s as int) * (s as int) <= n as int,
            (n as int) < (k as int + 1) * (k as int + 1),
    {}
}

/// Exact integer square root (floor), by binary search.
pub fn isqrt(n: u64) -> (r: u64)
    ensures
        r == sqrt_floor(n as nat),
{
    let mut lo: u64 = 0;
    let mut hi: u64 = 4294967296;
    while lo + 1 < hi
        invariant
            lo < hi <= 4294967296,
            (lo as int) * (lo as int) <= n as int,
            (n as int) < (hi as int) * (hi as int),
        decreases hi - lo,
    {
        let mid: u64 = lo + (hi - lo) / 2;
        proof {
            assert(mid < 4294967296);
            assert((mid as int) * (mid as int) < 0x10000000000000000) by (nonlinear_arith)
                requires
                    (mid as int) < 4294967296,
            {}
        }
        if mid * mid <= n {
            lo = mid;
        } else {
            hi = mid;
        }
    }
    proof {
        lemma_sqrt_floor_unique(n as nat, lo as nat);
    }
    lo
}

/// The radius a cell of mass `m` carries: `4.0 + sqrt(m) * 6.0`, in milli-units.
pub open spec fn spec_mass_to_radius(m: nat) -> int {
    4000 + 6 * (sqrt_floor(m * 1000) as int)
}

/// Radii never leave `[4000, RADIUS_MAX]` for masses in range.
pub const RADIUS_MAX: u64 = 800_000_000;

pub proof fn lemma_radius_range(m: nat)
    requires
        m <= PLAYER_MASS_LIMIT,
    ensures
        4000 <= spec_mass_to_radius(m) <= RADIUS_MAX,
{
    lemma_sqrt_floor_le((m * 1000) as nat, 126_500_000);
}

/// Derives the radius from a mass. Exact fixed-point mirror of
/// `4.0 + sqrt(mass) * 6.0`.
pub fn mass_to_radius(m: u64) -> (r: u64)
    requires
        m <= PLAYER_MASS_LIMIT,
    ensures
        r == spec_mass_to_radius(m as nat),
        4000 <= r <= RADIUS_MAX,
{
    let s = isqrt(m * 1000);
    proof {
        lemma_radius_range(m as nat);
    }
    4000 + 6 * s
}

/// Ten to the `k`.
pub open spec fn pow10(k: nat) -> nat
    decreases k,
{
    if k == 0 {
        1
    } else {
        10 * pow10((k - 1) as nat)
    }
}

/// Floor of the base-10 logarithm (0 for inputs below 10).
pub open spec fn log10_floor(m: nat) -> nat
    decreases m,
{
    if m < 10 {
        0
    } else {
        1 + log10_floor(m / 10)
    }
}

pub proof fn lemma_log10_floor_bounds(m: nat)
    requires
        m >= 1,
    ensures
        pow10(log10_floor(m)) <= m,
        m < pow10(log10_floor(m) + 1),
    decreases m,
{
    if m < 10 {
        assert(pow10(0) == 1);
        assert(pow10(1) == 10);
    } else {
        lemma_log10_floor_bounds(m / 10);
        let k0 = log10_floor(m / 10);
        assert(pow10(k0 + 1) == 10 * pow10(k0));
        assert(pow10(k0 + 2) == 10 * pow10(k0 + 1));
        assert(10 * pow10(k0) <= m) by (nonlinear_arith)
            requires
                pow10(k0) <= m / 10,
                m >= 10,
        {}
        assert(m < 10 * pow10(k0 + 1)) by (nonlinear_arith)
            requires
                m / 10 < pow10(k0 + 1),
                m >= 10,
        {}
    }
}

pub proof fn lemma_pow10_increases(a: nat, b: nat)
    requires
        a <= b,
    ensures
        pow10(a) <= pow10(b),
    decreases b,
{
    if a < b {
        lemma_pow10_increases(a, (b - 1) as nat);
    }
}

pub proof fn lemma_log10_floor_unique(m: nat, k: nat)
    requires
        pow10(k) <= m,
        m < pow10(k + 1),
    ensures
        k == log10_floor(m),
{
    lemma_log10_floor_bounds(m);
    let j = log10_floor(m);
    if j < k {
        lemma_pow10_increases(j + 1, k);
    }
    if k < j {
        lemma_pow10_increases(k + 1, j);
    }
}

/// Fixed-point base-10 logarithm of a milli-unit mass: the integer digit
/// count plus a linear interpolation between neighboring powers of ten,
/// shifted by 3 to undo the milli scaling. 1000 stands for log10 = 1.0.
pub open spec fn spec_log10_fixed(m: nat) -> int {
    let k = log10_floor(m);
    (k as int) * 1000 + (m - pow10(k)) * 1000 / (9 * pow10(k) as int) - 3000
}

/// Computes the fixed-point logarithm above, exactly.
pub fn log10_fixed(m: u64) -> (r: u64)
    requires
        DEFAULT_MASS <= m <= PLAYER_MASS_LIMIT,
    ensures
        r == spec_log10_fixed(m as nat),
        1000 <= r <= 12000,
{
    let mut p: u64 = 1;
    let mut k: u64 = 0;
    proof {
        assert(pow10(0) == 1);
    }
    while p <= m / 10
        invariant
            m <= PLAYER_MASS_LIMIT,
            p == pow10(k as nat),
            1 <= p <= m,
            k <= 14,
        decreases m - p,
    {
        proof {
            assert(pow10((k + 1) as nat) == 10 * pow10(k as nat));
            if k + 1 > 14 {
                lemma_pow10_increases(15, k as nat + 1);
                reveal_with_fuel(pow10, 17);
                assert(pow10(15) == 1000000000000000);
            }
        }
        p = p * 10;
        k = k + 1;
    }
    proof {
        assert(m / 10 < p);
        assert(pow10((k + 1) as nat) == 10 * pow10(k as nat));
        assert(m < 10 * p) by (nonlinear_arith)
            requires
                m / 10 < p,
                m >= 0,
                p >= 1,
        {}
        lemma_log10_floor_unique(m as nat, k as nat);
        if k < 4 {
            lemma_pow10_increases(k as nat + 1, 4);
            reveal_with_fuel(pow10, 6);
            assert(pow10(4) == 10000);
        }
        assert((m - p) * 1000 / (9 * p as int) < 1000) by (nonlinear_arith)
            requires
                p >= 1,
                m >= p,
                m < 10 * p,
        {}
    }
    let frac: u64 = (m - p) * 1000 / (9 * p);
    k * 1000 + frac - 3000
}

/// Movement speed of a cell, in milli-units per tick: the base speed
/// `INIT_CELL_SPEED / log10(mass)` plus momentum, scaled down linearly to
/// zero as the target distance drops under 40 milli-units
/// (`clamp((d - 20) / 20, 0, 1)` in world units).
pub open spec fn spec_speed(mass: nat, momentum: nat, target_dist: nat) -> int {
    let base = 5_000_000 as int / spec_log10_fixed(mass);
    let scale = if target_dist <= 20_000 {
        0
    } else if (target_dist - 20_000) / 20 >= 1000 {
        1000
    } else {
        (target_dist - 20_000) as int / 20
    };
    (base + momentum) * scale / 1000
}

pub fn speed(mass: u64, momentum: u64, target_dist: u64) -> (r: u64)
    requires
        DEFAULT_MASS <= mass <= MASS_LIMIT,
        momentum <= SPLIT_MOMENTUM,
    ensures
        r == spec_speed(mass as nat, momentum as nat, target_dist as nat),
        r <= 30_000,
{
    let lg = log10_fixed(mass);
    proof {
        assert(5_000_000 as int / lg as int <= 5000) by (nonlinear_arith)
            requires
                lg >= 1000,
        {}
    }
    let base: u64 = 5_000_000 / lg;
    let scale: u64 = if target_dist <= 20_000 {
        0
    } else if (target_dist - 20_000) / 20 >= 1000 {
        1000
    } else {
        (target_dist - 20_000) / 20
    };
    proof {
        assert((base + momentum) * scale / 1000 <= 30_000) by (nonlinear_arith)
            requires
                base <= 5000,
                momentum <= 25_000,
                scale <= 1000,
        {}
    }
    (base + momentum) * scale / 1000
}

/// Squared Euclidean distance between two points.
pub open spec fn dist2(ax: int, ay: int, bx: int, by: int) -> int {
    (ax - bx) * (ax - bx) + (ay - by) * (ay - by)
}

/// The collision test a cell of radius `r` at `(cx, cy)` applies to a point:
/// axis distances within `r`, then the cheap taxicab acceptance, then the
/// exact circle test.
pub open spec fn spec_collides(cx: int, cy: int, r: int, ox: int, oy: int) -> bool {
    let dx = if ox >= cx { ox - cx } else { cx - ox };
    let dy = if oy >= cy { oy - cy } else { cy - oy };
    dx <= r && dy <= r && (dx + dy <= r || dx * dx + dy * dy <= r * r)
}

/// Exact collision test over fixed-point coordinates.
pub fn collides(cx: i64, cy: i64, r: u64, ox: i64, oy: i64) -> (b: bool)
    requires
        -POS_MAX <= cx <= POS_MAX,
        -POS_MAX <= cy <= POS_MAX,
        -POS_MAX <= ox <= POS_MAX,
        -POS_MAX <= oy <= POS_MAX,
        r <= RADIUS_MAX,
    ensures
        b == spec_collides(cx as int, cy as int, r as int, ox as int, oy as int),
{
    let dx: i64 = if ox >= cx { ox - cx } else { cx - ox };
    let dy: i64 = if oy >= cy { oy - cy } else { cy - oy };
    let ri: i64 = r as i64;
    if dx > ri {
        return false;
    }
    if dy > ri {
        return false;
    }
    if dx + dy <= ri {
        return true;
    }
    proof {
        assert(dx * dx + dy * dy <= 2 * 640_000_000_000_000_000) by (nonlinear_arith)
            requires
                0 <= dx <= 800_000_000,
                0 <= dy <= 800_000_000,
        {}
        assert(ri * ri <= 640_000_000_000_000_000) by (nonlinear_arith)
            requires
                0 <= ri <= 800_000_000,
        {}
    }
    dx * dx + dy * dy <= ri * ri
}

} // verus!
