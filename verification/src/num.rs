use vstd::prelude::*;
use vstd::arithmetic::div_mod::{
    lemma_fundamental_div_mod, lemma_div_multiples_vanish, lemma_mod_bound,
};
use vstd::math::abs;

verus! {

/// Number of fixed-point quanta in one grid cell. All coordinates, speeds and
/// distances in this crate are integers counted in these quanta, so one
/// quantum stands for 1e-7 of a cell and the geometry is exact.
pub const SCALE: i64 = 10_000_000;

/// Half a cell, in quanta.
pub const HALF_SCALE: i64 = 5_000_000;

/// Largest coordinate magnitude, in quanta, that the geometric operations
/// accept for a point of the board (1e5 cells); keeps every intermediate
/// product inside i128.
pub const MAX_COORD: i64 = 1_000_000_000_000;

/// Largest component magnitude accepted by the plain vector operations;
/// twice a difference of two point coordinates still fits.
pub const VEC_LIMIT: i64 = 4_000_000_000_000;

/// The integer square root, rounded down: the unique r >= 0 with
/// r * r <= n < (r + 1) * (r + 1).
pub open spec fn sqrt_floor(n: int) -> int
    decreases n,
{
    if n <= 0 {
        0
    } else {
        let r = sqrt_floor(n - 1);
        if (r + 1) * (r + 1) <= n {
            r + 1
        } else {
            r
        }
    }
}

pub proof fn lemma_sqrt_floor_bounds(n: int)
    requires
        n >= 0,
    ensures
        sqrt_floor(n) >= 0,
        sqrt_floor(n) * sqrt_floor(n) <= n,
        n < (sqrt_floor(n) + 1) * (sqrt_floor(n) + 1),
    decreases n,
{
    if n == 0 {
    } else {
        lemma_sqrt_floor_bounds(n - 1);
        let r = sqrt_floor(n - 1);
        if (r + 1) * (r + 1) <= n {
            assert(n - 1 < (r + 1) * (r + 1));
            assert(n < (r + 2) * (r + 2)) by (nonlinear_arith)
                requires r >= 0 && n <= (r + 1) * (r + 1),
            ;
        } else {
        }
    }
}

pub proof fn lemma_sqrt_floor_unique(n: int, r: int)
    requires
        n >= 0,
        r >= 0,
        r * r <= n,
        n < (r + 1) * (r + 1),
    ensures
        r == sqrt_floor(n),
{
    let s = sqrt_floor(n);
    lemma_sqrt_floor_bounds(n);
    if r < s {
        assert((r + 1) * (r + 1) <= s * s) by (nonlinear_arith)
            requires 0 <= r && r + 1 <= s,
        ;
    } else if s < r {
        assert((s + 1) * (s + 1) <= r * r) by (nonlinear_arith)
            requires 0 <= s && s + 1 <= r,
        ;
    }
}

/// The square root rounded down of a perfect square is the root itself.
pub proof fn lemma_sqrt_floor_square(t: int)
    ensures
        sqrt_floor(t * t) == abs(t),
{
    let a = abs(t) as int;
    assert(t * t == a * a) by (nonlinear_arith)
        requires a == abs(t),
    ;
    assert(a * a < (a + 1) * (a + 1)) by (nonlinear_arith)
        requires a >= 0,
    ;
    lemma_sqrt_floor_unique(a * a, a);
}

/// The square root rounded down, monotone in its argument.
pub proof fn lemma_sqrt_floor_monotone(m: int, n: int)
    requires
        0 <= m <= n,
    ensures
        sqrt_floor(m) <= sqrt_floor(n),
{
    let a = sqrt_floor(m);
    let b = sqrt_floor(n);
    lemma_sqrt_floor_bounds(m);
    lemma_sqrt_floor_bounds(n);
    if b < a {
        assert((b + 1) * (b + 1) <= a * a) by (nonlinear_arith)
            requires 0 <= b && b + 1 <= a,
        ;
    }
}

/// Executable integer square root by binary search.
pub fn isqrt_u128(n: u128) -> (r: u64)
    requires
        n < 0x8000000000000000int * 0x8000000000000000int,
    ensures
        r * r <= n < (r + 1) * (r + 1),
        r as int == sqrt_floor(n as int),
{
    let mut lo: u64 = 0;
    let mut hi: u64 = 0x7FFF_FFFF_FFFF_FFFF;
    while lo < hi
        invariant
            lo <= hi,
            hi <= 0x7FFF_FFFF_FFFF_FFFF,
            lo * lo <= n,
            n < (hi + 1) * (hi + 1),
            n < 0x8000000000000000int * 0x8000000000000000int,
        decreases hi - lo,
    {
        let mid: u64 = lo + (hi - lo + 1) / 2;
        assert(lo < mid <= hi);
        assert((mid as int) * (mid as int) < 0x10000000000000000int * 0x10000000000000000int)
            by (nonlinear_arith)
            requires mid < 0x10000000000000000int,
        ;
        let sq: u128 = (mid as u128) * (mid as u128);
        if sq <= n {
            lo = mid;
        } else {
            hi = mid - 1;
        }
    }
    proof {
        lemma_sqrt_floor_unique(n as int, lo as int);
    }
    lo
}

/// Integer division that truncates toward zero, as the hardware division of
/// signed integers does; for a non-negative dividend it agrees with the
/// Euclidean quotient.
pub open spec fn trunc_div(a: int, b: int) -> int {
    if a >= 0 {
        a / b
    } else {
        -((-a) / b)
    }
}

pub proof fn lemma_trunc_div_exact(m: int, b: int)
    requires
        b > 0,
    ensures
        trunc_div(m * b, b) == m,
{
    if m >= 0 {
        assert(m * b >= 0) by (nonlinear_arith)
            requires m >= 0 && b > 0,
        ;
        lemma_div_multiples_vanish(m, b);
        assert(b * m == m * b) by (nonlinear_arith);
    } else {
        assert(m * b < 0) by (nonlinear_arith)
            requires m < 0 && b > 0,
        ;
        lemma_div_multiples_vanish(-m, b);
        assert(b * (-m) == -(m * b)) by (nonlinear_arith);
    }
}

/// The magnitude of a truncated quotient never exceeds the magnitude bound
/// of the dividend divided by the divisor.
pub proof fn lemma_trunc_div_bound(a: int, b: int, c: int)
    requires
        b > 0,
        c >= 0,
        -(c * b) <= a <= c * b,
    ensures
        -c <= trunc_div(a, b) <= c,
{
    if a >= 0 {
        assert(a / b <= c && a / b >= 0) by (nonlinear_arith)
            requires b > 0 && c >= 0 && 0 <= a && a <= c * b,
        ;
    } else {
        assert((-a) / b <= c && (-a) / b >= 0) by (nonlinear_arith)
            requires b > 0 && c >= 0 && 0 <= -a && -a <= c * b,
        ;
    }
}

/// Truncating division leaves a remainder smaller than the divisor, on the
/// dividend's side of zero.
pub proof fn lemma_trunc_div_remainder(n: int, d: int)
    requires
        d > 0,
    ensures
        abs(n - trunc_div(n, d) * d) < d,
        n >= 0 ==> 0 <= n - trunc_div(n, d) * d,
        n <= 0 ==> n - trunc_div(n, d) * d <= 0,
{
    if n >= 0 {
        lemma_fundamental_div_mod(n, d);
        lemma_mod_bound(n, d);
        assert(d * (n / d) == (n / d) * d) by (nonlinear_arith);
    } else {
        let m = -n;
        lemma_fundamental_div_mod(m, d);
        lemma_mod_bound(m, d);
        assert(d * (m / d) == (m / d) * d && (-(m / d)) * d == -((m / d) * d))
            by (nonlinear_arith);
    }
}

/// Truncating multiply-divide on machine integers: r == trunc_div(x * num, den).
pub fn mul_div(x: i64, num: i64, den: i64) -> (r: i64)
    requires
        den >= 1,
        -0x7FFF_FFFF_FFFF_FFFFint <= trunc_div(x as int * num as int, den as int)
            <= 0x7FFF_FFFF_FFFF_FFFFint,
    ensures
        r as int == trunc_div(x as int * num as int, den as int),
{
    proof {
        assert(-0x40000000000000000000000000000000int < (x as int) * (num as int)
            <= 0x40000000000000000000000000000000int) by (nonlinear_arith)
            requires
                -0x8000000000000000int <= x as int,
                (x as int) < 0x8000000000000000int,
                -0x8000000000000000int <= num as int,
                (num as int) < 0x8000000000000000int,
        ;
    }
    let p: i128 = (x as i128) * (num as i128);
    if p >= 0 {
        let q: u128 = (p as u128) / (den as u128);
        proof {
            assert(q == trunc_div(x as int * num as int, den as int));
        }
        q as i64
    } else {
        let m: i128 = -p;
        let q: u128 = (m as u128) / (den as u128);
        proof {
            assert(q == (-(p as int)) / (den as int));
            assert(-(q as int) == trunc_div(x as int * num as int, den as int));
        }
        -(q as i64)
    }
}

/// Multiplying within bounds stays within the product of the bounds.
pub proof fn lemma_mul_bound_both(x: int, p: int, y: int, q: int)
    requires
        -p <= x <= p,
        -q <= y <= q,
        p >= 0,
        q >= 0,
    ensures
        -(p * q) <= x * y <= p * q,
{
    assert(-(p * q) <= x * y <= p * q) by (nonlinear_arith)
        requires -p <= x <= p && -q <= y <= q && p >= 0 && q >= 0,
    ;
}

/// Multiplying nonnegative quantities respects upper bounds.
pub proof fn lemma_mul_upper(a: int, b: int, c: int, d: int)
    requires
        0 <= a <= b,
        0 <= c <= d,
    ensures
        0 <= a * c <= b * d,
{
    assert(0 <= a * c <= b * d) by (nonlinear_arith)
        requires 0 <= a <= b && 0 <= c <= d,
    ;
}

/// A number whose square is below a square is below the root.
pub proof fn lemma_abs_le_of_sq_le(u: int, m: int)
    requires
        u * u <= m * m,
        m >= 0,
    ensures
        -m <= u <= m,
{
    if u > m {
        assert(u * u > m * m) by (nonlinear_arith)
            requires u > m >= 0,
        ;
    }
    if u < -m {
        assert(u * u > m * m) by (nonlinear_arith)
            requires u < -m && m >= 0,
        ;
    }
}

/// Truncating division on wide machine integers: r == trunc_div(a, b).
pub fn div_trunc_i128(a: i128, b: i128) -> (r: i128)
    requires
        b >= 1,
        a != i128::MIN,
    ensures
        r as int == trunc_div(a as int, b as int),
{
    if a >= 0 {
        let q: u128 = (a as u128) / (b as u128);
        proof {
            vstd::arithmetic::div_mod::lemma_div_nonincreasing(a as int, b as int);
        }
        q as i128
    } else {
        let m: i128 = -a;
        let q: u128 = (m as u128) / (b as u128);
        proof {
            vstd::arithmetic::div_mod::lemma_div_nonincreasing(m as int, b as int);
        }
        -(q as i128)
    }
}

/// The grid coordinate, in cells, nearest to a fixed-point coordinate, halves
/// rounding away from zero.
pub open spec fn round_cells(x: int) -> int {
    if x >= 0 {
        (x + HALF_SCALE) / (SCALE as int)
    } else {
        -((HALF_SCALE - x) / (SCALE as int))
    }
}

/// Rounding brackets its argument within half a cell.
pub proof fn lemma_round_cells_brackets(x: int)
    ensures
        round_cells(x) * SCALE - HALF_SCALE <= x <= round_cells(x) * SCALE + HALF_SCALE,
{
    if x >= 0 {
        lemma_fundamental_div_mod(x + HALF_SCALE, SCALE as int);
        lemma_mod_bound(x + HALF_SCALE, SCALE as int);
    } else {
        let m = HALF_SCALE - x;
        lemma_fundamental_div_mod(m, SCALE as int);
        lemma_mod_bound(m, SCALE as int);
    }
}

/// Rounding is monotone.
pub proof fn lemma_round_cells_monotone(x: int, y: int)
    requires
        x <= y,
    ensures
        round_cells(x) <= round_cells(y),
{
    lemma_round_cells_brackets(x);
    lemma_round_cells_brackets(y);
    if round_cells(x) > round_cells(y) {
        assert(round_cells(y) * SCALE + SCALE <= round_cells(x) * SCALE) by (nonlinear_arith)
            requires round_cells(y) + 1 <= round_cells(x),
        ;
    }
}

/// Executable rounding to the nearest cell coordinate.
pub fn round_to_cell(x: i64) -> (r: i64)
    requires
        -MAX_COORD <= x <= MAX_COORD,
    ensures
        r as int == round_cells(x as int),
{
    if x >= 0 {
        let q: u64 = ((x + HALF_SCALE) as u64) / (SCALE as u64);
        proof {
            assert(q <= (x + HALF_SCALE)) by {
                vstd::arithmetic::div_mod::lemma_div_nonincreasing(
                    x as int + HALF_SCALE as int, SCALE as int);
            }
        }
        q as i64
    } else {
        let m: i64 = HALF_SCALE - x;
        let q: u64 = (m as u64) / (SCALE as u64);
        proof {
            assert(q <= m) by {
                vstd::arithmetic::div_mod::lemma_div_nonincreasing(m as int, SCALE as int);
            }
        }
        -(q as i64)
    }
}

} // verus!
