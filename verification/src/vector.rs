use vstd::prelude::*;
use vstd::math::abs;
use crate::num::{
    SCALE, VEC_LIMIT, sqrt_floor, lemma_sqrt_floor_bounds, lemma_sqrt_floor_unique,
    lemma_sqrt_floor_square, lemma_sqrt_floor_monotone, trunc_div, lemma_trunc_div_exact,
    lemma_trunc_div_bound, isqrt_u128, mul_div,
};

verus! {

/// A 2D point or displacement, each component a fixed-point count of quanta
/// (`SCALE` quanta make one grid cell).
#[derive(Clone, Copy, PartialEq, Eq, Structural, Debug)]
pub struct Vector {
    pub x: i64,
    pub y: i64,
}

/// Componentwise comparison of two fixed-point quantities. At this
/// resolution a tolerance below one quantum is exact equality.
fn are_equal(one: i64, another: i64) -> (r: bool)
    ensures
        r == (one == another),
{
    one == another
}

impl Vector {
    /// Both components within `b` quanta of zero.
    pub open spec fn bounded(self, b: int) -> bool {
        &&& -b <= self.x <= b
        &&& -b <= self.y <= b
    }

    /// The squared Euclidean length, in squared quanta.
    pub open spec fn norm_sq(self) -> int {
        self.x * self.x + self.y * self.y
    }

    /// The Euclidean length in quanta, rounded down to a whole number.
    pub open spec fn len_spec(self) -> int {
        sqrt_floor(self.norm_sq())
    }

    /// What `normalize` returns: each component scaled by `SCALE` and divided
    /// by the length, so the result has length one cell.
    pub open spec fn normalize_spec(self) -> Vector {
        Vector {
            x: trunc_div(self.x * SCALE, self.len_spec()) as i64,
            y: trunc_div(self.y * SCALE, self.len_spec()) as i64,
        }
    }

    pub fn new(x: i64, y: i64) -> (r: Self)
        ensures
            r.x == x,
            r.y == y,
    {
        Vector { x, y }
    }

    pub fn add(&self, other: &Vector) -> (r: Vector)
        requires
            self.bounded(VEC_LIMIT as int),
            other.bounded(VEC_LIMIT as int),
        ensures
            r.x == self.x + other.x,
            r.y == self.y + other.y,
    {
        Vector::new(self.x + other.x, self.y + other.y)
    }

    pub fn subtract(&self, other: &Vector) -> (r: Vector)
        requires
            self.bounded(VEC_LIMIT as int),
            other.bounded(VEC_LIMIT as int),
        ensures
            r.x == self.x - other.x,
            r.y == self.y - other.y,
    {
        Vector::new(self.x - other.x, self.y - other.y)
    }

    /// Scaling by a fixed-point factor `num` (SCALE stands for 1.0).
    pub fn scale_by(&self, num: i64) -> (r: Vector)
        requires
            -(VEC_LIMIT as int) * (SCALE as int) <= self.x * num <= (VEC_LIMIT as int) * (
            SCALE as int),
            -(VEC_LIMIT as int) * (SCALE as int) <= self.y * num <= (VEC_LIMIT as int) * (
            SCALE as int),
        ensures
            r.x == trunc_div(self.x * num, SCALE as int),
            r.y == trunc_div(self.y * num, SCALE as int),
            r.bounded(VEC_LIMIT as int),
    {
        proof {
            lemma_trunc_div_bound(self.x * num, SCALE as int, VEC_LIMIT as int);
            lemma_trunc_div_bound(self.y * num, SCALE as int, VEC_LIMIT as int);
        }
        Vector::new(mul_div(self.x, num, SCALE), mul_div(self.y, num, SCALE))
    }

    /// The Euclidean length in quanta, rounded down.
    pub fn length(&self) -> (r: i64)
        requires
            self.bounded(VEC_LIMIT as int),
        ensures
            r as int == self.len_spec(),
            r >= 0,
    {
        proof {
            assert(0 <= self.x * self.x <= (VEC_LIMIT as int) * (VEC_LIMIT as int))
                by (nonlinear_arith)
                requires -VEC_LIMIT <= self.x <= VEC_LIMIT,
            ;
            assert(0 <= self.y * self.y <= (VEC_LIMIT as int) * (VEC_LIMIT as int))
                by (nonlinear_arith)
                requires -VEC_LIMIT <= self.y <= VEC_LIMIT,
            ;
        }
        let xs: i128 = (self.x as i128) * (self.x as i128);
        let ys: i128 = (self.y as i128) * (self.y as i128);
        let ns: i128 = xs + ys;
        let root: u64 = isqrt_u128(ns as u128);
        proof {
            assert(root * root <= self.norm_sq());
            assert(root < 6_000_000_000_000int) by (nonlinear_arith)
                requires
                    root * root <= 2 * ((VEC_LIMIT as int) * (VEC_LIMIT as int)),
                    root >= 0,
            ;
        }
        root as i64
    }

    /// Scales to length one cell. The zero vector has no direction: callers
    /// must keep it out.
    pub fn normalize(&self) -> (r: Vector)
        requires
            self.bounded(VEC_LIMIT as int),
            self.norm_sq() > 0,
        ensures
            r == self.normalize_spec(),
            r.bounded(SCALE as int),
    {
        proof {
            lemma_component_le_len(*self);
            lemma_sqrt_floor_bounds(self.norm_sq());
            let s = self.len_spec();
            if s == 0 {
                assert((s + 1) * (s + 1) == 1) by (nonlinear_arith)
                    requires s == 0,
                ;
            }
        }
        let l: i64 = self.length();
        proof {
            assert(abs(self.x * SCALE) <= (SCALE as int) * (l as int)
                && abs(self.y * SCALE) <= (SCALE as int) * (l as int)) by (nonlinear_arith)
                requires
                    abs(self.x as int) <= l as int,
                    abs(self.y as int) <= l as int,
                    SCALE > 0,
            ;
            lemma_trunc_div_bound(self.x * SCALE, l as int, SCALE as int);
            lemma_trunc_div_bound(self.y * SCALE, l as int, SCALE as int);
        }
        Vector::new(mul_div(self.x, SCALE, l), mul_div(self.y, SCALE, l))
    }

    pub fn equal_to(&self, other: &Vector) -> (r: bool)
        ensures
            r == (self.x == other.x && self.y == other.y),
    {
        are_equal(self.x, other.x) && are_equal(self.y, other.y)
    }

    /// True when the two vectors sum to the zero vector.
    pub fn is_opposite(&self, other: &Vector) -> (r: bool)
        requires
            self.bounded(VEC_LIMIT as int),
            other.bounded(VEC_LIMIT as int),
        ensures
            r == (self.x + other.x == 0 && self.y + other.y == 0),
    {
        let sum = self.add(other);
        sum.equal_to(&Vector::new(0, 0))
    }

    /// The dot product, in squared quanta.
    pub fn dot_product(&self, other: &Vector) -> (r: i128)
        requires
            self.bounded(VEC_LIMIT as int),
            other.bounded(VEC_LIMIT as int),
        ensures
            r as int == self.x * other.x + self.y * other.y,
    {
        proof {
            assert(abs(self.x * other.x) <= (VEC_LIMIT as int) * (VEC_LIMIT as int)
                && abs(self.y * other.y) <= (VEC_LIMIT as int) * (VEC_LIMIT as int))
                by (nonlinear_arith)
                requires
                    -VEC_LIMIT <= self.x <= VEC_LIMIT,
                    -VEC_LIMIT <= self.y <= VEC_LIMIT,
                    -VEC_LIMIT <= other.x <= VEC_LIMIT,
                    -VEC_LIMIT <= other.y <= VEC_LIMIT,
            ;
        }
        (self.x as i128) * (other.x as i128) + (self.y as i128) * (other.y as i128)
    }
}

/// No component of a vector is longer than the whole vector.
pub proof fn lemma_component_le_len(v: Vector)
    ensures
        abs(v.x as int) <= v.len_spec(),
        abs(v.y as int) <= v.len_spec(),
{
    let ax = abs(v.x as int) as int;
    let ay = abs(v.y as int) as int;
    assert(v.x * v.x == ax * ax && v.y * v.y == ay * ay) by (nonlinear_arith)
        requires ax == abs(v.x as int) && ay == abs(v.y as int),
    ;
    assert(ax * ax <= v.norm_sq() && ay * ay <= v.norm_sq()) by (nonlinear_arith)
        requires v.norm_sq() == v.x * v.x + v.y * v.y && v.x * v.x == ax * ax && v.y * v.y == ay
            * ay,
    ;
    lemma_sqrt_floor_square(ax);
    lemma_sqrt_floor_monotone(ax * ax, v.norm_sq());
    lemma_sqrt_floor_square(ay);
    lemma_sqrt_floor_monotone(ay * ay, v.norm_sq());
}

/// A vector has length zero exactly when it is the zero vector; in
/// particular the difference of a vector with itself has length zero.
pub proof fn lemma_len_zero_iff_zero(v: Vector)
    ensures
        v.len_spec() == 0 <==> (v.x == 0 && v.y == 0),
{
    assert(v.x * v.x >= 0 && v.y * v.y >= 0) by (nonlinear_arith);
    lemma_sqrt_floor_bounds(v.norm_sq());
    if v.x == 0 && v.y == 0 {
        assert(v.norm_sq() == 0);
    } else {
        assert(v.x * v.x + v.y * v.y >= 1) by (nonlinear_arith)
            requires v.x != 0 || v.y != 0,
        ;
        let s = v.len_spec();
        if s == 0 {
            assert((s + 1) * (s + 1) == 1) by (nonlinear_arith)
                requires s == 0,
            ;
        }
    }
}

/// An axis-aligned vector normalizes to exactly one cell of length.
pub proof fn lemma_normalize_axis_unit(v: Vector)
    requires
        v.norm_sq() > 0,
        v.x == 0 || v.y == 0,
    ensures
        v.normalize_spec().len_spec() == SCALE,
        v.x > 0 ==> v.normalize_spec() == (Vector { x: SCALE, y: 0 }),
        v.x < 0 ==> v.normalize_spec() == (Vector { x: (-SCALE) as i64, y: 0 }),
        v.y > 0 ==> v.normalize_spec() == (Vector { x: 0, y: SCALE }),
        v.y < 0 ==> v.normalize_spec() == (Vector { x: 0, y: (-SCALE) as i64 }),
{
    if v.y == 0 {
        let a = abs(v.x as int) as int;
        assert(v.norm_sq() == v.x * v.x) by (nonlinear_arith)
            requires v.y == 0 && v.norm_sq() == v.x * v.x + v.y * v.y,
        ;
        lemma_sqrt_floor_square(v.x as int);
        assert(v.len_spec() == a);
        assert(v.x != 0) by (nonlinear_arith)
            requires v.norm_sq() > 0 && v.norm_sq() == v.x * v.x,
        ;
        if v.x > 0 {
            assert(v.x * SCALE == (SCALE as int) * a) by (nonlinear_arith)
                requires a == v.x && SCALE > 0,
            ;
            lemma_trunc_div_exact(SCALE as int, a);
        } else {
            assert(v.x * SCALE == (-(SCALE as int)) * a) by (nonlinear_arith)
                requires a == -v.x && SCALE > 0,
            ;
            lemma_trunc_div_exact(-(SCALE as int), a);
        }
        assert(v.y * SCALE == 0) by (nonlinear_arith)
            requires v.y == 0,
        ;
        lemma_trunc_div_exact(0, a);
        lemma_sqrt_floor_square(SCALE as int);
        assert((SCALE as int) * (SCALE as int) == v.normalize_spec().norm_sq())
            by (nonlinear_arith)
            requires
                abs(v.normalize_spec().x as int) == SCALE as int,
                v.normalize_spec().y == 0,
        ;
    } else {
        let a = abs(v.y as int) as int;
        assert(v.norm_sq() == v.y * v.y) by (nonlinear_arith)
            requires v.x == 0 && v.norm_sq() == v.x * v.x + v.y * v.y,
        ;
        lemma_sqrt_floor_square(v.y as int);
        assert(v.len_spec() == a);
        assert(v.y != 0) by (nonlinear_arith)
            requires v.norm_sq() > 0 && v.norm_sq() == v.y * v.y,
        ;
        if v.y > 0 {
            assert(v.y * SCALE == (SCALE as int) * a) by (nonlinear_arith)
                requires a == v.y && SCALE > 0,
            ;
            lemma_trunc_div_exact(SCALE as int, a);
        } else {
            assert(v.y * SCALE == (-(SCALE as int)) * a) by (nonlinear_arith)
                requires a == -v.y && SCALE > 0,
            ;
            lemma_trunc_div_exact(-(SCALE as int), a);
        }
        assert(v.x * SCALE == 0) by (nonlinear_arith)
            requires v.x == 0,
        ;
        lemma_trunc_div_exact(0, a);
        lemma_sqrt_floor_square(SCALE as int);
        assert((SCALE as int) * (SCALE as int) == v.normalize_spec().norm_sq())
            by (nonlinear_arith)
            requires
                abs(v.normalize_spec().y as int) == SCALE as int,
                v.normalize_spec().x == 0,
        ;
    }
    lemma_sqrt_floor_unique((SCALE as int) * (SCALE as int), SCALE as int);
}

/// Scaling by minus one cell negates a vector exactly, so every vector is
/// opposite to its own negation.
pub proof fn lemma_scale_by_neg_one(v: Vector)
    ensures
        trunc_div(v.x * (-SCALE), SCALE as int) == -v.x,
        trunc_div(v.y * (-SCALE), SCALE as int) == -v.y,
        v.x + -v.x == 0 && v.y + -v.y == 0,
{
    assert(v.x * (-SCALE) == (-(v.x as int)) * (SCALE as int)) by (nonlinear_arith);
    assert(v.y * (-SCALE) == (-(v.y as int)) * (SCALE as int)) by (nonlinear_arith);
    lemma_trunc_div_exact(-(v.x as int), SCALE as int);
    lemma_trunc_div_exact(-(v.y as int), SCALE as int);
}

/// A vector is opposite to itself only when it is the zero vector.
pub proof fn lemma_opposite_self_iff_zero(v: Vector)
    ensures
        (v.x + v.x == 0 && v.y + v.y == 0) <==> (v.x == 0 && v.y == 0),
{
}

} // verus!
