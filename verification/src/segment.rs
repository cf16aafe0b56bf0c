use vstd::prelude::*;
use vstd::math::abs;
use crate::num::{
    MAX_COORD, VEC_LIMIT, sqrt_floor, lemma_sqrt_floor_square, trunc_div, lemma_trunc_div_exact,
    lemma_trunc_div_bound, lemma_trunc_div_remainder, div_trunc_i128, lemma_mul_bound_both,
    lemma_mul_upper, lemma_abs_le_of_sq_le,
};
use crate::vector::Vector;

verus! {

/// The squared Euclidean distance between two points, in squared quanta.
pub open spec fn seg_len_sq(a: Vector, b: Vector) -> int {
    (b.x - a.x) * (b.x - a.x) + (b.y - a.y) * (b.y - a.y)
}

/// The distance between two points in quanta, rounded down to a whole number.
pub open spec fn seg_len(a: Vector, b: Vector) -> int {
    sqrt_floor(seg_len_sq(a, b))
}

/// The containment test the library runs: the point splits the segment into
/// two parts whose rounded lengths sum to the rounded whole, up to the one
/// quantum that rounding the two halves down can lose. For any point truly
/// on the segment the sum lands in this window; a point further than a few
/// quanta off the line falls below it.
pub open spec fn point_on(a: Vector, b: Vector, p: Vector) -> bool {
    seg_len(a, b) - 1 <= seg_len(a, p) + seg_len(p, b) <= seg_len(a, b)
}

/// The dot product of (p - a) with (b - a).
pub open spec fn proj_dot(a: Vector, b: Vector, p: Vector) -> int {
    (p.x - a.x) * (b.x - a.x) + (p.y - a.y) * (b.y - a.y)
}

/// The perpendicular projection of `p` onto the infinite line through `a`
/// and `b`, componentwise in truncated fixed-point arithmetic.
pub open spec fn proj_point(a: Vector, b: Vector, p: Vector) -> Vector {
    Vector {
        x: (a.x + trunc_div((b.x - a.x) * proj_dot(a, b, p), seg_len_sq(a, b))) as i64,
        y: (a.y + trunc_div((b.y - a.y) * proj_dot(a, b, p), seg_len_sq(a, b))) as i64,
    }
}

/// A directed line between two points of the snake's polyline.
#[derive(Clone, Copy)]
pub struct Segment {
    pub start: Vector,
    pub end: Vector,
}

impl Segment {
    pub fn new(start: Vector, end: Vector) -> (r: Segment)
        ensures
            r.start == start,
            r.end == end,
    {
        Segment { start, end }
    }

    pub fn get_vector(&self) -> (r: Vector)
        requires
            self.start.bounded(MAX_COORD as int),
            self.end.bounded(MAX_COORD as int),
        ensures
            r.x == self.end.x - self.start.x,
            r.y == self.end.y - self.start.y,
    {
        self.end.subtract(&self.start)
    }

    pub fn length(&self) -> (r: i64)
        requires
            self.start.bounded(MAX_COORD as int),
            self.end.bounded(MAX_COORD as int),
        ensures
            r as int == seg_len(self.start, self.end),
            r >= 0,
    {
        self.get_vector().length()
    }

    /// True when the point splits the segment into two parts whose lengths
    /// sum to the whole, within the quantum that rounding may lose.
    pub fn is_point_inside(&self, point: &Vector) -> (r: bool)
        requires
            self.start.bounded(MAX_COORD as int),
            self.end.bounded(MAX_COORD as int),
            point.bounded(MAX_COORD as int),
        ensures
            r == point_on(self.start, self.end, *point),
    {
        let first = Segment::new(self.start, *point);
        let second = Segment::new(*point, self.end);
        let whole = self.length();
        let l1 = first.length();
        let l2 = second.length();
        proof {
            lemma_seg_len_upper(self.start, *point);
            lemma_seg_len_upper(*point, self.end);
        }
        whole - 1 <= l1 + l2 && l1 + l2 <= whole
    }

    /// The perpendicular projection of `point` onto the infinite line
    /// through the segment. A zero-length segment spans no line: callers
    /// must keep it out.
    pub fn get_projected_point(&self, point: &Vector) -> (r: Vector)
        requires
            self.start.bounded(MAX_COORD as int),
            self.end.bounded(MAX_COORD as int),
            point.bounded(MAX_COORD as int),
            seg_len_sq(self.start, self.end) > 0,
        ensures
            r == proj_point(self.start, self.end, *point),
            r.bounded(VEC_LIMIT as int),
    {
        let vector = self.get_vector();
        let diff = point.subtract(&self.start);
        let dot: i128 = diff.dot_product(&vector);
        let vv: i128 = vector.dot_product(&vector);
        proof {
            lemma_proj_offset_bounded(self.start, self.end, *point);
            let big = 8 * ((MAX_COORD as int) * (MAX_COORD as int));
            assert(-big <= dot as int <= big);
            assert((vector.x as int) * (dot as int) < 0x40000000000000000000000000000000int
                && (vector.x as int) * (dot as int) > -0x40000000000000000000000000000000int
                && (vector.y as int) * (dot as int) < 0x40000000000000000000000000000000int
                && (vector.y as int) * (dot as int) > -0x40000000000000000000000000000000int)
                by (nonlinear_arith)
                requires
                    -2 * (MAX_COORD as int) <= vector.x as int <= 2 * (MAX_COORD as int),
                    -2 * (MAX_COORD as int) <= vector.y as int <= 2 * (MAX_COORD as int),
                    -big <= dot as int <= big,
                    big == 8 * ((MAX_COORD as int) * (MAX_COORD as int)),
            ;
        }
        let off_x: i128 = div_trunc_i128((vector.x as i128) * dot, vv);
        let off_y: i128 = div_trunc_i128((vector.y as i128) * dot, vv);
        Vector::new(self.start.x + (off_x as i64), self.start.y + (off_y as i64))
    }
}

/// The distance between two board points fits well inside the machine range.
pub proof fn lemma_seg_len_upper(a: Vector, b: Vector)
    requires
        a.bounded(MAX_COORD as int),
        b.bounded(MAX_COORD as int),
    ensures
        0 <= seg_len(a, b) <= 3_000_000_000_000,
{
    assert((b.x - a.x) * (b.x - a.x) >= 0 && (b.y - a.y) * (b.y - a.y) >= 0)
        by (nonlinear_arith);
    crate::num::lemma_sqrt_floor_bounds(seg_len_sq(a, b));
    let s = seg_len(a, b);
    assert(seg_len_sq(a, b) <= 8 * ((MAX_COORD as int) * (MAX_COORD as int)))
        by (nonlinear_arith)
        requires
            -MAX_COORD <= a.x <= MAX_COORD,
            -MAX_COORD <= a.y <= MAX_COORD,
            -MAX_COORD <= b.x <= MAX_COORD,
            -MAX_COORD <= b.y <= MAX_COORD,
    ;
    if s > 3_000_000_000_000 {
        assert(s * s > 8 * ((MAX_COORD as int) * (MAX_COORD as int))) by (nonlinear_arith)
            requires s > 3_000_000_000_000int,
        ;
    }
}

/// The dot product obeys the Cauchy-Schwarz bound, so the projection offset
/// stays within three board widths.
proof fn lemma_proj_offset_bounded(a: Vector, b: Vector, p: Vector)
    requires
        a.bounded(MAX_COORD as int),
        b.bounded(MAX_COORD as int),
        p.bounded(MAX_COORD as int),
        seg_len_sq(a, b) > 0,
    ensures
        abs(proj_dot(a, b, p)) <= 8 * ((MAX_COORD as int) * (MAX_COORD as int)),
        -3_000_000_000_000 <= trunc_div((b.x - a.x) * proj_dot(a, b, p), seg_len_sq(a, b))
            <= 3_000_000_000_000,
        -3_000_000_000_000 <= trunc_div((b.y - a.y) * proj_dot(a, b, p), seg_len_sq(a, b))
            <= 3_000_000_000_000,
{
    let vx = b.x - a.x;
    let vy = b.y - a.y;
    let dx = p.x - a.x;
    let dy = p.y - a.y;
    let dot = proj_dot(a, b, p);
    let vv = seg_len_sq(a, b);
    let nd = dx * dx + dy * dy;
    let cap = 3_000_000_000_000int;
    let m2 = 2 * (MAX_COORD as int);
    assert(-m2 <= dx <= m2 && -m2 <= dy <= m2 && -m2 <= vx <= m2 && -m2 <= vy <= m2);
    lemma_mul_bound_both(dx, m2, vx, m2);
    lemma_mul_bound_both(dy, m2, vy, m2);
    assert(m2 * m2 == 4_000_000_000_000_000_000_000_000int) by (nonlinear_arith)
        requires m2 == 2 * (MAX_COORD as int) && MAX_COORD == 1_000_000_000_000i64,
    ;
    assert((MAX_COORD as int) * (MAX_COORD as int) == 1_000_000_000_000_000_000_000_000int)
        by (nonlinear_arith)
        requires MAX_COORD == 1_000_000_000_000i64,
    ;
    assert(abs(dot) <= 8 * ((MAX_COORD as int) * (MAX_COORD as int)));
    // Cauchy-Schwarz through the two-dimensional Lagrange identity, expanded
    // over named monomials in steps small enough for the solver.
    let cross = dx * vy - dy * vx;
    let s = dx * vx;
    let t = dy * vy;
    let u = dx * vy;
    let w = dy * vx;
    let p1 = dx * dx;
    let p2 = dy * dy;
    let q1 = vx * vx;
    let q2 = vy * vy;
    assert(dot * dot == s * s + 2 * (s * t) + t * t) by (nonlinear_arith)
        requires dot == s + t,
    ;
    assert(cross * cross == u * u - 2 * (u * w) + w * w) by (nonlinear_arith)
        requires cross == u - w,
    ;
    assert(nd * vv == p1 * q1 + p1 * q2 + p2 * q1 + p2 * q2) by (nonlinear_arith)
        requires nd == p1 + p2 && vv == q1 + q2,
    ;
    assert(s * s == p1 * q1 && t * t == p2 * q2 && u * u == p1 * q2 && w * w == p2 * q1 && s
        * t == u * w) by (nonlinear_arith)
        requires
            s == dx * vx,
            t == dy * vy,
            u == dx * vy,
            w == dy * vx,
            p1 == dx * dx,
            p2 == dy * dy,
            q1 == vx * vx,
            q2 == vy * vy,
    ;
    assert(cross * cross >= 0) by (nonlinear_arith);
    assert(dot * dot <= nd * vv);
    lemma_mul_bound_both(dx, m2, dx, m2);
    lemma_mul_bound_both(dy, m2, dy, m2);
    assert(cap * cap == 9_000_000_000_000_000_000_000_000int) by (nonlinear_arith)
        requires cap == 3_000_000_000_000int,
    ;
    assert(nd <= cap * cap);
    assert(vx * vx <= vv && vy * vy <= vv && 0 <= vx * vx && 0 <= vy * vy && 0 <= dot * dot)
        by (nonlinear_arith)
        requires vv == vx * vx + vy * vy,
    ;
    // (vx * dot)^2 <= vv * (nd * vv) <= (cap * vv)^2, so the quotient by vv
    // stays within cap; the same for vy.
    assert((vx * dot) * (vx * dot) == (vx * vx) * (dot * dot)) by (nonlinear_arith);
    assert((vy * dot) * (vy * dot) == (vy * vy) * (dot * dot)) by (nonlinear_arith);
    lemma_mul_upper(vx * vx, vv, dot * dot, nd * vv);
    lemma_mul_upper(vy * vy, vv, dot * dot, nd * vv);
    assert(vv * (nd * vv) <= (cap * vv) * (cap * vv)) by (nonlinear_arith)
        requires nd <= cap * cap && vv > 0 && cap > 0,
    ;
    assert(cap * vv >= 0) by (nonlinear_arith)
        requires vv > 0 && cap > 0,
    ;
    lemma_abs_le_of_sq_le(vx * dot, cap * vv);
    lemma_abs_le_of_sq_le(vy * dot, cap * vv);
    lemma_trunc_div_bound(vx * dot, vv, cap);
    lemma_trunc_div_bound(vy * dot, vv, cap);
}

/// For points in an axis-aligned position the rounded distance is exact:
/// the difference along the one changing axis.
pub proof fn lemma_seg_len_aligned(a: Vector, b: Vector)
    requires
        a.x == b.x || a.y == b.y,
    ensures
        seg_len(a, b) == abs(b.x - a.x) + abs(b.y - a.y),
{
    if a.y == b.y {
        assert(seg_len_sq(a, b) == (b.x - a.x) * (b.x - a.x)) by (nonlinear_arith)
            requires a.y == b.y && seg_len_sq(a, b) == (b.x - a.x) * (b.x - a.x) + (b.y - a.y)
                * (b.y - a.y),
        ;
        lemma_sqrt_floor_square(b.x - a.x);
    } else {
        assert(seg_len_sq(a, b) == (b.y - a.y) * (b.y - a.y)) by (nonlinear_arith)
            requires a.x == b.x && seg_len_sq(a, b) == (b.x - a.x) * (b.x - a.x) + (b.y - a.y)
                * (b.y - a.y),
        ;
        lemma_sqrt_floor_square(b.y - a.y);
    }
}

/// Both endpoints of a segment lie on it.
pub proof fn lemma_endpoints_on(a: Vector, b: Vector)
    ensures
        point_on(a, b, a),
        point_on(a, b, b),
{
    assert(seg_len_sq(a, a) == 0) by (nonlinear_arith);
    assert(seg_len_sq(b, b) == 0) by (nonlinear_arith);
    lemma_sqrt_floor_square(0);
}

/// The exact midpoint of any segment lies on it: the segment's squared
/// length is four times each half's, so the rounded whole is twice the
/// rounded half or one quantum more.
pub proof fn lemma_midpoint_on(a: Vector, b: Vector, m: Vector)
    requires
        2 * m.x == a.x + b.x,
        2 * m.y == a.y + b.y,
    ensures
        point_on(a, b, m),
{
    let n = seg_len_sq(a, m);
    assert(b.x - m.x == m.x - a.x && b.y - m.y == m.y - a.y);
    assert(seg_len_sq(m, b) == n) by (nonlinear_arith)
        requires
            b.x - m.x == m.x - a.x,
            b.y - m.y == m.y - a.y,
            n == (m.x - a.x) * (m.x - a.x) + (m.y - a.y) * (m.y - a.y),
            seg_len_sq(m, b) == (b.x - m.x) * (b.x - m.x) + (b.y - m.y) * (b.y - m.y),
    ;
    assert(seg_len_sq(a, b) == 4 * n) by (nonlinear_arith)
        requires
            b.x - a.x == 2 * (m.x - a.x),
            b.y - a.y == 2 * (m.y - a.y),
            n == (m.x - a.x) * (m.x - a.x) + (m.y - a.y) * (m.y - a.y),
            seg_len_sq(a, b) == (b.x - a.x) * (b.x - a.x) + (b.y - a.y) * (b.y - a.y),
    ;
    assert(n >= 0) by (nonlinear_arith)
        requires n == (m.x - a.x) * (m.x - a.x) + (m.y - a.y) * (m.y - a.y),
    ;
    let r = sqrt_floor(n);
    let w = sqrt_floor(4 * n);
    crate::num::lemma_sqrt_floor_bounds(n);
    crate::num::lemma_sqrt_floor_bounds(4 * n);
    assert((2 * r) * (2 * r) == 4 * (r * r)) by (nonlinear_arith);
    if w < 2 * r {
        assert((w + 1) * (w + 1) <= (2 * r) * (2 * r)) by (nonlinear_arith)
            requires 0 <= w && w + 1 <= 2 * r,
        ;
    }
    if w >= 2 * r + 2 {
        assert((2 * r + 2) * (2 * r + 2) == 4 * ((r + 1) * (r + 1))) by (nonlinear_arith);
        assert(w * w >= (2 * r + 2) * (2 * r + 2)) by (nonlinear_arith)
            requires 0 <= 2 * r + 2 && 2 * r + 2 <= w,
        ;
    }
}

/// Projection onto an axis-aligned segment is exact: the point keeps its
/// coordinate along the segment and takes the segment's other coordinate.
pub proof fn lemma_proj_aligned(a: Vector, b: Vector, p: Vector)
    requires
        a.x == b.x || a.y == b.y,
        seg_len_sq(a, b) > 0,
    ensures
        a.y == b.y ==> proj_point(a, b, p) == (Vector { x: p.x, y: a.y }),
        a.x == b.x ==> proj_point(a, b, p) == (Vector { x: a.x, y: p.y }),
{
    let vx = b.x - a.x;
    let vy = b.y - a.y;
    let dot = proj_dot(a, b, p);
    let vv = seg_len_sq(a, b);
    if a.y == b.y {
        assert(vy == 0);
        assert(vx != 0) by (nonlinear_arith)
            requires vy == 0 && vv == vx * vx + vy * vy && vv > 0,
        ;
        assert(vx * dot == (p.x - a.x) * vv && vy * dot == 0 * vv) by (nonlinear_arith)
            requires
                vy == 0,
                dot == (p.x - a.x) * vx + (p.y - a.y) * vy,
                vv == vx * vx + vy * vy,
        ;
        lemma_trunc_div_exact(p.x - a.x, vv);
        lemma_trunc_div_exact(0, vv);
    } else {
        assert(vx == 0);
        assert(vy != 0) by (nonlinear_arith)
            requires vx == 0 && vv == vx * vx + vy * vy && vv > 0,
        ;
        assert(vy * dot == (p.y - a.y) * vv && vx * dot == 0 * vv) by (nonlinear_arith)
            requires
                vx == 0,
                dot == (p.x - a.x) * vx + (p.y - a.y) * vy,
                vv == vx * vx + vy * vy,
        ;
        lemma_trunc_div_exact(p.y - a.y, vv);
        lemma_trunc_div_exact(0, vv);
    }
}

/// Truncation leaves the projected point within one quantum of the exact
/// projection on each axis, and the residual from the point to it is
/// perpendicular to the segment up to that rounding: its product with the
/// segment vector is smaller than the vector's own component sum.
pub proof fn lemma_proj_residual(a: Vector, b: Vector, p: Vector)
    requires
        a.bounded(MAX_COORD as int),
        b.bounded(MAX_COORD as int),
        p.bounded(MAX_COORD as int),
        seg_len_sq(a, b) > 0,
    ensures
        ({
            let vx = b.x - a.x;
            let vy = b.y - a.y;
            let dot = proj_dot(a, b, p);
            let vv = seg_len_sq(a, b);
            let r = proj_point(a, b, p);
            &&& abs(vv * (r.x - a.x) - vx * dot) < vv
            &&& abs(vv * (r.y - a.y) - vy * dot) < vv
            &&& abs((p.x - r.x) * vx + (p.y - r.y) * vy) < abs(vx) + abs(vy)
        }),
{
    let vx = b.x - a.x;
    let vy = b.y - a.y;
    let dot = proj_dot(a, b, p);
    let vv = seg_len_sq(a, b);
    let r = proj_point(a, b, p);
    let qx = trunc_div(vx * dot, vv);
    let qy = trunc_div(vy * dot, vv);
    lemma_proj_offset_bounded(a, b, p);
    assert(r.x == a.x + qx && r.y == a.y + qy);
    let remx = vx * dot - qx * vv;
    let remy = vy * dot - qy * vv;
    lemma_trunc_div_remainder(vx * dot, vv);
    lemma_trunc_div_remainder(vy * dot, vv);
    assert(abs(remx) < vv && abs(remy) < vv);
    assert(vv * qx - vx * dot == -remx && vv * qy - vy * dot == -remy) by (nonlinear_arith)
        requires remx == vx * dot - qx * vv && remy == vy * dot - qy * vv,
    ;
    let residual = (p.x - r.x) * vx + (p.y - r.y) * vy;
    assert(residual == dot - (qx * vx + qy * vy)) by (nonlinear_arith)
        requires
            residual == (p.x - r.x) * vx + (p.y - r.y) * vy,
            r.x == a.x + qx,
            r.y == a.y + qy,
            dot == (p.x - a.x) * vx + (p.y - a.y) * vy,
    ;
    assert(residual * vv == remx * vx + remy * vy) by (nonlinear_arith)
        requires
            residual == dot - (qx * vx + qy * vy),
            remx == vx * dot - qx * vv,
            remy == vy * dot - qy * vv,
            vv == vx * vx + vy * vy,
    ;
    let k = (abs(vx) + abs(vy)) as int;
    assert(k >= 1) by {
        if vx == 0 && vy == 0 {
            assert(vv == 0) by (nonlinear_arith)
                requires vx == 0 && vy == 0 && vv == vx * vx + vy * vy,
            ;
        }
    }
    lemma_mul_bound_both(remx, vv - 1, vx, abs(vx) as int);
    lemma_mul_bound_both(remy, vv - 1, vy, abs(vy) as int);
    assert(abs(residual * vv) < vv * k) by (nonlinear_arith)
        requires
            -((vv - 1) * (abs(vx) as int)) <= remx * vx <= (vv - 1) * (abs(vx) as int),
            -((vv - 1) * (abs(vy) as int)) <= remy * vy <= (vv - 1) * (abs(vy) as int),
            residual * vv == remx * vx + remy * vy,
            vv > 0,
            k == abs(vx) + abs(vy),
            k >= 1,
    ;
    assert(abs(residual * vv) == abs(residual) * vv) by (nonlinear_arith)
        requires vv > 0,
    ;
    assert(abs(residual) < k) by (nonlinear_arith)
        requires
            abs(residual * vv) < vv * k,
            abs(residual * vv) == abs(residual) * vv,
            vv > 0,
    ;
}

} // verus!
