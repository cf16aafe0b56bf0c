use vstd::prelude::*;
use vstd::math::abs;
use vstd::pervasive::VecAdditionalExecFns;
use crate::num::{
    SCALE, HALF_SCALE, MAX_COORD, VEC_LIMIT, round_cells, round_to_cell, trunc_div,
    lemma_trunc_div_exact, sqrt_floor, lemma_sqrt_floor_bounds, lemma_mul_bound_both,
};
use crate::vector::Vector;
use crate::segment::{
    Segment, seg_len, seg_len_sq, point_on, proj_point, lemma_seg_len_aligned, lemma_proj_aligned,
    lemma_endpoints_on,
};

verus! {

/// Widest board edge accepted, in cells.
pub const MAX_DIM: i32 = 32_768;

/// Longest body the engine tracks, in quanta; keeps every coordinate of the
/// polyline within `MAX_COORD`.
pub const PATH_LIMIT: i64 = 500_000_000_000;

/// A requested heading, one per axis-aligned unit vector.
#[allow(non_camel_case_types)]
#[derive(Clone, Copy, PartialEq, Eq, Structural, Debug)]
pub enum Movement {
    TOP,
    RIGHT,
    DOWN,
    LEFT,
}

/// Why a game operation refused to act.
#[derive(Clone, Copy, PartialEq, Eq, Structural, Debug)]
pub enum GameError {
    /// Construction input out of range: board edge, speed, snake length or a
    /// heading that is not an axis-aligned unit.
    InvalidInput,
    /// The snake covers every cell: food has nowhere to go.
    NoFreeCell,
    /// A zero-length tail segment has no direction to grow along.
    InvalidGeometry,
}

/// The unit vector of a requested heading, in quanta. The vertical axis
/// grows downward, so TOP is negative y.
pub open spec fn movement_vector(m: Movement) -> Vector {
    match m {
        Movement::TOP => Vector { x: 0, y: (-SCALE) as i64 },
        Movement::RIGHT => Vector { x: SCALE, y: 0 },
        Movement::DOWN => Vector { x: 0, y: SCALE },
        Movement::LEFT => Vector { x: (-SCALE) as i64, y: 0 },
    }
}

/// An axis-aligned unit vector, one cell long.
pub open spec fn dir_unit(v: Vector) -> bool {
    ||| (v.x == 0 && (v.y == SCALE || v.y == -(SCALE as int)))
    ||| (v.y == 0 && (v.x == SCALE || v.x == -(SCALE as int)))
}

/// Two points differing in at most one coordinate.
pub open spec fn aligned(a: Vector, b: Vector) -> bool {
    a.x == b.x || a.y == b.y
}

/// Every consecutive pair of polyline points is axis-aligned.
pub open spec fn snake_aligned(s: Seq<Vector>) -> bool {
    forall|i: int| 0 <= i < s.len() - 1 ==> aligned(#[trigger] s[i], s[i + 1])
}

/// Every polyline point within `b` quanta of the origin.
pub open spec fn snake_bounded(s: Seq<Vector>, b: int) -> bool {
    forall|i: int| 0 <= i < s.len() ==> s[i].bounded(b)
}

/// The total length of the polyline: the sum of its segment lengths.
pub open spec fn path_len(s: Seq<Vector>) -> int
    decreases s.len(),
{
    if s.len() < 2 {
        0
    } else {
        seg_len(s[0], s[1]) + path_len(s.drop_first())
    }
}

/// The final segment of the polyline runs along the current heading: the
/// head lies on the heading's side of the point before it.
pub open spec fn heading_ok(s: Seq<Vector>, d: Vector) -> bool {
    let p = s[s.len() - 2];
    let h = s[s.len() - 1];
    &&& d.x > 0 ==> h.y == p.y && p.x <= h.x
    &&& d.x < 0 ==> h.y == p.y && h.x <= p.x
    &&& d.y > 0 ==> h.x == p.x && p.y <= h.y
    &&& d.y < 0 ==> h.x == p.x && h.y <= p.y
}

/// The center of grid cell (i, j), in quanta.
pub open spec fn cell_center(i: int, j: int) -> Vector {
    Vector { x: (i * SCALE + HALF_SCALE) as i64, y: (j * SCALE + HALF_SCALE) as i64 }
}

/// No segment of the polyline covers the center of cell (i, j).
pub open spec fn cell_free(s: Seq<Vector>, i: int, j: int) -> bool {
    forall|k: int| 0 <= k < s.len() - 1 ==> !(#[trigger] point_on(s[k], s[k + 1], cell_center(i, j)))
}

/// Some cell of the w-by-h board is free of the snake.
pub open spec fn board_has_free_cell(w: int, h: int, s: Seq<Vector>) -> bool {
    exists|i: int, j: int| 0 <= i < w && 0 <= j < h && cell_free(s, i, j)
}

/// `f` is the center of a free cell of the board.
pub open spec fn is_free_center(w: int, h: int, s: Seq<Vector>, f: Vector) -> bool {
    exists|i: int, j: int|
        0 <= i < w && 0 <= j < h && cell_free(s, i, j) && f == cell_center(i, j)
}

/// The simulation engine: board, speed, score, heading, food and the snake
/// polyline (tail tip first, head last).
pub struct Game {
    pub width: i32,
    pub height: i32,
    pub speed: i64,
    pub score: i32,
    pub direction: Vector,
    pub food: Vector,
    pub snake: Vec<Vector>,
}

impl Game {
    /// The head of the snake: the last point of the polyline.
    pub open spec fn head(self) -> Vector {
        self.snake@.last()
    }

    /// The head has left the closed board rectangle.
    pub open spec fn head_out(self) -> bool {
        ||| self.head().x < 0
        ||| self.head().x > self.width * SCALE
        ||| self.head().y < 0
        ||| self.head().y > self.height * SCALE
    }

    /// The state invariant: a well-formed board, an axis-aligned polyline of
    /// at least two points, a head near the board, and a heading the last
    /// segment follows. Consecutive polyline points are allowed to
    /// coincide: movement that exactly exhausts a tail segment, or a turn
    /// with nothing left past the breakpoint, leaves a transient duplicate
    /// that the next retraction consumes.
    pub open spec fn wf(self) -> bool {
        &&& 1 <= self.width <= MAX_DIM
        &&& 1 <= self.height <= MAX_DIM
        &&& self.speed >= 1
        &&& self.score >= 0
        &&& dir_unit(self.direction)
        &&& self.snake@.len() >= 2
        &&& snake_aligned(self.snake@)
        &&& snake_bounded(self.snake@, MAX_COORD as int)
        &&& heading_ok(self.snake@, self.direction)
        &&& SCALE <= path_len(self.snake@) <= PATH_LIMIT
        &&& -(SCALE as int) <= self.head().x <= (self.width + 1) * SCALE
        &&& -(SCALE as int) <= self.head().y <= (self.height + 1) * SCALE
        &&& self.food.bounded(MAX_COORD as int)
    }

    /// Segment `i` of the trunk (the polyline without its three points
    /// nearest the head) passes within half a cell of the head.
    pub open spec fn bite_at(s: Seq<Vector>, h: Vector, i: int) -> bool {
        let a = s[i];
        let b = s[i + 1];
        &&& seg_len_sq(a, b) > 0
        &&& point_on(a, b, proj_point(a, b, h))
        &&& seg_len(h, proj_point(a, b, h)) < HALF_SCALE
    }

    /// Some trunk segment passes within half a cell of the head.
    pub open spec fn self_bite(s: Seq<Vector>, h: Vector) -> bool {
        exists|i: int| 0 <= i < s.len() - 4 && #[trigger] Self::bite_at(s, h, i)
    }

    /// The terminal condition: the head outside the board, or a snake of at
    /// least five points biting its own trunk.
    pub open spec fn over_spec(self) -> bool {
        ||| self.head_out()
        ||| (self.snake@.len() >= 5 && Self::self_bite(self.snake@, self.head()))
    }

    /// True once the head leaves the board or the body bites itself. The
    /// three points nearest the head are left out of the bite test so the
    /// head's own trailing segment cannot trip it.
    pub fn is_over(&self) -> (r: bool)
        requires
            self.wf(),
        ensures
            r == self.over_spec(),
            self.head_out() ==> r,
            self.snake@.len() < 5 && !self.head_out() ==> !r,
    {
        let n = self.snake.len();
        let head = self.snake[n - 1];
        if head.x < 0 || head.x > (self.width as i64) * SCALE || head.y < 0 || head.y > (
        self.height as i64) * SCALE {
            return true;
        }
        if n < 5 {
            return false;
        }
        let mut i: usize = 0;
        let mut found = false;
        while i < n - 4
            invariant
                0 <= i <= n - 4,
                n == self.snake@.len(),
                5 <= n,
                self.wf(),
                head == self.head(),
                found == exists|k: int| 0 <= k < i && #[trigger] Self::bite_at(self.snake@, head, k),
            decreases n - 4 - i,
        {
            let a = self.snake[i];
            let b = self.snake[i + 1];
            let mut hit = false;
            proof {
                lemma_seg_len_sq_pos(a, b);
            }
            if !(a.x == b.x && a.y == b.y) {
                proof {
                    assert(aligned(self.snake@[i as int], self.snake@[i as int + 1]));
                    lemma_proj_aligned(a, b, head);
                    assert(self.snake@[i as int].bounded(MAX_COORD as int));
                    assert(self.snake@[i as int + 1].bounded(MAX_COORD as int));
                    assert(proj_point(a, b, head).bounded(MAX_COORD as int));
                }
                let seg = Segment::new(a, b);
                let projected = seg.get_projected_point(&head);
                if seg.is_point_inside(&projected) {
                    let dist = Segment::new(head, projected).length();
                    if dist < HALF_SCALE {
                        hit = true;
                    }
                }
            }
            proof {
                assert(hit == Self::bite_at(self.snake@, head, i as int));
            }
            found = found || hit;
            i = i + 1;
        }
        found
    }

    /// Snapshot of the snake polyline, tail tip first, head last.
    pub fn get_snake(&self) -> (r: Vec<Vector>)
        ensures
            r@ == self.snake@,
    {
        let mut r: Vec<Vector> = Vec::new();
        let mut i: usize = 0;
        while i < self.snake.len()
            invariant
                0 <= i <= self.snake@.len(),
                r@ == self.snake@.subrange(0, i as int),
            decreases self.snake@.len() - i,
        {
            r.push(self.snake[i]);
            i = i + 1;
        }
        proof {
            assert(r@ =~= self.snake@);
        }
        r
    }
}

/// Construction input the engine accepts: a board within machine range, a
/// positive speed, a positive initial length and an axis-aligned heading.
pub open spec fn new_inputs_ok(
    width: i32,
    height: i32,
    speed: i64,
    snake_length: i32,
    direction: Vector,
) -> bool {
    &&& 1 <= width <= MAX_DIM
    &&& 1 <= height <= MAX_DIM
    &&& speed >= 1
    &&& 1 <= snake_length <= MAX_DIM
    &&& dir_unit(direction)
}

/// The head the constructor places: the center of the board, on cell
/// centers when the board edges are even.
pub open spec fn initial_head(width: i32, height: i32) -> Vector {
    Vector {
        x: ((width - 1) * HALF_SCALE) as i64,
        y: ((height - 1) * HALF_SCALE) as i64,
    }
}

/// The tail tip the constructor places: the head moved back along the
/// heading by the initial length.
pub open spec fn initial_tail(width: i32, height: i32, snake_length: i32, d: Vector) -> Vector {
    Vector {
        x: (initial_head(width, height).x - d.x * snake_length) as i64,
        y: (initial_head(width, height).y - d.y * snake_length) as i64,
    }
}

/// The food lies on the segment between the last two points of the snake.
pub open spec fn eats(s: Seq<Vector>, food: Vector) -> bool {
    point_on(s[s.len() - 2], s[s.len() - 1], food)
}

/// Where growth puts the tail tip: one cell beyond it, away from the body
/// along the tail segment.
pub open spec fn grown_tail(s: Seq<Vector>) -> Vector {
    let t = s[0];
    let b = s[1];
    let v = Vector { x: (t.x - b.x) as i64, y: (t.y - b.y) as i64 };
    let u = v.normalize_spec();
    Vector { x: (t.x + u.x) as i64, y: (t.y + u.y) as i64 }
}

impl Game {
    /// Builds a round: the head centered, a straight body of the requested
    /// length laid against the heading, and food on a free cell.
    pub fn new(
        width: i32,
        height: i32,
        speed: i64,
        snake_length: i32,
        direction: Vector,
    ) -> (r: Result<Game, GameError>)
        ensures
            match r {
                Ok(g) => {
                    &&& new_inputs_ok(width, height, speed, snake_length, direction)
                    &&& g.wf()
                    &&& g.width == width
                    &&& g.height == height
                    &&& g.speed == speed
                    &&& g.score == 0
                    &&& g.direction == direction
                    &&& g.snake@ =~= seq![
                        initial_tail(width, height, snake_length, direction),
                        initial_head(width, height),
                    ]
                    &&& path_len(g.snake@) == snake_length * SCALE
                    &&& is_free_center(width as int, height as int, g.snake@, g.food)
                },
                Err(GameError::InvalidInput) => !new_inputs_ok(
                    width,
                    height,
                    speed,
                    snake_length,
                    direction,
                ),
                Err(GameError::NoFreeCell) => {
                    &&& new_inputs_ok(width, height, speed, snake_length, direction)
                    &&& !board_has_free_cell(
                        width as int,
                        height as int,
                        seq![
                            initial_tail(width, height, snake_length, direction),
                            initial_head(width, height),
                        ],
                    )
                },
                Err(GameError::InvalidGeometry) => false,
            },
    {
        if !(1 <= width && width <= MAX_DIM) || !(1 <= height && height <= MAX_DIM) || speed < 1
            || snake_length < 1 || snake_length > MAX_DIM {
            return Err(GameError::InvalidInput);
        }
        let unit_dir = (direction.x == 0 && (direction.y == SCALE || direction.y == -SCALE)) || (
        direction.y == 0 && (direction.x == SCALE || direction.x == -SCALE));
        if !unit_dir {
            return Err(GameError::InvalidInput);
        }
        let head_x: i64 = ((width - 1) as i64) * HALF_SCALE;
        let head_y: i64 = ((height - 1) as i64) * HALF_SCALE;
        let head = Vector::new(head_x, head_y);
        let len_q: i64 = (snake_length as i64) * SCALE;
        proof {
            lemma_mul_bound_both(direction.x as int, SCALE as int, len_q as int,
                400_000_000_000int);
            lemma_mul_bound_both(direction.y as int, SCALE as int, len_q as int,
                400_000_000_000int);
            assert((SCALE as int) * 400_000_000_000int == 4_000_000_000_000_000_000int)
                by (nonlinear_arith);
            assert((VEC_LIMIT as int) * (SCALE as int) == 40_000_000_000_000_000_000int)
                by (nonlinear_arith)
                requires VEC_LIMIT == 4_000_000_000_000i64 && SCALE == 10_000_000i64,
            ;
        }
        let shift = direction.scale_by(len_q);
        proof {
            lemma_scale_unit_exact(direction, len_q as int);
            assert(direction.x * (snake_length as int) == if direction.x == SCALE {
                len_q as int
            } else if direction.x == -(SCALE as int) {
                -(len_q as int)
            } else {
                0
            }) by (nonlinear_arith)
                requires
                    direction.x == 0 || direction.x == SCALE || direction.x == -(SCALE as int),
                    len_q == snake_length * SCALE,
            ;
            assert(direction.y * (snake_length as int) == if direction.y == SCALE {
                len_q as int
            } else if direction.y == -(SCALE as int) {
                -(len_q as int)
            } else {
                0
            }) by (nonlinear_arith)
                requires
                    direction.y == 0 || direction.y == SCALE || direction.y == -(SCALE as int),
                    len_q == snake_length * SCALE,
            ;
            assert(shift.x == direction.x * (snake_length as int));
            assert(shift.y == direction.y * (snake_length as int));
        }
        let tailtip = head.subtract(&shift);
        let mut snake: Vec<Vector> = Vec::new();
        snake.push(tailtip);
        snake.push(head);
        proof {
            assert(snake@ =~= seq![tailtip, head]);
            assert(aligned(snake@[0], snake@[1]));
            lemma_seg_len_aligned(tailtip, head);
            assert(path_len(snake@) == seg_len(snake@[0], snake@[1]) + path_len(
                snake@.drop_first()));
            assert(snake@.drop_first() =~= seq![head]);
            assert(snake_bounded(snake@, MAX_COORD as int));
        }
        let food = match crate::food::get_food(width, height, &snake) {
            Some(f) => f,
            None => {
                return Err(GameError::NoFreeCell);
            },
        };
        let g = Game { width, height, speed, score: 0, direction, food, snake };
        proof {
            assert(heading_ok(g.snake@, direction));
            assert(g.wf());
        }
        Ok(g)
    }
}

/// A unit heading scaled by a distance moves exactly that distance along
/// its axis.
pub proof fn lemma_scale_unit_exact(d: Vector, k: int)
    requires
        dir_unit(d),
    ensures
        d.x == 0 ==> trunc_div(d.x * k, SCALE as int) == 0,
        d.x == SCALE ==> trunc_div(d.x * k, SCALE as int) == k,
        d.x == -(SCALE as int) ==> trunc_div(d.x * k, SCALE as int) == -k,
        d.y == 0 ==> trunc_div(d.y * k, SCALE as int) == 0,
        d.y == SCALE ==> trunc_div(d.y * k, SCALE as int) == k,
        d.y == -(SCALE as int) ==> trunc_div(d.y * k, SCALE as int) == -k,
{
    if d.x == 0 {
        assert(d.x * k == 0 * (SCALE as int)) by (nonlinear_arith)
            requires d.x == 0,
        ;
        lemma_trunc_div_exact(0, SCALE as int);
    } else if d.x == SCALE {
        assert(d.x * k == k * (SCALE as int)) by (nonlinear_arith)
            requires d.x == SCALE,
        ;
        lemma_trunc_div_exact(k, SCALE as int);
    } else {
        assert(d.x * k == (-k) * (SCALE as int)) by (nonlinear_arith)
            requires d.x == -(SCALE as int),
        ;
        lemma_trunc_div_exact(-k, SCALE as int);
    }
    if d.y == 0 {
        assert(d.y * k == 0 * (SCALE as int)) by (nonlinear_arith)
            requires d.y == 0,
        ;
        lemma_trunc_div_exact(0, SCALE as int);
    } else if d.y == SCALE {
        assert(d.y * k == k * (SCALE as int)) by (nonlinear_arith)
            requires d.y == SCALE,
        ;
        lemma_trunc_div_exact(k, SCALE as int);
    } else {
        assert(d.y * k == (-k) * (SCALE as int)) by (nonlinear_arith)
            requires d.y == -(SCALE as int),
        ;
        lemma_trunc_div_exact(-k, SCALE as int);
    }
}

/// Appending a point adds exactly one segment to the polyline length.
pub proof fn lemma_path_len_snoc(s: Seq<Vector>, v: Vector)
    requires
        s.len() >= 1,
    ensures
        path_len(s.push(v)) == path_len(s) + seg_len(s.last(), v),
    decreases s.len(),
{
    let p = s.push(v);
    assert(path_len(p) == seg_len(p[0], p[1]) + path_len(p.drop_first()));
    if s.len() == 1 {
        assert(p.drop_first() =~= seq![v]);
        assert(path_len(seq![v]) == 0);
        assert(p[0] == s[0] && p[1] == v);
        assert(path_len(s) == 0);
    } else {
        assert(p.drop_first() =~= s.drop_first().push(v));
        lemma_path_len_snoc(s.drop_first(), v);
        assert(s.drop_first().last() == s.last());
        assert(p[0] == s[0] && p[1] == s[1]);
        assert(path_len(s) == seg_len(s[0], s[1]) + path_len(s.drop_first()));
    }
}

/// Every segment length is nonnegative, so the whole polyline's length is.
pub proof fn lemma_path_len_nonneg(s: Seq<Vector>)
    ensures
        path_len(s) >= 0,
    decreases s.len(),
{
    if s.len() >= 2 {
        lemma_seg_len_sq_pos(s[0], s[1]);
        lemma_sqrt_floor_bounds(seg_len_sq(s[0], s[1]));
        lemma_path_len_nonneg(s.drop_first());
    }
}

/// The tail tip lies within the body's length of the head.
pub proof fn lemma_tail_near_head(s: Seq<Vector>)
    requires
        s.len() >= 2,
        snake_aligned(s),
    ensures
        abs(s[0].x - s.last().x) + abs(s[0].y - s.last().y) <= path_len(s),
    decreases s.len(),
{
    assert(aligned(s[0], s[1]));
    lemma_seg_len_aligned(s[0], s[1]);
    assert(path_len(s) == seg_len(s[0], s[1]) + path_len(s.drop_first()));
    if s.len() == 2 {
        assert(path_len(s.drop_first()) == 0);
        assert(s.last() == s[1]);
        assert(abs(s[0].x - s[1].x) == abs(s[1].x - s[0].x));
        assert(abs(s[0].y - s[1].y) == abs(s[1].y - s[0].y));
    } else {
        let d = s.drop_first();
        assert forall|i: int| 0 <= i < d.len() - 1 implies aligned(#[trigger] d[i], d[i + 1]) by {
            assert(d[i] == s[i + 1] && d[i + 1] == s[i + 2]);
            assert(aligned(s[i + 1], s[i + 2]));
        }
        lemma_tail_near_head(d);
        assert(d.last() == s.last());
        assert(d[0] == s[1]);
        assert(abs(s[0].x - s.last().x) <= abs(s[0].x - s[1].x) + abs(s[1].x - s.last().x));
        assert(abs(s[0].y - s.last().y) <= abs(s[0].y - s[1].y) + abs(s[1].y - s.last().y));
        assert(abs(s[0].x - s[1].x) == abs(s[1].x - s[0].x));
        assert(abs(s[0].y - s[1].y) == abs(s[1].y - s[0].y));
    }
}

impl Game {
    /// Feeding: when the food lies on the head segment, the tail grows one
    /// cell outward, the score rises by one and fresh food is drawn on a
    /// free cell; otherwise nothing changes.
    pub fn process_food(&mut self) -> (r: Result<(), GameError>)
        requires
            old(self).wf(),
            old(self).score < i32::MAX,
            path_len(old(self).snake@) + SCALE <= PATH_LIMIT,
        ensures
            final(self).wf(),
            final(self).width == old(self).width,
            final(self).height == old(self).height,
            final(self).speed == old(self).speed,
            final(self).direction == old(self).direction,
            !eats(old(self).snake@, old(self).food) ==> r == Ok::<(), GameError>(())
                && final(self).snake@ == old(self).snake@ && final(self).food == old(self).food
                && final(self).score == old(self).score,
            eats(old(self).snake@, old(self).food) && old(self).snake@[0] == old(self).snake@[1]
                ==> r == Err::<(), GameError>(GameError::InvalidGeometry) && final(self).snake@
                == old(self).snake@ && final(self).food == old(self).food && final(self).score
                == old(self).score,
            eats(old(self).snake@, old(self).food) && old(self).snake@[0] != old(self).snake@[1]
                ==> {
                let g = old(self).snake@.update(0, grown_tail(old(self).snake@));
                &&& final(self).snake@ == g
                &&& path_len(g) == path_len(old(self).snake@) + SCALE
                &&& (r == Ok::<(), GameError>(()) <==> board_has_free_cell(
                    old(self).width as int,
                    old(self).height as int,
                    g,
                ))
                &&& (r == Ok::<(), GameError>(()) ==> final(self).score == old(self).score + 1
                    && is_free_center(
                    old(self).width as int,
                    old(self).height as int,
                    g,
                    final(self).food,
                ) && (forall|i: int| 0 <= i < g.len() ==> #[trigger] g[i] != final(self).food))
                &&& (r != Ok::<(), GameError>(()) ==> r == Err::<(), GameError>(
                    GameError::NoFreeCell,
                ) && final(self).score == old(self).score && final(self).food == old(self).food)
            },
    {
        let n = self.snake.len();
        let head_segment = Segment::new(self.snake[n - 2], self.snake[n - 1]);
        if !head_segment.is_point_inside(&self.food) {
            return Ok(());
        }
        let tail_end = self.snake[0];
        let before_tail_end = self.snake[1];
        if tail_end.x == before_tail_end.x && tail_end.y == before_tail_end.y {
            return Err(GameError::InvalidGeometry);
        }
        proof {
            assert(aligned(self.snake@[0], self.snake@[1]));
            lemma_seg_len_sq_pos(before_tail_end, tail_end);
        }
        let tail_segment = Segment::new(before_tail_end, tail_end);
        let v = tail_segment.get_vector();
        proof {
            lemma_seg_len_sq_pos(before_tail_end, tail_end);
            assert(v.norm_sq() == seg_len_sq(before_tail_end, tail_end)) by (nonlinear_arith)
                requires
                    v.x == tail_end.x - before_tail_end.x,
                    v.y == tail_end.y - before_tail_end.y,
                    v.norm_sq() == v.x * v.x + v.y * v.y,
                    seg_len_sq(before_tail_end, tail_end) == (tail_end.x - before_tail_end.x) * (
                    tail_end.x - before_tail_end.x) + (tail_end.y - before_tail_end.y) * (
                    tail_end.y - before_tail_end.y),
            ;
            crate::vector::lemma_normalize_axis_unit(v);
            lemma_tail_near_head(self.snake@);
        }
        let unit = v.normalize();
        let new_tail_end = tail_end.add(&unit);
        self.snake.set(0, new_tail_end);
        proof {
            lemma_grown_snake_ok(old(self).snake@, self.snake@, old(self).direction);
        }
        match crate::food::get_food(self.width, self.height, &self.snake) {
            Some(f) => {
                self.food = f;
                self.score = self.score + 1;
                proof {
                    lemma_free_food_off_snake(
                        self.width as int,
                        self.height as int,
                        self.snake@,
                        f,
                    );
                }
                Ok(())
            },
            None => Err(GameError::NoFreeCell),
        }
    }
}

/// Growing the tail by one cell keeps the polyline well formed and adds
/// exactly one cell of length.
proof fn lemma_grown_snake_ok(s: Seq<Vector>, g: Seq<Vector>, d: Vector)
    requires
        s.len() >= 2,
        snake_aligned(s),
        snake_bounded(s, MAX_COORD as int),
        s[0] != s[1],
        SCALE <= path_len(s) <= PATH_LIMIT - SCALE,
        abs(s[0].x - s.last().x) + abs(s[0].y - s.last().y) <= path_len(s),
        -(SCALE as int) <= s.last().x <= (MAX_DIM + 1) * SCALE,
        -(SCALE as int) <= s.last().y <= (MAX_DIM + 1) * SCALE,
        heading_ok(s, d),
        g == s.update(0, grown_tail(s)),
    ensures
        g.len() == s.len(),
        g.last() == s.last(),
        snake_aligned(g),
        snake_bounded(g, MAX_COORD as int),
        heading_ok(g, d),
        path_len(g) == path_len(s) + SCALE,
{
    let t = s[0];
    let b = s[1];
    let v = Vector { x: (t.x - b.x) as i64, y: (t.y - b.y) as i64 };
    assert(aligned(s[0], s[1]));
    lemma_seg_len_sq_pos(b, t);
    assert(v.norm_sq() == seg_len_sq(b, t)) by (nonlinear_arith)
        requires
            v.x == t.x - b.x,
            v.y == t.y - b.y,
            v.norm_sq() == v.x * v.x + v.y * v.y,
            seg_len_sq(b, t) == (t.x - b.x) * (t.x - b.x) + (t.y - b.y) * (t.y - b.y),
    ;
    crate::vector::lemma_normalize_axis_unit(v);
    let nt = grown_tail(s);
    lemma_seg_len_aligned(t, b);
    lemma_seg_len_aligned(nt, b);
    assert(aligned(g[0], g[1]));
    assert forall|i: int| 0 <= i < g.len() - 1 implies aligned(#[trigger] g[i], g[i + 1]) by {
        if i > 0 {
            assert(g[i] == s[i] && g[i + 1] == s[i + 1]);
            assert(aligned(s[i], s[i + 1]));
        }
    }
    assert(seg_len(nt, b) == seg_len(t, b) + SCALE);
    assert(g.drop_first() =~= s.drop_first());
    assert(path_len(g) == seg_len(g[0], g[1]) + path_len(g.drop_first()));
    assert(path_len(s) == seg_len(s[0], s[1]) + path_len(s.drop_first()));
    assert(seg_len(t, b) == seg_len(s[0], s[1])) by {
        lemma_seg_len_aligned(s[0], s[1]);
    }
    assert forall|i: int| 0 <= i < g.len() implies (#[trigger] g[i]).bounded(MAX_COORD as int) by {
        if i > 0 {
            assert(g[i] == s[i]);
            assert(s[i].bounded(MAX_COORD as int));
        } else {
            assert(abs(t.x as int) <= abs(s.last().x as int) + path_len(s));
            assert(abs(t.y as int) <= abs(s.last().y as int) + path_len(s));
        }
    }
    if s.len() == 2 {
        assert(g[g.len() - 2] == nt && g.last() == s.last());
    } else {
        assert(g[g.len() - 2] == s[s.len() - 2]);
    }
}

/// How far the head travels in a tick, in quanta.
pub open spec fn travel(speed: int, timespan: int) -> int {
    (speed * timespan) / (SCALE as int)
}

/// `p` lies within the axis-aligned box spanned by `a` and `b`.
pub open spec fn between_on(a: Vector, b: Vector, p: Vector) -> bool {
    &&& a.x <= b.x ==> a.x <= p.x <= b.x
    &&& b.x <= a.x ==> b.x <= p.x <= a.x
    &&& a.y <= b.y ==> a.y <= p.y <= b.y
    &&& b.y <= a.y ==> b.y <= p.y <= a.y
}

/// The point at distance `owed` from `a` toward `b`: `a` moved along the
/// segment's unit vector.
pub open spec fn splice_point(a: Vector, b: Vector, owed: int) -> Vector {
    if owed == 0 {
        a
    } else {
        let v = Vector { x: (b.x - a.x) as i64, y: (b.y - a.y) as i64 };
        let u = v.normalize_spec();
        Vector {
            x: (a.x + trunc_div(u.x * owed, SCALE as int)) as i64,
            y: (a.y + trunc_div(u.y * owed, SCALE as int)) as i64,
        }
    }
}

/// Tail retraction: walk from the tail end consuming `owed` quanta of
/// length, and splice a fresh tail point at the exact position reached.
pub open spec fn retract(s: Seq<Vector>, owed: int) -> Seq<Vector>
    decreases s.len(),
{
    if s.len() < 2 {
        s
    } else if seg_len(s[0], s[1]) >= owed {
        seq![splice_point(s[0], s[1], owed)] + s.drop_first()
    } else {
        retract(s.drop_first(), owed - seg_len(s[0], s[1]))
    }
}

/// A point moved `dist` quanta along a unit heading.
pub open spec fn advanced(h: Vector, d: Vector, dist: int) -> Vector {
    Vector {
        x: (h.x + trunc_div(d.x * dist, SCALE as int)) as i64,
        y: (h.y + trunc_div(d.y * dist, SCALE as int)) as i64,
    }
}

/// A direction change is taken only when it is neither the current heading
/// nor its opposite, and the head's rounded grid position changed this tick.
pub open spec fn turn_accepted(cur: Vector, nd: Vector, oh: Vector, nh: Vector) -> bool {
    &&& !(cur.x + nd.x == 0 && cur.y + nd.y == 0)
    &&& !(cur.x == nd.x && cur.y == nd.y)
    &&& (round_cells(oh.x as int) != round_cells(nh.x as int) || round_cells(oh.y as int)
        != round_cells(nh.y as int))
}

/// The half-integer grid line between the old and new rounded coordinates,
/// offset half a cell toward the direction of travel.
pub open spec fn break_component(o: int, n: int) -> int {
    round_cells(o) * SCALE + if round_cells(n) > round_cells(o) {
        HALF_SCALE as int
    } else {
        -(HALF_SCALE as int)
    }
}

/// The turn corner: the breakpoint on the axis whose rounded coordinate
/// changed, keeping the other coordinate of the old head.
pub open spec fn breakpoint_of(oh: Vector, nh: Vector) -> Vector {
    if round_cells(oh.x as int) != round_cells(nh.x as int) {
        Vector { x: break_component(oh.x as int, nh.x as int) as i64, y: oh.y }
    } else {
        Vector { x: oh.x, y: break_component(oh.y as int, nh.y as int) as i64 }
    }
}

/// The head after a turn: the breakpoint advanced along the new heading by
/// the distance left past the breakpoint.
pub open spec fn turn_head_of(oh: Vector, nh: Vector, nd: Vector, dist: int) -> Vector {
    let bp = breakpoint_of(oh, nh);
    if round_cells(oh.x as int) != round_cells(nh.x as int) {
        advanced(bp, nd, dist - abs(oh.x - bp.x))
    } else {
        advanced(bp, nd, dist - abs(oh.y - bp.y))
    }
}

/// The polyline after one tick of movement: the tail retracted by the
/// travelled distance and the head advanced, bending at the breakpoint when
/// a direction change is accepted.
pub open spec fn moved_snake(
    s: Seq<Vector>,
    cur: Vector,
    dist: int,
    movement: Option<Movement>,
) -> Seq<Vector> {
    let r = retract(s, dist);
    let oh = r.last();
    let nh = advanced(oh, cur, dist);
    match movement {
        Option::Some(m) => if turn_accepted(cur, movement_vector(m), oh, nh) {
            r.drop_last().push(breakpoint_of(oh, nh)).push(
                turn_head_of(oh, nh, movement_vector(m), dist),
            )
        } else {
            r.drop_last().push(nh)
        },
        Option::None => r.drop_last().push(nh),
    }
}

/// The heading after one tick: the requested one when the turn is accepted,
/// the old one otherwise. A request equal or opposite to the current
/// heading is never accepted.
pub open spec fn moved_direction(
    s: Seq<Vector>,
    cur: Vector,
    dist: int,
    movement: Option<Movement>,
) -> Vector {
    let r = retract(s, dist);
    let oh = r.last();
    let nh = advanced(oh, cur, dist);
    match movement {
        Option::Some(m) => if turn_accepted(cur, movement_vector(m), oh, nh) {
            movement_vector(m)
        } else {
            cur
        },
        Option::None => cur,
    }
}

/// The spliced tail point divides its segment exactly: `owed` quanta from
/// one end, the rest from the other.
pub proof fn lemma_splice_props(a: Vector, b: Vector, owed: int)
    requires
        aligned(a, b),
        0 <= owed <= seg_len(a, b),
        a.bounded(MAX_COORD as int),
        b.bounded(MAX_COORD as int),
    ensures
        ({
            let p = splice_point(a, b, owed);
            &&& aligned(a, p) && aligned(p, b)
            &&& between_on(a, b, p)
            &&& seg_len(a, p) == owed
            &&& seg_len(p, b) == seg_len(a, b) - owed
            &&& p.bounded(MAX_COORD as int)
        }),
{
    lemma_seg_len_aligned(a, b);
    let p = splice_point(a, b, owed);
    if owed == 0 {
        lemma_seg_len_aligned(a, a);
    } else {
        lemma_seg_len_sq_pos(a, b);
        assert(seg_len(a, b) > 0);
        assert(!(a.x == b.x && a.y == b.y)) by {
            if a.x == b.x && a.y == b.y {
                lemma_seg_len_aligned(a, b);
            }
        }
        let v = Vector { x: (b.x - a.x) as i64, y: (b.y - a.y) as i64 };
        assert(v.norm_sq() == seg_len_sq(a, b)) by (nonlinear_arith)
            requires
                v.x == b.x - a.x,
                v.y == b.y - a.y,
                v.norm_sq() == v.x * v.x + v.y * v.y,
                seg_len_sq(a, b) == (b.x - a.x) * (b.x - a.x) + (b.y - a.y) * (b.y - a.y),
        ;
        crate::vector::lemma_normalize_axis_unit(v);
        let u = v.normalize_spec();
        lemma_scale_unit_exact(u, owed);
        lemma_seg_len_aligned(a, p);
        lemma_seg_len_aligned(p, b);
    }
}

/// Retraction shortens the polyline by exactly the distance owed, keeps it
/// axis-aligned and bounded, and never touches the head.
pub proof fn lemma_retract_props(s: Seq<Vector>, owed: int)
    requires
        s.len() >= 2,
        snake_aligned(s),
        snake_bounded(s, MAX_COORD as int),
        0 <= owed <= path_len(s),
    ensures
        ({
            let r = retract(s, owed);
            &&& 2 <= r.len() <= s.len()
            &&& r.last() == s.last()
            &&& snake_aligned(r)
            &&& snake_bounded(r, MAX_COORD as int)
            &&& path_len(r) == path_len(s) - owed
            &&& (r.len() >= 3 ==> r[r.len() - 2] == s[s.len() - 2])
            &&& (r.len() == 2 ==> between_on(s[s.len() - 2], s.last(), r[0]))
        }),
    decreases s.len(),
{
    let r = retract(s, owed);
    lemma_path_len_nonneg(s.drop_first());
    assert(path_len(s) == seg_len(s[0], s[1]) + path_len(s.drop_first()));
    assert(aligned(s[0], s[1]));
    lemma_seg_len_sq_pos(s[0], s[1]);
    lemma_sqrt_floor_bounds(seg_len_sq(s[0], s[1]));
    if seg_len(s[0], s[1]) >= owed {
        lemma_splice_props(s[0], s[1], owed);
        let p = splice_point(s[0], s[1], owed);
        assert(r =~= seq![p] + s.drop_first());
        assert(r.len() == s.len());
        assert(r.last() == s.last());
        assert(r.drop_first() =~= s.drop_first());
        assert(path_len(r) == seg_len(r[0], r[1]) + path_len(r.drop_first()));
        assert(r[0] == p && r[1] == s[1]);
        assert forall|i: int| 0 <= i < r.len() - 1 implies aligned(#[trigger] r[i], r[i + 1]) by {
            if i == 0 {
            } else {
                assert(r[i] == s[i] && r[i + 1] == s[i + 1]);
                assert(aligned(s[i], s[i + 1]));
            }
        }
        assert forall|i: int| 0 <= i < r.len() implies (#[trigger] r[i]).bounded(
            MAX_COORD as int,
        ) by {
            if i == 0 {
                assert(s[0].bounded(MAX_COORD as int) && s[1].bounded(MAX_COORD as int));
            } else {
                assert(r[i] == s[i]);
                assert(s[i].bounded(MAX_COORD as int));
            }
        }
        if r.len() == 2 {
            assert(s.len() == 2);
            assert(between_on(s[s.len() - 2], s.last(), r[0]));
        } else {
            assert(r[r.len() - 2] == s[s.len() - 2]);
        }
    } else {
        let d = s.drop_first();
        assert(d.len() >= 1);
        if d.len() < 2 {
            assert(path_len(d) == 0);
            assert(false);
        }
        assert forall|i: int| 0 <= i < d.len() - 1 implies aligned(#[trigger] d[i], d[i + 1]) by {
            assert(d[i] == s[i + 1] && d[i + 1] == s[i + 2]);
            assert(aligned(s[i + 1], s[i + 2]));
        }
        assert forall|i: int| 0 <= i < d.len() implies (#[trigger] d[i]).bounded(
            MAX_COORD as int,
        ) by {
            assert(d[i] == s[i + 1]);
            assert(s[i + 1].bounded(MAX_COORD as int));
        }
        lemma_retract_props(d, owed - seg_len(s[0], s[1]));
        assert(d.last() == s.last());
        assert(d[d.len() - 2] == s[s.len() - 2]);
    }
}

/// Replacing the head of a well-formed polyline with one or two new points
/// keeps it aligned and bounded, and its length is the body's plus the new
/// segments'.
proof fn lemma_replace_head(r: Seq<Vector>, add: Seq<Vector>, ns: Seq<Vector>)
    requires
        r.len() >= 2,
        snake_aligned(r),
        snake_bounded(r, MAX_COORD as int),
        1 <= add.len() <= 2,
        ns == r.drop_last() + add,
        aligned(r[r.len() - 2], add[0]),
        add.len() == 2 ==> aligned(add[0], add[1]),
        forall|k: int| 0 <= k < add.len() ==> (#[trigger] add[k]).bounded(MAX_COORD as int),
    ensures
        ns.len() == r.len() - 1 + add.len(),
        snake_aligned(ns),
        snake_bounded(ns, MAX_COORD as int),
        ns.last() == add.last(),
        ns[ns.len() - 1 - add.len()] == r[r.len() - 2],
        path_len(ns) == path_len(r.drop_last()) + seg_len(r[r.len() - 2], add[0]) + (
        if add.len() == 2 {
            seg_len(add[0], add[1])
        } else {
            0
        }),
{
    let body = r.drop_last();
    if add.len() == 1 {
        assert(ns =~= body.push(add[0]));
        lemma_path_len_snoc(body, add[0]);
    } else {
        assert(ns =~= body.push(add[0]).push(add[1]));
        lemma_path_len_snoc(body, add[0]);
        lemma_path_len_snoc(body.push(add[0]), add[1]);
        assert(body.push(add[0]).last() == add[0]);
    }
    assert forall|k: int| 0 <= k < ns.len() - 1 implies aligned(#[trigger] ns[k], ns[k + 1]) by {
        if k < body.len() - 1 {
            assert(ns[k] == r[k] && ns[k + 1] == r[k + 1]);
            assert(aligned(r[k], r[k + 1]));
        } else if k == body.len() - 1 {
            assert(ns[k] == r[r.len() - 2] && ns[k + 1] == add[0]);
        } else {
            assert(ns[k] == add[0] && ns[k + 1] == add[1]);
        }
    }
    assert forall|k: int| 0 <= k < ns.len() implies (#[trigger] ns[k]).bounded(
        MAX_COORD as int,
    ) by {
        if k < body.len() {
            assert(ns[k] == r[k]);
            assert(r[k].bounded(MAX_COORD as int));
        } else {
            assert(ns[k] == add[k - body.len()]);
        }
    }
}

/// A heading advance extends the last segment: the new head moves `dd`
/// quanta further along the heading, away from the point before it.
proof fn lemma_straight_advance(prev: Vector, oh: Vector, nh: Vector, d: Vector, dd: int)
    requires
        dir_unit(d),
        d.x > 0 ==> oh.y == prev.y && prev.x <= oh.x,
        d.x < 0 ==> oh.y == prev.y && oh.x <= prev.x,
        d.y > 0 ==> oh.x == prev.x && prev.y <= oh.y,
        d.y < 0 ==> oh.x == prev.x && oh.y <= prev.y,
        nh == advanced(oh, d, dd),
        0 <= dd <= SCALE,
        oh.bounded(MAX_COORD as int),
    ensures
        seg_len(prev, nh) == seg_len(prev, oh) + dd,
        aligned(prev, nh),
        aligned(oh, nh),
        d.x > 0 ==> nh.y == prev.y && prev.x <= nh.x && nh.x == oh.x + dd && nh.y == oh.y,
        d.x < 0 ==> nh.y == prev.y && nh.x <= prev.x && nh.x == oh.x - dd && nh.y == oh.y,
        d.y > 0 ==> nh.x == prev.x && prev.y <= nh.y && nh.y == oh.y + dd && nh.x == oh.x,
        d.y < 0 ==> nh.x == prev.x && nh.y <= prev.y && nh.y == oh.y - dd && nh.x == oh.x,
{
    lemma_scale_unit_exact(d, dd);
    lemma_seg_len_aligned(prev, oh);
    lemma_seg_len_aligned(prev, nh);
}

/// The geometry of an accepted turn: the breakpoint sits between the old
/// and the advanced head on the travel axis, and the remaining distance
/// past it is nonnegative.
proof fn lemma_turn_geometry(oh: Vector, nh: Vector, cur: Vector, nd: Vector, dd: int)
    requires
        dir_unit(cur),
        dir_unit(nd),
        turn_accepted(cur, nd, oh, nh),
        nh == advanced(oh, cur, dd),
        0 <= dd <= SCALE,
        0 <= oh.x <= MAX_DIM * SCALE,
        0 <= oh.y <= MAX_DIM * SCALE,
    ensures
        ({
            let bp = breakpoint_of(oh, nh);
            let xturn = round_cells(oh.x as int) != round_cells(nh.x as int);
            let off = if xturn {
                abs(oh.x - bp.x)
            } else {
                abs(oh.y - bp.y)
            };
            let th = turn_head_of(oh, nh, nd, dd);
            &&& (xturn <==> cur.x != 0)
            &&& 0 <= off <= dd
            &&& (xturn ==> bp.y == oh.y && nd.x == 0)
            &&& (!xturn ==> bp.x == oh.x && nd.y == 0)
            &&& between_on(oh, nh, bp)
            &&& cur.x > 0 ==> nh.x == oh.x + dd && nh.y == oh.y
            &&& cur.x < 0 ==> nh.x == oh.x - dd && nh.y == oh.y
            &&& cur.y > 0 ==> nh.y == oh.y + dd && nh.x == oh.x
            &&& cur.y < 0 ==> nh.y == oh.y - dd && nh.x == oh.x
            &&& seg_len(oh, bp) == off
            &&& seg_len(bp, th) == dd - off
            &&& aligned(oh, bp) && aligned(bp, th)
            &&& nd.x > 0 ==> th.y == bp.y && bp.x <= th.x
            &&& nd.x < 0 ==> th.y == bp.y && th.x <= bp.x
            &&& nd.y > 0 ==> th.x == bp.x && bp.y <= th.y
            &&& nd.y < 0 ==> th.x == bp.x && th.y <= bp.y
            &&& bp.bounded(MAX_COORD as int)
            &&& th.bounded(MAX_COORD as int)
            &&& -(SCALE as int) <= th.x && -(SCALE as int) <= th.y
            &&& th.x <= (MAX_DIM + 1) * SCALE && th.y <= (MAX_DIM + 1) * SCALE
        }),
{
    assert(MAX_DIM * (SCALE as int) == 327_680_000_000int) by (nonlinear_arith)
        requires MAX_DIM == 32_768i32 && SCALE == 10_000_000i64,
    ;
    assert((MAX_DIM + 1) * (SCALE as int) == 327_690_000_000int) by (nonlinear_arith)
        requires MAX_DIM == 32_768i32 && SCALE == 10_000_000i64,
    ;
    lemma_scale_unit_exact(cur, dd);
    lemma_scale_unit_exact(nd, dd);
    let bp = breakpoint_of(oh, nh);
    let th = turn_head_of(oh, nh, nd, dd);
    let xturn = round_cells(oh.x as int) != round_cells(nh.x as int);
    if cur.x != 0 {
        assert(nh.y == oh.y);
        assert(round_cells(oh.y as int) == round_cells(nh.y as int));
        assert(xturn);
        assert(nd.x == 0 && (nd.y == SCALE || nd.y == -(SCALE as int)));
        let o = oh.x as int;
        let n = nh.x as int;
        let or = round_cells(o);
        let nr = round_cells(n);
        crate::num::lemma_round_cells_brackets(o);
        crate::num::lemma_round_cells_brackets(n);
        if cur.x == SCALE {
            assert(n == o + dd);
            crate::num::lemma_round_cells_monotone(o, n);
            assert(nr > or);
            assert(bp.x as int == or * SCALE + HALF_SCALE);
            assert(o <= or * SCALE + HALF_SCALE);
            assert(n >= nr * SCALE - HALF_SCALE);
            assert(nr * SCALE >= (or + 1) * SCALE) by (nonlinear_arith)
                requires nr >= or + 1,
            ;
            assert((or + 1) * SCALE == or * SCALE + SCALE) by (nonlinear_arith);
        } else {
            assert(n == o - dd);
            crate::num::lemma_round_cells_monotone(n, o);
            assert(nr < or);
            assert(bp.x as int == or * SCALE - HALF_SCALE);
            assert(o >= or * SCALE - HALF_SCALE);
            assert(n <= nr * SCALE + HALF_SCALE);
            assert(nr * SCALE <= (or - 1) * SCALE) by (nonlinear_arith)
                requires nr <= or - 1,
            ;
            assert((or - 1) * SCALE == or * SCALE - SCALE) by (nonlinear_arith);
        }
        let off = abs(oh.x - bp.x) as int;
        assert(abs(oh.x - bp.x) == abs(bp.x - oh.x));
        lemma_scale_unit_exact(nd, dd - off);
        lemma_seg_len_aligned(oh, bp);
        lemma_seg_len_aligned(bp, th);
        assert(abs(th.y - bp.y) == dd - off);
    } else {
        assert(nh.x == oh.x);
        assert(round_cells(oh.x as int) == round_cells(nh.x as int));
        assert(!xturn);
        assert(nd.y == 0 && (nd.x == SCALE || nd.x == -(SCALE as int)));
        let o = oh.y as int;
        let n = nh.y as int;
        let or = round_cells(o);
        let nr = round_cells(n);
        crate::num::lemma_round_cells_brackets(o);
        crate::num::lemma_round_cells_brackets(n);
        if cur.y == SCALE {
            assert(n == o + dd);
            crate::num::lemma_round_cells_monotone(o, n);
            assert(nr > or);
            assert(bp.y as int == or * SCALE + HALF_SCALE);
            assert(o <= or * SCALE + HALF_SCALE);
            assert(n >= nr * SCALE - HALF_SCALE);
            assert(nr * SCALE >= (or + 1) * SCALE) by (nonlinear_arith)
                requires nr >= or + 1,
            ;
            assert((or + 1) * SCALE == or * SCALE + SCALE) by (nonlinear_arith);
        } else {
            assert(n == o - dd);
            crate::num::lemma_round_cells_monotone(n, o);
            assert(nr < or);
            assert(bp.y as int == or * SCALE - HALF_SCALE);
            assert(o >= or * SCALE - HALF_SCALE);
            assert(n <= nr * SCALE + HALF_SCALE);
            assert(nr * SCALE <= (or - 1) * SCALE) by (nonlinear_arith)
                requires nr <= or - 1,
            ;
            assert((or - 1) * SCALE == or * SCALE - SCALE) by (nonlinear_arith);
        }
        let off = abs(oh.y - bp.y) as int;
        assert(abs(oh.y - bp.y) == abs(bp.y - oh.y));
        lemma_scale_unit_exact(nd, dd - off);
        lemma_seg_len_aligned(oh, bp);
        lemma_seg_len_aligned(bp, th);
        assert(abs(th.x - bp.x) == dd - off);
    }
}

/// The facts lemma_retract_props gives about a retracted polyline, bundled.
pub open spec fn retract_bundle(s0: Seq<Vector>, r: Seq<Vector>, dd: int) -> bool {
    &&& 2 <= r.len() <= s0.len()
    &&& r.last() == s0.last()
    &&& snake_aligned(r)
    &&& snake_bounded(r, MAX_COORD as int)
    &&& path_len(r) == path_len(s0) - dd
    &&& (r.len() >= 3 ==> r[r.len() - 2] == s0[s0.len() - 2])
    &&& (r.len() == 2 ==> between_on(s0[s0.len() - 2], s0.last(), r[0]))
}

/// The point before the head of a retracted polyline still sits behind the
/// head along the heading.
proof fn lemma_retracted_heading(s0: Seq<Vector>, r: Seq<Vector>, cur: Vector, dd: int)
    requires
        s0.len() >= 2,
        heading_ok(s0, cur),
        retract_bundle(s0, r, dd),
    ensures
        ({
            let prev = r[r.len() - 2];
            let oh = r.last();
            &&& cur.x > 0 ==> oh.y == prev.y && prev.x <= oh.x
            &&& cur.x < 0 ==> oh.y == prev.y && oh.x <= prev.x
            &&& cur.y > 0 ==> oh.x == prev.x && prev.y <= oh.y
            &&& cur.y < 0 ==> oh.x == prev.x && oh.y <= prev.y
        }),
{
    if r.len() == 2 {
        assert(r[r.len() - 2] == r[0]);
    }
}

/// A straight tick reassembled: retracted body plus the advanced head is an
/// aligned, bounded polyline of the same total length, heading unchanged.
proof fn lemma_straight_assembly(
    s0: Seq<Vector>,
    r: Seq<Vector>,
    cur: Vector,
    dd: int,
    nh: Vector,
    ns: Seq<Vector>,
    w: int,
    h: int,
)
    requires
        1 <= w <= MAX_DIM,
        1 <= h <= MAX_DIM,
        dir_unit(cur),
        s0.len() >= 2,
        snake_aligned(s0),
        heading_ok(s0, cur),
        retract_bundle(s0, r, dd),
        0 <= dd <= SCALE,
        0 <= s0.last().x <= w * SCALE,
        0 <= s0.last().y <= h * SCALE,
        nh == advanced(r.last(), cur, dd),
        ns == r.drop_last() + seq![nh],
    ensures
        ns.len() >= 2,
        snake_aligned(ns),
        snake_bounded(ns, MAX_COORD as int),
        heading_ok(ns, cur),
        path_len(ns) == path_len(s0),
        ns.last() == nh,
        -(SCALE as int) <= nh.x <= (w + 1) * SCALE,
        -(SCALE as int) <= nh.y <= (h + 1) * SCALE,
{
    let body = r.drop_last();
    let prev = r[r.len() - 2];
    let oh = r.last();
    lemma_retracted_heading(s0, r, cur, dd);
    lemma_straight_advance(prev, oh, nh, cur, dd);
    assert(w * SCALE <= MAX_DIM * (SCALE as int) && h * SCALE <= MAX_DIM * (SCALE as int))
        by (nonlinear_arith)
        requires w <= MAX_DIM as int && h <= MAX_DIM as int && SCALE == 10_000_000i64,
    ;
    assert(MAX_DIM * (SCALE as int) == 327_680_000_000int) by (nonlinear_arith)
        requires MAX_DIM == 32_768i32 && SCALE == 10_000_000i64,
    ;
    assert(nh.bounded(MAX_COORD as int));
    lemma_replace_head(r, seq![nh], ns);
    assert(r =~= body.push(oh));
    lemma_path_len_snoc(body, oh);
    assert(body.last() == prev);
}

/// A turn tick reassembled: retracted body plus the breakpoint corner and
/// the bent head is an aligned, bounded polyline of the same total length,
/// its last segment along the new heading.
#[verifier::rlimit(100)]
proof fn lemma_turn_assembly(
    s0: Seq<Vector>,
    r: Seq<Vector>,
    cur: Vector,
    nd: Vector,
    dd: int,
    nh: Vector,
    ns: Seq<Vector>,
    w: int,
    h: int,
)
    requires
        1 <= w <= MAX_DIM,
        1 <= h <= MAX_DIM,
        dir_unit(cur),
        dir_unit(nd),
        s0.len() >= 2,
        snake_aligned(s0),
        heading_ok(s0, cur),
        retract_bundle(s0, r, dd),
        0 <= dd <= SCALE,
        0 <= s0.last().x <= w * SCALE,
        0 <= s0.last().y <= h * SCALE,
        nh == advanced(r.last(), cur, dd),
        turn_accepted(cur, nd, r.last(), nh),
        ns == r.drop_last() + seq![
            breakpoint_of(r.last(), nh),
            turn_head_of(r.last(), nh, nd, dd),
        ],
    ensures
        ns.len() >= 2,
        snake_aligned(ns),
        snake_bounded(ns, MAX_COORD as int),
        heading_ok(ns, nd),
        path_len(ns) == path_len(s0),
        ns.last() == turn_head_of(r.last(), nh, nd, dd),
        -(SCALE as int) <= ns.last().x <= (w + 1) * SCALE,
        -(SCALE as int) <= ns.last().y <= (h + 1) * SCALE,
{
    let body = r.drop_last();
    let prev = r[r.len() - 2];
    let oh = r.last();
    let bp = breakpoint_of(oh, nh);
    let th = turn_head_of(oh, nh, nd, dd);
    lemma_retracted_heading(s0, r, cur, dd);
    assert(w * SCALE <= MAX_DIM * (SCALE as int) && h * SCALE <= MAX_DIM * (SCALE as int))
        by (nonlinear_arith)
        requires w <= MAX_DIM as int && h <= MAX_DIM as int && SCALE == 10_000_000i64,
    ;
    assert(MAX_DIM * (SCALE as int) == 327_680_000_000int) by (nonlinear_arith)
        requires MAX_DIM == 32_768i32 && SCALE == 10_000_000i64,
    ;
    lemma_turn_geometry(oh, nh, cur, nd, dd);
    lemma_replace_head(r, seq![bp, th], ns);
    assert(r =~= body.push(oh));
    lemma_path_len_snoc(body, oh);
    assert(body.last() == prev);
    lemma_seg_len_aligned(prev, oh);
    lemma_seg_len_aligned(prev, bp);
    lemma_seg_len_aligned(oh, bp);
    lemma_seg_len_aligned(bp, th);
    if cur.x != 0 {
        assert(th.x == bp.x);
        assert(abs(th.y - bp.y) <= dd);
        assert(bp.y == oh.y);
        if cur.x > 0 {
            assert(prev.y == oh.y && prev.x <= oh.x <= bp.x);
            assert(bp.x <= nh.x == oh.x + dd);
        } else {
            assert(prev.y == oh.y && bp.x <= oh.x <= prev.x);
            assert(oh.x - dd == nh.x <= bp.x);
        }
    } else {
        assert(th.y == bp.y);
        assert(abs(th.x - bp.x) <= dd);
        assert(bp.x == oh.x);
        if cur.y > 0 {
            assert(prev.x == oh.x && prev.y <= oh.y <= bp.y);
            assert(bp.y <= nh.y == oh.y + dd);
        } else {
            assert(prev.x == oh.x && bp.y <= oh.y <= prev.y);
            assert(oh.y - dd == nh.y <= bp.y);
        }
    }
    assert(seg_len(prev, bp) == seg_len(prev, oh) + seg_len(oh, bp));
    assert(-(SCALE as int) <= th.x <= (w + 1) * SCALE);
    assert(-(SCALE as int) <= th.y <= (h + 1) * SCALE);
}

impl Game {
    /// Tail retraction: consumes `distance` quanta of length from the tail
    /// end and splices the exact fractional tail point.
    #[verifier::rlimit(100)]
    fn retract_tail(&mut self, distance: i64)
        requires
            old(self).wf(),
            0 <= distance <= SCALE,
            (distance as int) <= path_len(old(self).snake@),
        ensures
            final(self).snake@ == retract(old(self).snake@, distance as int),
            final(self).width == old(self).width,
            final(self).height == old(self).height,
            final(self).speed == old(self).speed,
            final(self).score == old(self).score,
            final(self).food == old(self).food,
            final(self).direction == old(self).direction,
    {
        let ghost s0 = self.snake@;
        let ghost dd = distance as int;
        let nlen = self.snake.len();
        proof {
            assert(s0.subrange(0, s0.len() as int) =~= s0);
        }
        let mut i: usize = 0;
        let mut owed: i64 = distance;
        loop
            invariant
                self.wf(),
                self.snake@ == s0,
                s0.len() <= usize::MAX,
                i + 2 <= s0.len(),
                0 <= owed <= dd,
                dd <= SCALE,
                retract(s0, dd) == retract(s0.subrange(i as int, s0.len() as int), owed as int),
                owed <= path_len(s0.subrange(i as int, s0.len() as int)),
            ensures
                self.wf(),
                self.snake@ == s0,
                i + 2 <= s0.len(),
                0 <= owed <= dd,
                seg_len(s0[i as int], s0[i as int + 1]) >= owed,
                retract(s0, dd) == seq![
                    splice_point(s0[i as int], s0[i as int + 1], owed as int),
                ] + s0.subrange(i as int + 1, s0.len() as int),
            decreases s0.len() - i,
        {
            let a = self.snake[i];
            let b = self.snake[i + 1];
            proof {
                assert(s0[i as int].bounded(MAX_COORD as int));
                assert(s0[i as int + 1].bounded(MAX_COORD as int));
            }
            let l = Segment::new(a, b).length();
            let ghost sub = s0.subrange(i as int, s0.len() as int);
            proof {
                assert(sub[0] == s0[i as int] && sub[1] == s0[i as int + 1]);
                assert(sub.drop_first() =~= s0.subrange(i as int + 1, s0.len() as int));
                assert(path_len(sub) == seg_len(sub[0], sub[1]) + path_len(sub.drop_first()));
            }
            if l >= owed {
                proof {
                    assert(retract(sub, owed as int) == seq![
                        splice_point(sub[0], sub[1], owed as int),
                    ] + sub.drop_first());
                }
                break;
            }
            proof {
                if i + 3 > s0.len() {
                    assert(sub.len() == 2);
                    assert(path_len(sub.drop_first()) == 0);
                    assert(false);
                }
                assert(retract(sub, owed as int) == retract(
                    sub.drop_first(),
                    owed - seg_len(sub[0], sub[1]),
                ));
            }
            owed = owed - l;
            i = i + 1;
        }
        let a = self.snake[i];
        let b = self.snake[i + 1];
        proof {
            assert(s0[i as int].bounded(MAX_COORD as int));
            assert(s0[i as int + 1].bounded(MAX_COORD as int));
            assert((SCALE as int) * (SCALE as int) <= (VEC_LIMIT as int) * (SCALE as int))
                by (nonlinear_arith)
                requires SCALE == 10_000_000i64 && VEC_LIMIT == 4_000_000_000_000i64,
            ;
        }
        let spl: Vector;
        if owed == 0 {
            spl = a;
        } else {
            let seg = Segment::new(a, b);
            let v = seg.get_vector();
            proof {
                lemma_seg_len_sq_pos(a, b);
                assert(v.norm_sq() == seg_len_sq(a, b)) by (nonlinear_arith)
                    requires
                        v.x == b.x - a.x,
                        v.y == b.y - a.y,
                        v.norm_sq() == v.x * v.x + v.y * v.y,
                        seg_len_sq(a, b) == (b.x - a.x) * (b.x - a.x) + (b.y - a.y) * (b.y
                            - a.y),
                ;
                if seg_len_sq(a, b) == 0 {
                    assert(seg_len(a, b) == 0) by {
                        lemma_seg_len_aligned(a, b);
                    }
                }
                lemma_sqrt_floor_bounds(seg_len_sq(a, b));
            }
            let u = v.normalize();
            proof {
                lemma_mul_bound_both(u.x as int, SCALE as int, owed as int, SCALE as int);
                lemma_mul_bound_both(u.y as int, SCALE as int, owed as int, SCALE as int);
            }
            let step = u.scale_by(owed);
            spl = a.add(&step);
        }
        proof {
            assert(spl == splice_point(s0[i as int], s0[i as int + 1], owed as int));
        }
        let mut t: Vec<Vector> = Vec::new();
        t.push(spl);
        let mut j: usize = i + 1;
        while j < self.snake.len()
            invariant
                i + 1 <= j <= s0.len(),
                self.snake@ == s0,
                t@ == seq![spl] + s0.subrange(i as int + 1, j as int),
            decreases s0.len() - j,
        {
            let p = self.snake[j];
            t.push(p);
            proof {
                assert(t@ =~= seq![spl] + s0.subrange(i as int + 1, j as int + 1));
            }
            j = j + 1;
        }
        self.snake = t;
    }

    /// One tick of movement: the tail retracts by `speed * timespan`, the
    /// head advances the same distance along the heading, and an accepted
    /// direction change bends the path at the grid-line breakpoint. The
    /// total body length is preserved exactly.
    ///
    /// A tick is capped at one cell of travel: the breakpoint logic assumes
    /// at most one grid line is crossed per tick, and the engine keeps that
    /// assumption for straight ticks too as its model limit; a longer
    /// timespan is the caller's to split. When the travelled distance
    /// exactly exhausts a tail segment the spliced tail point lands on the
    /// next polyline point: such duplicate pairs are admitted transiently
    /// and consumed by the next retraction.
    #[verifier::rlimit(100)]
    pub fn process_movement(&mut self, timespan: i64, movement: Option<Movement>)
        requires
            old(self).wf(),
            !old(self).head_out(),
            timespan >= 0,
            old(self).speed * timespan <= (SCALE as int) * (SCALE as int),
            travel(old(self).speed as int, timespan as int) <= path_len(old(self).snake@),
        ensures
            final(self).wf(),
            final(self).width == old(self).width,
            final(self).height == old(self).height,
            final(self).speed == old(self).speed,
            final(self).score == old(self).score,
            final(self).food == old(self).food,
            final(self).snake@ == moved_snake(
                old(self).snake@,
                old(self).direction,
                travel(old(self).speed as int, timespan as int),
                movement,
            ),
            final(self).direction == moved_direction(
                old(self).snake@,
                old(self).direction,
                travel(old(self).speed as int, timespan as int),
                movement,
            ),
            path_len(final(self).snake@) == path_len(old(self).snake@),
    {
        let ghost s0 = self.snake@;
        let ghost cur = self.direction;
        let prod: i128 = (self.speed as i128) * (timespan as i128);
        proof {
            assert(prod >= 0) by (nonlinear_arith)
                requires self.speed >= 1 && timespan >= 0 && prod == self.speed * timespan,
            ;
            vstd::arithmetic::div_mod::lemma_div_is_ordered(
                prod as int,
                (SCALE as int) * (SCALE as int),
                SCALE as int,
            );
            lemma_div_multiples_vanish_local();
        }
        let distance: i64 = (((prod as u128) / (SCALE as u128))) as i64;
        let ghost dd = distance as int;
        proof {
            assert(dd == travel(self.speed as int, timespan as int));
            assert(0 <= dd <= SCALE) by {
                vstd::arithmetic::div_mod::lemma_div_pos_is_pos(prod as int, SCALE as int);
            }
            lemma_retract_props(s0, dd);
            assert(s0.subrange(0, s0.len() as int) =~= s0);
        }
        let ghost r = retract(s0, dd);
        self.retract_tail(distance);
        proof {
            assert(self.snake@ == r);
            assert(retract_bundle(s0, r, dd));
        }
        let old_head = self.snake.pop().unwrap();
        proof {
            assert(old_head == s0.last());
            assert(self.snake@ =~= r.drop_last());
            assert(old_head.bounded(MAX_COORD as int)) by {
                assert(s0[s0.len() - 1].bounded(MAX_COORD as int));
            }
            lemma_mul_bound_both(cur.x as int, SCALE as int, dd, SCALE as int);
            lemma_mul_bound_both(cur.y as int, SCALE as int, dd, SCALE as int);
        }
        let step = self.direction.scale_by(distance);
        let new_head = old_head.add(&step);
        proof {
            assert(new_head == advanced(old_head, cur, dd));
        }
        match movement {
            Option::Some(m) => {
                let new_direction = movement_direction(m);
                let opposite = self.direction.is_opposite(&new_direction);
                let same = self.direction.equal_to(&new_direction);
                if !opposite && !same {
                    let old_x_rounded = round_to_cell(old_head.x);
                    let old_y_rounded = round_to_cell(old_head.y);
                    let new_x_rounded = round_to_cell(new_head.x);
                    let new_y_rounded = round_to_cell(new_head.y);
                    let rounded_x_changed = old_x_rounded != new_x_rounded;
                    let rounded_y_changed = old_y_rounded != new_y_rounded;
                    if rounded_x_changed || rounded_y_changed {
                        proof {
                            assert(turn_accepted(cur, new_direction, old_head, new_head));
                            let gw = old(self).width as int;
                            let gh = old(self).height as int;
                            assert(gw * (SCALE as int) <= MAX_DIM * (SCALE as int) && gh * (
                            SCALE as int) <= MAX_DIM * (SCALE as int)) by (nonlinear_arith)
                                requires
                                    gw <= MAX_DIM as int,
                                    gh <= MAX_DIM as int,
                                    SCALE == 10_000_000i64,
                            ;
                            lemma_turn_geometry(old_head, new_head, cur, new_direction, dd);
                            crate::num::lemma_round_cells_brackets(old_head.x as int);
                            crate::num::lemma_round_cells_brackets(old_head.y as int);
                        }
                        let (old_c, old_r, new_r) = if rounded_x_changed {
                            (old_head.x, old_x_rounded, new_x_rounded)
                        } else {
                            (old_head.y, old_y_rounded, new_y_rounded)
                        };
                        let breakpoint_component: i64 = old_r * SCALE + (if new_r > old_r {
                            HALF_SCALE
                        } else {
                            -HALF_SCALE
                        });
                        let breakpoint = if rounded_x_changed {
                            Vector::new(breakpoint_component, old_head.y)
                        } else {
                            Vector::new(old_head.x, breakpoint_component)
                        };
                        proof {
                            assert(breakpoint == breakpoint_of(old_head, new_head));
                        }
                        let off: i64 = if old_c >= breakpoint_component {
                            old_c - breakpoint_component
                        } else {
                            breakpoint_component - old_c
                        };
                        proof {
                            lemma_mul_bound_both(
                                new_direction.x as int,
                                SCALE as int,
                                dd - off,
                                SCALE as int,
                            );
                            lemma_mul_bound_both(
                                new_direction.y as int,
                                SCALE as int,
                                dd - off,
                                SCALE as int,
                            );
                        }
                        let vector = new_direction.scale_by(distance - off);
                        let head = breakpoint.add(&vector);
                        self.snake.push(breakpoint);
                        self.snake.push(head);
                        self.direction = new_direction;
                        proof {
                            assert(head == turn_head_of(old_head, new_head, new_direction, dd));
                            assert(self.snake@ == moved_snake(s0, cur, dd, movement));
                            assert(self.snake@ =~= r.drop_last() + seq![breakpoint, head]);
                            lemma_turn_assembly(
                                s0,
                                r,
                                cur,
                                new_direction,
                                dd,
                                new_head,
                                self.snake@,
                                old(self).width as int,
                                old(self).height as int,
                            );
                            assert(self.wf());
                        }
                        return;
                    }
                }
                proof {
                    assert(!turn_accepted(cur, movement_vector(m), old_head, new_head));
                }
            },
            Option::None => {},
        }
        self.snake.push(new_head);
        proof {
            assert(self.snake@ == moved_snake(s0, cur, dd, movement));
            assert(self.snake@ =~= r.drop_last() + seq![new_head]);
            lemma_straight_assembly(
                s0,
                r,
                cur,
                dd,
                new_head,
                self.snake@,
                old(self).width as int,
                old(self).height as int,
            );
            assert(self.wf());
        }
    }

    /// One full tick: movement, then feeding.
    pub fn process(&mut self, timespan: i64, movement: Option<Movement>) -> (r: Result<
        (),
        GameError,
    >)
        requires
            old(self).wf(),
            !old(self).head_out(),
            timespan >= 0,
            old(self).speed * timespan <= (SCALE as int) * (SCALE as int),
            travel(old(self).speed as int, timespan as int) <= path_len(old(self).snake@),
            old(self).score < i32::MAX,
            path_len(old(self).snake@) + SCALE <= PATH_LIMIT,
        ensures
            final(self).wf(),
            final(self).width == old(self).width,
            final(self).height == old(self).height,
            final(self).speed == old(self).speed,
            final(self).direction == moved_direction(
                old(self).snake@,
                old(self).direction,
                travel(old(self).speed as int, timespan as int),
                movement,
            ),
            ({
                let ms = moved_snake(
                    old(self).snake@,
                    old(self).direction,
                    travel(old(self).speed as int, timespan as int),
                    movement,
                );
                &&& !eats(ms, old(self).food) ==> r == Ok::<(), GameError>(()) && final(self).snake@ == ms && final(self).food == old(self).food && final(self).score == old(self).score && path_len(final(self).snake@) == path_len(old(self).snake@)
                &&& eats(ms, old(self).food) && ms[0] == ms[1] ==> r == Err::<(), GameError>(
                    GameError::InvalidGeometry,
                ) && final(self).snake@ == ms && final(self).food == old(self).food && final(self).score == old(self).score && path_len(final(self).snake@) == path_len(old(self).snake@)
                &&& eats(ms, old(self).food) && ms[0] != ms[1] ==> {
                    let g = ms.update(0, grown_tail(ms));
                    &&& final(self).snake@ == g
                    &&& path_len(g) == path_len(old(self).snake@) + SCALE
                    &&& (r == Ok::<(), GameError>(()) <==> board_has_free_cell(
                        old(self).width as int,
                        old(self).height as int,
                        g,
                    ))
                    &&& (r == Ok::<(), GameError>(()) ==> final(self).score == old(self).score
                        + 1 && is_free_center(
                        old(self).width as int,
                        old(self).height as int,
                        g,
                        final(self).food,
                    ) && (forall|i: int|
                        0 <= i < g.len() ==> #[trigger] g[i] != final(self).food))
                    &&& (r != Ok::<(), GameError>(()) ==> r == Err::<(), GameError>(
                        GameError::NoFreeCell,
                    ) && final(self).score == old(self).score && final(self).food == old(self).food)
                }
            }),
    {
        self.process_movement(timespan, movement);
        self.process_food()
    }
}

/// The exact division of one cell's worth of squared quanta by a cell.
proof fn lemma_div_multiples_vanish_local()
    ensures
        ((SCALE as int) * (SCALE as int)) / (SCALE as int) == SCALE as int,
{
    vstd::arithmetic::div_mod::lemma_div_multiples_vanish(SCALE as int, SCALE as int);
}

/// Food drawn on a free cell coincides with no point of the snake: every
/// point is an endpoint of some segment, and endpoints lie on their
/// segments.
proof fn lemma_free_food_off_snake(w: int, h: int, s: Seq<Vector>, f: Vector)
    requires
        s.len() >= 2,
        is_free_center(w, h, s, f),
    ensures
        forall|i: int| 0 <= i < s.len() ==> #[trigger] s[i] != f,
{
    let (ci, cj): (int, int) = choose|ci: int, cj: int|
        0 <= ci < w && 0 <= cj < h && cell_free(s, ci, cj) && f == cell_center(ci, cj);
    assert forall|i: int| 0 <= i < s.len() implies #[trigger] s[i] != f by {
        if i < s.len() - 1 {
            lemma_endpoints_on(s[i], s[i + 1]);
            assert(!point_on(s[i], s[i + 1], cell_center(ci, cj)));
        } else {
            let k = i - 1;
            assert(s[k + 1] == s[i]);
            lemma_endpoints_on(s[k], s[k + 1]);
            assert(!point_on(s[k], s[k + 1], cell_center(ci, cj)));
        }
    }
}

/// The requested heading as a unit vector.
pub fn movement_direction(m: Movement) -> (r: Vector)
    ensures
        r == movement_vector(m),
        dir_unit(r),
{
    match m {
        Movement::TOP => Vector::new(0, -SCALE),
        Movement::RIGHT => Vector::new(SCALE, 0),
        Movement::DOWN => Vector::new(0, SCALE),
        Movement::LEFT => Vector::new(-SCALE, 0),
    }
}

/// Distinct points sit at a positive squared distance.
pub proof fn lemma_seg_len_sq_pos(a: Vector, b: Vector)
    ensures
        seg_len_sq(a, b) > 0 <==> !(a.x == b.x && a.y == b.y),
        seg_len_sq(a, b) >= 0,
{
    assert((b.x - a.x) * (b.x - a.x) >= 0 && (b.y - a.y) * (b.y - a.y) >= 0)
        by (nonlinear_arith);
    if !(a.x == b.x && a.y == b.y) {
        assert((b.x - a.x) * (b.x - a.x) + (b.y - a.y) * (b.y - a.y) >= 1) by (nonlinear_arith)
            requires b.x - a.x != 0 || b.y - a.y != 0,
        ;
    } else {
        assert((b.x - a.x) * (b.x - a.x) + (b.y - a.y) * (b.y - a.y) == 0) by (nonlinear_arith)
            requires b.x - a.x == 0 && b.y - a.y == 0,
        ;
    }
}

/// An accepted direction change installs exactly the requested heading, and
/// a request equal to the current heading or to its exact opposite is never
/// accepted: the heading then stays as it was.
pub proof fn lemma_direction_change_rules(s: Seq<Vector>, cur: Vector, dist: int, m: Movement)
    ensures
        ({
            let nd = movement_vector(m);
            let md = moved_direction(s, cur, dist, Option::Some(m));
            &&& md == nd || md == cur
            &&& (nd.x + cur.x == 0 && nd.y + cur.y == 0) ==> md == cur
            &&& nd == cur ==> md == cur
            &&& turn_accepted(cur, nd, retract(s, dist).last(), advanced(retract(s, dist).last(), cur, dist)) ==> md == nd
        }),
{
}

/// A snake too short to coil cannot end the game while its head is on the
/// board: fewer than five points never bite.
pub proof fn lemma_short_snake_not_over(g: Game)
    requires
        g.snake@.len() < 5,
        !g.head_out(),
    ensures
        !g.over_spec(),
{
}

} // verus!
