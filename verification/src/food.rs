use vstd::prelude::*;
use rand::Rng;
use crate::num::{SCALE, HALF_SCALE, MAX_COORD};
use crate::vector::Vector;
use crate::segment::Segment;
use crate::game::{
    MAX_DIM, cell_center, cell_free, board_has_free_cell, is_free_center, snake_bounded,
};

verus! {

/// Relies on rand's `Rng::gen_range` over `0..n`: a uniform index below `n`,
/// panicking only on an empty range, which the precondition rules out.
#[verifier::external_body]
fn random_index(n: usize) -> (r: usize)
    requires
        n > 0,
    ensures
        r < n,
{
    rand::thread_rng().gen_range(0..n)
}

/// Draws a food position: the center of a uniformly chosen cell that no
/// snake segment covers, or nothing when the snake covers every cell.
#[verifier::loop_isolation(false)]
pub fn get_food(width: i32, height: i32, snake: &Vec<Vector>) -> (r: Option<Vector>)
    requires
        1 <= width <= MAX_DIM,
        1 <= height <= MAX_DIM,
        snake@.len() >= 2,
        snake_bounded(snake@, MAX_COORD as int),
    ensures
        match r {
            Some(f) => is_free_center(width as int, height as int, snake@, f) && f.bounded(
                MAX_COORD as int,
            ),
            None => !board_has_free_cell(width as int, height as int, snake@),
        },
{
    let n = snake.len();
    let mut free_positions: Vec<Vector> = Vec::new();
    let mut x: i32 = 0;
    while x < width
        invariant
            0 <= x <= width,
            forall|idx: int|
                0 <= idx < free_positions@.len() ==> is_free_center(
                    width as int,
                    height as int,
                    snake@,
                    #[trigger] free_positions@[idx],
                ) && free_positions@[idx].bounded(MAX_COORD as int),
            free_positions@.len() == 0 ==> forall|i: int, j: int|
                0 <= i < x && 0 <= j < height ==> !cell_free(snake@, i, j),
        decreases width - x,
    {
        let mut y: i32 = 0;
        while y < height
            invariant
                0 <= x < width,
                0 <= y <= height,
                forall|idx: int|
                    0 <= idx < free_positions@.len() ==> is_free_center(
                        width as int,
                        height as int,
                        snake@,
                        #[trigger] free_positions@[idx],
                    ) && free_positions@[idx].bounded(MAX_COORD as int),
                free_positions@.len() == 0 ==> forall|i: int, j: int|
                    0 <= i < x && 0 <= j < height ==> !cell_free(snake@, i, j),
                free_positions@.len() == 0 ==> forall|j: int|
                    0 <= j < y ==> !cell_free(snake@, x as int, j),
            decreases height - y,
        {
            let point = Vector::new(
                (x as i64) * SCALE + HALF_SCALE,
                (y as i64) * SCALE + HALF_SCALE,
            );
            proof {
                assert(point == cell_center(x as int, y as int));
            }
            let mut occupied = false;
            let mut k: usize = 0;
            while k + 1 < n
                invariant
                    0 <= k <= n - 1,
                    point == cell_center(x as int, y as int),
                    occupied == !(forall|k2: int|
                        0 <= k2 < k ==> !(#[trigger] crate::segment::point_on(
                            snake@[k2],
                            snake@[k2 + 1],
                            cell_center(x as int, y as int),
                        ))),
                decreases n - k,
            {
                let seg = Segment::new(snake[k], snake[k + 1]);
                if seg.is_point_inside(&point) {
                    occupied = true;
                }
                k = k + 1;
            }
            if !occupied {
                proof {
                    assert(cell_free(snake@, x as int, y as int));
                    assert(is_free_center(width as int, height as int, snake@, point));
                }
                free_positions.push(point);
            } else {
                proof {
                    assert(!cell_free(snake@, x as int, y as int));
                }
            }
            y = y + 1;
        }
        x = x + 1;
    }
    if free_positions.len() == 0 {
        proof {
            assert(forall|i: int, j: int|
                0 <= i < width && 0 <= j < height ==> !cell_free(snake@, i, j));
        }
        None
    } else {
        let idx = random_index(free_positions.len());
        Some(free_positions[idx])
    }
}

} // verus!
