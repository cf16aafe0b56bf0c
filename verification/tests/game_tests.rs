use snake_core::{get_food, Game, GameError, Movement, Vector, SCALE};

fn cells(c: f64) -> i64 {
    (c * SCALE as f64).round() as i64
}

fn right() -> Vector {
    Vector::new(SCALE, 0)
}

fn top() -> Vector {
    Vector::new(0, -SCALE)
}

fn total_length(points: &[Vector]) -> i64 {
    let mut sum = 0;
    for w in points.windows(2) {
        sum += (w[1].x - w[0].x).abs() + (w[1].y - w[0].y).abs();
    }
    sum
}

#[test]
fn construction_centers_head_and_lays_body_out() {
    let g = Game::new(10, 10, SCALE, 3, right()).unwrap();
    let snake = g.get_snake();
    assert_eq!(snake.len(), 2);
    assert_eq!(snake[1], Vector::new(cells(4.5), cells(4.5)));
    assert_eq!(snake[0], Vector::new(cells(1.5), cells(4.5)));
    assert_eq!(g.score, 0);
    assert_eq!(g.direction, right());
    assert_eq!(total_length(&snake), cells(3.0));
}

fn rejected(r: Result<Game, GameError>) -> GameError {
    match r {
        Ok(_) => panic!("construction was expected to fail"),
        Err(e) => e,
    }
}

#[test]
fn construction_rejects_bad_input() {
    assert_eq!(rejected(Game::new(0, 10, SCALE, 3, right())), GameError::InvalidInput);
    assert_eq!(rejected(Game::new(10, 10, 0, 3, right())), GameError::InvalidInput);
    assert_eq!(rejected(Game::new(10, 10, SCALE, 0, right())), GameError::InvalidInput);
    // A heading must be one of the four unit vectors, one cell long.
    assert_eq!(
        rejected(Game::new(10, 10, SCALE, 3, Vector::new(1, 0))),
        GameError::InvalidInput
    );
}

#[test]
fn one_straight_tick_moves_head_one_cell_and_keeps_length() {
    let mut g = Game::new(10, 10, SCALE, 3, right()).unwrap();
    let before = total_length(&g.get_snake());
    g.process(SCALE, None).unwrap();
    let snake = g.get_snake();
    let head = snake[snake.len() - 1];
    assert_eq!(head, Vector::new(cells(5.5), cells(4.5)));
    assert_eq!(total_length(&snake), before);
    assert_eq!(total_length(&snake), cells(3.0));
}

#[test]
fn a_tick_may_consume_the_whole_body_length() {
    // A one-cell snake moving one cell per tick: the retraction eats the
    // whole tail segment and the spliced tail lands on the old head.
    let mut g = Game::new(10, 10, SCALE, 1, right()).unwrap();
    g.process(SCALE, None).unwrap();
    let snake = g.get_snake();
    assert_eq!(snake[0], Vector::new(cells(4.5), cells(4.5)));
    assert_eq!(snake[snake.len() - 1], Vector::new(cells(5.5), cells(4.5)));
    assert_eq!(total_length(&snake), cells(1.0));
}

#[test]
fn length_is_preserved_over_many_straight_ticks() {
    let mut g = Game::new(12, 12, 2_500_000, 3, right()).unwrap();
    for _ in 0..8 {
        g.process(SCALE, None).unwrap();
    }
    assert_eq!(total_length(&g.get_snake()), cells(3.0));
}

#[test]
fn opposite_direction_request_is_ignored() {
    let mut g = Game::new(10, 10, SCALE, 3, top()).unwrap();
    g.process(SCALE, Some(Movement::DOWN)).unwrap();
    assert_eq!(g.direction, top());
}

#[test]
fn same_direction_request_is_ignored() {
    let mut g = Game::new(10, 10, SCALE, 3, right()).unwrap();
    g.process(SCALE, Some(Movement::RIGHT)).unwrap();
    assert_eq!(g.direction, right());
}

#[test]
fn mid_tick_turn_bends_at_the_grid_line() {
    let mut g = Game::new(10, 10, 8_000_000, 2, right()).unwrap();
    // head starts at (4.5, 4.5); one tick of 0.8 cells puts it at 5.3.
    g.process(SCALE, None).unwrap();
    let head = *g.get_snake().last().unwrap();
    assert_eq!(head, Vector::new(cells(5.3), cells(4.5)));
    // Turning down while crossing 5.5 bends there, with 0.6 cells left over.
    g.process(SCALE, Some(Movement::DOWN)).unwrap();
    let snake = g.get_snake();
    let head = snake[snake.len() - 1];
    let corner = snake[snake.len() - 2];
    assert_eq!(corner, Vector::new(cells(5.5), cells(4.5)));
    assert_eq!(head, Vector::new(cells(5.5), cells(5.1)));
    assert_eq!(g.direction, Vector::new(0, SCALE));
    assert_eq!(total_length(&snake), cells(2.0));
}

#[test]
fn game_ends_when_head_leaves_the_board() {
    let mut g = Game::new(4, 4, SCALE, 2, right()).unwrap();
    // head: 1.5 -> 2.5 -> 3.5, still inside the closed board
    g.process(SCALE, None).unwrap();
    assert!(!g.is_over());
    g.process(SCALE, None).unwrap();
    assert!(!g.is_over());
    // 3.5 -> 4.5 > 4: out
    g.process(SCALE, None).unwrap();
    assert!(g.is_over());
}

#[test]
fn four_points_never_self_collide() {
    let mut g = Game::new(8, 8, SCALE, 2, right()).unwrap();
    // two immediate turns coil the snake into a four-point polyline
    g.process(SCALE, Some(Movement::DOWN)).unwrap();
    g.process(SCALE, Some(Movement::LEFT)).unwrap();
    let snake = g.get_snake();
    assert_eq!(snake.len(), 4);
    assert!(!g.is_over());
}

#[test]
fn eating_raises_score_and_places_food_off_the_snake() {
    let mut g = Game::new(10, 10, SCALE, 3, right()).unwrap();
    // snake from (1.5, 4.5) to (4.5, 4.5); put the food on the head segment
    g.food = Vector::new(cells(3.5), cells(4.5));
    g.process_food().unwrap();
    assert_eq!(g.score, 1);
    let snake = g.get_snake();
    // the tail grew one cell outward, away from the head
    assert_eq!(snake[0], Vector::new(cells(0.5), cells(4.5)));
    assert_eq!(total_length(&snake), cells(4.0));
    // the fresh food sits on no snake point
    for p in snake {
        assert_ne!(p, g.food);
    }
}

#[test]
fn eating_with_a_degenerate_tail_is_an_invalid_geometry_error() {
    let mut g = Game::new(10, 10, SCALE, 3, right()).unwrap();
    let p = Vector::new(cells(2.5), cells(4.5));
    let q = Vector::new(cells(4.5), cells(4.5));
    g.snake = vec![p, p, q];
    g.food = Vector::new(cells(3.5), cells(4.5));
    let food_before = g.food;
    assert_eq!(g.process_food(), Err(GameError::InvalidGeometry));
    assert_eq!(g.score, 0);
    assert_eq!(g.food, food_before);
    assert_eq!(g.get_snake(), vec![p, p, q]);
}

#[test]
fn a_snake_covering_the_board_leaves_no_cell_for_food() {
    let snake = vec![
        Vector::new(cells(0.5), cells(0.5)),
        Vector::new(cells(1.5), cells(0.5)),
    ];
    assert!(get_food(2, 1, &snake).is_none());
}

#[test]
fn driving_a_circuit_keeps_length_in_step_with_the_score() {
    // A circuit over a 4 by 2 board that passes over every cell center, so
    // the snake eats whatever food is drawn and grows one cell per meal.
    let mut g = Game::new(4, 2, SCALE, 2, right()).unwrap();
    let orders: [Option<Movement>; 8] = [
        None,
        Some(Movement::DOWN),
        Some(Movement::LEFT),
        None,
        None,
        None,
        Some(Movement::TOP),
        Some(Movement::RIGHT),
    ];
    let mut score = g.score;
    for tick in 0..120 {
        match g.process(SCALE, orders[tick % 8]) {
            Ok(()) => {
                if g.score > score {
                    for p in g.get_snake() {
                        assert_ne!(p, g.food);
                    }
                    assert_eq!(g.score, score + 1);
                    score = g.score;
                }
                assert_eq!(total_length(&g.get_snake()), cells(2.0) + cells(1.0) * score as i64);
            }
            // a meal on a tick whose retraction emptied the tail segment is
            // refused; the snake finally covers the board and food has
            // nowhere left to go
            Err(GameError::InvalidGeometry) => {}
            Err(e) => {
                assert_eq!(e, GameError::NoFreeCell);
                break;
            }
        }
    }
}

#[test]
fn food_is_drawn_on_a_free_cell_center() {
    // A snake along y = 0.5 covers the two lower centers of a 2 by 2 board.
    let snake = vec![
        Vector::new(cells(0.5), cells(0.5)),
        Vector::new(cells(1.5), cells(0.5)),
    ];
    for _ in 0..10 {
        let f = get_food(2, 2, &snake).unwrap();
        assert_eq!(f.y, cells(1.5));
        assert!(f.x == cells(0.5) || f.x == cells(1.5));
    }
}
