use snake_game::grid::{Cell, Grid};
use snake_game::snake::{Direction, Pos, Snake};

fn count_cells(s: &Snake) -> (usize, usize, usize) {
    let mut food = 0;
    let mut body = 0;
    let mut empty = 0;
    for y in 0..s.field.height {
        for x in 0..s.field.width {
            match s.field.cell_at(Pos { x, y }) {
                Cell::Food => food += 1,
                Cell::Snake(_) => body += 1,
                Cell::Nothing => empty += 1,
            }
        }
    }
    (food, body, empty)
}

fn find_food(s: &Snake) -> Option<Pos> {
    for y in 0..s.field.height {
        for x in 0..s.field.width {
            if matches!(s.field.cell_at(Pos { x, y }), Cell::Food) {
                return Some(Pos { x, y });
            }
        }
    }
    None
}

/// Steers a length-one snake to the given target and eats it.
fn walk_to(s: &mut Snake, target: Pos) {
    let mut guard = 0;
    while s.head != target {
        guard += 1;
        assert!(guard < 1000, "navigation did not terminate");
        if s.head.x < target.x {
            s.set_dir(Direction::Right, false);
        } else if s.head.x > target.x {
            s.set_dir(Direction::Left, false);
        } else if s.head.y < target.y {
            s.set_dir(Direction::Down, false);
        } else {
            s.set_dir(Direction::Up, false);
        }
        s.step();
        assert!(!s.dead());
    }
}

#[test]
fn construction_places_exact_food_and_one_head() {
    let s = Snake::new(5, 4, Pos { x: 2, y: 2 }, 3, Direction::Right);
    let (food, body, _) = count_cells(&s);
    assert_eq!(food, 3);
    assert_eq!(body, 1);
    assert!(matches!(s.field.cell_at(Pos { x: 2, y: 2 }), Cell::Snake(None)));
    assert_eq!(s.score(), 0);
    assert_eq!(s.best(), 0);
    assert!(!s.dead());
}

#[test]
fn construction_caps_food_on_tiny_board() {
    let s = Snake::new(2, 2, Pos { x: 0, y: 0 }, 9, Direction::Right);
    let (food, body, empty) = count_cells(&s);
    assert_eq!(food, 3);
    assert_eq!(body, 1);
    assert_eq!(empty, 0);
}

#[test]
fn construction_with_no_food() {
    let s = Snake::new(3, 3, Pos { x: 1, y: 1 }, 0, Direction::Up);
    let (food, body, empty) = count_cells(&s);
    assert_eq!(food, 0);
    assert_eq!(body, 1);
    assert_eq!(empty, 8);
    assert!(s.closest_food.is_none());
}

#[test]
fn step_on_dead_simulation_changes_nothing() {
    let mut s = Snake::new(4, 4, Pos { x: 0, y: 0 }, 0, Direction::Left);
    s.step();
    assert!(s.dead());
    let head = s.head;
    let tail = s.tail;
    let score = s.score();
    let best = s.best();
    s.step();
    s.step();
    assert!(s.dead());
    assert_eq!(s.head, head);
    assert_eq!(s.tail, tail);
    assert_eq!(s.score(), score);
    assert_eq!(s.best(), best);
}

#[test]
fn walls_kill_in_all_four_directions() {
    let cases = [
        (Pos { x: 0, y: 0 }, Direction::Up),
        (Pos { x: 0, y: 0 }, Direction::Left),
        (Pos { x: 3, y: 2 }, Direction::Right),
        (Pos { x: 3, y: 2 }, Direction::Down),
    ];
    for (start, dir) in cases {
        let mut s = Snake::new(4, 3, start, 0, dir);
        s.step();
        assert!(s.dead());
        assert_eq!(s.score(), 0);
        assert_eq!(s.head, start);
    }
}

#[test]
fn one_step_right_moves_head() {
    let mut s = Snake::new(10, 10, Pos { x: 5, y: 5 }, 1, Direction::Right);
    s.step();
    assert_eq!(s.head, Pos { x: 6, y: 5 });
    assert!(!s.dead());
}

#[test]
fn eating_grows_scores_and_replaces_food() {
    let mut s = Snake::new(10, 10, Pos { x: 5, y: 5 }, 1, Direction::Right);
    let food = find_food(&s).expect("one food was placed");
    walk_to(&mut s, food);
    assert_eq!(s.score(), 1);
    assert!(s.best() >= s.score());
    assert!(s.just_ate);
    let (food_after, body, _) = count_cells(&s);
    assert_eq!(body, 2, "body grew by one");
    assert_eq!(food_after, 1, "replacement food was placed");
}

#[test]
fn eating_adjacent_food_keeps_tail() {
    // walk until the head is one cell left of the food, then eat it
    let mut s = Snake::new(10, 10, Pos { x: 5, y: 5 }, 1, Direction::Right);
    let food = find_food(&s).expect("one food was placed");
    if food.x > 0 {
        let beside = Pos { x: food.x - 1, y: food.y };
        walk_to(&mut s, beside);
        let tail_before = s.tail;
        s.set_dir(Direction::Right, false);
        s.step();
        assert_eq!(s.score(), 1);
        assert_eq!(s.tail, tail_before, "tail does not advance on the eating tick");
        assert_eq!(s.head, food);
    }
}

#[test]
fn eating_on_full_board_places_no_replacement() {
    // two cells: head at (0,0), the single food is forced onto (1,0)
    let mut s = Snake::new(2, 1, Pos { x: 0, y: 0 }, 1, Direction::Right);
    let (food, body, empty) = count_cells(&s);
    assert_eq!((food, body, empty), (1, 1, 0));
    s.step();
    assert!(!s.dead());
    assert_eq!(s.score(), 1);
    assert!(s.just_ate);
    let (food, body, empty) = count_cells(&s);
    assert_eq!(body, 2, "body fills the board");
    assert_eq!(food, 0, "no empty cell was left for a replacement");
    assert_eq!(empty, 0);
}

#[test]
fn one_cell_board_dies_at_once() {
    let mut s = Snake::new(1, 1, Pos { x: 0, y: 0 }, 5, Direction::Up);
    let (food, body, _) = count_cells(&s);
    assert_eq!(food, 0, "no room for food beside the head");
    assert_eq!(body, 1);
    s.step();
    assert!(s.dead());
    assert_eq!(s.score(), 0);
}

#[test]
fn guarded_reversal_is_ignored() {
    let mut s = Snake::new(5, 5, Pos { x: 2, y: 2 }, 0, Direction::Right);
    s.set_dir(Direction::Left, true);
    assert_eq!(s.dir, Direction::Right);
    s.set_dir(Direction::Up, true);
    assert_eq!(s.dir, Direction::Up);
    s.set_dir(Direction::Down, true);
    assert_eq!(s.dir, Direction::Up);
    s.set_dir(Direction::Down, false);
    assert_eq!(s.dir, Direction::Down);
    s.set_dir(Direction::Up, false);
    assert_eq!(s.dir, Direction::Up);
}

#[test]
fn reset_restores_round_but_keeps_best() {
    let mut s = Snake::new(10, 10, Pos { x: 5, y: 5 }, 1, Direction::Right);
    let food = find_food(&s).expect("one food was placed");
    walk_to(&mut s, food);
    assert_eq!(s.score(), 1);
    let best = s.best();
    assert_eq!(best, 1);
    // run into the nearest wall
    s.set_dir(Direction::Up, false);
    while !s.dead() {
        s.step();
    }
    s.reset();
    assert!(!s.dead());
    assert_eq!(s.score(), 0);
    assert!(!s.just_ate);
    assert_eq!(s.best(), best);
    assert_eq!(s.head, Pos { x: 5, y: 5 });
    assert_eq!(s.tail, Pos { x: 5, y: 5 });
    assert_eq!(s.dir, Direction::Right);
    let (food_count, body, _) = count_cells(&s);
    assert_eq!(food_count, 1);
    assert_eq!(body, 1);
}

#[test]
fn closest_food_prefers_minimum_distance() {
    let mut g = Grid::new(6, 6);
    g.set_cell(Pos { x: 0, y: 0 }, Cell::Food);
    g.set_cell(Pos { x: 5, y: 5 }, Cell::Food);
    let r = Snake::get_closest_food(Pos { x: 1, y: 1 }, &g);
    assert_eq!(r, Some(Pos { x: 0, y: 0 }));
}

#[test]
fn closest_food_breaks_ties_in_scan_order() {
    let mut g = Grid::new(4, 4);
    g.set_cell(Pos { x: 0, y: 1 }, Cell::Food);
    g.set_cell(Pos { x: 1, y: 0 }, Cell::Food);
    let r = Snake::get_closest_food(Pos { x: 0, y: 0 }, &g);
    assert_eq!(r, Some(Pos { x: 1, y: 0 }), "row-major first among equals");
}

#[test]
fn closest_food_none_without_food() {
    let g = Grid::new(3, 2);
    assert_eq!(Snake::get_closest_food(Pos { x: 1, y: 1 }, &g), None);
}

#[test]
fn self_collision_kills() {
    // build a 2-long snake on a 3x3 board with food at a known spot
    let mut s = Snake::new(10, 10, Pos { x: 5, y: 5 }, 1, Direction::Right);
    let food = find_food(&s).expect("one food was placed");
    walk_to(&mut s, food);
    assert_eq!(s.score(), 1);
    // length two: reversing without the guard bites the neck
    let back = match s.dir {
        Direction::Up => Direction::Down,
        Direction::Down => Direction::Up,
        Direction::Left => Direction::Right,
        Direction::Right => Direction::Left,
    };
    s.set_dir(back, false);
    s.step();
    assert!(s.dead());
    assert_eq!(s.score(), 1, "self-collision leaves the score alone");
}

#[test]
fn render_rows_draws_head_and_blanks() {
    let s = Snake::new(3, 2, Pos { x: 1, y: 1 }, 0, Direction::Right);
    let rows = s.render_rows();
    assert_eq!(rows.len(), 2);
    for row in &rows {
        assert_eq!(row.len(), 3);
    }
    assert_eq!(rows[1][1], '@');
    assert_eq!(rows[0][0], ' ');
    assert_eq!(rows[0][1], ' ');
}

#[test]
fn render_rows_draws_food_and_segments() {
    let mut s = Snake::new(10, 10, Pos { x: 5, y: 5 }, 1, Direction::Right);
    let food = find_food(&s).expect("one food was placed");
    let rows = s.render_rows();
    assert_eq!(rows[food.y][food.x], '*');
    walk_to(&mut s, food);
    let rows = s.render_rows();
    assert_eq!(rows[s.head.y][s.head.x], '@');
    assert_eq!(rows[s.tail.y][s.tail.x], '#');
}
