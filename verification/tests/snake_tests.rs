use minigames::snake::{Board, Direction, Food, Key, Point, Snake, TickCheck};

fn pt(x: i32, y: i32) -> Point {
    Point { x, y }
}

#[test]
fn steps_move_one_cell() {
    let p = pt(3, 4);
    assert_eq!(p.left(), pt(2, 4));
    assert_eq!(p.right(), pt(4, 4));
    assert_eq!(p.up(), pt(3, 3));
    assert_eq!(p.down(), pt(3, 5));
    assert_eq!(p.left().right(), p);
    assert_eq!(p.up().down(), p);
}

#[test]
fn new_snake_heads_right() {
    let s = Snake::new(pt(1, 1));
    assert_eq!(s.body_segments, vec![pt(1, 1)]);
    assert_eq!(s.direction, Direction::Right);
}

#[test]
fn update_shifts_the_body() {
    let mut s = Snake { body_segments: vec![pt(2, 2), pt(1, 2), pt(0, 2)], direction: Direction::Down };
    let dead = s.update();
    assert!(!dead);
    assert_eq!(s.body_segments, vec![pt(2, 3), pt(2, 2), pt(1, 2)]);
}

#[test]
fn update_reports_running_into_itself() {
    let mut s = Snake {
        body_segments: vec![pt(1, 1), pt(2, 1), pt(2, 2), pt(1, 2), pt(0, 2)],
        direction: Direction::Down,
    };
    assert!(s.update());
}

#[test]
fn moving_onto_the_old_tail_is_safe() {
    let mut s = Snake {
        body_segments: vec![pt(1, 1), pt(2, 1), pt(2, 2), pt(1, 2)],
        direction: Direction::Down,
    };
    assert!(!s.update());
    assert_eq!(s.body_segments, vec![pt(1, 2), pt(1, 1), pt(2, 1), pt(2, 2)]);
}

#[test]
fn grow_doubles_the_tail() {
    let mut s = Snake::new(pt(5, 5));
    s.grow();
    assert_eq!(s.body_segments, vec![pt(5, 5), pt(5, 5)]);
    s.update();
    assert_eq!(s.body_segments, vec![pt(6, 5), pt(5, 5)]);
}

#[test]
fn food_random_stays_on_the_grid() {
    for _ in 0..200 {
        let f = Food::random(3);
        assert!(0 <= f.point.x && f.point.x < 3);
        assert!(0 <= f.point.y && f.point.y < 3);
    }
    assert_eq!(Food::random(1).point, pt(0, 0));
    assert_eq!(Food::new(4, 7).point, pt(4, 7));
}

fn board(size: i32, food: Food) -> Board {
    let mut b = Board::new_size(size);
    b.food = food;
    b
}

#[test]
fn board_starts_in_the_middle_with_food_off_the_snake() {
    for _ in 0..50 {
        let b = Board::new_size(20);
        assert_eq!(b.snake.body_segments, vec![pt(10, 10)]);
        assert!(!b.over);
        assert!(b.in_bounds());
        assert!(0 <= b.food.point.x && b.food.point.x < 20 && 0 <= b.food.point.y && b.food.point.y < 20);
        assert_ne!(b.food.point, pt(10, 10));
    }
    let b = Board::new_size(2);
    assert_eq!(b.snake.body_segments, vec![pt(1, 1)]);
    assert_ne!(b.food.point, pt(1, 1));
}

#[test]
fn accepts_food_off_the_snake_only() {
    let mut b = board(20, Food::new(0, 0));
    b.snake.body_segments.push(pt(9, 10));
    assert!(!b.accepts_food(&Food::new(10, 10)));
    assert!(!b.accepts_food(&Food::new(9, 10)));
    assert!(b.accepts_food(&Food::new(8, 10)));
}

#[test]
fn get_food_finds_the_last_free_cell() {
    let mut b = board(2, Food::new(0, 0));
    b.snake.body_segments = vec![pt(0, 0), pt(1, 0), pt(1, 1)];
    for _ in 0..20 {
        assert_eq!(b.get_food().point, pt(0, 1));
    }
}

#[test]
fn tick_turns_moves_eats_and_places_new_food() {
    let mut b = board(20, Food::new(10, 9));
    let ate = b.tick(&vec![Key::Down, Key::Up]);
    assert!(ate);
    assert_eq!(b.snake.direction, Direction::Up);
    assert_eq!(b.snake.body_segments, vec![pt(10, 9), pt(10, 9)]);
    assert!(!b.over);
    assert!(!b.snake.body_segments.contains(&b.food.point));
    assert!(0 <= b.food.point.x && b.food.point.x < 20 && 0 <= b.food.point.y && b.food.point.y < 20);
    b.food = Food::new(0, 0);
    let ate = b.tick(&vec![Key::Other]);
    assert!(!ate);
    assert_eq!(b.snake.body_segments, vec![pt(10, 8), pt(10, 9)]);
    assert_eq!(b.food.point, pt(0, 0));
}

#[test]
fn tick_ends_game_off_the_grid_or_on_quit() {
    let mut b = board(2, Food::new(0, 0));
    assert_eq!(b.snake.body_segments, vec![pt(1, 1)]);
    b.tick(&vec![]);
    assert!(b.over);
    let mut b = board(20, Food::new(0, 0));
    b.tick(&vec![Key::Quit]);
    assert!(b.over);
    assert_eq!(b.snake.body_segments, vec![pt(11, 10)]);
}

#[test]
fn head_at_the_edge_of_i32_may_move_away() {
    let mut b = board(20, Food::new(0, 0));
    b.snake.body_segments = vec![pt(i32::MAX, 5)];
    assert_eq!(b.check_tick(&vec![]), TickCheck::Overflow);
    assert_eq!(b.check_tick(&vec![Key::Left]), TickCheck::Ready);
    b.tick(&vec![Key::Left]);
    assert_eq!(b.snake.body_segments, vec![pt(i32::MAX - 1, 5)]);
    assert!(b.over);
    let mut s = Snake { body_segments: vec![pt(3, i32::MIN)], direction: Direction::Down };
    assert!(!s.update());
    assert_eq!(s.body_segments, vec![pt(3, i32::MIN + 1)]);
}

#[test]
fn check_tick_reports_a_full_grid() {
    let mut b = board(2, Food::new(0, 1));
    b.snake.body_segments = vec![pt(0, 0), pt(1, 0), pt(1, 1), pt(1, 1)];
    b.snake.direction = Direction::Down;
    // eating at (0, 1) leaves every cell taken
    assert_eq!(b.check_tick(&vec![]), TickCheck::NoRoom);
    b.food = Food::new(1, 1);
    assert_eq!(b.check_tick(&vec![]), TickCheck::Ready);
    let mut b = board(2, Food::new(2, 1));
    b.size = 0;
    b.snake.body_segments = vec![pt(1, 1)];
    assert_eq!(b.check_tick(&vec![]), TickCheck::NoRoom);
}

#[test]
fn food_for_draw_keeps_a_free_draw_else_takes_the_first_free_cell() {
    let mut b = board(3, Food::new(0, 0));
    b.snake.body_segments = vec![pt(0, 0), pt(0, 1)];
    assert_eq!(b.food_for_draw(Food::new(2, 1)), Food::new(2, 1));
    assert_eq!(b.food_for_draw(Food::new(0, 1)).point, pt(0, 2));
    assert_eq!(b.food_for_draw(Food::new(5, 5)).point, pt(0, 2));
}
