use minigames::connect4::{dumb_ai, human_play, min_max, Column, Game};

fn column(cells: [i8; 6]) -> Column {
    Column { fill: cells }
}

fn game(cols: [[i8; 6]; 7]) -> Game {
    Game { cols: cols.map(column) }
}

#[test]
fn new_column_is_empty() {
    let c = Column::new();
    assert_eq!(c.fill, [0; 6]);
    assert_eq!(c.size(), 0);
    assert!(!c.full());
}

#[test]
fn increment_stacks_from_the_bottom() {
    let mut c = Column::new();
    c.increment(true);
    c.increment(false);
    assert_eq!(c.fill, [1, -1, 0, 0, 0, 0]);
    assert_eq!(c.size(), 2);
}

#[test]
fn full_column_reports_size_five_and_overwrites_the_top() {
    let mut c = column([1, 1, -1, -1, 1, 1]);
    assert!(c.full());
    assert_eq!(c.size(), 5);
    c.increment(false);
    assert_eq!(c.fill, [1, 1, -1, -1, 1, -1]);
}

#[test]
fn get_and_safe_get() {
    let c = column([1, -1, 0, 0, 0, 0]);
    assert_eq!(c.get(1), -1);
    assert_eq!(c.safe_get(0), 1);
    assert_eq!(c.safe_get(6), 0);
    assert_eq!(c.safe_get(usize::MAX), 0);
    assert_eq!(c.clone().fill, c.fill);
}

#[test]
fn drop_fills_column_then_refuses() {
    let mut g = Game::new();
    for k in 0..6 {
        assert!(g.drop(k % 2 == 0, 4));
    }
    assert_eq!(g.cols[4].fill, [1, -1, 1, -1, 1, -1]);
    assert!(g.full(4));
    assert!(!g.drop(true, 4));
    assert_eq!(g.cols[4].fill, [1, -1, 1, -1, 1, -1]);
    assert_eq!(g.cols[3].fill, [0; 6]);
}

#[test]
fn available_lists_open_columns_in_order() {
    let mut g = Game::new();
    assert_eq!(g.available(), vec![0, 1, 2, 3, 4, 5, 6]);
    for _ in 0..6 {
        g.drop(true, 1);
        g.drop(false, 5);
    }
    assert_eq!(g.available(), vec![0, 2, 3, 4, 6]);
}

#[test]
fn fresh_game_scores_zero_and_is_not_over() {
    let g = Game::new();
    assert_eq!(g.score(), 0);
    assert!(!g.over());
}

#[test]
fn vertical_four_wins() {
    let mut cols = [[0i8; 6]; 7];
    cols[2] = [1, 1, 1, 1, 0, 0];
    assert_eq!(game(cols).score(), 1);
    cols[2] = [-1, -1, -1, -1, 0, 0];
    assert_eq!(game(cols).score(), -1);
}

#[test]
fn vertical_needs_row_three_taken() {
    let mut cols = [[0i8; 6]; 7];
    cols[0] = [1, 1, 1, 0, 0, 0];
    assert_eq!(game(cols).score(), 0);
}

#[test]
fn vertical_counts_matching_cells_that_need_not_touch() {
    // four of the player's marks in the column, with one of the opponent's
    // between them, still count as a vertical win
    let mut cols = [[0i8; 6]; 7];
    cols[6] = [1, -1, 1, 1, 1, 0];
    assert_eq!(game(cols).score(), 1);
}

#[test]
fn bottom_row_through_middle_wins() {
    let mut cols = [[0i8; 6]; 7];
    cols[1][0] = -1;
    cols[2][0] = -1;
    cols[3][0] = -1;
    cols[4][0] = -1;
    assert_eq!(game(cols).score(), -1);
}

#[test]
fn bottom_row_away_from_middle_does_not_count() {
    let mut cols = [[0i8; 6]; 7];
    cols[3][0] = -1;
    cols[4][0] = 1;
    cols[5][0] = 1;
    cols[6][0] = 1;
    cols[0][0] = 1;
    assert_eq!(game(cols).score(), 0);
}

#[test]
fn diagonal_from_bottom_of_middle_wins() {
    let mut cols = [[0i8; 6]; 7];
    cols[3] = [1, 0, 0, 0, 0, 0];
    cols[4] = [-1, 1, 0, 0, 0, 0];
    cols[5] = [-1, -1, 1, 0, 0, 0];
    cols[6] = [-1, -1, 1, 1, 0, 0];
    assert_eq!(game(cols).score(), 1);
    let mut cols = [[0i8; 6]; 7];
    cols[3] = [-1, 0, 0, 0, 0, 0];
    cols[2] = [1, -1, 0, 0, 0, 0];
    cols[1] = [1, 1, -1, 0, 0, 0];
    cols[0] = [1, 1, 1, -1, 0, 0];
    assert_eq!(game(cols).score(), -1);
}

#[test]
fn full_board_is_over() {
    let mut cols = [[0i8; 6]; 7];
    for c in 0..7 {
        let a: i8 = if c % 2 == 0 { 1 } else { -1 };
        cols[c] = [a, a, -a, -a, a, a];
    }
    let g = game(cols);
    // row 2 of the middle column holds the player's mark, which is then
    // counted on the lines through the bottom of the middle column
    assert_eq!(g.score(), 1);
    assert!(g.available().is_empty());
    assert!(g.over());
    assert_eq!(min_max(g, true, 0, 0), 1);
}

#[test]
fn human_play_only_accepts_open_columns() {
    let mut g = Game::new();
    assert!(human_play(&mut g, 3));
    assert_eq!(g.cols[3].fill, [1, 0, 0, 0, 0, 0]);
    for _ in 0..5 {
        g.drop(false, 3);
    }
    assert!(!human_play(&mut g, 3));
    assert!(!human_play(&mut g, 9));
    assert_eq!(g.cols[3].fill, [1, -1, -1, -1, -1, -1]);
}

#[test]
fn dumb_ai_takes_the_first_open_column() {
    let mut g = Game::new();
    dumb_ai(&mut g);
    assert_eq!(g.cols[0].fill, [-1, 0, 0, 0, 0, 0]);
    for _ in 0..5 {
        g.drop(true, 0);
    }
    dumb_ai(&mut g);
    assert_eq!(g.cols[1].fill, [-1, 0, 0, 0, 0, 0]);
}

#[test]
fn clone_hands_back_a_fresh_board() {
    let mut g = Game::new();
    g.drop(true, 2);
    let copy = g.clone();
    assert_eq!(copy.cols[2].fill, [0; 6]);
}

#[test]
fn min_max_on_a_won_game_returns_its_score() {
    let mut cols = [[0i8; 6]; 7];
    cols[5] = [-1, -1, -1, -1, 0, 0];
    assert_eq!(min_max(game(cols), false, 0, 0), -1);
}

#[test]
fn row_text_draws_marks() {
    let mut g = Game::new();
    g.drop(true, 0);
    g.drop(false, 6);
    assert_eq!(g.row_text(5), "|\tX\t|\t \t|\t \t|\t \t|\t \t|\t \t|\tO\t|");
    assert_eq!(g.row_text(0), "|\t \t|\t \t|\t \t|\t \t|\t \t|\t \t|\t \t|");
}
