use minigames::input::{parse_play, parse_u8, PlayError};
use minigames::tic_tac_toe::{human_play, min_max, smart_ai_play, Board};

#[test]
fn parse_u8_accepts_plain_and_plus_signed_numbers() {
    assert_eq!(parse_u8("0"), Some(0));
    assert_eq!(parse_u8("7"), Some(7));
    assert_eq!(parse_u8("+8"), Some(8));
    assert_eq!(parse_u8("007"), Some(7));
    assert_eq!(parse_u8("255"), Some(255));
}

#[test]
fn parse_u8_refuses_what_from_str_refuses() {
    assert_eq!(parse_u8(""), None);
    assert_eq!(parse_u8("+"), None);
    assert_eq!(parse_u8("-1"), None);
    assert_eq!(parse_u8("256"), None);
    assert_eq!(parse_u8("1000"), None);
    assert_eq!(parse_u8("4a"), None);
    assert_eq!(parse_u8(" 4"), None);
    for s in ["0", "+3", "42", "255", "256", "", "x", "-0", "++1", "99999999999"] {
        assert_eq!(parse_u8(s), s.parse::<u8>().ok(), "input {:?}", s);
    }
}

#[test]
fn parse_play_checks_the_board_size() {
    assert_eq!(parse_play("8", 9), Ok(8));
    assert_eq!(parse_play("9", 9), Err(PlayError::OutOfBoard));
    assert_eq!(parse_play("six", 9), Err(PlayError::NotANumber));
    assert_eq!(parse_play("6", 7), Ok(6));
    assert_eq!(parse_play("7", 7), Err(PlayError::OutOfBoard));
}

#[test]
fn empty_board_scores_zero_and_is_not_over() {
    let b = Board::empty();
    assert_eq!(b.values, [0; 9]);
    assert_eq!(b.score(), 0);
    assert!(!b.over());
}

#[test]
fn example_board_has_no_winner_yet() {
    let b = Board::example();
    assert_eq!(b.values, [1, 1, 0, -1, 0, 0, 1, -1, -1]);
    assert_eq!(b.score(), 0);
}

#[test]
fn rows_columns_and_diagonals_win() {
    for line in [[0, 1, 2], [3, 4, 5], [6, 7, 8], [0, 3, 6], [1, 4, 7], [2, 5, 8], [0, 4, 8], [2, 4, 6]] {
        let mut b = Board::empty();
        for i in line {
            b.place(true, i);
        }
        assert_eq!(b.score(), 1);
        assert!(b.over());
        let mut b = Board::empty();
        for i in line {
            b.place(false, i);
        }
        assert_eq!(b.score(), -1);
    }
}

#[test]
fn first_complete_line_decides() {
    // row 0 is the player's, column 2... row order comes first
    let b = Board { values: [1, 1, 1, -1, -1, -1, 0, 0, 0] };
    assert_eq!(b.score(), 1);
    let b = Board { values: [-1, 1, 1, -1, 1, 0, -1, 0, 0] };
    assert_eq!(b.score(), -1);
}

#[test]
fn full_board_without_line_is_not_over() {
    let b = Board { values: [1, -1, 1, 1, -1, -1, -1, 1, 1] };
    assert_eq!(b.score(), 0);
    assert!(!b.over());
}

#[test]
fn place_overwrites_one_cell_only() {
    let mut b = Board::example();
    b.place(false, 0);
    assert_eq!(b.values, [-1, 1, 0, -1, 0, 0, 1, -1, -1]);
    let b = human_play(Board::empty(), 4);
    assert_eq!(b.values, [0, 0, 0, 0, 1, 0, 0, 0, 0]);
}

#[test]
fn clone_copies_cells() {
    let b = Board::example();
    assert_eq!(b.clone().values, b.values);
}

#[test]
fn ai_blocks_the_open_row() {
    // the player threatens cells 0,1,2; the computer must take 2
    let b = Board { values: [1, 1, 0, -1, 0, 0, 0, 0, 0] };
    let after = smart_ai_play(b);
    assert_eq!(after.values[2], -1);
}

#[test]
fn ai_completes_its_own_line() {
    let b = Board { values: [-1, -1, 0, 1, 1, 0, 1, 0, 0] };
    let after = smart_ai_play(b);
    assert_eq!(after.values, [-1, -1, -1, 1, 1, 0, 1, 0, 0]);
    assert_eq!(after.score(), -1);
}

#[test]
fn ai_moves_into_an_empty_cell() {
    let b = Board::example();
    let before = b.values;
    let after = smart_ai_play(b);
    let changed: Vec<usize> = (0..9).filter(|&i| after.values[i] != before[i]).collect();
    assert_eq!(changed.len(), 1);
    assert_eq!(before[changed[0]], 0);
    assert_eq!(after.values[changed[0]], -1);
}

#[test]
fn ai_on_full_board_marks_cell_zero() {
    let b = Board { values: [1, -1, 1, 1, -1, -1, -1, 1, 1] };
    let after = smart_ai_play(b);
    assert_eq!(after.values[0], -1);
}

#[test]
fn min_max_scores_decided_boards_directly() {
    let won = Board { values: [1, 1, 1, -1, -1, 0, 0, 0, 0] };
    assert_eq!(min_max(won, false, 4, 4), 1);
    assert_eq!(min_max(Board::example(), true, 0, 3), 0);
}

#[test]
fn min_max_below_the_top_returns_a_score() {
    // the player to move (maximizer) wins at once in cell 2
    let b = Board { values: [1, 1, 0, -1, -1, 0, 0, 0, 0] };
    assert_eq!(min_max(b.clone(), true, 5, 9), 1);
    assert_eq!(min_max(b, true, 5, 5), 2);
}

#[test]
fn row_text_prints_cells_as_numbers() {
    let b = Board::example();
    assert_eq!(b.row_text(0), "1\t|\t1\t|\t0");
    assert_eq!(b.row_text(1), "-1\t|\t0\t|\t0");
    assert_eq!(b.row_text(2), format!("{}\t|\t{}\t|\t{}", 1, -1, -1));
}
