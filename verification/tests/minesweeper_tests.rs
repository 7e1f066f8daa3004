use minigames::minesweeper::{cell_at_mouse, Board, Cell, SIZE};

fn empty() -> Board {
    Board { over: false, cells: [[0; SIZE]; SIZE] }
}

#[test]
fn neighbors_in_the_middle_and_corners() {
    let b = empty();
    assert_eq!(
        b.neighbors(5, 5),
        vec![Cell(4, 4), Cell(4, 5), Cell(4, 6), Cell(5, 4), Cell(5, 6), Cell(6, 4), Cell(6, 5), Cell(6, 6)]
    );
    assert_eq!(b.neighbors(0, 0), vec![Cell(0, 1), Cell(1, 0), Cell(1, 1)]);
    assert_eq!(b.neighbors(29, 29), vec![Cell(28, 28), Cell(28, 29), Cell(29, 28)]);
    assert_eq!(b.neighbor_cell(Cell(0, 29)), vec![Cell(0, 28), Cell(1, 28), Cell(1, 29)]);
}

#[test]
fn neighbors_off_the_board_are_empty_or_wrap_like_i16() {
    let b = empty();
    assert_eq!(b.neighbors(40, 3), vec![]);
    assert_eq!(b.neighbors(30, 3), vec![Cell(29, 2), Cell(29, 3), Cell(29, 4)]);
    // a row taken as i16 keeps its low 16 bits
    assert_eq!(b.neighbors(65536 + 1, 1).len(), 8);
}

#[test]
fn neighbors_are_symmetric() {
    let b = empty();
    for (r, c) in [(0usize, 0usize), (3, 29), (15, 15), (29, 0)] {
        for n in b.neighbors(r, c) {
            assert!(b.neighbors(n.0, n.1).contains(&Cell(r, c)));
        }
    }
}

#[test]
fn in_board_bounds() {
    let b = empty();
    assert!(b.in_board(0, 0));
    assert!(b.in_board(29, 29));
    assert!(!b.in_board(30, 0));
    assert!(!b.in_board(0, -1));
}

#[test]
fn place_bomb_counts_up_neighbors() {
    let mut b = empty();
    b.place_bomb(1, 1);
    assert!(b.bomb(1, 1));
    assert_eq!(b.number(Cell(0, 0)), 1);
    assert_eq!(b.number(Cell(2, 2)), 1);
    assert_eq!(b.number(Cell(3, 3)), 0);
    b.place_bomb(1, 2);
    assert!(b.bomb(1, 2));
    assert!(b.bomb(1, 1));
    assert_eq!(b.number(Cell(0, 1)), 2);
    assert_eq!(b.number(Cell(0, 3)), 1);
    assert!(b.safe(0, 1));
}

#[test]
fn bomb_on_a_bomb_counts_neighbors_again() {
    let mut b = empty();
    b.place_bomb(4, 4);
    b.place_bomb(4, 4);
    assert_eq!(b.number(Cell(5, 5)), 2);
}

#[test]
fn new_board_has_bombs_and_consistent_counts() {
    let b = Board::new();
    let bombs: usize = (0..SIZE).map(|r| (0..SIZE).filter(|&c| b.bomb(r, c)).count()).sum();
    assert!(bombs >= 1 && bombs <= 30);
    for r in 0..SIZE {
        for c in 0..SIZE {
            let v = b.number(Cell(r, c));
            assert!(v >= -1 && v <= 30);
        }
    }
    assert!(!b.over);
}

#[test]
fn place_bombs_keeps_counts_in_range() {
    let mut b = empty();
    b.place_bombs(5);
    for r in 0..SIZE {
        for c in 0..SIZE {
            let v = b.number(Cell(r, c));
            assert!(v >= -1 && v <= 5);
        }
    }
}

#[test]
fn uncover_reports_bombs() {
    let mut b = empty();
    b.place_bomb(2, 3);
    assert_eq!(b.uncover(Cell(2, 3)).unwrap_err(), Cell(2, 3));
    assert!(b.uncover(Cell(2, 4)).unwrap().is_empty());
}

#[test]
fn place_bombs_equals_single_drops() {
    // with one bomb, the board equals a single drop at the bomb's cell
    let mut b = empty();
    b.place_bombs(1);
    let (r, c) = (0..SIZE)
        .flat_map(|r| (0..SIZE).map(move |c| (r, c)))
        .find(|&(r, c)| b.bomb(r, c))
        .unwrap();
    let mut expected = empty();
    expected.place_bomb(r, c);
    assert_eq!(b.cells, expected.cells);
}

#[test]
fn cell_at_mouse_divides_by_the_window_size() {
    assert_eq!(cell_at_mouse(0, 0), Cell(0, 0));
    assert_eq!(cell_at_mouse(599, 1200), Cell(2, 0));
    assert_eq!(cell_at_mouse(-5, -599), Cell(0, 0));
    assert_eq!(cell_at_mouse(-600, 0), Cell(0, (-1i32) as usize));
}

#[test]
fn drops_on_fresh_cells_keep_counts_right() {
    let mut b = empty();
    for (r, c) in [(0usize, 0usize), (0, 1), (5, 5), (29, 29)] {
        b.place_bomb(r, c);
    }
    for r in 0..SIZE {
        for c in 0..SIZE {
            if !b.bomb(r, c) {
                let n = b.neighbors(r, c).iter().filter(|x| b.bomb(x.0, x.1)).count() as i32;
                assert_eq!(b.number(Cell(r, c)), n);
            }
        }
    }
}
