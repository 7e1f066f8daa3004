//! Connect four on a board of seven columns of six cells.
//!
//! A cell holds `1` for the player, `-1` for the computer and `0` when
//! empty; pieces stack from row `0` at the bottom of a column.
use vstd::prelude::*;
use crate::tic_tac_toe::{mark, valid_cell};
use crate::text::push_char;

verus! {

/// Six cells, each a valid mark, filled from the bottom without gaps.
pub open spec fn column_cells_wf(s: Seq<i8>) -> bool {
    &&& s.len() == 6
    &&& forall|i: int| 0 <= i < 6 ==> valid_cell(#[trigger] s[i])
    &&& forall|i: int, j: int| 0 <= i < j < 6 && #[trigger] s[i] == 0 ==> #[trigger] s[j] == 0
}

/// The first empty row at or above `k`, or `5` when there is none.
pub open spec fn first_empty_from(s: Seq<i8>, k: int) -> int
    decreases 6 - k,
{
    if k >= 6 {
        5
    } else if s[k] == 0 {
        k
    } else {
        first_empty_from(s, k + 1)
    }
}

/// The row of the lowest empty cell of a column, or `5` when it is full.
pub open spec fn column_size(s: Seq<i8>) -> int {
    first_empty_from(s, 0)
}

/// One column of the board.
#[derive(Clone, Copy)]
pub struct Column {
    pub fill: [i8; 6],
}

impl Column {
    pub open spec fn wf(&self) -> bool {
        column_cells_wf(self.fill@)
    }

    /// An empty column.
    pub fn new() -> (c: Column)
        ensures
            c.wf(),
            c.fill@ == Seq::new(6, |i: int| 0i8),
    {
        let c = Column { fill: [0;6] };
        assert(c.fill@ =~= Seq::new(6, |i: int| 0i8));
        c
    }

    /// Puts the mark of `player` on the lowest empty cell; on a full column
    /// the top cell is overwritten.
    pub fn increment(&mut self, player: bool)
        ensures
            final(self).fill@ == old(self).fill@.update(column_size(old(self).fill@), mark(player)),
    {
        let i = self.size();
        self.fill[i] = if player {
            1
        } else {
            -1
        };
    }

    /// Whether the top cell is taken.
    pub fn full(&self) -> (r: bool)
        ensures
            r == (self.fill@[5] != 0),
    {
        self.fill[5] != 0
    }

    /// The row of the lowest empty cell, or `5` when the column is full.
    pub fn size(&self) -> (r: usize)
        ensures
            r == column_size(self.fill@),
            r < 6,
    {
        let ghost s = self.fill@;
        let mut i: usize = 0;
        while i < 6
            invariant
                i <= 6,
                s == self.fill@,
                column_size(s) == first_empty_from(s, i as int),
            decreases 6 - i,
        {
            if self.fill[i] == 0 {
                return i;
            }
            i = i + 1;
        }
        5
    }

    /// The cell at `index`.
    pub fn get(&self, index: usize) -> (r: i8)
        requires
            index < 6,
        ensures
            r == self.fill@[index as int],
    {
        self.fill[index]
    }

    /// The cell at `index`, or `0` above the column.
    pub fn safe_get(&self, index: usize) -> (r: i8)
        ensures
            r == if index < 6 {
                self.fill@[index as int]
            } else {
                0
            },
    {
        if index < 6 {
            self.get(index)
        } else {
            0
        }
    }

    /// A copy of the column.
    pub fn clone(&self) -> (c: Column)
        ensures
            c == *self,
    {
        Column { fill: self.fill }
    }
}

/// Facts about a column that holds its pieces without gaps.
pub proof fn lemma_column_size(s: Seq<i8>)
    requires
        column_cells_wf(s),
    ensures
        0 <= column_size(s) < 6,
        s[5] == 0 ==> s[column_size(s)] == 0,
        forall|i: int| 0 <= i < column_size(s) ==> #[trigger] s[i] != 0,
        forall|i: int| column_size(s) <= i < 6 && s[5] == 0 ==> #[trigger] s[i] == 0,
{
    lemma_first_empty_from(s, 0);
}

proof fn lemma_first_empty_from(s: Seq<i8>, k: int)
    requires
        column_cells_wf(s),
        0 <= k <= 6,
        forall|i: int| 0 <= i < k ==> #[trigger] s[i] != 0,
    ensures
        0 <= first_empty_from(s, k) < 6,
        s[5] == 0 ==> s[first_empty_from(s, k)] == 0,
        forall|i: int| 0 <= i < first_empty_from(s, k) ==> #[trigger] s[i] != 0,
        forall|i: int| first_empty_from(s, k) <= i < 6 && s[5] == 0 ==> #[trigger] s[i] == 0,
    decreases 6 - k,
{
    if k < 6 {
        if s[k] != 0 {
            lemma_first_empty_from(s, k + 1);
        } else {
            assert forall|i: int| k <= i < 6 implies s[i] == 0 by {
                if i > k {
                    assert(s[k] == 0 && k < i);
                }
            }
        }
    } else {
        assert(s[5] != 0);
    }
}

/// Adding a piece to a column that is not full keeps it without gaps.
pub proof fn lemma_increment_wf(s: Seq<i8>, player: bool)
    requires
        column_cells_wf(s),
        s[5] == 0,
    ensures
        column_cells_wf(s.update(column_size(s), mark(player))),
{
    lemma_column_size(s);
    let t = s.update(column_size(s), mark(player));
    assert forall|i: int, j: int| 0 <= i < j < 6 && #[trigger] t[i] == 0 implies #[trigger] t[j] == 0 by {
        assert(s[i] == 0);
    }
}

/// The board: seven columns, numbered from the left.
pub struct Game {
    pub cols: [Column; 7],
}

/// The cell in column `c` (`0..7`) and row `r`, or `0` when `r` lies
/// outside `0..6`.
pub open spec fn cell_or_zero(g: Game, c: int, r: int) -> i8 {
    if 0 <= r < 6 {
        g.cols@[c].fill@[r]
    } else {
        0
    }
}

/// `1` when the cell at column `c`, row `r` holds `v` (a row outside the
/// board holds `0`), else `0`.
pub open spec fn hit(g: Game, c: int, r: int, v: i8) -> int {
    if cell_or_zero(g, c, r) == v {
        1
    } else {
        0
    }
}

/// The number of cells in column `k` above and below row 3 that hold the
/// same mark as row 3 (they need not touch it), plus one for row 3.
pub open spec fn vertical_count(g: Game, k: int) -> int {
    let v = g.cols@[k].fill@[3];
    1 + (hit(g, k, 2, v) + hit(g, k, 1, v) + hit(g, k, 0, v)) + (hit(g, k, 4, v) + hit(g, k, 5, v))
}

/// The vertical winner among columns `k..7`: the mark in row 3 of the
/// first column whose row 3 is taken and holds that mark in at least four
/// of its cells; `0` when there is none.
pub open spec fn vertical_from(g: Game, k: int) -> int
    decreases 7 - k,
{
    if k >= 7 {
        0
    } else if g.cols@[k].fill@[3] != 0 && vertical_count(g, k) >= 4 {
        g.cols@[k].fill@[3] as int
    } else {
        vertical_from(g, k + 1)
    }
}

/// For the line through the bottom cell of the middle column with slope
/// `dy` (`0`, `1` or `-1`): one plus the number of the three cells on
/// each side that hold `v`.
pub open spec fn base_line_count(g: Game, dy: int, v: i8) -> int {
    1 + (hit(g, 4, dy, v) + hit(g, 5, 2 * dy, v) + hit(g, 6, 3 * dy, v)) + (hit(g, 2, -dy, v)
        + hit(g, 1, -2 * dy, v) + hit(g, 0, -3 * dy, v))
}

/// Whether `v` reaches four on the horizontal or one of the diagonals
/// through the bottom cell of the middle column.
pub open spec fn base_lines_win(g: Game, v: i8) -> bool {
    base_line_count(g, 0, v) >= 4 || base_line_count(g, 1, v) >= 4 || base_line_count(g, -1, v)
        >= 4
}

/// Going up the middle column from row `r`: `0` at the first empty cell;
/// otherwise the mark of the first cell whose mark wins on the lines
/// through the bottom cell of the middle column.
pub open spec fn middle_from(g: Game, r: int) -> int
    decreases 6 - r,
{
    if r >= 6 {
        0
    } else if g.cols@[3].fill@[r] == 0 {
        0
    } else if base_lines_win(g, g.cols@[3].fill@[r]) {
        g.cols@[3].fill@[r] as int
    } else {
        middle_from(g, r + 1)
    }
}

/// The score of a board: the vertical winner if there is one, otherwise
/// the winner on the lines through the bottom of the middle column.
pub open spec fn score_of(g: Game) -> int {
    if vertical_from(g, 0) != 0 {
        vertical_from(g, 0)
    } else {
        middle_from(g, 0)
    }
}

/// The columns among `0..k` that are not full, in increasing order.
pub open spec fn open_columns(g: Game, k: int) -> Seq<usize>
    decreases k,
{
    if k <= 0 {
        Seq::empty()
    } else if g.cols@[k - 1].fill@[5] == 0 {
        open_columns(g, k - 1).push((k - 1) as usize)
    } else {
        open_columns(g, k - 1)
    }
}

/// The cells of the board, column by column, each from the bottom.
pub open spec fn board(g: Game) -> Seq<Seq<i8>> {
    Seq::new(7, |c: int| g.cols@[c].fill@)
}

/// The cells after `player` drops a piece into column `c`.
pub open spec fn dropped(b: Seq<Seq<i8>>, player: bool, c: int) -> Seq<Seq<i8>> {
    b.update(c, b[c].update(column_size(b[c]), mark(player)))
}

/// How a cell is drawn: `X` for the player, `O` for the computer, a space
/// when empty.
pub open spec fn symbol(v: i8) -> char {
    if v == 0 {
        ' '
    } else if v == 1 {
        'X'
    } else {
        'O'
    }
}

/// The text of printed row `row` (`0` at the top) over the first `k`
/// columns: `|`, then for each column a tab, its symbol, a tab and `|`.
pub open spec fn row_text_upto(g: Game, row: int, k: int) -> Seq<char>
    decreases k,
{
    if k <= 0 {
        seq!['|']
    } else {
        row_text_upto(g, row, k - 1) + seq!['\t', symbol(g.cols@[k - 1].fill@[5 - row]), '\t', '|']
    }
}

/// The game is over when someone scores or every column is full.
pub open spec fn game_over(g: Game) -> bool {
    score_of(g) != 0 || open_columns(g, 7).len() == 0
}

/// Every cell of the board is empty.
pub open spec fn is_fresh(g: Game) -> bool {
    forall|c: int, r: int| 0 <= c < 7 && 0 <= r < 6 ==> #[trigger] g.cols@[c].fill@[r] == 0
}

impl Game {
    /// Every column holds valid marks without gaps.
    pub open spec fn wf(&self) -> bool {
        forall|c: int| 0 <= c < 7 ==> #[trigger] self.cols@[c].wf()
    }

    /// The empty board.
    pub fn new() -> (g: Game)
        ensures
            g.wf(),
            is_fresh(g),
    {
        let list = [
            Column::new(),
            Column::new(),
            Column::new(),
            Column::new(),
            Column::new(),
            Column::new(),
            Column::new(),
        ];
        Game { cols: list }
    }

    /// Drops the mark of `player` into `column`; returns `false`, leaving
    /// the board as it was, when the column is full.
    pub fn drop(&mut self, player: bool, column: usize) -> (r: bool)
        requires
            column < 7,
        ensures
            r == (board(*old(self))[column as int][5] == 0),
            r ==> board(*final(self)) == dropped(board(*old(self)), player, column as int),
            !r ==> *final(self) == *old(self),
            old(self).wf() ==> final(self).wf(),
    {
        if self.cols[column].full() {
            return false;
        }
        let mut col = self.cols[column];
        proof {
            if old(self).wf() {
                assert(old(self).cols@[column as int].wf());
                lemma_increment_wf(col.fill@, player);
            }
        }
        col.increment(player);
        self.cols[column] = col;
        assert(board(*self) =~= dropped(board(*old(self)), player, column as int));
        proof {
            if old(self).wf() {
                assert forall|c: int| 0 <= c < 7 implies #[trigger] self.cols@[c].wf() by {
                    if c != column {
                        assert(old(self).cols@[c].wf());
                    }
                }
            }
        }
        return true;
    }

    /// Whether column `col` is full.
    pub fn full(&self, col: usize) -> (r: bool)
        requires
            col < 7,
        ensures
            r == (self.cols@[col as int].fill@[5] != 0),
    {
        self.cols[col].full()
    }

    /// The columns that are not full, in increasing order.
    pub fn available(&self) -> (r: Vec<usize>)
        ensures
            r@ == open_columns(*self, 7),
    {
        let default_actions: [usize; 7] = [0, 1, 2, 3, 4, 5, 6];
        let mut r: Vec<usize> = Vec::new();
        let mut i: usize = 0;
        while i < 7
            invariant
                i <= 7,
                default_actions@ == seq![0usize, 1, 2, 3, 4, 5, 6],
                r@ == open_columns(*self, i as int),
            decreases 7 - i,
        {
            let x = default_actions[i];
            if !self.full(x) {
                r.push(x);
            }
            i = i + 1;
        }
        r
    }

    /// Whether someone has scored or every column is full.
    pub fn over(&self) -> (r: bool)
        ensures
            r == game_over(*self),
    {
        self.score() != 0 || self.available().len() == 0
    }

    /// The winner's mark, or `0` when nobody has won; see `score_of`.
    pub fn score(&self) -> (r: i8)
        ensures
            r == score_of(*self),
    {
        let ghost g = *self;
        let mut k: usize = 0;
        while k < 7
            invariant
                k <= 7,
                g == *self,
                vertical_from(g, 0) == vertical_from(g, k as int),
            decreases 7 - k,
        {
            let col = &self.cols[k];
            if col.get(3) != 0 {
                let center = col.get(3);
                let mut up: u8 = 0;
                let mut i: u8 = 1;
                while i < 3
                    invariant
                        1 <= i <= 3,
                        k < 7,
                        g == *self,
                        *col == g.cols@[k as int],
                        center == g.cols@[k as int].fill@[3],
                        up == (if i > 1 { hit(g, k as int, 4, center) } else { 0 }) + (if i > 2 {
                            hit(g, k as int, 5, center)
                        } else {
                            0
                        }),
                    decreases 3 - i,
                {
                    if col.get((3 + i) as usize) == center {
                        up += 1
                    } else {
                        i = i + 1;
                        continue
                    }
                    i = i + 1;
                }
                let mut down: u8 = 0;
                let mut i: u8 = 1;
                while i < 4
                    invariant
                        1 <= i <= 4,
                        k < 7,
                        g == *self,
                        *col == g.cols@[k as int],
                        center == g.cols@[k as int].fill@[3],
                        down == (if i > 1 { hit(g, k as int, 2, center) } else { 0 }) + (if i > 2 {
                            hit(g, k as int, 1, center)
                        } else {
                            0
                        }) + (if i > 3 {
                            hit(g, k as int, 0, center)
                        } else {
                            0
                        }),
                    decreases 4 - i,
                {
                    if col.get((3 - i) as usize) == center {
                        down += 1
                    } else {
                        i = i + 1;
                        continue
                    }
                    i = i + 1;
                }
                if (1 + down + up) >= 4 {
                    return center;
                }
            }
            k = k + 1;
        }
        let center_col = self.cols[3];
        let patterns: [(i8, i8); 3] = [(1, 0), (1, 1), (1, -1)];
        let row_index: i8 = 0;
        let mut r: usize = 0;
        while r < 6
            invariant
                r <= 6,
                g == *self,
                vertical_from(g, 0) == 0,
                center_col == g.cols@[3],
                patterns@ == seq![(1i8, 0i8), (1i8, 1i8), (1i8, -1i8)],
                row_index == 0,
                middle_from(g, 0) == middle_from(g, r as int),
            decreases 6 - r,
        {
            let slot = center_col.fill[r];
            if slot == 0 {
                return 0;
            }
            let mut p: usize = 0;
            while p < 3
                invariant
                    p <= 3,
                    r < 6,
                    g == *self,
                    slot != 0,
                    slot == g.cols@[3].fill@[r as int],
                    patterns@ == seq![(1i8, 0i8), (1i8, 1i8), (1i8, -1i8)],
                    row_index == 0,
                    forall|q: int| 0 <= q < p ==> base_line_count(g, #[trigger] patterns@[q].1 as int, slot) < 4,
                    vertical_from(g, 0) == 0,
                    middle_from(g, 0) == middle_from(g, r as int),
                decreases 3 - p,
            {
                let (dx, dy) = patterns[p];
                let mut down: i32 = 0;
                let mut i: i8 = 1;
                while i < 4
                    invariant
                        1 <= i <= 4,
                        g == *self,
                        dx == 1,
                        -1 <= dy <= 1,
                        row_index == 0,
                        down == (if i > 1 { hit(g, 4, dy as int, slot) } else { 0 }) + (if i > 2 {
                            hit(g, 5, 2 * dy, slot)
                        } else {
                            0
                        }) + (if i > 3 {
                            hit(g, 6, 3 * dy, slot)
                        } else {
                            0
                        }),
                    decreases 4 - i,
                {
                    let col: &Column = &self.cols[(3 + dx * i) as usize];
                    proof {
                        lemma_small_product(i as int, dy as int);
                    }
                    let row = row_index + i * dy;
                    proof {
                        lemma_row_index(row);
                    }
                    if col.safe_get(row as usize) == slot {
                        down += 1
                    } else {
                        i = i + 1;
                        continue
                    }
                    i = i + 1;
                }
                let mut up: i32 = 0;
                let mut i: i8 = 1;
                while i < 4
                    invariant
                        1 <= i <= 4,
                        g == *self,
                        dx == 1,
                        -1 <= dy <= 1,
                        row_index == 0,
                        up == (if i > 1 { hit(g, 2, -dy, slot) } else { 0 }) + (if i > 2 {
                            hit(g, 1, -2 * dy, slot)
                        } else {
                            0
                        }) + (if i > 3 {
                            hit(g, 0, -3 * dy, slot)
                        } else {
                            0
                        }),
                    decreases 4 - i,
                {
                    let col: &Column = &self.cols[(3 + dx * -i) as usize];
                    proof {
                        lemma_small_product(-i, dy as int);
                    }
                    let row = row_index + -i * dy;
                    proof {
                        lemma_row_index(row);
                    }
                    if col.safe_get(row as usize) == slot {
                        up += 1
                    } else {
                        i = i + 1;
                        continue
                    }
                    i = i + 1;
                }
                assert(1 + down + up == base_line_count(g, dy as int, slot));
                assert(dy == patterns@[p as int].1);
                if (1 + down + up) >= 4 {
                    assert(base_lines_win(g, slot));
                    return slot;
                }
                p = p + 1;
            }
            assert(base_line_count(g, patterns@[0].1 as int, slot) < 4);
            assert(base_line_count(g, patterns@[1].1 as int, slot) < 4);
            assert(base_line_count(g, patterns@[2].1 as int, slot) < 4);
            r = r + 1;
        }
        0
    }

    /// The text of printed row `row`, counted from the top; see
    /// `row_text_upto`.
    pub fn row_text(&self, row: usize) -> (s: String)
        requires
            row < 6,
        ensures
            s@ == row_text_upto(*self, row as int, 7),
    {
        let mut s = String::new();
        push_char(&mut s, '|');
        let mut k: usize = 0;
        while k < 7
            invariant
                k <= 7,
                row < 6,
                s@ == row_text_upto(*self, row as int, k as int),
            decreases 7 - k,
        {
            let value = self.cols[k].get(5 - row);
            let sym = if value == 0 {
                ' '
            } else if value == 1 {
                'X'
            } else {
                'O'
            };
            push_char(&mut s, '\t');
            push_char(&mut s, sym);
            push_char(&mut s, '\t');
            push_char(&mut s, '|');
            assert(s@ =~= row_text_upto(*self, row as int, k + 1));
            k = k + 1;
        }
        s
    }

    /// A fresh, empty board: the pieces of this board are not copied.
    pub fn clone(&self) -> (g: Game)
        ensures
            g.wf(),
            is_fresh(g),
    {
        Game::new()
    }
}

proof fn lemma_small_product(i: int, dy: int)
    requires
        -4 <= i <= 4,
        -1 <= dy <= 1,
    ensures
        -4 <= i * dy <= 4,
        dy == 0 ==> i * dy == 0,
        dy == 1 ==> i * dy == i,
        dy == -1 ==> i * dy == -i,
{
}

proof fn lemma_row_index(row: i8)
    requires
        -4 <= row <= 4,
    ensures
        row >= 0 ==> row as usize == row,
        row < 0 ==> row as usize >= 6,
{
    assert(-4 <= row < 0 ==> row as usize >= 6) by (bit_vector);
}

/// The player drops a piece into `choice` when that column is open, and
/// reports whether it did.
pub fn human_play(game: &mut Game, choice: usize) -> (r: bool)
    ensures
        r == open_columns(*old(game), 7).contains(choice),
        r ==> board(*final(game)) == dropped(board(*old(game)), true, choice as int),
        !r ==> *final(game) == *old(game),
        old(game).wf() ==> final(game).wf(),
{
    let available = game.available();
    let mut found = false;
    let mut i: usize = 0;
    while i < available.len()
        invariant
            i <= available.len(),
            found == exists|j: int| 0 <= j < i && available@[j] == choice,
        decreases available.len() - i,
    {
        if available[i] == choice {
            found = true;
        }
        i = i + 1;
    }
    proof {
        lemma_open_columns(*game, 7);
        if found {
            let j = choose|j: int| 0 <= j < available.len() && available@[j] == choice;
            assert(available@.contains(choice));
        }
    }
    if found {
        game.drop(true, choice);
        return true;
    } else {
        return false;
    }
}

/// The computer drops its piece into the lowest-numbered open column.
pub fn dumb_ai(game: &mut Game)
    requires
        open_columns(*old(game), 7).len() > 0,
    ensures
        board(*final(game)) == dropped(board(*old(game)), false, open_columns(*old(game), 7)[0] as int),
        old(game).wf() ==> final(game).wf(),
{
    let available = game.available();
    let choice = available[0];
    proof {
        lemma_open_columns(*game, 7);
        assert(open_columns(*game, 7).contains(choice));
    }
    game.drop(false, choice);
}

/// The computer (the minimizer) drops its piece where `min_max` points,
/// searching from a copy of the board. That copy comes from `Game::clone`,
/// which hands back a fresh board, and a fresh board is never over, so the
/// search returns only if a fresh board were over: nothing meets the
/// precondition, and the call never returns.
pub fn smart_ai_play(game: Game) -> (r: Game)
    requires
        forall|g: Game| is_fresh(g) ==> #[trigger] game_over(g),
    ensures
        board(game)[0][5] == 0 ==> board(r) == dropped(board(game), false, 0),
        board(game)[0][5] != 0 ==> r == game,
{
    let mut game = game;
    let copy = game.clone();
    proof {
        lemma_fresh_score(copy);
    }
    let best_move = min_max(copy, false, 0, 0);
    game.drop(false, best_move as usize);
    game
}

/// Minimax over the open columns, with no depth limit. Every branch
/// searches `Game::clone` of the board, which is a fresh board, after one
/// drop; a board with a single piece is never over, so the search comes
/// back only when `game` is over already, with its score.
#[verifier::loop_isolation(false)]
pub fn min_max(game: Game, maxing: bool, depth: u8, intial_depth: u8) -> (r: i8)
    requires
        game_over(game),
    ensures
        r == score_of(game),
    decreases depth,
{
    if game.over() {
        return game.score();
    }
    let mut best_move: usize = 0;
    let mut best_score: i8 = if maxing {
        -100
    } else {
        100
    };
    let available = game.available();
    let mut k: usize = 0;
    while k < available.len()
        decreases available.len() - k,
    {
        let choice = available[k];
        let mut copy = game.clone();
        copy.drop(maxing, choice);
        let score = min_max(copy, !maxing, depth + 1, intial_depth);
        if (maxing && score > best_score) || (!maxing && score < best_score) {
            best_score = score;
            best_move = choice;
        }
        k = k + 1;
    }
    if depth == intial_depth {
        best_move as i8
    } else {
        best_score
    }
}

/// Four in a column: when column `k` holds the same mark `v` in rows 2 to
/// 5 and no earlier column has a mark in row 3, the board scores `v`; and
/// whenever some column holds one mark in rows 2 to 5, the board scores
/// something other than `0`.
pub proof fn lemma_vertical_four(g: Game, k: int, v: i8)
    requires
        g.wf(),
        0 <= k < 7,
        v != 0,
        g.cols@[k].fill@[2] == v,
        g.cols@[k].fill@[3] == v,
        g.cols@[k].fill@[4] == v,
        g.cols@[k].fill@[5] == v,
    ensures
        score_of(g) != 0,
        (forall|j: int| 0 <= j < k ==> #[trigger] g.cols@[j].fill@[3] == 0) ==> score_of(g) == v,
{
    lemma_vertical_reaches(g, 0, k, v);
}

proof fn lemma_vertical_reaches(g: Game, j: int, k: int, v: i8)
    requires
        g.wf(),
        0 <= j <= k < 7,
        v != 0,
        g.cols@[k].fill@[2] == v,
        g.cols@[k].fill@[3] == v,
        g.cols@[k].fill@[4] == v,
        g.cols@[k].fill@[5] == v,
    ensures
        vertical_from(g, j) != 0,
        (forall|i: int| j <= i < k ==> #[trigger] g.cols@[i].fill@[3] == 0) ==> vertical_from(g, j) == v,
    decreases k - j,
{
    if j < k {
        lemma_vertical_reaches(g, j + 1, k, v);
        assert(g.cols@[j].wf());
        assert(valid_cell(g.cols@[j].fill@[3]));
        if forall|i: int| j <= i < k ==> #[trigger] g.cols@[i].fill@[3] == 0 {
            assert(g.cols@[j].fill@[3] == 0);
        }
    } else {
        assert(vertical_count(g, k) >= 4);
    }
}

/// A fresh board scores `0`.
pub proof fn lemma_fresh_score(g: Game)
    requires
        is_fresh(g),
    ensures
        score_of(g) == 0,
{
    lemma_fresh_vertical(g, 0);
    assert(g.cols@[3].fill@[0] == 0);
}

proof fn lemma_fresh_vertical(g: Game, k: int)
    requires
        is_fresh(g),
        0 <= k,
    ensures
        vertical_from(g, k) == 0,
    decreases 7 - k,
{
    if k < 7 {
        assert(g.cols@[k].fill@[3] == 0);
        lemma_fresh_vertical(g, k + 1);
    }
}

/// The open columns are exactly the columns that are not full, listed in
/// increasing order.
pub proof fn lemma_open_columns(g: Game, k: int)
    requires
        0 <= k <= 7,
    ensures
        forall|c: usize| #[trigger] open_columns(g, k).contains(c) <==> (c < k && g.cols@[c as int].fill@[5] == 0),
        forall|i: int, j: int| 0 <= i < j < open_columns(g, k).len() ==> #[trigger] open_columns(g, k)[i] < #[trigger] open_columns(g, k)[j],
    decreases k,
{
    if k > 0 {
        lemma_open_columns(g, k - 1);
        let prev = open_columns(g, k - 1);
        if g.cols@[k - 1].fill@[5] == 0 {
            let cur = prev.push((k - 1) as usize);
            assert forall|c: usize| #[trigger] cur.contains(c) <==> (c < k && g.cols@[c as int].fill@[5] == 0) by {
                if c == k - 1 {
                    assert(cur[prev.len() as int] == c);
                } else if cur.contains(c) {
                    let i = choose|i: int| 0 <= i < cur.len() && cur[i] == c;
                    assert(i < prev.len());
                    assert(prev[i] == c);
                    assert(prev.contains(c));
                } else if c < k - 1 && g.cols@[c as int].fill@[5] == 0 {
                    assert(prev.contains(c));
                    let i = choose|i: int| 0 <= i < prev.len() && prev[i] == c;
                    assert(cur[i] == c);
                }
            }
            assert forall|i: int, j: int| 0 <= i < j < cur.len() implies #[trigger] cur[i] < #[trigger] cur[j] by {
                if j == prev.len() {
                    assert(prev.contains(prev[i]));
                }
            }
        }
    }
}

/// A won or finished game keeps a score in `-1..=1`.
pub proof fn lemma_score_range(g: Game)
    requires
        g.wf(),
    ensures
        -1 <= score_of(g) <= 1,
{
    lemma_vertical_range(g, 0);
    lemma_middle_range(g, 0);
}

proof fn lemma_vertical_range(g: Game, k: int)
    requires
        g.wf(),
        0 <= k,
    ensures
        -1 <= vertical_from(g, k) <= 1,
    decreases 7 - k,
{
    if k < 7 {
        assert(g.cols@[k].wf());
        assert(valid_cell(g.cols@[k].fill@[3]));
        lemma_vertical_range(g, k + 1);
    }
}

proof fn lemma_middle_range(g: Game, r: int)
    requires
        g.wf(),
        0 <= r,
    ensures
        -1 <= middle_from(g, r) <= 1,
    decreases 6 - r,
{
    if r < 6 {
        assert(g.cols@[3].wf());
        assert(valid_cell(g.cols@[3].fill@[r]));
        lemma_middle_range(g, r + 1);
    }
}

} // verus!
