//! The board of minesweeper: bombs hidden on a square grid, and on every
//! other cell the number of bombs around it.
use vstd::prelude::*;
use std::collections::HashSet;
use crate::random::random_below;

verus! {

/// The number of rows and of columns.
pub const SIZE: usize = 30;

/// The width and height of the window, in pixels.
pub const WINDOW_SIZE: u32 = 600;

/// `n` divided by `d`, rounded toward zero as Rust's `/` does.
pub open spec fn div_toward_zero(n: int, d: int) -> int {
    if n >= 0 {
        n / d
    } else {
        -((-n) / d)
    }
}

/// The cell a click at pixel `(x, y)` picks: the coordinates divided by
/// the window's size (not a cell's), rounded toward zero, then taken as
/// `usize` by `as`.
pub fn cell_at_mouse(x: i32, y: i32) -> (c: Cell)
    ensures
        c.0 == div_toward_zero(y as int, WINDOW_SIZE as int) as usize,
        c.1 == div_toward_zero(x as int, WINDOW_SIZE as int) as usize,
{
    let row = (y / WINDOW_SIZE as i32) as usize;
    let col = (x / WINDOW_SIZE as i32) as usize;
    Cell(row, col)
}

/// A cell, by row and column.
#[derive(Debug, Clone, Copy, PartialEq, Eq, Structural)]
pub struct Cell(pub usize, pub usize);

/// The offsets of the eight cells around a cell, in the order in which
/// they are listed: the row above from the left, the two sides, then the
/// row below from the left.
pub open spec fn offset(k: int) -> (int, int) {
    if k == 0 {
        (-1, -1)
    } else if k == 1 {
        (-1, 0)
    } else if k == 2 {
        (-1, 1)
    } else if k == 3 {
        (0, -1)
    } else if k == 4 {
        (0, 1)
    } else if k == 5 {
        (1, -1)
    } else if k == 6 {
        (1, 0)
    } else {
        (1, 1)
    }
}

/// Whether row `r`, column `c` is on the board.
pub open spec fn on_board(r: int, c: int) -> bool {
    0 <= r < SIZE && 0 <= c < SIZE
}

/// Whether `(r2, c2)` touches `(r, c)`, sides or corners, and differs from it.
pub open spec fn adjacent(r: int, c: int, r2: int, c2: int) -> bool {
    -1 <= r2 - r <= 1 && -1 <= c2 - c <= 1 && !(r2 == r && c2 == c)
}

/// The cells on the board at the first `k` offsets around `(r, c)`.
pub open spec fn neighbor_prefix(r: int, c: int, k: int) -> Seq<Cell>
    decreases k,
{
    if k <= 0 {
        Seq::empty()
    } else {
        let prev = neighbor_prefix(r, c, k - 1);
        let (dr, dc) = offset(k - 1);
        if on_board(r + dr, c + dc) {
            prev.push(Cell((r + dr) as usize, (c + dc) as usize))
        } else {
            prev
        }
    }
}

/// The cells on the board around `(r, c)`, in the order of `offset`.
pub open spec fn neighbor_cells(r: int, c: int) -> Seq<Cell> {
    neighbor_prefix(r, c, 8)
}

proof fn lemma_neighbor_prefix(r: int, c: int, k: int)
    requires
        0 <= k <= 8,
    ensures
        forall|x: Cell| #[trigger] neighbor_prefix(r, c, k).contains(x) <==> exists|j: int|
            0 <= j < k && on_board(r + offset(j).0, c + offset(j).1) && x.0 == r + offset(j).0 && x.1
                == c + offset(j).1,
        forall|i: int, j: int|
            0 <= i < j < neighbor_prefix(r, c, k).len() ==> #[trigger] neighbor_prefix(r, c, k)[i]
                != #[trigger] neighbor_prefix(r, c, k)[j],
    decreases k,
{
    if k > 0 {
        lemma_neighbor_prefix(r, c, k - 1);
        let prev = neighbor_prefix(r, c, k - 1);
        let cur = neighbor_prefix(r, c, k);
        let (dr, dc) = offset(k - 1);
        if on_board(r + dr, c + dc) {
            let y = Cell((r + dr) as usize, (c + dc) as usize);
            assert(cur == prev.push(y));
            assert forall|x: Cell| #[trigger] cur.contains(x) <==> exists|j: int|
                0 <= j < k && on_board(r + offset(j).0, c + offset(j).1) && x.0 == r + offset(j).0
                    && x.1 == c + offset(j).1 by {
                if cur.contains(x) {
                    let i = choose|i: int| 0 <= i < cur.len() && cur[i] == x;
                    if i < prev.len() {
                        assert(prev[i] == x);
                        assert(prev.contains(x));
                    } else {
                        assert(x == y);
                        assert(0 <= k - 1 < k && on_board(r + offset(k - 1).0, c + offset(k - 1).1)
                            && x.0 == r + offset(k - 1).0 && x.1 == c + offset(k - 1).1);
                    }
                }
                if exists|j: int|
                    0 <= j < k && on_board(r + offset(j).0, c + offset(j).1) && x.0 == r + offset(j).0
                        && x.1 == c + offset(j).1 {
                    let j = choose|j: int|
                        0 <= j < k && on_board(r + offset(j).0, c + offset(j).1) && x.0 == r
                            + offset(j).0 && x.1 == c + offset(j).1;
                    if j < k - 1 {
                        assert(prev.contains(x));
                        let i = choose|i: int| 0 <= i < prev.len() && prev[i] == x;
                        assert(cur[i] == x);
                    } else {
                        assert(x == y);
                        assert(cur[prev.len() as int] == x);
                    }
                }
            }
            assert forall|i: int, j: int| 0 <= i < j < cur.len() implies #[trigger] cur[i]
                != #[trigger] cur[j] by {
                if j == prev.len() {
                    let x = prev[i];
                    assert(prev.contains(x));
                    let jj = choose|jj: int|
                        0 <= jj < k - 1 && on_board(r + offset(jj).0, c + offset(jj).1) && x.0 == r
                            + offset(jj).0 && x.1 == c + offset(jj).1;
                    assert(offset(jj) != offset(k - 1));
                }
            }
        }
    }
}

/// The cells listed around `(r, c)` are exactly the cells of the board
/// that touch it, each listed once.
pub proof fn lemma_neighbor_cells(r: int, c: int)
    ensures
        forall|x: Cell| #[trigger] neighbor_cells(r, c).contains(x) <==> (on_board(x.0 as int, x.1 as int)
            && adjacent(r, c, x.0 as int, x.1 as int)),
        forall|i: int, j: int|
            0 <= i < j < neighbor_cells(r, c).len() ==> #[trigger] neighbor_cells(r, c)[i]
                != #[trigger] neighbor_cells(r, c)[j],
{
    lemma_neighbor_prefix(r, c, 8);
    assert forall|x: Cell| on_board(x.0 as int, x.1 as int) && adjacent(r, c, x.0 as int, x.1 as int)
        implies #[trigger] neighbor_cells(r, c).contains(x) by {
        {
            let dr = x.0 - r;
            let dc = x.1 - c;
            let j = if dr == -1 {
                dc + 1
            } else if dr == 0 {
                if dc == -1 {
                    3
                } else {
                    4
                }
            } else {
                dc + 6
            };
            assert(0 <= j < 8 && offset(j) == (dr, dc));
        }
    }
}

/// Touching is symmetric: a cell of the board is listed around another
/// exactly when that one is listed around it.
pub proof fn lemma_neighbors_symmetric(a: Cell, b: Cell)
    requires
        on_board(a.0 as int, a.1 as int),
        on_board(b.0 as int, b.1 as int),
    ensures
        neighbor_cells(a.0 as int, a.1 as int).contains(b) <==> neighbor_cells(b.0 as int, b.1 as int).contains(a),
{
    lemma_neighbor_cells(a.0 as int, a.1 as int);
    lemma_neighbor_cells(b.0 as int, b.1 as int);
}

/// The value of cell `(r, c)`, holding `v`, after a bomb lands on
/// `(row, col)`: the bomb's own cell becomes `-1`, each cell around it that
/// holds no bomb counts one more, and every other cell keeps its value.
pub open spec fn drop_value(v: int, row: int, col: int, r: int, c: int) -> int {
    if r == row && c == col {
        -1
    } else if adjacent(row, col, r, c) && v != -1 {
        v + 1
    } else {
        v
    }
}

/// The value of cell `(r, c)` of `b` after a bomb lands on `(row, col)`.
pub open spec fn bombed_value(b: Board, row: int, col: int, r: int, c: int) -> int {
    drop_value(b.value(r, c) as int, row, col, r, c)
}

/// The value of cell `(r, c)`, holding `v`, after bombs land on the cells
/// of `ps` in turn.
pub open spec fn value_after_drops(v: int, r: int, c: int, ps: Seq<Cell>) -> int
    decreases ps.len(),
{
    if ps.len() == 0 {
        v
    } else {
        drop_value(value_after_drops(v, r, c, ps.drop_last()), ps.last().0 as int, ps.last().1 as int, r, c)
    }
}

/// Every cell of `ps` is on the board.
pub open spec fn all_on_board(ps: Seq<Cell>) -> bool {
    forall|i: int| 0 <= i < ps.len() ==> on_board(#[trigger] ps[i].0 as int, ps[i].1 as int)
}

/// The number of cells of `s` that hold a bomb in grid `g`.
pub open spec fn bombs_among(g: spec_fn(int, int) -> int, s: Seq<Cell>) -> nat
    decreases s.len(),
{
    if s.len() == 0 {
        0
    } else {
        bombs_among(g, s.drop_last()) + if g(s.last().0 as int, s.last().1 as int) == -1 {
            1nat
        } else {
            0nat
        }
    }
}

/// Every cell of grid `g` without a bomb holds the number of bombs around
/// it.
pub open spec fn counts_right(g: spec_fn(int, int) -> int) -> bool {
    forall|r: int, c: int|
        on_board(r, c) && #[trigger] g(r, c) != -1 ==> g(r, c) == bombs_among(g, neighbor_cells(r, c))
}

/// Grid `g` after a bomb lands on `(row, col)`.
pub open spec fn grid_after_drop(g: spec_fn(int, int) -> int, row: int, col: int) -> spec_fn(int, int) -> int {
    |r: int, c: int| drop_value(g(r, c), row, col, r, c)
}

/// Grid `g` after bombs land on the cells of `ps` in turn.
pub open spec fn grid_after_drops(g: spec_fn(int, int) -> int, ps: Seq<Cell>) -> spec_fn(int, int) -> int {
    |r: int, c: int| value_after_drops(g(r, c), r, c, ps)
}

/// No cell occurs twice in `s`.
pub open spec fn distinct_cells(s: Seq<Cell>) -> bool {
    forall|i: int, j: int| 0 <= i < j < s.len() ==> #[trigger] s[i] != #[trigger] s[j]
}

proof fn lemma_bombs_among_one_more(
    g: spec_fn(int, int) -> int,
    g2: spec_fn(int, int) -> int,
    s: Seq<Cell>,
    t: Cell,
)
    requires
        distinct_cells(s),
        g(t.0 as int, t.1 as int) != -1,
        forall|i: int|
            0 <= i < s.len() ==> (g2(#[trigger] s[i].0 as int, s[i].1 as int) == -1) == (g(
                s[i].0 as int,
                s[i].1 as int,
            ) == -1 || s[i] == t),
    ensures
        bombs_among(g2, s) == bombs_among(g, s) + if s.contains(t) {
            1nat
        } else {
            0nat
        },
    decreases s.len(),
{
    if s.len() > 0 {
        let rest = s.drop_last();
        assert forall|i: int| 0 <= i < rest.len() implies (g2(#[trigger] rest[i].0 as int, rest[i].1 as int)
            == -1) == (g(rest[i].0 as int, rest[i].1 as int) == -1 || rest[i] == t) by {
            assert(rest[i] == s[i]);
        }
        lemma_bombs_among_one_more(g, g2, rest, t);
        assert(g2(s[s.len() - 1].0 as int, s[s.len() - 1].1 as int) == -1 <==> (g(
            s[s.len() - 1].0 as int,
            s[s.len() - 1].1 as int,
        ) == -1 || s[s.len() - 1] == t));
        if s.last() == t {
            if rest.contains(t) {
                let i = choose|i: int| 0 <= i < rest.len() && rest[i] == t;
                assert(s[i] == s[s.len() - 1]);
            }
            assert(s.contains(t));
        } else {
            if s.contains(t) {
                let i = choose|i: int| 0 <= i < s.len() && s[i] == t;
                assert(rest[i] == t);
            }
            if rest.contains(t) {
                let i = choose|i: int| 0 <= i < rest.len() && rest[i] == t;
                assert(s[i] == t);
            }
        }
    }
}

/// A bomb dropped on a cell without one keeps the counts right.
pub proof fn lemma_drop_keeps_counts(g: spec_fn(int, int) -> int, row: int, col: int)
    requires
        counts_right(g),
        on_board(row, col),
        g(row, col) != -1,
    ensures
        counts_right(grid_after_drop(g, row, col)),
{
    let g2 = grid_after_drop(g, row, col);
    let t = Cell(row as usize, col as usize);
    assert forall|r: int, c: int| on_board(r, c) && #[trigger] g2(r, c) != -1 implies g2(r, c) == bombs_among(
        g2,
        neighbor_cells(r, c),
    ) by {
        let s = neighbor_cells(r, c);
        lemma_neighbor_cells(r, c);
        assert(g(r, c) != -1);
        assert forall|i: int| 0 <= i < s.len() implies (g2(#[trigger] s[i].0 as int, s[i].1 as int) == -1)
            == (g(s[i].0 as int, s[i].1 as int) == -1 || s[i] == t) by {
            assert(s.contains(s[i]));
        }
        lemma_bombs_among_one_more(g, g2, s, t);
        if adjacent(row, col, r, c) {
            assert(s.contains(t));
        } else {
            assert(!s.contains(t));
        }
    }
}

proof fn lemma_value_after_drops_bomb(v: int, r: int, c: int, ps: Seq<Cell>)
    requires
        on_board(r, c),
        v >= -1,
    ensures
        value_after_drops(v, r, c, ps) >= -1,
        (value_after_drops(v, r, c, ps) == -1) == (v == -1 || ps.contains(Cell(r as usize, c as usize))),
    decreases ps.len(),
{
    if ps.len() > 0 {
        let rest = ps.drop_last();
        let x = Cell(r as usize, c as usize);
        lemma_value_after_drops_bomb(v, r, c, rest);
        if ps.contains(x) {
            let i = choose|i: int| 0 <= i < ps.len() && ps[i] == x;
            if i < rest.len() {
                assert(rest[i] == ps[i]);
            }
        }
        if rest.contains(x) {
            let i = choose|i: int| 0 <= i < rest.len() && rest[i] == x;
            assert(ps[i] == rest[i]);
        }
        if ps.last() == x {
            assert(ps[ps.len() - 1] == x);
        }
    }
}

/// Bombs dropped on distinct cells that held none keep the counts right,
/// and each of those cells then holds a bomb.
pub proof fn lemma_drops_keep_counts(g: spec_fn(int, int) -> int, ps: Seq<Cell>)
    requires
        counts_right(g),
        all_on_board(ps),
        distinct_cells(ps),
        forall|i: int| 0 <= i < ps.len() ==> g(#[trigger] ps[i].0 as int, ps[i].1 as int) != -1,
    ensures
        counts_right(grid_after_drops(g, ps)),
        forall|i: int| 0 <= i < ps.len() ==> grid_after_drops(g, ps)(#[trigger] ps[i].0 as int, ps[i].1 as int) == -1,
    decreases ps.len(),
{
    if ps.len() > 0 {
        let rest = ps.drop_last();
        let t = ps.last();
        assert forall|i: int, j: int| 0 <= i < j < rest.len() implies #[trigger] rest[i] != #[trigger] rest[j] by {
            assert(rest[i] == ps[i] && rest[j] == ps[j]);
        }
        assert forall|i: int| 0 <= i < rest.len() implies g(#[trigger] rest[i].0 as int, rest[i].1 as int) != -1 by {
            assert(rest[i] == ps[i]);
        }
        assert forall|i: int| 0 <= i < rest.len() implies on_board(#[trigger] rest[i].0 as int, rest[i].1 as int) by {
            assert(rest[i] == ps[i]);
        }
        lemma_drops_keep_counts(g, rest);
        let h = grid_after_drops(g, rest);
        assert(on_board(ps[ps.len() - 1].0 as int, ps[ps.len() - 1].1 as int));
        assert(g(ps[ps.len() - 1].0 as int, ps[ps.len() - 1].1 as int) != -1);
        let tr = t.0 as int;
        let tc = t.1 as int;
        assert(g(tr, tc) == bombs_among(g, neighbor_cells(tr, tc)));
        lemma_value_after_drops_bomb(g(tr, tc), tr, tc, rest);
        if rest.contains(Cell(tr as usize, tc as usize)) {
            let i = choose|i: int| 0 <= i < rest.len() && rest[i] == Cell(tr as usize, tc as usize);
            assert(ps[i] == ps[ps.len() - 1]);
        }
        assert(h(tr, tc) != -1);
        lemma_drop_keeps_counts(h, tr, tc);
        let h2 = grid_after_drop(h, tr, tc);
        assert(grid_after_drops(g, ps) =~= h2) by {
            assert forall|r: int, c: int| #[trigger] grid_after_drops(g, ps)(r, c) == h2(r, c) by {
                assert(ps.drop_last() == rest);
            }
        }
        assert forall|i: int| 0 <= i < ps.len() implies grid_after_drops(g, ps)(#[trigger] ps[i].0 as int, ps[i].1 as int) == -1 by {
            if i < rest.len() {
                assert(rest[i] == ps[i]);
                assert(h(rest[i].0 as int, rest[i].1 as int) == -1);
            }
        }
    } else {
        assert(grid_after_drops(g, ps) =~= g);
    }
}

proof fn lemma_bombs_among_agree(g1: spec_fn(int, int) -> int, g2: spec_fn(int, int) -> int, s: Seq<Cell>)
    requires
        forall|i: int| 0 <= i < s.len() ==> g1(#[trigger] s[i].0 as int, s[i].1 as int) == g2(s[i].0 as int, s[i].1 as int),
    ensures
        bombs_among(g1, s) == bombs_among(g2, s),
    decreases s.len(),
{
    if s.len() > 0 {
        let rest = s.drop_last();
        assert forall|i: int| 0 <= i < rest.len() implies g1(#[trigger] rest[i].0 as int, rest[i].1 as int) == g2(
            rest[i].0 as int,
            rest[i].1 as int,
        ) by {
            assert(rest[i] == s[i]);
        }
        lemma_bombs_among_agree(g1, g2, rest);
        assert(g1(s[s.len() - 1].0 as int, s[s.len() - 1].1 as int) == g2(s[s.len() - 1].0 as int, s[s.len() - 1].1 as int));
    }
}

/// Two grids that agree on the board have the same counts.
proof fn lemma_counts_right_agree(g1: spec_fn(int, int) -> int, g2: spec_fn(int, int) -> int)
    requires
        counts_right(g1),
        forall|r: int, c: int| on_board(r, c) ==> #[trigger] g1(r, c) == g2(r, c),
    ensures
        counts_right(g2),
{
    assert forall|r: int, c: int| on_board(r, c) && #[trigger] g2(r, c) != -1 implies g2(r, c) == bombs_among(
        g2,
        neighbor_cells(r, c),
    ) by {
        let s = neighbor_cells(r, c);
        lemma_neighbor_cells(r, c);
        assert forall|i: int| 0 <= i < s.len() implies g1(#[trigger] s[i].0 as int, s[i].1 as int) == g2(
            s[i].0 as int,
            s[i].1 as int,
        ) by {
            assert(s.contains(s[i]));
        }
        lemma_bombs_among_agree(g1, g2, s);
        assert(g1(r, c) == g2(r, c));
    }
}

/// When every cell without a bomb counts the bombs around it, dropping
/// bombs on distinct cells that held none, as `place_bombs` reports them,
/// keeps every count right, and each of those cells then holds a bomb.
pub proof fn lemma_place_bombs_counts(before: Board, after: Board, ps: Seq<Cell>)
    requires
        counts_right(before.grid()),
        all_on_board(ps),
        distinct_cells(ps),
        forall|i: int| 0 <= i < ps.len() ==> before.value(#[trigger] ps[i].0 as int, ps[i].1 as int) != -1,
        forall|r: int, c: int|
            on_board(r, c) ==> #[trigger] after.value(r, c) == value_after_drops(before.value(r, c) as int, r, c, ps),
    ensures
        counts_right(after.grid()),
        forall|i: int| 0 <= i < ps.len() ==> after.value(#[trigger] ps[i].0 as int, ps[i].1 as int) == -1,
{
    let g = before.grid();
    assert forall|i: int| 0 <= i < ps.len() implies g(#[trigger] ps[i].0 as int, ps[i].1 as int) != -1 by {
        assert(before.value(ps[i].0 as int, ps[i].1 as int) != -1);
    }
    lemma_drops_keep_counts(g, ps);
    let h = grid_after_drops(g, ps);
    assert forall|r: int, c: int| on_board(r, c) implies #[trigger] h(r, c) == after.grid()(r, c) by {
        assert(after.value(r, c) == value_after_drops(before.value(r, c) as int, r, c, ps));
    }
    lemma_counts_right_agree(h, after.grid());
    assert forall|i: int| 0 <= i < ps.len() implies after.value(#[trigger] ps[i].0 as int, ps[i].1 as int) == -1 by {
        assert(on_board(ps[i].0 as int, ps[i].1 as int));
        assert(h(ps[i].0 as int, ps[i].1 as int) == -1);
    }
}

/// The grid: `-1` marks a bomb, any other value counts the bombs around.
pub struct Board {
    pub over: bool,
    pub cells: [[i32; SIZE]; SIZE],
}

impl Board {
    /// The value of the cell at row `r`, column `c`.
    pub open spec fn value(&self, r: int, c: int) -> i32 {
        self.cells@[r]@[c]
    }

    /// The values of the cells, as a grid.
    pub open spec fn grid(&self) -> spec_fn(int, int) -> int {
        |r: int, c: int| self.value(r, c) as int
    }

    /// No cell holds less than `-1`.
    pub open spec fn wf(&self) -> bool {
        forall|r: int, c: int| on_board(r, c) ==> #[trigger] self.value(r, c) >= -1
    }

    /// Every cell holds at most `m`.
    pub open spec fn at_most(&self, m: int) -> bool {
        forall|r: int, c: int| on_board(r, c) ==> #[trigger] self.value(r, c) <= m
    }

    /// A board with 30 bombs dropped at random cells.
    pub fn new() -> (b: Board)
        ensures
            b.wf(),
            b.at_most(30),
            !b.over,
            exists|r: int, c: int| on_board(r, c) && #[trigger] b.value(r, c) == -1,
            exists|ps: Seq<Cell>|
                ps.len() == 30 && all_on_board(ps) && forall|r: int, c: int|
                    on_board(r, c) ==> #[trigger] b.value(r, c) == value_after_drops(0, r, c, ps),
    {
        let mut b = Board { over: false, cells: [[0;SIZE];SIZE] };
        assert forall|r: int, c: int| on_board(r, c) implies #[trigger] b.value(r, c) == 0 by {
            assert(b.cells@[r]@ == b.cells@[r]@);
        }
        b.place_bombs(30);
        b
    }

    /// Drops `count` bombs at random cells, one after the other, with
    /// `place_bomb`. Bombs already on the board stay, and no cell counts
    /// more than `count` above its value before.
    pub fn place_bombs(&mut self, count: u32)
        requires
            old(self).wf(),
            old(self).at_most(i32::MAX - count),
        ensures
            final(self).wf(),
            final(self).over == old(self).over,
            forall|r: int, c: int|
                on_board(r, c) ==> (#[trigger] final(self).value(r, c) == -1 || final(self).value(r, c)
                    <= old(self).value(r, c) + count),
            forall|r: int, c: int|
                on_board(r, c) && old(self).value(r, c) == -1 ==> #[trigger] final(self).value(r, c) == -1,
            count > 0 ==> exists|r: int, c: int| on_board(r, c) && #[trigger] final(self).value(r, c) == -1,
            exists|ps: Seq<Cell>|
                ps.len() == count && all_on_board(ps) && forall|r: int, c: int|
                    on_board(r, c) ==> #[trigger] final(self).value(r, c) == value_after_drops(
                        old(self).value(r, c) as int,
                        r,
                        c,
                        ps,
                    ),
    {
        let ghost mut ps: Seq<Cell> = Seq::empty();
        let mut j: u32 = 0;
        while j < count
            invariant
                j <= count,
                self.wf(),
                self.over == old(self).over,
                old(self).at_most(i32::MAX - count),
                forall|r: int, c: int|
                    on_board(r, c) ==> (#[trigger] self.value(r, c) == -1 || self.value(r, c)
                        <= old(self).value(r, c) + j),
                forall|r: int, c: int|
                    on_board(r, c) && old(self).value(r, c) == -1 ==> #[trigger] self.value(r, c) == -1,
                j > 0 ==> exists|r: int, c: int| on_board(r, c) && #[trigger] self.value(r, c) == -1,
                ps.len() == j,
                all_on_board(ps),
                forall|r: int, c: int|
                    on_board(r, c) ==> #[trigger] self.value(r, c) == value_after_drops(
                        old(self).value(r, c) as int,
                        r,
                        c,
                        ps,
                    ),
            decreases count - j,
        {
            let row = random_below(SIZE);
            let col = random_below(SIZE);
            assert forall|r: int, c: int| on_board(r, c) implies #[trigger] self.value(r, c) < i32::MAX by {
                assert(old(self).value(r, c) <= i32::MAX - count);
            }
            let ghost before = *self;
            self.place_bomb(row, col);
            assert forall|r: int, c: int| on_board(r, c) implies (#[trigger] self.value(r, c) == -1
                || self.value(r, c) <= old(self).value(r, c) + j + 1) by {
                assert(bombed_value(before, row as int, col as int, r, c) == self.value(r, c));
                assert(before.value(r, c) == -1 || before.value(r, c) <= old(self).value(r, c) + j);
            }
            assert forall|r: int, c: int| on_board(r, c) && old(self).value(r, c) == -1 implies #[trigger] self.value(r, c) == -1 by {
                assert(before.value(r, c) == -1);
            }
            assert(self.value(row as int, col as int) == -1);
            proof {
                let next = ps.push(Cell(row, col));
                assert(next.drop_last() =~= ps);
                assert forall|r: int, c: int| on_board(r, c) implies #[trigger] self.value(r, c)
                    == value_after_drops(old(self).value(r, c) as int, r, c, next) by {
                    assert(before.value(r, c) == value_after_drops(old(self).value(r, c) as int, r, c, ps));
                }
                assert forall|i: int| 0 <= i < next.len() implies on_board(#[trigger] next[i].0 as int, next[i].1 as int) by {
                    if i < ps.len() {
                        assert(next[i] == ps[i]);
                    }
                }
                ps = next;
            }
            j = j + 1;
        }
    }

    /// Drops one bomb on `(row, col)`; see `bombed_value`.
    pub fn place_bomb(&mut self, row: usize, col: usize)
        requires
            row < SIZE,
            col < SIZE,
            old(self).wf(),
            forall|r: int, c: int| on_board(r, c) ==> #[trigger] old(self).value(r, c) < i32::MAX,
        ensures
            final(self).wf(),
            final(self).over == old(self).over,
            forall|r: int, c: int|
                on_board(r, c) ==> #[trigger] final(self).value(r, c) == bombed_value(
                    *old(self),
                    row as int,
                    col as int,
                    r,
                    c,
                ),
    {
        self.cells[row][col] = -1;
        let ghost mid = *self;
        assert(row as i16 == row && col as i16 == col) by (bit_vector)
            requires
                row < 30,
                col < 30,
        ;
        let ns = self.neighbors(row, col);
        proof {
            lemma_neighbor_cells(row as int, col as int);
        }
        let mut i: usize = 0;
        while i < ns.len()
            invariant
                i <= ns.len(),
                row < SIZE,
                col < SIZE,
                old(self).wf(),
                forall|r: int, c: int| on_board(r, c) ==> #[trigger] old(self).value(r, c) < i32::MAX,
                self.over == old(self).over,
                ns@ == neighbor_cells(row as int, col as int),
                forall|x: Cell| #[trigger] ns@.contains(x) <==> (on_board(x.0 as int, x.1 as int)
                    && adjacent(row as int, col as int, x.0 as int, x.1 as int)),
                forall|a: int, b: int| 0 <= a < b < ns@.len() ==> #[trigger] ns@[a] != #[trigger] ns@[b],
                forall|r: int, c: int|
                    on_board(r, c) ==> #[trigger] self.value(r, c) == if exists|k: int|
                        0 <= k < i && ns@[k] == Cell(r as usize, c as usize) {
                        bombed_value(*old(self), row as int, col as int, r, c)
                    } else if r == row && c == col {
                        -1
                    } else {
                        old(self).value(r, c) as int
                    },
            decreases ns.len() - i,
        {
            let n = ns[i];
            let ghost before = *self;
            let ghost nr = n.0 as int;
            let ghost nc = n.1 as int;
            proof {
                assert(ns@.contains(n));
                assert(Cell(nr as usize, nc as usize) == n);
                if exists|k: int| 0 <= k < i && ns@[k] == Cell(nr as usize, nc as usize) {
                    let k = choose|k: int| 0 <= k < i && ns@[k] == Cell(nr as usize, nc as usize);
                    assert(ns@[k] != ns@[i as int]);
                }
                assert(self.value(nr, nc) == old(self).value(nr, nc));
            }
            if self.cells[n.0][n.1] != -1 {
                self.cells[n.0][n.1] = self.cells[n.0][n.1] + 1;
            }
            proof {
                assert forall|r: int, c: int| on_board(r, c) implies #[trigger] self.value(r, c) == if exists|k: int|
                    0 <= k < i + 1 && ns@[k] == Cell(r as usize, c as usize) {
                    bombed_value(*old(self), row as int, col as int, r, c)
                } else if r == row && c == col {
                    -1
                } else {
                    old(self).value(r, c) as int
                } by {
                    assert(before.value(r, c) == if exists|k: int|
                        0 <= k < i && ns@[k] == Cell(r as usize, c as usize) {
                        bombed_value(*old(self), row as int, col as int, r, c)
                    } else if r == row && c == col {
                        -1
                    } else {
                        old(self).value(r, c) as int
                    });
                    if r == nr && c == nc {
                        assert(0 <= i < i + 1 && ns@[i as int] == Cell(r as usize, c as usize));
                    } else {
                        assert(self.value(r, c) == before.value(r, c));
                        if exists|k: int| 0 <= k < i + 1 && ns@[k] == Cell(r as usize, c as usize) {
                            let k = choose|k: int| 0 <= k < i + 1 && ns@[k] == Cell(r as usize, c as usize);
                            assert(k != i);
                            assert(0 <= k < i && ns@[k] == Cell(r as usize, c as usize));
                        }
                    }
                }
            }
            i = i + 1;
        }
        proof {
            assert forall|r: int, c: int| on_board(r, c) implies #[trigger] self.value(r, c) == bombed_value(
                *old(self),
                row as int,
                col as int,
                r,
                c,
            ) by {
                if adjacent(row as int, col as int, r, c) {
                    let x = Cell(r as usize, c as usize);
                    assert(ns@.contains(x));
                }
            }
            assert forall|r: int, c: int| on_board(r, c) implies #[trigger] self.value(r, c) >= -1 by {
                assert(old(self).value(r, c) >= -1);
            }
        }
    }

    /// Reveals `cell`: a bomb there ends in `Err(cell)`; otherwise the set
    /// of uncovered cells, which is empty.
    pub fn uncover(&mut self, cell: Cell) -> (r: Result<HashSet<Cell>, Cell>)
        requires
            cell.0 < SIZE,
            cell.1 < SIZE,
        ensures
            *final(self) == *old(self),
            r is Err <==> old(self).value(cell.0 as int, cell.1 as int) == -1,
            r matches Err(c) ==> c == cell,
            r matches Ok(s) ==> s@ == Set::<Cell>::empty(),
    {
        let val = self.number(cell);
        if val == -1 {
            return Err(cell);
        }
        let returning: HashSet<Cell> = HashSet::new();
        Ok(returning)
    }

    /// Whether `(row, col)` holds a bomb.
    pub fn bomb(&self, row: usize, col: usize) -> (r: bool)
        requires
            row < SIZE,
            col < SIZE,
        ensures
            r == (self.value(row as int, col as int) == -1),
    {
        self.cells[row][col] == -1
    }

    /// Whether `(row, col)` holds no bomb.
    pub fn safe(&self, row: usize, col: usize) -> (r: bool)
        requires
            row < SIZE,
            col < SIZE,
        ensures
            r == (self.value(row as int, col as int) != -1),
    {
        !self.bomb(row, col)
    }

    /// The value of `cell`.
    pub fn number(&self, cell: Cell) -> (r: i32)
        requires
            cell.0 < SIZE,
            cell.1 < SIZE,
        ensures
            r == self.value(cell.0 as int, cell.1 as int),
    {
        self.cells[cell.0][cell.1]
    }

    /// The cells around `cell`; see `neighbors`.
    pub fn neighbor_cell(&self, cell: Cell) -> (r: Vec<Cell>)
        requires
            i16::MIN < (cell.0 as i16) < i16::MAX,
            i16::MIN < (cell.1 as i16) < i16::MAX,
        ensures
            r@ == neighbor_cells((cell.0 as i16) as int, (cell.1 as i16) as int),
    {
        self.neighbors(cell.0, cell.1)
    }

    /// The cells of the board around `(row, col)`. Row and column are first
    /// taken as `i16`, as `as` does (keeping the low 16 bits), so that for
    /// rows and columns below 32767 these are the cells that touch
    /// `(row, col)`.
    pub fn neighbors(&self, row: usize, col: usize) -> (out: Vec<Cell>)
        requires
            i16::MIN < (row as i16) < i16::MAX,
            i16::MIN < (col as i16) < i16::MAX,
        ensures
            out@ == neighbor_cells((row as i16) as int, (col as i16) as int),
    {
        let r = row as i16;
        let c = col as i16;
        let candidates: [(i16, i16); 8] = [
            (r - 1, c - 1),
            (r - 1, c),
            (r - 1, c + 1),
            (r, c - 1),
            (r, c + 1),
            (r + 1, c - 1),
            (r + 1, c),
            (r + 1, c + 1),
        ];
        let mut out: Vec<Cell> = Vec::new();
        let mut k: usize = 0;
        while k < 8
            invariant
                k <= 8,
                r == row as i16,
                c == col as i16,
                i16::MIN < r < i16::MAX,
                i16::MIN < c < i16::MAX,
                forall|j: int| 0 <= j < 8 ==> #[trigger] candidates@[j] == ((r + offset(j).0) as i16, (c + offset(j).1) as i16),
                out@ == neighbor_prefix(r as int, c as int, k as int),
            decreases 8 - k,
        {
            let (r1, c1) = candidates[k];
            if self.in_board(r1, c1) {
                out.push(Cell(r1 as usize, c1 as usize));
            }
            k = k + 1;
        }
        out
    }

    /// Whether `(row, col)` lies on the board.
    pub fn in_board(&self, row: i16, col: i16) -> (r: bool)
        ensures
            r == on_board(row as int, col as int),
    {
        row >= 0 && row < SIZE as i16 && col >= 0 && col < SIZE as i16
    }
}

/// A solver for a board; it holds the board and does nothing yet.
pub struct Solver {
    pub board: Board,
}

} // verus!
