//! Tic-tac-toe on a 3x3 board against a minimax opponent.
//!
//! Cells hold `1` for the human player, `-1` for the computer and `0`
//! when empty; index `3 * row + col` names a cell.
use vstd::prelude::*;
use crate::text::push_char;

verus! {

/// A cell holds one of the three marks.
pub open spec fn valid_cell(v: i8) -> bool {
    v == -1 || v == 0 || v == 1
}

/// Nine cells, each a valid mark.
pub open spec fn valid_cells(s: Seq<i8>) -> bool {
    &&& s.len() == 9
    &&& forall|i: int| 0 <= i < 9 ==> valid_cell(#[trigger] s[i])
}

/// The mark a player puts down: `1` for the player, `-1` for the opponent.
pub open spec fn mark(player: bool) -> i8 {
    if player {
        1i8
    } else {
        -1i8
    }
}

/// The cells of line `k`, in the order in which they are checked: the
/// three rows, the three columns, then the two diagonals.
pub open spec fn line(k: int) -> (int, int, int) {
    if k < 3 {
        (3 * k, 3 * k + 1, 3 * k + 2)
    } else if k < 6 {
        (k - 3, k, k + 3)
    } else if k == 6 {
        (0, 4, 8)
    } else {
        (2, 4, 6)
    }
}

pub open spec fn line_sum(s: Seq<i8>, k: int) -> int {
    let (a, b, c) = line(k);
    s[a] + s[b] + s[c]
}

/// The winner among lines `k..8`: the owner of the first line whose three
/// cells all hold the same mark, or `0` when there is none.
pub open spec fn score_from(s: Seq<i8>, k: int) -> int
    decreases 8 - k,
{
    if k >= 8 {
        0
    } else if line_sum(s, k) == 3 {
        1
    } else if line_sum(s, k) == -3 {
        -1
    } else {
        score_from(s, k + 1)
    }
}

/// The score of a board: `1` when the player owns a full line, `-1` when
/// the opponent does (the first such line decides), else `0`.
pub open spec fn score_of(s: Seq<i8>) -> int {
    score_from(s, 0)
}

/// The board after `player` marks cell `i`.
pub open spec fn placed(s: Seq<i8>, player: bool, i: int) -> Seq<i8> {
    s.update(i, mark(player))
}

/// The number of empty cells.
pub open spec fn empty_count(s: Seq<i8>) -> nat
    decreases s.len(),
{
    if s.len() == 0 {
        0
    } else {
        empty_count(s.drop_last()) + if s.last() == 0 {
            1nat
        } else {
            0nat
        }
    }
}

/// Whether `score` improves on `best` for the side that is moving.
pub open spec fn improves(maxing: bool, score: int, best: int) -> bool {
    (maxing && score > best) || (!maxing && score < best)
}

/// Minimax over the board `s` with `depth` plies left: the score of the
/// board when it is decided or no ply is left; otherwise the best score
/// over the empty cells for the side to move (the maximizer when
/// `maxing`), or, at the level where `depth == top`, the cell that
/// reaches it. Of equal scores the lowest cell wins.
pub open spec fn min_max_value(s: Seq<i8>, maxing: bool, depth: nat, top: nat) -> int
    decreases depth, 10nat,
{
    if score_of(s) != 0 || depth == 0 {
        score_of(s)
    } else {
        let best = best_among(s, maxing, depth, top, 9);
        if depth == top {
            best.1
        } else {
            best.0
        }
    }
}

/// The best (score, cell) over the empty cells among `0..k`, starting
/// from `(-100, 0)` for the maximizer and `(100, 0)` for the minimizer.
pub open spec fn best_among(s: Seq<i8>, maxing: bool, depth: nat, top: nat, k: nat) -> (int, int)
    decreases depth, k,
{
    if k == 0 || depth == 0 {
        (if maxing {
            -100
        } else {
            100
        }, 0)
    } else {
        let prev = best_among(s, maxing, depth, top, (k - 1) as nat);
        let i = k - 1;
        if s[i] == 0 {
            let sc = min_max_value(placed(s, maxing, i), !maxing, (depth - 1) as nat, top);
            if improves(maxing, sc, prev.0) {
                (sc, i)
            } else {
                prev
            }
        } else {
            prev
        }
    }
}

proof fn lemma_score_from_range(s: Seq<i8>, k: int)
    ensures
        -1 <= score_from(s, k) <= 1,
    decreases 8 - k,
{
    if k < 8 {
        lemma_score_from_range(s, k + 1);
    }
}

proof fn lemma_empty_count_update(s: Seq<i8>, i: int, v: i8)
    requires
        0 <= i < s.len(),
        s[i] == 0,
        v != 0,
    ensures
        empty_count(s.update(i, v)) + 1 == empty_count(s),
    decreases s.len(),
{
    let t = s.update(i, v);
    if i == s.len() - 1 {
        assert(t.drop_last() =~= s.drop_last());
    } else {
        assert(t.drop_last() =~= s.drop_last().update(i, v));
        lemma_empty_count_update(s.drop_last(), i, v);
    }
}

proof fn lemma_empty_exists(s: Seq<i8>)
    requires
        empty_count(s) > 0,
    ensures
        exists|i: int| 0 <= i < s.len() && s[i] == 0,
    decreases s.len(),
{
    if s.last() == 0 {
        assert(s[s.len() - 1] == 0);
    } else {
        lemma_empty_exists(s.drop_last());
        let i = choose|i: int| 0 <= i < s.drop_last().len() && s.drop_last()[i] == 0;
        assert(s[i] == 0);
    }
}

proof fn lemma_best_cell_range(s: Seq<i8>, maxing: bool, depth: nat, top: nat, k: nat)
    ensures
        0 <= best_among(s, maxing, depth, top, k).1 < if k == 0 {
            1
        } else {
            k as int
        },
    decreases k,
{
    if k > 0 && depth > 0 {
        lemma_best_cell_range(s, maxing, depth, top, (k - 1) as nat);
    }
}

/// With no more plies than empty cells, and below the top level, minimax
/// yields a score in `-1..=1`.
proof fn lemma_value_small(s: Seq<i8>, maxing: bool, depth: nat, top: nat)
    requires
        valid_cells(s),
        depth <= empty_count(s),
        depth < top,
    ensures
        -1 <= min_max_value(s, maxing, depth, top) <= 1,
    decreases depth, 10nat,
{
    lemma_score_from_range(s, 0);
    if score_of(s) == 0 && depth != 0 {
        lemma_empty_exists(s);
        let i = choose|i: int| 0 <= i < s.len() && s[i] == 0;
        assert(0 <= i < 9 && s[i] == 0);
        lemma_best_small(s, maxing, depth, top, 9);
    }
}

/// Scanning cells `0..k`: once an empty cell has been seen, the best score
/// is in `-1..=1` and the best cell is empty; before that, the starting pair
/// is kept.
proof fn lemma_best_small(s: Seq<i8>, maxing: bool, depth: nat, top: nat, k: nat)
    requires
        valid_cells(s),
        1 <= depth <= empty_count(s),
        depth - 1 < top,
        k <= 9,
    ensures
        (exists|i: int| 0 <= i < k && s[i] == 0) ==> {
            let b = best_among(s, maxing, depth, top, k);
            &&& -1 <= b.0 <= 1
            &&& 0 <= b.1 < k
            &&& s[b.1] == 0
        },
        !(exists|i: int| 0 <= i < k && s[i] == 0) ==> best_among(s, maxing, depth, top, k) == (
        if maxing {
            -100int
        } else {
            100int
        }, 0int),
    decreases depth, k,
{
    if k > 0 {
        lemma_best_small(s, maxing, depth, top, (k - 1) as nat);
        let i = k - 1;
        if s[i] == 0 {
            let child = placed(s, maxing, i);
            assert forall|j: int| 0 <= j < 9 implies valid_cell(#[trigger] child[j]) by {
                assert(valid_cell(s[j]));
            }
            lemma_empty_count_update(s, i, mark(maxing));
            lemma_value_small(child, !maxing, (depth - 1) as nat, top);
        } else {
            if exists|j: int| 0 <= j < k && s[j] == 0 {
                let j = choose|j: int| 0 <= j < k && s[j] == 0;
                assert(0 <= j < k - 1 && s[j] == 0);
            }
        }
    }
}

/// When the game is undecided and has empty cells, the move that minimax
/// picks at the top level, searching as many plies as there are empty
/// cells, is an empty cell.
pub proof fn lemma_top_move_is_empty(s: Seq<i8>, maxing: bool)
    requires
        valid_cells(s),
        score_of(s) == 0,
        empty_count(s) >= 1,
    ensures
        ({
            let m = min_max_value(s, maxing, empty_count(s), empty_count(s));
            0 <= m < 9 && s[m] == 0
        }),
{
    let d = empty_count(s);
    lemma_empty_exists(s);
    let i = choose|i: int| 0 <= i < s.len() && s[i] == 0;
    assert(0 <= i < 9 && s[i] == 0);
    lemma_best_small(s, maxing, d, d, 9);
}

/// The value that minimax gives the board after the side to move marks
/// cell `i`, searched one ply less.
pub open spec fn child_value(s: Seq<i8>, maxing: bool, depth: nat, top: nat, i: int) -> int {
    min_max_value(placed(s, maxing, i), !maxing, (depth - 1) as nat, top)
}

/// Minimax values lie in `-100..=100`.
proof fn lemma_value_range(s: Seq<i8>, maxing: bool, depth: nat, top: nat)
    ensures
        -100 <= min_max_value(s, maxing, depth, top) <= 100,
    decreases depth, 10nat,
{
    lemma_score_from_range(s, 0);
    if score_of(s) == 0 && depth != 0 {
        lemma_scan_range(s, maxing, depth, top, 9);
        lemma_best_cell_range(s, maxing, depth, top, 9);
    }
}

proof fn lemma_scan_range(s: Seq<i8>, maxing: bool, depth: nat, top: nat, k: nat)
    ensures
        -100 <= best_among(s, maxing, depth, top, k).0 <= 100,
    decreases depth, k,
{
    if k > 0 && depth > 0 {
        lemma_scan_range(s, maxing, depth, top, (k - 1) as nat);
        let i = k - 1;
        if s[i] == 0 {
            lemma_value_range(placed(s, maxing, i), !maxing, (depth - 1) as nat, top);
        }
    }
}

/// What the scan over cells `0..k` keeps: the best score is at least as good
/// as every empty cell seen, it is the starting score or the value of an
/// empty cell seen, and every empty cell before the best cell is strictly
/// worse.
proof fn lemma_scan_best(s: Seq<i8>, maxing: bool, depth: nat, top: nat, k: nat)
    requires
        depth >= 1,
        k <= 9,
    ensures
        ({
            let b = best_among(s, maxing, depth, top, k);
            let start = if maxing {
                -100int
            } else {
                100int
            };
            &&& forall|i: int|
                0 <= i < k && s[i] == 0 ==> (maxing ==> b.0 >= #[trigger] child_value(
                    s,
                    maxing,
                    depth,
                    top,
                    i,
                )) && (!maxing ==> b.0 <= child_value(s, maxing, depth, top, i))
            &&& (b == (start, 0int)) || (0 <= b.1 < k && s[b.1] == 0 && b.0 == child_value(
                s,
                maxing,
                depth,
                top,
                b.1,
            ))
            &&& forall|i: int|
                0 <= i < b.1 && i < k && s[i] == 0 ==> improves(
                    maxing,
                    b.0,
                    #[trigger] child_value(s, maxing, depth, top, i),
                )
        }),
    decreases k,
{
    if k > 0 {
        lemma_scan_best(s, maxing, depth, top, (k - 1) as nat);
        let i = k - 1;
        if s[i] == 0 {
            lemma_value_range(placed(s, maxing, i), !maxing, (depth - 1) as nat, top);
        }
    }
}

/// Below the top level, minimax is the value of the game for the side to
/// move: at least as good as every move, and equal to the value of one.
pub proof fn lemma_min_max_is_best_move(s: Seq<i8>, maxing: bool, depth: nat, top: nat)
    requires
        score_of(s) == 0,
        depth >= 1,
        depth != top,
        exists|i: int| 0 <= i < 9 && s[i] == 0,
    ensures
        forall|i: int|
            0 <= i < 9 && s[i] == 0 ==> (maxing ==> min_max_value(s, maxing, depth, top)
                >= #[trigger] child_value(s, maxing, depth, top, i)) && (!maxing ==> min_max_value(
                s,
                maxing,
                depth,
                top,
            ) <= child_value(s, maxing, depth, top, i)),
        exists|i: int|
            0 <= i < 9 && s[i] == 0 && min_max_value(s, maxing, depth, top) == child_value(
                s,
                maxing,
                depth,
                top,
                i,
            ),
{
    lemma_scan_best(s, maxing, depth, top, 9);
    let b = best_among(s, maxing, depth, top, 9);
    let i = choose|i: int| 0 <= i < 9 && s[i] == 0;
    lemma_value_range(placed(s, maxing, i), !maxing, (depth - 1) as nat, top);
    if b.0 == (if maxing {
        -100int
    } else {
        100int
    }) {
        assert(min_max_value(s, maxing, depth, top) == child_value(s, maxing, depth, top, i));
    }
}

/// At the top level, with no more plies than empty cells, minimax picks an
/// empty cell whose move is at least as good as every other, and the
/// lowest such cell.
pub proof fn lemma_top_move_is_best(s: Seq<i8>, maxing: bool, depth: nat)
    requires
        valid_cells(s),
        score_of(s) == 0,
        1 <= depth <= empty_count(s),
    ensures
        ({
            let m = min_max_value(s, maxing, depth, depth);
            &&& 0 <= m < 9 && s[m] == 0
            &&& forall|i: int|
                0 <= i < 9 && s[i] == 0 ==> (maxing ==> child_value(s, maxing, depth, depth, m)
                    >= #[trigger] child_value(s, maxing, depth, depth, i)) && (!maxing ==> child_value(
                    s,
                    maxing,
                    depth,
                    depth,
                    m,
                ) <= child_value(s, maxing, depth, depth, i))
            &&& forall|i: int|
                0 <= i < m && s[i] == 0 ==> improves(
                    maxing,
                    child_value(s, maxing, depth, depth, m),
                    #[trigger] child_value(s, maxing, depth, depth, i),
                )
        }),
{
    lemma_top_move_is_empty_at(s, maxing, depth);
    lemma_scan_best(s, maxing, depth, depth, 9);
    let b = best_among(s, maxing, depth, depth, 9);
    if b == (if maxing {
        -100int
    } else {
        100int
    }, 0int) {
        lemma_child_small(s, maxing, depth, 0);
    }
}

proof fn lemma_child_small(s: Seq<i8>, maxing: bool, depth: nat, i: int)
    requires
        valid_cells(s),
        1 <= depth <= empty_count(s),
        0 <= i < 9,
        s[i] == 0,
    ensures
        -1 <= child_value(s, maxing, depth, depth, i) <= 1,
{
    let child = placed(s, maxing, i);
    assert forall|j: int| 0 <= j < 9 implies valid_cell(#[trigger] child[j]) by {
        assert(valid_cell(s[j]));
    }
    lemma_empty_count_update(s, i, mark(maxing));
    lemma_value_small(child, !maxing, (depth - 1) as nat, depth);
}

proof fn lemma_top_move_is_empty_at(s: Seq<i8>, maxing: bool, depth: nat)
    requires
        valid_cells(s),
        score_of(s) == 0,
        1 <= depth <= empty_count(s),
    ensures
        ({
            let m = min_max_value(s, maxing, depth, depth);
            0 <= m < 9 && s[m] == 0
        }),
{
    lemma_empty_exists(s);
    let i = choose|i: int| 0 <= i < s.len() && s[i] == 0;
    assert(0 <= i < 9 && s[i] == 0);
    lemma_best_small(s, maxing, depth, depth, 9);
}

/// The cells of each line are three distinct cells of the board.
proof fn lemma_line_cells(k: int)
    requires
        0 <= k < 8,
    ensures
        0 <= line(k).0 < 9,
        0 <= line(k).1 < 9,
        0 <= line(k).2 < 9,
        line(k).0 != line(k).1,
        line(k).0 != line(k).2,
        line(k).1 != line(k).2,
{
}

/// The score in terms of the lines: `0` exactly when no line among `k..8`
/// is full of one mark; `1` when some line is full of the player's marks and
/// none of the opponent's.
proof fn lemma_score_from_lines(s: Seq<i8>, k: int)
    requires
        0 <= k <= 8,
    ensures
        (score_from(s, k) == 0) == (forall|j: int|
            k <= j < 8 ==> #[trigger] line_sum(s, j) != 3 && line_sum(s, j) != -3),
        score_from(s, k) == 1 ==> exists|j: int| k <= j < 8 && #[trigger] line_sum(s, j) == 3,
        (forall|j: int| k <= j < 8 ==> #[trigger] line_sum(s, j) != -3) && (exists|j: int|
            k <= j < 8 && #[trigger] line_sum(s, j) == 3) ==> score_from(s, k) == 1,
    decreases 8 - k,
{
    if k < 8 {
        lemma_score_from_lines(s, k + 1);
        if exists|j: int| k <= j < 8 && #[trigger] line_sum(s, j) == 3 {
            let j = choose|j: int| k <= j < 8 && #[trigger] line_sum(s, j) == 3;
            if j > k {
                assert(k + 1 <= j < 8 && line_sum(s, j) == 3);
            }
        }
    }
}

/// A threat survives a move elsewhere: when the player would complete a
/// line at `c`, and the opponent marks another empty cell `i` without
/// winning, the player still wins at `c`.
proof fn lemma_threat_survives(s: Seq<i8>, i: int, c: int)
    requires
        valid_cells(s),
        0 <= i < 9,
        0 <= c < 9,
        i != c,
        s[i] == 0,
        s[c] == 0,
        score_of(placed(s, true, c)) == 1,
        score_of(placed(s, false, i)) == 0,
    ensures
        score_of(placed(placed(s, false, i), true, c)) == 1,
{
    let u = placed(s, true, c);
    let p = placed(s, false, i);
    let t = placed(p, true, c);
    lemma_score_from_lines(u, 0);
    lemma_score_from_lines(p, 0);
    lemma_score_from_lines(t, 0);
    let j0 = choose|j: int| 0 <= j < 8 && #[trigger] line_sum(u, j) == 3;
    lemma_line_cells(j0);
    let (a0, b0, c0) = line(j0);
    assert(valid_cell(s[a0]) && valid_cell(s[b0]) && valid_cell(s[c0]));
    assert(u[a0] == 1 && u[b0] == 1 && u[c0] == 1);
    assert(line_sum(t, j0) == 3);
    assert forall|j: int| 0 <= j < 8 implies #[trigger] line_sum(t, j) != -3 by {
        lemma_line_cells(j);
        let (a, b, d) = line(j);
        assert(valid_cell(s[a]) && valid_cell(s[b]) && valid_cell(s[d]));
        assert(line_sum(p, j) != -3);
    }
}

/// An immediate win: below the top level, when the side to move can
/// complete a line at some empty cell, minimax gives the board that side's
/// mark as its value.
pub proof fn lemma_immediate_win(s: Seq<i8>, maxing: bool, depth: nat, top: nat, c: int)
    requires
        valid_cells(s),
        score_of(s) == 0,
        1 <= depth <= empty_count(s),
        depth < top,
        0 <= c < 9,
        s[c] == 0,
        score_of(placed(s, maxing, c)) == mark(maxing),
    ensures
        min_max_value(s, maxing, depth, top) == mark(maxing),
{
    lemma_min_max_is_best_move(s, maxing, depth, top);
    lemma_value_small(s, maxing, depth, top);
    assert(child_value(s, maxing, depth, top, c) == mark(maxing));
}

/// The computer blocks: when the player could complete a line at cell `c`
/// and the computer cannot win with any move, the computer's move (searching
/// as many plies as there are empty cells) is `c`, unless blocking at `c`
/// loses anyway.
pub proof fn lemma_ai_blocks(s: Seq<i8>, c: int)
    requires
        valid_cells(s),
        score_of(s) == 0,
        empty_count(s) >= 2,
        0 <= c < 9,
        s[c] == 0,
        score_of(placed(s, true, c)) == 1,
        forall|i: int| 0 <= i < 9 && s[i] == 0 ==> #[trigger] score_of(placed(s, false, i)) == 0,
    ensures
        ({
            let e = empty_count(s);
            let m = min_max_value(s, false, e, e);
            m == c || child_value(s, false, e, e, c) == 1
        }),
{
    let e = empty_count(s);
    let m = min_max_value(s, false, e, e);
    lemma_top_move_is_best(s, false, e);
    if m != c {
        let t = placed(s, false, m);
        assert(score_of(t) == 0);
        assert forall|j: int| 0 <= j < 9 implies valid_cell(#[trigger] t[j]) by {
            assert(valid_cell(s[j]));
        }
        lemma_empty_count_update(s, m, -1i8);
        lemma_threat_survives(s, m, c);
        assert(t[c] == 0);
        lemma_immediate_win(t, true, (e - 1) as nat, e, c);
        assert(child_value(s, false, e, e, m) == 1);
        lemma_child_small(s, false, e, c);
    }
}

/// How a cell is printed: its mark as a number.
pub open spec fn value_text(v: i8) -> Seq<char> {
    if v == -1 {
        seq!['-', '1']
    } else if v == 0 {
        seq!['0']
    } else {
        seq!['1']
    }
}

/// The printed text of row `row`: the three cells separated by a tab, `|`
/// and a tab.
pub open spec fn row_text_of(s: Seq<i8>, row: int) -> Seq<char> {
    value_text(s[3 * row]) + seq!['\t', '|', '\t'] + value_text(s[3 * row + 1]) + seq!['\t', '|', '\t']
        + value_text(s[3 * row + 2])
}

/// Appends the printed value of a cell.
fn push_value(s: &mut String, v: i8)
    requires
        valid_cell(v),
    ensures
        final(s)@ == old(s)@ + value_text(v),
{
    if v == -1 {
        push_char(s, '-');
        push_char(s, '1');
    } else if v == 0 {
        push_char(s, '0');
    } else {
        push_char(s, '1');
    }
    assert(s@ =~= old(s)@ + value_text(v));
}

/// Appends a tab, `|` and a tab.
fn push_separator(s: &mut String)
    ensures
        final(s)@ == old(s)@ + seq!['\t', '|', '\t'],
{
    push_char(s, '\t');
    push_char(s, '|');
    push_char(s, '\t');
    assert(s@ =~= old(s)@ + seq!['\t', '|', '\t']);
}

/// A 3x3 tic-tac-toe board.
pub struct Board {
    pub values: [i8; 9],
}

impl Board {
    /// Every cell holds `-1`, `0` or `1`.
    pub open spec fn wf(&self) -> bool {
        valid_cells(self.values@)
    }

    /// The empty board.
    pub fn empty() -> (b: Board)
        ensures
            b.wf(),
            b.values@ == Seq::new(9, |i: int| 0i8),
    {
        let b = Board { values: [0;9] };
        assert(b.values@ =~= Seq::new(9, |i: int| 0i8));
        b
    }

    /// A board in the middle of a game, for trying things out.
    pub fn example() -> (b: Board)
        ensures
            b.wf(),
            b.values@ == seq![1i8, 1i8, 0i8, -1i8, 0i8, 0i8, 1i8, -1i8, -1i8],
    {
        let b = Board { values: [1, 1, 0, -1, 0, 0, 1, -1, -1] };
        assert(b.values@ =~= seq![1i8, 1i8, 0i8, -1i8, 0i8, 0i8, 1i8, -1i8, -1i8]);
        b
    }

    /// Whether the game is decided. A full board without a winner does not
    /// count as over.
    pub fn over(&self) -> (r: bool)
        requires
            self.wf(),
        ensures
            r == (score_of(self.values@) != 0),
    {
        self.score() != 0
    }

    /// `1` when the player owns a full line, `-1` when the opponent does,
    /// `0` otherwise; rows are checked first, then columns, then diagonals.
    pub fn score(&self) -> (r: i8)
        requires
            self.wf(),
        ensures
            r == score_of(self.values@),
            -1 <= r <= 1,
    {
        let ghost s = self.values@;
        let mut sum: i8;
        let mut row: usize = 0;
        while row < 3
            invariant
                row <= 3,
                s == self.values@,
                valid_cells(s),
                score_of(s) == score_from(s, row as int),
            decreases 3 - row,
        {
            assert(valid_cell(s[(row * 3) as int]) && valid_cell(s[(row * 3 + 1) as int]) && valid_cell(
                s[(row * 3 + 2) as int],
            ));
            sum = self.values[row * 3] + self.values[row * 3 + 1] + self.values[row * 3 + 2];
            assert(sum == line_sum(s, row as int));
            if sum == 3 {
                return 1;
            }
            if sum == -3 {
                return -1;
            }
            row = row + 1;
        }
        let mut col: usize = 0;
        while col < 3
            invariant
                col <= 3,
                s == self.values@,
                valid_cells(s),
                score_of(s) == score_from(s, 3 + col),
            decreases 3 - col,
        {
            assert(valid_cell(s[col as int]) && valid_cell(s[3 + col]) && valid_cell(s[6 + col]));
            sum = self.values[0 + col] + self.values[3 + col] + self.values[6 + col];
            assert(sum == line_sum(s, 3 + col));
            if sum == 3 {
                return 1;
            }
            if sum == -3 {
                return -1;
            }
            col = col + 1;
        }
        assert(valid_cell(s[0]) && valid_cell(s[4]) && valid_cell(s[8]));
        sum = self.values[0] + self.values[4] + self.values[8];
        assert(sum == line_sum(s, 6));
        if sum == 3 {
            return 1;
        }
        if sum == -3 {
            return -1;
        }
        assert(score_of(s) == score_from(s, 7));
        assert(valid_cell(s[2]) && valid_cell(s[6]));
        sum = self.values[2] + self.values[4] + self.values[6];
        assert(sum == line_sum(s, 7));
        if sum == 3 {
            return 1;
        }
        if sum == -3 {
            return -1;
        }
        assert(score_of(s) == score_from(s, 8));
        0
    }

    /// `player` marks cell `index`, whatever it held before.
    pub fn place(&mut self, player: bool, index: usize)
        requires
            old(self).wf(),
            index < 9,
        ensures
            final(self).wf(),
            final(self).values@ == placed(old(self).values@, player, index as int),
    {
        let play_value: i8 = if player {
            1
        } else {
            -1
        };
        self.values[index] = play_value;
    }

    /// The printed text of row `row`; see `row_text_of`.
    pub fn row_text(&self, row: usize) -> (s: String)
        requires
            self.wf(),
            row < 3,
        ensures
            s@ == row_text_of(self.values@, row as int),
    {
        let mut s = String::new();
        assert(valid_cell(self.values@[3 * row as int]) && valid_cell(self.values@[3 * row + 1]) && valid_cell(
            self.values@[3 * row + 2],
        ));
        push_value(&mut s, self.values[3 * row]);
        push_separator(&mut s);
        push_value(&mut s, self.values[3 * row + 1]);
        push_separator(&mut s);
        push_value(&mut s, self.values[3 * row + 2]);
        assert(s@ =~= row_text_of(self.values@, row as int));
        s
    }

    /// A copy of the board.
    pub fn clone(&self) -> (b: Board)
        ensures
            b.values@ == self.values@,
    {
        Board { values: self.values }
    }
}

/// The player marks cell `index`.
pub fn human_play(b: Board, index: usize) -> (r: Board)
    requires
        b.wf(),
        index < 9,
    ensures
        r.wf(),
        r.values@ == placed(b.values@, true, index as int),
{
    let mut b = b;
    b.place(true, index);
    b
}

/// The number of empty cells on the board.
fn count_empty(b: &Board) -> (n: u8)
    ensures
        n == empty_count(b.values@),
        n <= 9,
{
    let ghost s = b.values@;
    let mut n: u8 = 0;
    let mut i: usize = 0;
    while i < 9
        invariant
            i <= 9,
            s == b.values@,
            n == empty_count(s.subrange(0, i as int)),
            n <= i,
        decreases 9 - i,
    {
        assert(s.subrange(0, i + 1).drop_last() =~= s.subrange(0, i as int));
        if b.values[i] == 0 {
            n = n + 1;
        }
        i = i + 1;
    }
    assert(s.subrange(0, 9) =~= s);
    n
}

/// The opponent (the minimizer) searches as many plies as there are empty
/// cells and marks the cell that minimax picks.
pub fn smart_ai_play(b: Board) -> (r: Board)
    requires
        b.wf(),
        score_of(b.values@) != -1,
    ensures
        r.wf(),
        r.values@ == placed(
            b.values@,
            false,
            min_max_value(b.values@, false, empty_count(b.values@), empty_count(b.values@)),
        ),
        score_of(b.values@) == 0 && empty_count(b.values@) >= 1 ==> exists|i: int|
            0 <= i < 9 && b.values@[i] == 0 && r.values@ == placed(b.values@, false, i),
{
    let depth = count_empty(&b);
    let best_move = min_max(b.clone(), false, depth, depth);
    proof {
        lemma_score_from_range(b.values@, 0);
        if score_of(b.values@) == 0 && depth != 0 {
            lemma_best_cell_range(b.values@, false, depth as nat, depth as nat, 9);
        }
        if score_of(b.values@) == 0 && empty_count(b.values@) >= 1 {
            lemma_top_move_is_empty(b.values@, false);
        }
    }
    let mut b = b;
    b.place(false, best_move as usize);
    b
}

/// Minimax search: see `min_max_value`. At the level where `depth`
/// equals `intial_depth` the result is the chosen cell, elsewhere a score.
pub fn min_max(board: Board, maxing: bool, depth: u8, intial_depth: u8) -> (r: i8)
    requires
        board.wf(),
    ensures
        r == min_max_value(board.values@, maxing, depth as nat, intial_depth as nat),
    decreases depth,
{
    let ghost s = board.values@;
    let current_score = board.score();
    if current_score != 0 || depth == 0 {
        return current_score;
    }
    let mut best_move: usize = 0;
    let mut best_score: i8 = if maxing {
        -100
    } else {
        100
    };
    let mut index: usize = 0;
    while index < 9
        invariant
            index <= 9,
            depth > 0,
            board.wf(),
            s == board.values@,
            (best_score as int, best_move as int) == best_among(
                s,
                maxing,
                depth as nat,
                intial_depth as nat,
                index as nat,
            ),
        decreases 9 - index,
    {
        if board.values[index] == 0 {
            let mut copy = board.clone();
            copy.place(maxing, index);
            let score = min_max(copy, !maxing, depth - 1, intial_depth);
            if (maxing && score > best_score) || (!maxing && score < best_score) {
                best_score = score;
                best_move = index;
            }
        }
        index = index + 1;
    }
    proof {
        lemma_best_cell_range(s, maxing, depth as nat, intial_depth as nat, 9);
    }
    if depth == intial_depth {
        best_move as i8
    } else {
        best_score
    }
}

} // verus!
