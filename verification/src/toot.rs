//! The letter-sequence rule set: a run of four cells whose glyphs read
//! T-O-O-T wins for side A and O-T-T-O wins for side B, regardless of
//! which side dropped each disc; a full board with no winning run is a
//! draw.

use vstd::prelude::*;
use crate::board::{
    blank_cell, lemma_dims_bound, lemma_idx_in_range, BoardModel, Cell, GameError, GameOutcome,
    Grid, Letter, Side,
};
use crate::connect4::{rcol, rrow, run_in_bounds};

verus! {

/// The glyph side `s` needs at position `k` of a winning run: T-O-O-T for
/// side A, O-T-T-O for side B.
pub open spec fn pattern(s: Side, k: int) -> Letter {
    match s {
        Side::A => if k == 0 || k == 3 {
            Letter::T
        } else {
            Letter::O
        },
        Side::B => if k == 0 || k == 3 {
            Letter::O
        } else {
            Letter::T
        },
    }
}

/// The run anchored at `(i, j)` in direction `d` spells the winning
/// pattern of side `s`.  Only the glyphs matter, never the owners.
pub open spec fn letter_run_win(b: BoardModel, i: int, j: int, d: int, s: Side) -> bool {
    &&& run_in_bounds(b, i, j, d)
    &&& b.at(rrow(i, d, 0), rcol(j, d, 0)).letter == pattern(s, 0)
    &&& b.at(rrow(i, d, 1), rcol(j, d, 1)).letter == pattern(s, 1)
    &&& b.at(rrow(i, d, 2), rcol(j, d, 2)).letter == pattern(s, 2)
    &&& b.at(rrow(i, d, 3), rcol(j, d, 3)).letter == pattern(s, 3)
}

/// Side `s`'s pattern appears somewhere on the board.
pub open spec fn letter_wins(b: BoardModel, s: Side) -> bool {
    exists|i: int, j: int, d: int| 0 <= d < 4 && #[trigger] letter_run_win(b, i, j, d, s)
}

/// The outcome the letter rules assign to a board: a winning pattern
/// decides (side A's pattern scanned first), else a full board is a draw.
pub open spec fn letter_outcome_of(b: BoardModel) -> GameOutcome {
    if letter_wins(b, Side::A) {
        GameOutcome::WinnerA
    } else if letter_wins(b, Side::B) {
        GameOutcome::WinnerB
    } else if b.full() {
        GameOutcome::Draw
    } else {
        GameOutcome::InProgress
    }
}

/// Letter wins are blind to owners: two boards of the same dimensions
/// whose cells carry the same glyphs have the same winning patterns, no
/// matter who dropped each disc.
pub proof fn lemma_letter_win_owner_blind(b1: BoardModel, b2: BoardModel, s: Side)
    requires
        b1.rows == b2.rows,
        b1.columns == b2.columns,
        b1.cells.len() == b2.cells.len(),
        b1.columns >= 1,
        b1.cells.len() == b1.rows * b1.columns,
        forall|t: int|
            0 <= t < b1.cells.len() ==> (#[trigger] b1.cells[t]).letter == b2.cells[t].letter,
    ensures
        letter_wins(b1, s) == letter_wins(b2, s),
{
    assert forall|i: int, j: int, d: int|
        0 <= d < 4 && #[trigger] letter_run_win(b1, i, j, d, s) implies letter_run_win(
        b2,
        i,
        j,
        d,
        s,
    ) by {
        lemma_run_letters_carry(b1, b2, i, j, d, s);
    }
    assert forall|i: int, j: int, d: int|
        0 <= d < 4 && #[trigger] letter_run_win(b2, i, j, d, s) implies letter_run_win(
        b1,
        i,
        j,
        d,
        s,
    ) by {
        lemma_run_letters_carry(b2, b1, i, j, d, s);
    }
}

proof fn lemma_run_letters_carry(b1: BoardModel, b2: BoardModel, i: int, j: int, d: int, s: Side)
    requires
        b1.rows == b2.rows,
        b1.columns == b2.columns,
        b1.cells.len() == b2.cells.len(),
        forall|t: int|
            0 <= t < b1.cells.len() ==> (#[trigger] b1.cells[t]).letter == b2.cells[t].letter,
        b1.columns >= 1,
        b1.cells.len() == b1.rows * b1.columns,
        letter_run_win(b1, i, j, d, s),
    ensures
        letter_run_win(b2, i, j, d, s),
{
    let rows = b1.rows;
    let columns = b1.columns;
    assert forall|k: int| 0 <= k < 4 implies #[trigger] b1.at(rrow(i, d, k), rcol(j, d, k)).letter
        == b2.at(rrow(i, d, k), rcol(j, d, k)).letter by {
        lemma_idx_in_range(b1.rows, b1.columns, rrow(i, d, k), rcol(j, d, k));
    }
    assert(b1.at(rrow(i, d, 0), rcol(j, d, 0)).letter == b2.at(rrow(i, d, 0), rcol(j, d, 0)).letter);
    assert(b1.at(rrow(i, d, 1), rcol(j, d, 1)).letter == b2.at(rrow(i, d, 1), rcol(j, d, 1)).letter);
    assert(b1.at(rrow(i, d, 2), rcol(j, d, 2)).letter == b2.at(rrow(i, d, 2), rcol(j, d, 2)).letter);
    assert(b1.at(rrow(i, d, 3), rcol(j, d, 3)).letter == b2.at(rrow(i, d, 3), rcol(j, d, 3)).letter);
}

/// Draw completeness: a full board spelling no winning pattern for
/// either side is a draw, never in progress.
pub proof fn lemma_letter_draw_completeness(b: BoardModel)
    requires
        b.full(),
        !letter_wins(b, Side::A),
        !letter_wins(b, Side::B),
    ensures
        letter_outcome_of(b) == GameOutcome::Draw,
{
}

/// A board of empty cells spells no winning pattern.
pub proof fn lemma_blank_no_letter_wins(b: BoardModel, s: Side)
    requires
        forall|r: int, c: int| b.in_bounds(r, c) ==> #[trigger] b.at(r, c) == blank_cell(),
    ensures
        !letter_wins(b, s),
{
    if letter_wins(b, s) {
        let (i, j, d) = choose|i: int, j: int, d: int|
            0 <= d < 4 && #[trigger] letter_run_win(b, i, j, d, s);
        assert(b.in_bounds(rrow(i, d, 0), rcol(j, d, 0)));
        assert(b.at(rrow(i, d, 0), rcol(j, d, 0)) == blank_cell());
        assert(pattern(s, 0) != Letter::Blank);
    }
}

/// The letter-sequence game board.
pub struct TootOttoGameBoard {
    pub grid: Grid,
}

impl TootOttoGameBoard {
    pub open spec fn wf(self) -> bool {
        self.grid.wf()
    }

    /// Creates an empty board.
    pub fn new(rows: usize, columns: usize) -> (g: TootOttoGameBoard)
        requires
            1 <= rows <= 50,
            1 <= columns <= 50,
        ensures
            g.wf(),
            g.grid.rows == rows,
            g.grid.columns == columns,
            g.grid.moves == 0,
            forall|r: int, c: int|
                g.grid.model().in_bounds(r, c) ==> #[trigger] g.grid.at(r, c) == blank_cell(),
            forall|r: int, c: int|
                g.grid.model().in_bounds(r, c) ==> #[trigger] g.grid.model().at(r, c)
                    == blank_cell(),
    {
        TootOttoGameBoard { grid: Grid::new(rows, columns) }
    }

    /// Gravity-drop of a disc of side `s` carrying glyph `l`; see
    /// `Grid::try_drop`.
    pub fn try_drop(&mut self, column: usize, s: Side, l: Letter) -> (r: Result<usize, GameError>)
        requires
            old(self).wf(),
            l != Letter::Blank,
        ensures
            final(self).wf(),
            r is Ok <==> old(self).grid.col_open(column as int),
            r is Err ==> *final(self) == *old(self) && r == Err::<usize, GameError>(
                GameError::InvalidMove,
            ),
            r matches Ok(row) ==> {
                &&& row as int == old(self).grid.landing_row(column as int)
                &&& final(self).grid.model() == old(self).grid.model().do_drop(column as int, s, l)
                &&& final(self).grid.moves == old(self).grid.moves + 1
                &&& final(self).grid.rows == old(self).grid.rows
                &&& final(self).grid.columns == old(self).grid.columns
            },
    {
        self.grid.try_drop(column, s, l)
    }

    /// True when the move counter has reached the grid capacity.
    pub fn is_full(&self) -> (r: bool)
        requires
            self.wf(),
        ensures
            r == self.grid.spec_full(),
    {
        self.grid.is_full()
    }

    /// Read a cell; never fails for in-bounds coordinates.
    pub fn cell(&self, row: usize, column: usize) -> (r: Cell)
        requires
            self.wf(),
            row < self.grid.rows,
            column < self.grid.columns,
        ensures
            r == self.grid.at(row as int, column as int),
    {
        self.grid.cell(row, column)
    }

    /// The outcome the rules assign to the current board.
    pub fn evaluate(&self) -> (r: GameOutcome)
        requires
            self.wf(),
        ensures
            r == letter_outcome_of(self.grid.model()),
    {
        evaluate_letter_grid(&self.grid)
    }
}

/// Scans every anchor cell and direction for winning letter runs of
/// either side.
pub fn scan_letter_wins(g: &Grid) -> (r: (bool, bool))
    requires
        g.wf(),
    ensures
        r.0 == letter_wins(g.model(), Side::A),
        r.1 == letter_wins(g.model(), Side::B),
{
    let ghost b = g.model();
    let rows = g.rows;
    let columns = g.columns;
    proof {
        lemma_dims_bound(rows as int, columns as int);
    }
    let total = rows * columns;
    let mut found_a = false;
    let mut found_b = false;
    let mut t: usize = 0;
    while t < total
        invariant
            g.wf(),
            b == g.model(),
            rows == g.rows,
            columns == g.columns,
            total == rows * columns,
            t <= total,
            found_a == exists|i: int, j: int, d: int|
                0 <= d < 4 && i * (columns as int) + j < t && 0 <= j < columns
                    && #[trigger] letter_run_win(b, i, j, d, Side::A),
            found_b == exists|i: int, j: int, d: int|
                0 <= d < 4 && i * (columns as int) + j < t && 0 <= j < columns
                    && #[trigger] letter_run_win(b, i, j, d, Side::B),
        decreases total - t,
    {
        let i = t / columns;
        let j = t % columns;
        proof {
            vstd::arithmetic::div_mod::lemma_fundamental_div_mod(t as int, columns as int);
            vstd::arithmetic::div_mod::lemma_mod_bound(t as int, columns as int);
            vstd::arithmetic::div_mod::lemma_div_pos_is_pos(t as int, columns as int);
            vstd::arithmetic::mul::lemma_mul_is_commutative(columns as int, t as int / columns as int);
            if t as int / columns as int >= rows {
                vstd::arithmetic::mul::lemma_mul_inequality(
                    rows as int,
                    t as int / columns as int,
                    columns as int,
                );
            }
            assert(t as int == (i as int) * (columns as int) + j as int);
            assert(i < rows);
        }
        let mut d: usize = 0;
        while d < 4
            invariant
                g.wf(),
                b == g.model(),
                rows == g.rows,
                columns == g.columns,
                total == rows * columns,
                d <= 4,
                i < rows,
                j < columns,
                t < total,
                t as int == (i as int) * (columns as int) + j as int,
                found_a == exists|i2: int, j2: int, d2: int|
                    0 <= d2 < 4 && 0 <= j2 < columns && (i2 * (columns as int) + j2 < t || (i2
                        * (columns as int) + j2 == t && d2 < d)) && #[trigger] letter_run_win(
                        b,
                        i2,
                        j2,
                        d2,
                        Side::A,
                    ),
                found_b == exists|i2: int, j2: int, d2: int|
                    0 <= d2 < 4 && 0 <= j2 < columns && (i2 * (columns as int) + j2 < t || (i2
                        * (columns as int) + j2 == t && d2 < d)) && #[trigger] letter_run_win(
                        b,
                        i2,
                        j2,
                        d2,
                        Side::B,
                    ),
            decreases 4 - d,
        {
            let ghost d_pre = d as int;
            let (hit_a, hit_b) = check_letter_run(g, i, j, d);
            if hit_a {
                found_a = true;
                assert(letter_run_win(b, i as int, j as int, d as int, Side::A));
            }
            if hit_b {
                found_b = true;
                assert(letter_run_win(b, i as int, j as int, d as int, Side::B));
            }
            proof {
                crate::board::lemma_idx_injective(rows as int, columns as int);
                assert forall|i2: int, j2: int, d2: int|
                    0 <= d2 < 4 && 0 <= j2 < columns && (i2 * (columns as int) + j2 < t || (i2
                        * (columns as int) + j2 == t && d2 < d_pre + 1))
                        && #[trigger] letter_run_win(b, i2, j2, d2, Side::A) implies found_a by {
                    if i2 * (columns as int) + j2 == t && d2 == d_pre {
                        assert(b.in_bounds(rrow(i2, d2, 0), rcol(j2, d2, 0)));
                        assert(0 <= i2 < rows);
                        assert(i2 == i as int && j2 == j as int);
                    }
                }
                assert forall|i2: int, j2: int, d2: int|
                    0 <= d2 < 4 && 0 <= j2 < columns && (i2 * (columns as int) + j2 < t || (i2
                        * (columns as int) + j2 == t && d2 < d_pre + 1))
                        && #[trigger] letter_run_win(b, i2, j2, d2, Side::B) implies found_b by {
                    if i2 * (columns as int) + j2 == t && d2 == d_pre {
                        assert(b.in_bounds(rrow(i2, d2, 0), rcol(j2, d2, 0)));
                        assert(0 <= i2 < rows);
                        assert(i2 == i as int && j2 == j as int);
                    }
                }
            }
            d += 1;
        }
        t += 1;
    }
    proof {
        if letter_wins(b, Side::A) {
            let (i, j, d) = choose|i: int, j: int, d: int|
                0 <= d < 4 && #[trigger] letter_run_win(b, i, j, d, Side::A);
            assert(b.in_bounds(rrow(i, d, 0), rcol(j, d, 0)));
            lemma_idx_in_range(rows as int, columns as int, i, j);
        }
        if letter_wins(b, Side::B) {
            let (i, j, d) = choose|i: int, j: int, d: int|
                0 <= d < 4 && #[trigger] letter_run_win(b, i, j, d, Side::B);
            assert(b.in_bounds(rrow(i, d, 0), rcol(j, d, 0)));
            lemma_idx_in_range(rows as int, columns as int, i, j);
        }
    }
    (found_a, found_b)
}

/// Checks the one run anchored at `(i, j)` in direction `d` against both
/// sides' patterns.
fn check_letter_run(g: &Grid, i: usize, j: usize, d: usize) -> (r: (bool, bool))
    requires
        g.wf(),
        i < g.rows,
        j < g.columns,
        d < 4,
    ensures
        r.0 == letter_run_win(g.model(), i as int, j as int, d as int, Side::A),
        r.1 == letter_run_win(g.model(), i as int, j as int, d as int, Side::B),
{
    let ghost b = g.model();
    let rows = g.rows;
    let columns = g.columns;
    let in_range: bool = if d == 0 {
        j + 3 < columns
    } else if d == 1 {
        i + 3 < rows
    } else if d == 2 {
        i + 3 < rows && j + 3 < columns
    } else {
        i >= 3 && j + 3 < columns
    };
    if !in_range {
        assert(!run_in_bounds(b, i as int, j as int, d as int));
        return (false, false);
    }
    assert(run_in_bounds(b, i as int, j as int, d as int));
    let l0 = g.cell(i, j).letter;
    let (i1, j1) = letter_cell_coords(i, j, d, 1);
    let (i2, j2) = letter_cell_coords(i, j, d, 2);
    let (i3, j3) = letter_cell_coords(i, j, d, 3);
    let l1 = g.cell(i1, j1).letter;
    let l2 = g.cell(i2, j2).letter;
    let l3 = g.cell(i3, j3).letter;
    let a_hit = l0 == Letter::T && l1 == Letter::O && l2 == Letter::O && l3 == Letter::T;
    let b_hit = l0 == Letter::O && l1 == Letter::T && l2 == Letter::T && l3 == Letter::O;
    (a_hit, b_hit)
}

/// Coordinates of the `k`-th cell of an in-bounds run.
fn letter_cell_coords(i: usize, j: usize, d: usize, k: usize) -> (r: (usize, usize))
    requires
        d < 4,
        1 <= k <= 3,
        i <= 100,
        j <= 100,
        d == 3 ==> i >= 3,
    ensures
        r.0 as int == rrow(i as int, d as int, k as int),
        r.1 as int == rcol(j as int, d as int, k as int),
{
    if d == 0 {
        (i, j + k)
    } else if d == 1 {
        (i + k, j)
    } else if d == 2 {
        (i + k, j + k)
    } else {
        (i - k, j + k)
    }
}

/// The outcome the letter rules assign to the grid.
pub fn evaluate_letter_grid(g: &Grid) -> (r: GameOutcome)
    requires
        g.wf(),
    ensures
        r == letter_outcome_of(g.model()),
{
    let (found_a, found_b) = scan_letter_wins(g);
    if found_a {
        GameOutcome::WinnerA
    } else if found_b {
        GameOutcome::WinnerB
    } else if g.is_full() {
        GameOutcome::Draw
    } else {
        GameOutcome::InProgress
    }
}

} // verus!
