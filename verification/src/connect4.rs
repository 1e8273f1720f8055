//! The four-in-a-row rule set: a run of four cells sharing one non-empty
//! owner wins for that owner, and a full board with no winning run is a
//! draw.  The heuristic scores each run by the signed cube of its net
//! owner count; a run holding cells of both owners contributes 0.

use vstd::prelude::*;
use crate::board::{
    blank_cell, lemma_dims_bound, lemma_idx_in_range, BoardModel, Cell, GameError, GameOutcome,
    Grid, Letter, Owner, Side, spec_owner_of,
};

verus! {

/// Row step of scan direction `d`: rightward, downward, down-right,
/// up-right.
pub open spec fn dir_dr(d: int) -> int {
    if d == 0 {
        0
    } else if d == 1 {
        1
    } else if d == 2 {
        1
    } else {
        -1
    }
}

/// Column step of scan direction `d`.
pub open spec fn dir_dc(d: int) -> int {
    if d == 1 {
        0
    } else {
        1
    }
}

/// Row of the `k`-th cell of the run anchored at `(i, j)` in direction `d`.
pub open spec fn rrow(i: int, d: int, k: int) -> int {
    i + k * dir_dr(d)
}

/// Column of the `k`-th cell of that run.
pub open spec fn rcol(j: int, d: int, k: int) -> int {
    j + k * dir_dc(d)
}

/// The whole 4-cell run anchored at `(i, j)` in direction `d` stays on the
/// board.
pub open spec fn run_in_bounds(b: BoardModel, i: int, j: int, d: int) -> bool {
    &&& b.in_bounds(rrow(i, d, 0), rcol(j, d, 0))
    &&& b.in_bounds(rrow(i, d, 1), rcol(j, d, 1))
    &&& b.in_bounds(rrow(i, d, 2), rcol(j, d, 2))
    &&& b.in_bounds(rrow(i, d, 3), rcol(j, d, 3))
}

/// The run anchored at `(i, j)` in direction `d` is a winning run for side
/// `s`: on the board, with all four cells dropped by `s`.
pub open spec fn run_win(b: BoardModel, i: int, j: int, d: int, s: Side) -> bool {
    &&& run_in_bounds(b, i, j, d)
    &&& b.at(rrow(i, d, 0), rcol(j, d, 0)).owner == spec_owner_of(s)
    &&& b.at(rrow(i, d, 1), rcol(j, d, 1)).owner == spec_owner_of(s)
    &&& b.at(rrow(i, d, 2), rcol(j, d, 2)).owner == spec_owner_of(s)
    &&& b.at(rrow(i, d, 3), rcol(j, d, 3)).owner == spec_owner_of(s)
}

/// Side `s` has a four-in-a-row somewhere on the board.
pub open spec fn wins(b: BoardModel, s: Side) -> bool {
    exists|i: int, j: int, d: int| 0 <= d < 4 && #[trigger] run_win(b, i, j, d, s)
}

/// The outcome the four-in-a-row rules assign to a board: a winning run
/// decides (side A scanned first), else a full board is a draw.
pub open spec fn outcome_of(b: BoardModel) -> GameOutcome {
    if wins(b, Side::A) {
        GameOutcome::WinnerA
    } else if wins(b, Side::B) {
        GameOutcome::WinnerB
    } else if b.full() {
        GameOutcome::Draw
    } else {
        GameOutcome::InProgress
    }
}

/// Heuristic weight of a cell owner: +1 for side A, -1 for side B.
pub open spec fn owner_val(o: Owner) -> int {
    match o {
        Owner::Empty => 0,
        Owner::ByA => 1,
        Owner::ByB => -1,
    }
}

/// Owner of the `k`-th cell of a run, clipped to the board: cells that
/// would leave the grid are omitted and read as empty.
pub open spec fn run_owner(b: BoardModel, i: int, j: int, d: int, k: int) -> Owner {
    if b.in_bounds(rrow(i, d, k), rcol(j, d, k)) {
        b.at(rrow(i, d, k), rcol(j, d, k)).owner
    } else {
        Owner::Empty
    }
}

/// Contribution of the `k`-th cell of that run to its net owner count.
pub open spec fn run_term(b: BoardModel, i: int, j: int, d: int, k: int) -> int {
    owner_val(run_owner(b, i, j, d, k))
}

/// Net owner count of the (clipped) run anchored at `(i, j)`, direction
/// `d`.
pub open spec fn run_total(b: BoardModel, i: int, j: int, d: int) -> int {
    run_term(b, i, j, d, 0) + run_term(b, i, j, d, 1) + run_term(b, i, j, d, 2) + run_term(
        b,
        i,
        j,
        d,
        3,
    )
}

/// The run holds a cell dropped by owner `o`.
pub open spec fn run_has(b: BoardModel, i: int, j: int, d: int, o: Owner) -> bool {
    ||| run_owner(b, i, j, d, 0) == o
    ||| run_owner(b, i, j, d, 1) == o
    ||| run_owner(b, i, j, d, 2) == o
    ||| run_owner(b, i, j, d, 3) == o
}

/// The run holds cells dropped by both sides.
pub open spec fn run_mixed(b: BoardModel, i: int, j: int, d: int) -> bool {
    run_has(b, i, j, d, Owner::ByA) && run_has(b, i, j, d, Owner::ByB)
}

/// The signed cube, which amplifies near-complete runs.
pub open spec fn cube(x: int) -> int {
    x * x * x
}

/// Heuristic value of one run: a run holding cells of both owners
/// contributes 0; any other run contributes the signed cube of its net
/// owner count.
pub open spec fn run_score(b: BoardModel, i: int, j: int, d: int) -> int {
    if run_mixed(b, i, j, d) {
        0
    } else {
        cube(run_total(b, i, j, d))
    }
}

/// Heuristic contribution of the four runs anchored at one cell.
pub open spec fn cell_score(b: BoardModel, i: int, j: int) -> int {
    run_score(b, i, j, 0) + run_score(b, i, j, 1) + run_score(b, i, j, 2) + run_score(b, i, j, 3)
}

/// Heuristic score of the runs anchored at the first `t` cells in
/// row-major order.
pub open spec fn score_upto(b: BoardModel, t: int) -> int
    decreases t,
{
    if t <= 0 {
        0
    } else {
        score_upto(b, t - 1) + cell_score(b, (t - 1) / b.columns, (t - 1) % b.columns)
    }
}

/// Heuristic score of the whole board from side A's point of view: the
/// sum, over every cell and each of the four directions, of that run's
/// heuristic value.
pub open spec fn board_score(b: BoardModel) -> int {
    score_upto(b, b.rows * b.columns)
}

/// A run's heuristic value lies in `[-64, 64]`.
pub proof fn lemma_run_score_bound(b: BoardModel, i: int, j: int, d: int)
    ensures
        -64 <= run_score(b, i, j, d) <= 64,
{
    if !run_mixed(b, i, j, d) {
        lemma_cube_bound(run_total(b, i, j, d));
    }
}

/// A cell's heuristic contribution lies in `[-256, 256]`.
pub proof fn lemma_cell_score_bound(b: BoardModel, i: int, j: int)
    ensures
        -256 <= cell_score(b, i, j) <= 256,
{
    lemma_run_score_bound(b, i, j, 0);
    lemma_run_score_bound(b, i, j, 1);
    lemma_run_score_bound(b, i, j, 2);
    lemma_run_score_bound(b, i, j, 3);
}

#[verifier::nonlinear]
proof fn lemma_cube_bound(x: int)
    requires
        -4 <= x <= 4,
    ensures
        -64 <= cube(x) <= 64,
{
}

/// Partial heuristic sums lie in `[-256 t, 256 t]`.
pub proof fn lemma_score_upto_bound(b: BoardModel, t: int)
    requires
        t >= 0,
    ensures
        -256 * t <= score_upto(b, t) <= 256 * t,
    decreases t,
{
    if t > 0 {
        lemma_score_upto_bound(b, t - 1);
        lemma_cell_score_bound(b, (t - 1) / b.columns, (t - 1) % b.columns);
    }
}

/// The whole-board heuristic stays strictly below the terminal sentinel
/// score.
pub proof fn lemma_board_score_bound(b: BoardModel)
    requires
        b.dims_ok(),
    ensures
        -640000 <= board_score(b) <= 640000,
{
    lemma_dims_bound(b.rows, b.columns);
    lemma_score_upto_bound(b, b.rows * b.columns);
}

/// Draw completeness: a full board with no winning run for either side
/// is a draw, never in progress.
pub proof fn lemma_draw_completeness(b: BoardModel)
    requires
        b.full(),
        !wins(b, Side::A),
        !wins(b, Side::B),
    ensures
        outcome_of(b) == GameOutcome::Draw,
{
}

/// The four cells of a run that wins for `s2` on either board all avoid
/// the one changed cell `(row, c)`, whose owner is not `s2`'s mark on
/// either board; so the run wins on both boards or on neither.
proof fn lemma_run_frame(
    b: BoardModel,
    post: BoardModel,
    row: int,
    c: int,
    i: int,
    j: int,
    d: int,
    s2: Side,
)
    requires
        post.rows == b.rows,
        post.columns == b.columns,
        forall|r2: int, c2: int|
            b.in_bounds(r2, c2) && !(r2 == row && c2 == c) ==> #[trigger] post.at(r2, c2) == b.at(
                r2,
                c2,
            ),
        b.at(row, c).owner != spec_owner_of(s2),
        post.at(row, c).owner != spec_owner_of(s2),
        run_win(b, i, j, d, s2) || run_win(post, i, j, d, s2),
    ensures
        run_win(b, i, j, d, s2) && run_win(post, i, j, d, s2),
{
    assert(!(rrow(i, d, 0) == row && rcol(j, d, 0) == c));
    assert(!(rrow(i, d, 1) == row && rcol(j, d, 1) == c));
    assert(!(rrow(i, d, 2) == row && rcol(j, d, 2) == c));
    assert(!(rrow(i, d, 3) == row && rcol(j, d, 3) == c));
    assert(post.at(rrow(i, d, 0), rcol(j, d, 0)) == b.at(rrow(i, d, 0), rcol(j, d, 0)));
    assert(post.at(rrow(i, d, 1), rcol(j, d, 1)) == b.at(rrow(i, d, 1), rcol(j, d, 1)));
    assert(post.at(rrow(i, d, 2), rcol(j, d, 2)) == b.at(rrow(i, d, 2), rcol(j, d, 2)));
    assert(post.at(rrow(i, d, 3), rcol(j, d, 3)) == b.at(rrow(i, d, 3), rcol(j, d, 3)));
}

/// A drop by one side neither creates nor destroys the other side's
/// winning runs: the landing cell was empty before the drop and carries
/// the dropping side's own mark after it.
pub proof fn lemma_drop_other_side(b: BoardModel, c: int, s: Side, l: Letter, s2: Side)
    requires
        b.wf(),
        b.col_open(c),
        s2 != s,
    ensures
        wins(b.do_drop(c, s, l), s2) == wins(b, s2),
{
    let post = b.do_drop(c, s, l);
    let row = b.landing_row(c);
    b.lemma_do_drop_wf(c, s, l);
    b.lemma_landing_row_props(c, 0);
    lemma_idx_in_range(b.rows, b.columns, row, c);
    assert(post.at(row, c) == (Cell { owner: spec_owner_of(s), letter: l }));
    assert(b.at(row, c).owner == Owner::Empty);
    assert(spec_owner_of(s2) != spec_owner_of(s));
    assert(spec_owner_of(s2) != Owner::Empty);
    assert forall|i: int, j: int, d: int|
        0 <= d < 4 && #[trigger] run_win(b, i, j, d, s2) implies run_win(post, i, j, d, s2) by {
        lemma_run_frame(b, post, row, c, i, j, d, s2);
    }
    assert forall|i: int, j: int, d: int|
        0 <= d < 4 && #[trigger] run_win(post, i, j, d, s2) implies run_win(b, i, j, d, s2) by {
        lemma_run_frame(b, post, row, c, i, j, d, s2);
    }
}

/// A board of empty cells has no winning run.
pub proof fn lemma_blank_no_wins(b: BoardModel, s: Side)
    requires
        forall|r: int, c: int| b.in_bounds(r, c) ==> #[trigger] b.at(r, c) == blank_cell(),
    ensures
        !wins(b, s),
{
    if wins(b, s) {
        let (i, j, d) = choose|i: int, j: int, d: int|
            0 <= d < 4 && #[trigger] run_win(b, i, j, d, s);
        assert(b.in_bounds(rrow(i, d, 0), rcol(j, d, 0)));
        assert(b.at(rrow(i, d, 0), rcol(j, d, 0)) == blank_cell());
    }
}

/// The four-in-a-row game board.
pub struct Connect4GameBoard {
    pub grid: Grid,
}

impl Connect4GameBoard {
    pub open spec fn wf(self) -> bool {
        self.grid.wf()
    }

    /// Creates an empty board.
    pub fn new(rows: usize, columns: usize) -> (g: Connect4GameBoard)
        requires
            1 <= rows <= 50,
            1 <= columns <= 50,
        ensures
            g.wf(),
            g.grid.rows == rows,
            g.grid.columns == columns,
            g.grid.moves == 0,
            forall|r: int, c: int|
                g.grid.model().in_bounds(r, c) ==> #[trigger] g.grid.at(r, c) == blank_cell(),
            forall|r: int, c: int|
                g.grid.model().in_bounds(r, c) ==> #[trigger] g.grid.model().at(r, c)
                    == blank_cell(),
    {
        Connect4GameBoard { grid: Grid::new(rows, columns) }
    }

    /// Gravity-drop of a disc of side `s`; see `Grid::try_drop`.
    pub fn try_drop(&mut self, column: usize, s: Side) -> (r: Result<usize, GameError>)
        requires
            old(self).wf(),
        ensures
            final(self).wf(),
            r is Ok <==> old(self).grid.col_open(column as int),
            r is Err ==> *final(self) == *old(self) && r == Err::<usize, GameError>(
                GameError::InvalidMove,
            ),
            r matches Ok(row) ==> {
                &&& row as int == old(self).grid.landing_row(column as int)
                &&& final(self).grid.model() == old(self).grid.model().do_drop(
                    column as int,
                    s,
                    Letter::Blank,
                )
                &&& final(self).grid.moves == old(self).grid.moves + 1
                &&& final(self).grid.rows == old(self).grid.rows
                &&& final(self).grid.columns == old(self).grid.columns
            },
    {
        self.grid.try_drop(column, s, Letter::Blank)
    }

    /// True when the move counter has reached the grid capacity.
    pub fn is_full(&self) -> (r: bool)
        requires
            self.wf(),
        ensures
            r == self.grid.spec_full(),
    {
        self.grid.is_full()
    }

    /// Read a cell; never fails for in-bounds coordinates.
    pub fn cell(&self, row: usize, column: usize) -> (r: Cell)
        requires
            self.wf(),
            row < self.grid.rows,
            column < self.grid.columns,
        ensures
            r == self.grid.at(row as int, column as int),
    {
        self.grid.cell(row, column)
    }

    /// The outcome the rules assign to the current board.
    pub fn evaluate(&self) -> (r: GameOutcome)
        requires
            self.wf(),
        ensures
            r == outcome_of(self.grid.model()),
    {
        evaluate_grid(&self.grid)
    }
}

/// Scans every anchor cell and direction for winning runs of either side.
pub fn scan_wins(g: &Grid) -> (r: (bool, bool))
    requires
        g.wf(),
    ensures
        r.0 == wins(g.model(), Side::A),
        r.1 == wins(g.model(), Side::B),
{
    let ghost b = g.model();
    let rows = g.rows;
    let columns = g.columns;
    proof {
        lemma_dims_bound(rows as int, columns as int);
    }
    let total = rows * columns;
    let mut found_a = false;
    let mut found_b = false;
    let mut t: usize = 0;
    while t < total
        invariant
            g.wf(),
            b == g.model(),
            rows == g.rows,
            columns == g.columns,
            total == rows * columns,
            t <= total,
            found_a == exists|i: int, j: int, d: int|
                0 <= d < 4 && i * (columns as int) + j < t && 0 <= j < columns
                    && #[trigger] run_win(b, i, j, d, Side::A),
            found_b == exists|i: int, j: int, d: int|
                0 <= d < 4 && i * (columns as int) + j < t && 0 <= j < columns
                    && #[trigger] run_win(b, i, j, d, Side::B),
        decreases total - t,
    {
        let i = t / columns;
        let j = t % columns;
        proof {
            vstd::arithmetic::div_mod::lemma_fundamental_div_mod(t as int, columns as int);
            vstd::arithmetic::div_mod::lemma_mod_bound(t as int, columns as int);
            vstd::arithmetic::div_mod::lemma_div_pos_is_pos(t as int, columns as int);
            vstd::arithmetic::mul::lemma_mul_is_commutative(columns as int, t as int / columns as int);
            if t as int / columns as int >= rows {
                vstd::arithmetic::mul::lemma_mul_inequality(
                    rows as int,
                    t as int / columns as int,
                    columns as int,
                );
            }
            assert(t as int == (i as int) * (columns as int) + j as int);
            assert(i < rows);
        }
        let mut d: usize = 0;
        while d < 4
            invariant
                g.wf(),
                b == g.model(),
                rows == g.rows,
                columns == g.columns,
                total == rows * columns,
                d <= 4,
                i < rows,
                j < columns,
                t < total,
                t as int == (i as int) * (columns as int) + j as int,
                found_a == exists|i2: int, j2: int, d2: int|
                    0 <= d2 < 4 && 0 <= j2 < columns && (i2 * (columns as int) + j2 < t || (i2
                        * (columns as int) + j2 == t && d2 < d)) && #[trigger] run_win(
                        b,
                        i2,
                        j2,
                        d2,
                        Side::A,
                    ),
                found_b == exists|i2: int, j2: int, d2: int|
                    0 <= d2 < 4 && 0 <= j2 < columns && (i2 * (columns as int) + j2 < t || (i2
                        * (columns as int) + j2 == t && d2 < d)) && #[trigger] run_win(
                        b,
                        i2,
                        j2,
                        d2,
                        Side::B,
                    ),
            decreases 4 - d,
        {
            let ghost d_pre = d as int;
            let hit = check_run(g, i, j, d);
            if hit == Owner::ByA {
                found_a = true;
                assert(run_win(b, i as int, j as int, d as int, Side::A));
            } else if hit == Owner::ByB {
                found_b = true;
                assert(run_win(b, i as int, j as int, d as int, Side::B));
            }
            proof {
                crate::board::lemma_idx_injective(rows as int, columns as int);
                assert forall|i2: int, j2: int, d2: int|
                    0 <= d2 < 4 && 0 <= j2 < columns && (i2 * (columns as int) + j2 < t || (i2
                        * (columns as int) + j2 == t && d2 < d_pre + 1)) && #[trigger] run_win(
                        b,
                        i2,
                        j2,
                        d2,
                        Side::A,
                    ) implies found_a by {
                    if i2 * (columns as int) + j2 == t && d2 == d_pre {
                        assert(b.in_bounds(rrow(i2, d2, 0), rcol(j2, d2, 0)));
                        assert(0 <= i2 < rows);
                        assert(i2 == i as int && j2 == j as int);
                    }
                }
                assert forall|i2: int, j2: int, d2: int|
                    0 <= d2 < 4 && 0 <= j2 < columns && (i2 * (columns as int) + j2 < t || (i2
                        * (columns as int) + j2 == t && d2 < d_pre + 1)) && #[trigger] run_win(
                        b,
                        i2,
                        j2,
                        d2,
                        Side::B,
                    ) implies found_b by {
                    if i2 * (columns as int) + j2 == t && d2 == d_pre {
                        assert(b.in_bounds(rrow(i2, d2, 0), rcol(j2, d2, 0)));
                        assert(0 <= i2 < rows);
                        assert(i2 == i as int && j2 == j as int);
                    }
                }
            }
            d += 1;
        }
        t += 1;
    }
    proof {
        if wins(b, Side::A) {
            let (i, j, d) = choose|i: int, j: int, d: int|
                0 <= d < 4 && #[trigger] run_win(b, i, j, d, Side::A);
            assert(b.in_bounds(rrow(i, d, 0), rcol(j, d, 0)));
            lemma_idx_in_range(rows as int, columns as int, i, j);
        }
        if wins(b, Side::B) {
            let (i, j, d) = choose|i: int, j: int, d: int|
                0 <= d < 4 && #[trigger] run_win(b, i, j, d, Side::B);
            assert(b.in_bounds(rrow(i, d, 0), rcol(j, d, 0)));
            lemma_idx_in_range(rows as int, columns as int, i, j);
        }
    }
    (found_a, found_b)
}

/// Checks the one run anchored at `(i, j)` in direction `d`: the common
/// owner if it is a winning run, `Empty` otherwise.
fn check_run(g: &Grid, i: usize, j: usize, d: usize) -> (r: Owner)
    requires
        g.wf(),
        i < g.rows,
        j < g.columns,
        d < 4,
    ensures
        (r == Owner::ByA) == run_win(g.model(), i as int, j as int, d as int, Side::A),
        (r == Owner::ByB) == run_win(g.model(), i as int, j as int, d as int, Side::B),
{
    let ghost b = g.model();
    let rows = g.rows;
    let columns = g.columns;
    let in_range: bool = if d == 0 {
        j + 3 < columns
    } else if d == 1 {
        i + 3 < rows
    } else if d == 2 {
        i + 3 < rows && j + 3 < columns
    } else {
        i >= 3 && j + 3 < columns
    };
    if !in_range {
        assert(!run_in_bounds(b, i as int, j as int, d as int));
        return Owner::Empty;
    }
    assert(run_in_bounds(b, i as int, j as int, d as int));
    let o0 = g.cell(i, j).owner;
    if o0 == Owner::Empty {
        return Owner::Empty;
    }
    let (i1, j1) = run_cell_coords(i, j, d, 1);
    let (i2, j2) = run_cell_coords(i, j, d, 2);
    let (i3, j3) = run_cell_coords(i, j, d, 3);
    if g.cell(i1, j1).owner == o0 && g.cell(i2, j2).owner == o0 && g.cell(i3, j3).owner == o0 {
        o0
    } else {
        Owner::Empty
    }
}

/// Coordinates of the `k`-th cell of an in-bounds run.
fn run_cell_coords(i: usize, j: usize, d: usize, k: usize) -> (r: (usize, usize))
    requires
        d < 4,
        1 <= k <= 3,
        i <= 100,
        j <= 100,
        d == 3 ==> i >= 3,
    ensures
        r.0 as int == rrow(i as int, d as int, k as int),
        r.1 as int == rcol(j as int, d as int, k as int),
{
    if d == 0 {
        (i, j + k)
    } else if d == 1 {
        (i + k, j)
    } else if d == 2 {
        (i + k, j + k)
    } else {
        (i - k, j + k)
    }
}

/// Heuristic weight of the cell at `(rr, cc)`, or 0 off the board.
fn probe_owner(g: &Grid, rr: i64, cc: i64) -> (r: i64)
    requires
        g.wf(),
        -100 <= rr <= 100,
        -100 <= cc <= 100,
    ensures
        r == (if g.model().in_bounds(rr as int, cc as int) {
            owner_val(g.model().at(rr as int, cc as int).owner)
        } else {
            0
        }),
{
    if rr >= 0 && cc >= 0 && (rr as usize) < g.rows && (cc as usize) < g.columns {
        let cl = g.cell(rr as usize, cc as usize);
        match cl.owner {
            Owner::Empty => 0,
            Owner::ByA => 1,
            Owner::ByB => -1,
        }
    } else {
        0
    }
}

/// Heuristic value of the clipped run anchored at `(i, j)`, direction
/// `d`: 0 for a run holding cells of both owners, else the signed cube
/// of its net owner count.
fn run_score_exec(g: &Grid, i: usize, j: usize, d: usize) -> (r: i64)
    requires
        g.wf(),
        i < g.rows,
        j < g.columns,
        d < 4,
    ensures
        r == run_score(g.model(), i as int, j as int, d as int),
        -64 <= r <= 64,
{
    let ghost b = g.model();
    let (dr, dc): (i64, i64) = if d == 0 {
        (0, 1)
    } else if d == 1 {
        (1, 0)
    } else if d == 2 {
        (1, 1)
    } else {
        (-1, 1)
    };
    proof {
        assert(dr as int == dir_dr(d as int));
        assert(dc as int == dir_dc(d as int));
    }
    let ii = i as i64;
    let jj = j as i64;
    let t0 = probe_owner(g, ii, jj);
    let t1 = probe_owner(g, ii + dr, jj + dc);
    let t2 = probe_owner(g, ii + 2 * dr, jj + 2 * dc);
    let t3 = probe_owner(g, ii + 3 * dr, jj + 3 * dc);
    proof {
        assert(t0 == run_term(b, i as int, j as int, d as int, 0));
        assert(t1 == run_term(b, i as int, j as int, d as int, 1));
        assert(t2 == run_term(b, i as int, j as int, d as int, 2));
        assert(t3 == run_term(b, i as int, j as int, d as int, 3));
    }
    let has_a = t0 == 1 || t1 == 1 || t2 == 1 || t3 == 1;
    let has_b = t0 == -1 || t1 == -1 || t2 == -1 || t3 == -1;
    proof {
        assert(has_a == run_has(b, i as int, j as int, d as int, Owner::ByA));
        assert(has_b == run_has(b, i as int, j as int, d as int, Owner::ByB));
    }
    if has_a && has_b {
        0
    } else {
        cube_exec(t0 + t1 + t2 + t3)
    }
}

/// Heuristic score of the whole board from side A's point of view.
pub fn heuristic(g: &Grid) -> (r: i64)
    requires
        g.wf(),
    ensures
        r == board_score(g.model()),
        -640000 <= r <= 640000,
{
    let ghost b = g.model();
    let rows = g.rows;
    let columns = g.columns;
    proof {
        lemma_dims_bound(rows as int, columns as int);
    }
    let total = rows * columns;
    let mut acc: i64 = 0;
    let mut t: usize = 0;
    while t < total
        invariant
            g.wf(),
            b == g.model(),
            rows == g.rows,
            columns == g.columns,
            total == rows * columns,
            total <= 2500,
            t <= total,
            acc == score_upto(b, t as int),
            -256 * (t as int) <= acc <= 256 * (t as int),
        decreases total - t,
    {
        let i = t / columns;
        let j = t % columns;
        proof {
            vstd::arithmetic::div_mod::lemma_fundamental_div_mod(t as int, columns as int);
            vstd::arithmetic::div_mod::lemma_mod_bound(t as int, columns as int);
            vstd::arithmetic::div_mod::lemma_div_pos_is_pos(t as int, columns as int);
            vstd::arithmetic::mul::lemma_mul_is_commutative(columns as int, t as int / columns as int);
            if t as int / columns as int >= rows {
                vstd::arithmetic::mul::lemma_mul_inequality(
                    rows as int,
                    t as int / columns as int,
                    columns as int,
                );
            }
            assert(i < rows);
        }
        let s0 = run_score_exec(g, i, j, 0);
        let s1 = run_score_exec(g, i, j, 1);
        let s2 = run_score_exec(g, i, j, 2);
        let s3 = run_score_exec(g, i, j, 3);
        let cs = s0 + s1 + s2 + s3;
        proof {
            assert(cs == cell_score(b, i as int, j as int));
            assert(score_upto(b, t as int + 1) == score_upto(b, t as int) + cell_score(
                b,
                (t as int) / b.columns,
                (t as int) % b.columns,
            ));
        }
        acc = acc + cs;
        t += 1;
    }
    acc
}

/// The signed cube of a run's net owner count.
fn cube_exec(x: i64) -> (r: i64)
    requires
        -4 <= x <= 4,
    ensures
        r as int == cube(x as int),
        -64 <= r <= 64,
{
    proof {
        assert(-16 <= (x as int) * (x as int) <= 16 && -64 <= (x as int) * (x as int) * (
        x as int) <= 64) by (nonlinear_arith)
            requires
                -4 <= x as int <= 4,
        ;
    }
    x * x * x
}

/// The outcome the four-in-a-row rules assign to the grid.
pub fn evaluate_grid(g: &Grid) -> (r: GameOutcome)
    requires
        g.wf(),
    ensures
        r == outcome_of(g.model()),
{
    let (found_a, found_b) = scan_wins(g);
    if found_a {
        GameOutcome::WinnerA
    } else if found_b {
        GameOutcome::WinnerB
    } else if g.is_full() {
        GameOutcome::Draw
    } else {
        GameOutcome::InProgress
    }
}

/// The board reflected left-to-right: the cell at `(r, c)` of the mirror
/// holds the cell at `(r, columns - 1 - c)` of the original.
pub open spec fn mirror_cols(b: BoardModel) -> BoardModel {
    BoardModel {
        rows: b.rows,
        columns: b.columns,
        cells: Seq::new(
            b.cells.len(),
            |t: int| b.at(t / b.columns, b.columns - 1 - (t % b.columns)),
        ),
    }
}

/// Reading one cell of the mirror.
proof fn lemma_mirror_at(b: BoardModel, r: int, c: int)
    requires
        b.wf(),
        b.in_bounds(r, c),
    ensures
        mirror_cols(b).at(r, c) == b.at(r, b.columns - 1 - c),
{
    lemma_idx_in_range(b.rows, b.columns, r, c);
}

/// Mirroring preserves well-formedness: it only permutes whole columns.
pub proof fn lemma_mirror_wf(b: BoardModel)
    requires
        b.wf(),
    ensures
        mirror_cols(b).wf(),
{
    let m = mirror_cols(b);
    assert forall|r: int, c: int|
        0 <= r < m.rows - 1 && 0 <= c < m.columns && #[trigger] m.occupied(r, c) implies m.occupied(
        r + 1,
        c,
    ) by {
        lemma_mirror_at(b, r, c);
        lemma_mirror_at(b, r + 1, c);
        assert(b.occupied(r, b.columns - 1 - c));
    }
}

/// Mirroring twice restores the board.
pub proof fn lemma_mirror_involution(b: BoardModel)
    requires
        b.wf(),
    ensures
        mirror_cols(mirror_cols(b)) == b,
{
    let m = mirror_cols(b);
    let mm = mirror_cols(m);
    lemma_mirror_wf(b);
    assert forall|t: int| 0 <= t < b.cells.len() implies #[trigger] mm.cells[t] == b.cells[t] by {
        vstd::arithmetic::div_mod::lemma_fundamental_div_mod(t, b.columns);
        vstd::arithmetic::div_mod::lemma_mod_bound(t, b.columns);
        vstd::arithmetic::div_mod::lemma_div_pos_is_pos(t, b.columns);
        vstd::arithmetic::mul::lemma_mul_is_commutative(b.columns, t / b.columns);
        if t / b.columns >= b.rows {
            vstd::arithmetic::mul::lemma_mul_inequality(b.rows, t / b.columns, b.columns);
        }
        let r = t / b.columns;
        let c = t % b.columns;
        lemma_mirror_at(m, r, c);
        lemma_mirror_at(b, r, b.columns - 1 - c);
        lemma_idx_in_range(b.rows, b.columns, r, c);
    }
    assert(mm.cells =~= b.cells);
}

/// A winning run carries over to the mirrored board: each of the four
/// scan directions maps to a direction of the mirror.
pub proof fn lemma_wins_to_mirror(b: BoardModel, s: Side)
    requires
        b.wf(),
        wins(b, s),
    ensures
        wins(mirror_cols(b), s),
{
    let m = mirror_cols(b);
    let (i, j, d) = choose|i: int, j: int, d: int| 0 <= d < 4 && #[trigger] run_win(b, i, j, d, s);
    let n = b.columns;
    if d == 0 {
        let j2 = n - 4 - j;
        lemma_mirror_at(b, i, j2);
        lemma_mirror_at(b, i, j2 + 1);
        lemma_mirror_at(b, i, j2 + 2);
        lemma_mirror_at(b, i, j2 + 3);
        assert(run_win(m, i, j2, 0, s));
    } else if d == 1 {
        let j2 = n - 1 - j;
        lemma_mirror_at(b, i, j2);
        lemma_mirror_at(b, i + 1, j2);
        lemma_mirror_at(b, i + 2, j2);
        lemma_mirror_at(b, i + 3, j2);
        assert(run_win(m, i, j2, 1, s));
    } else if d == 2 {
        let i2 = i + 3;
        let j2 = n - 4 - j;
        lemma_mirror_at(b, i2, j2);
        lemma_mirror_at(b, i2 - 1, j2 + 1);
        lemma_mirror_at(b, i2 - 2, j2 + 2);
        lemma_mirror_at(b, i2 - 3, j2 + 3);
        assert(run_win(m, i2, j2, 3, s));
    } else {
        let i2 = i - 3;
        let j2 = n - 4 - j;
        lemma_mirror_at(b, i2, j2);
        lemma_mirror_at(b, i2 + 1, j2 + 1);
        lemma_mirror_at(b, i2 + 2, j2 + 2);
        lemma_mirror_at(b, i2 + 3, j2 + 3);
        assert(run_win(m, i2, j2, 2, s));
    }
}

/// Win symmetry: a four-in-a-row is detected identically on a board and
/// on its left-to-right reflection, whichever direction holds the run.
pub proof fn lemma_win_mirror_symmetry(b: BoardModel, s: Side)
    requires
        b.wf(),
    ensures
        wins(mirror_cols(b), s) == wins(b, s),
{
    if wins(b, s) {
        lemma_wins_to_mirror(b, s);
    }
    if wins(mirror_cols(b), s) {
        lemma_mirror_wf(b);
        lemma_wins_to_mirror(mirror_cols(b), s);
        lemma_mirror_involution(b);
    }
}

} // verus!
