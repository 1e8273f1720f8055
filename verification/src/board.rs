//! The board: a `rows x columns` grid of cells filled by gravity drops.
//!
//! Each cell records which side dropped the disc (`Owner`) and, for the
//! letter-sequence game, which glyph the dropping side chose (`Letter`).
//! The grid keeps the gravity invariant: in every column the filled cells
//! are contiguous from the bottom row upward, so the insertion point of a
//! column is its lowest empty row.
//!
//! `BoardModel` is the mathematical model of a grid: the same contents as
//! a ghost value, on which the win rules and the search tree are defined.

use vstd::prelude::*;

verus! {

/// One of the two players of a match.
#[derive(Clone, Copy, PartialEq, Eq, Structural, Debug)]
pub enum Side {
    A,
    B,
}

/// Who dropped the disc occupying a cell, if any.
#[derive(Clone, Copy, PartialEq, Eq, Structural, Debug)]
pub enum Owner {
    Empty,
    ByA,
    ByB,
}

/// The glyph a disc carries in the letter-sequence game.  Discs of the
/// four-in-a-row game carry `Blank`.
#[derive(Clone, Copy, PartialEq, Eq, Structural, Debug)]
pub enum Letter {
    Blank,
    T,
    O,
}

/// Contents of one grid cell.
#[derive(Clone, Copy, PartialEq, Eq, Structural, Debug)]
pub struct Cell {
    pub owner: Owner,
    pub letter: Letter,
}

/// Result of a finished or running match evaluation.
#[derive(Clone, Copy, PartialEq, Eq, Structural, Debug)]
pub enum GameOutcome {
    InProgress,
    WinnerA,
    WinnerB,
    Draw,
}

/// The recoverable error conditions of the game core.
#[derive(Clone, Copy, PartialEq, Eq, Structural, Debug)]
pub enum GameError {
    InvalidMove,
    GameAlreadyOver,
    NoLegalMove,
}

impl Side {
    /// The opposing side.
    pub open spec fn spec_other(self) -> Side {
        match self {
            Side::A => Side::B,
            Side::B => Side::A,
        }
    }

    #[verifier::when_used_as_spec(spec_other)]
    pub fn other(self) -> (r: Side)
        ensures
            r == self.spec_other(),
    {
        match self {
            Side::A => Side::B,
            Side::B => Side::A,
        }
    }
}

/// The owner mark written by a drop of the given side.
pub open spec fn spec_owner_of(s: Side) -> Owner {
    match s {
        Side::A => Owner::ByA,
        Side::B => Owner::ByB,
    }
}

#[verifier::when_used_as_spec(spec_owner_of)]
pub fn owner_of(s: Side) -> (r: Owner)
    ensures
        r == spec_owner_of(s),
{
    match s {
        Side::A => Owner::ByA,
        Side::B => Owner::ByB,
    }
}

/// An empty cell.
pub open spec fn blank_cell() -> Cell {
    Cell { owner: Owner::Empty, letter: Letter::Blank }
}

/// Number of occupied cells in a board sequence.
pub open spec fn count_filled(b: Seq<Cell>) -> nat
    decreases b.len(),
{
    if b.len() == 0 {
        0
    } else {
        count_filled(b.drop_last()) + (if b.last().owner != Owner::Empty {
            1nat
        } else {
            0nat
        })
    }
}

/// The count of occupied cells never exceeds the length.
pub proof fn lemma_count_filled_le_len(b: Seq<Cell>)
    ensures
        count_filled(b) <= b.len(),
    decreases b.len(),
{
    if b.len() > 0 {
        lemma_count_filled_le_len(b.drop_last());
    }
}

/// Filling one empty cell raises the occupied-cell count by exactly one.
pub proof fn lemma_count_filled_update(b: Seq<Cell>, i: int, v: Cell)
    requires
        0 <= i < b.len(),
        b[i].owner == Owner::Empty,
        v.owner != Owner::Empty,
    ensures
        count_filled(b.update(i, v)) == count_filled(b) + 1,
    decreases b.len(),
{
    let u = b.update(i, v);
    if i == b.len() - 1 {
        assert(u.drop_last() =~= b.drop_last());
    } else {
        assert(u.drop_last() =~= b.drop_last().update(i, v));
        lemma_count_filled_update(b.drop_last(), i, v);
    }
}

/// A board whose occupied-cell count equals its length has no empty cell.
pub proof fn lemma_count_filled_full(b: Seq<Cell>)
    requires
        count_filled(b) == b.len(),
    ensures
        forall|i: int| 0 <= i < b.len() ==> (#[trigger] b[i]).owner != Owner::Empty,
    decreases b.len(),
{
    if b.len() > 0 {
        lemma_count_filled_le_len(b.drop_last());
        lemma_count_filled_full(b.drop_last());
        assert forall|i: int| 0 <= i < b.len() implies (#[trigger] b[i]).owner != Owner::Empty by {
            if i < b.len() - 1 {
                assert(b[i] == b.drop_last()[i]);
            }
        }
    }
}

/// A board with no empty cell has an occupied-cell count equal to its
/// length.
pub proof fn lemma_count_all_filled(b: Seq<Cell>)
    requires
        forall|i: int| 0 <= i < b.len() ==> (#[trigger] b[i]).owner != Owner::Empty,
    ensures
        count_filled(b) == b.len(),
    decreases b.len(),
{
    if b.len() > 0 {
        lemma_count_all_filled(b.drop_last());
    }
}

/// Supported dimensions keep the cell count small.
#[verifier::nonlinear]
pub proof fn lemma_dims_bound(rows: int, columns: int)
    requires
        1 <= rows <= 50,
        1 <= columns <= 50,
    ensures
        rows * columns <= 2500,
{
}

/// Row-major flat indices of in-bounds coordinates stay in range.
#[verifier::nonlinear]
pub proof fn lemma_idx_in_range(rows: int, columns: int, r: int, c: int)
    requires
        0 < columns,
        0 <= r < rows,
        0 <= c < columns,
    ensures
        0 <= r * columns + c < rows * columns,
        (r * columns + c) / columns == r,
        (r * columns + c) % columns == c,
{
}

/// Row-major flat indexing is injective over in-bounds coordinates.
pub proof fn lemma_idx_injective(rows: int, columns: int)
    requires
        0 < columns,
    ensures
        forall|r1: int, c1: int, r2: int, c2: int|
            #![trigger r1 * columns + c1, r2 * columns + c2]
            0 <= r1 < rows && 0 <= c1 < columns && 0 <= r2 < rows && 0 <= c2 < columns && r1
                * columns + c1 == r2 * columns + c2 ==> r1 == r2 && c1 == c2,
{
    assert forall|r1: int, c1: int, r2: int, c2: int|
        #![trigger r1 * columns + c1, r2 * columns + c2]
        0 <= r1 < rows && 0 <= c1 < columns && 0 <= r2 < rows && 0 <= c2 < columns && r1 * columns
            + c1 == r2 * columns + c2 implies r1 == r2 && c1 == c2 by {
        lemma_idx_in_range(rows, columns, r1, c1);
        lemma_idx_in_range(rows, columns, r2, c2);
    }
}

/// The mathematical model of a board: its dimensions and the row-major
/// sequence of its cells.
pub ghost struct BoardModel {
    pub rows: int,
    pub columns: int,
    pub cells: Seq<Cell>,
}

impl BoardModel {
    /// Grid dimensions the engine supports.  The cap keeps every heuristic
    /// magnitude strictly below the terminal sentinel score and all score
    /// arithmetic far from overflow.
    pub open spec fn dims_ok(self) -> bool {
        1 <= self.rows <= 50 && 1 <= self.columns <= 50
    }

    pub open spec fn in_bounds(self, r: int, c: int) -> bool {
        0 <= r < self.rows && 0 <= c < self.columns
    }

    /// Flat index of cell `(r, c)` in row-major order.
    pub open spec fn idx(self, r: int, c: int) -> int {
        r * self.columns + c
    }

    /// The cell at `(r, c)`.
    pub open spec fn at(self, r: int, c: int) -> Cell {
        self.cells[self.idx(r, c)]
    }

    pub open spec fn occupied(self, r: int, c: int) -> bool {
        self.at(r, c).owner != Owner::Empty
    }

    /// Gravity: no occupied cell sits above an empty cell of its column.
    pub open spec fn gravity_ok(self) -> bool {
        forall|r: int, c: int|
            0 <= r < self.rows - 1 && 0 <= c < self.columns && #[trigger] self.occupied(r, c)
                ==> self.occupied(r + 1, c)
    }

    /// Well-formedness of the model: supported dimensions, a cell for
    /// every coordinate, and gravity.
    pub open spec fn wf(self) -> bool {
        &&& self.dims_ok()
        &&& self.cells.len() == self.rows * self.columns
        &&& self.gravity_ok()
    }

    /// Every cell is occupied; no further drop can succeed.
    pub open spec fn full(self) -> bool {
        count_filled(self.cells) == self.rows * self.columns
    }

    /// A drop into column `c` is legal: in range, with its top cell empty.
    pub open spec fn col_open(self, c: int) -> bool {
        0 <= c < self.columns && !self.occupied(0, c)
    }

    /// The row a disc dropped into column `c` lands on, scanning down from
    /// row `r`: the lowest row of the column whose cell is empty.
    pub open spec fn landing_row_from(self, c: int, r: int) -> int
        decreases self.rows - r,
    {
        if r + 1 >= self.rows {
            r
        } else if self.occupied(r + 1, c) {
            r
        } else {
            self.landing_row_from(c, r + 1)
        }
    }

    pub open spec fn landing_row(self, c: int) -> int {
        self.landing_row_from(c, 0)
    }

    /// The board after a legal drop of side `s` with glyph `l` into column
    /// `c`: the disc lands on the lowest empty row of the column.
    pub open spec fn do_drop(self, c: int, s: Side, l: Letter) -> BoardModel {
        BoardModel {
            rows: self.rows,
            columns: self.columns,
            cells: self.cells.update(
                self.idx(self.landing_row(c), c),
                Cell { owner: spec_owner_of(s), letter: l },
            ),
        }
    }

    /// An empty cell has every cell above it (same column) empty too.
    pub proof fn lemma_empty_above(self, c: int, r: int, r2: int)
        requires
            self.wf(),
            0 <= c < self.columns,
            0 <= r2 <= r < self.rows,
            !self.occupied(r, c),
        ensures
            !self.occupied(r2, c),
        decreases r - r2,
    {
        if r2 < r {
            self.lemma_empty_above(c, r, r2 + 1);
            if self.occupied(r2, c) {
                assert(self.occupied(r2 + 1, c));
            }
        }
    }

    /// An occupied cell has every cell below it (same column) occupied too.
    pub proof fn lemma_occupied_below(self, c: int, r: int, r2: int)
        requires
            self.wf(),
            0 <= c < self.columns,
            0 <= r <= r2 < self.rows,
            self.occupied(r, c),
        ensures
            self.occupied(r2, c),
        decreases r2 - r,
    {
        if r < r2 {
            self.lemma_occupied_below(c, r + 1, r2);
        }
    }

    /// The landing row of an open column is empty, everything below it is
    /// occupied, and everything above it is empty.
    pub proof fn lemma_landing_row_props(self, c: int, r: int)
        requires
            self.wf(),
            self.col_open(c),
            0 <= r < self.rows,
            !self.occupied(r, c),
        ensures
            r <= self.landing_row_from(c, r) < self.rows,
            !self.occupied(self.landing_row_from(c, r), c),
            forall|r2: int|
                self.landing_row_from(c, r) < r2 < self.rows ==> #[trigger] self.occupied(r2, c),
        decreases self.rows - r,
    {
        if r + 1 >= self.rows {
        } else if self.occupied(r + 1, c) {
            assert forall|r2: int| r < r2 < self.rows implies #[trigger] self.occupied(r2, c) by {
                self.lemma_occupied_below(c, r + 1, r2);
            }
        } else {
            self.lemma_landing_row_props(c, r + 1);
        }
    }

    /// A legal drop preserves well-formedness, fills the landing cell, and
    /// raises the occupied-cell count by one.
    pub proof fn lemma_do_drop_wf(self, c: int, s: Side, l: Letter)
        requires
            self.wf(),
            self.col_open(c),
        ensures
            self.do_drop(c, s, l).wf(),
            count_filled(self.do_drop(c, s, l).cells) == count_filled(self.cells) + 1,
            self.do_drop(c, s, l).occupied(self.landing_row(c), c),
            forall|r2: int, c2: int|
                self.in_bounds(r2, c2) && !(r2 == self.landing_row(c) && c2 == c)
                    ==> #[trigger] self.do_drop(c, s, l).at(r2, c2) == self.at(r2, c2),
    {
        let post = self.do_drop(c, s, l);
        let row = self.landing_row(c);
        self.lemma_landing_row_props(c, 0);
        lemma_idx_in_range(self.rows, self.columns, row, c);
        lemma_idx_injective(self.rows, self.columns);
        lemma_count_filled_update(
            self.cells,
            self.idx(row, c),
            Cell { owner: spec_owner_of(s), letter: l },
        );
        assert forall|r2: int, c2: int|
            self.in_bounds(r2, c2) && !(r2 == row && c2 == c) implies #[trigger] post.at(r2, c2)
            == self.at(r2, c2) by {
            lemma_idx_in_range(self.rows, self.columns, r2, c2);
        }
        assert forall|r2: int, c2: int|
            0 <= r2 < post.rows - 1 && 0 <= c2 < post.columns && #[trigger] post.occupied(r2, c2)
            implies post.occupied(r2 + 1, c2) by {
            lemma_idx_in_range(self.rows, self.columns, r2, c2);
            lemma_idx_in_range(self.rows, self.columns, r2 + 1, c2);
            if r2 == row && c2 == c {
                if row + 1 < self.rows {
                    assert(self.occupied(row + 1, c));
                }
            } else {
                assert(self.occupied(r2, c2));
                self.lemma_occupied_below(c2, r2, r2 + 1);
            }
        }
    }

    /// A board that is not full has an open column.
    pub proof fn lemma_not_full_has_open(self) -> (c: int)
        requires
            self.wf(),
            !self.full(),
        ensures
            self.col_open(c),
    {
        lemma_count_filled_le_len(self.cells);
        if forall|i: int| 0 <= i < self.cells.len() ==> (#[trigger] self.cells[i]).owner
            != Owner::Empty {
            lemma_count_all_filled(self.cells);
            assert(false);
        }
        let i = choose|i: int|
            0 <= i < self.cells.len() && (#[trigger] self.cells[i]).owner == Owner::Empty;
        let r = i / self.columns;
        let c = i % self.columns;
        vstd::arithmetic::div_mod::lemma_fundamental_div_mod(i, self.columns);
        vstd::arithmetic::div_mod::lemma_mod_bound(i, self.columns);
        vstd::arithmetic::div_mod::lemma_div_pos_is_pos(i, self.columns);
        vstd::arithmetic::mul::lemma_mul_is_commutative(self.columns, r);
        assert(i == r * self.columns + c);
        assert(i < self.rows * self.columns);
        if r >= self.rows {
            vstd::arithmetic::mul::lemma_mul_inequality(self.rows, r, self.columns);
            assert(false);
        }
        assert(self.idx(r, c) == i);
        assert(!self.occupied(r, c));
        self.lemma_empty_above(c, r, 0);
        c
    }
}

/// A gravity-drop grid of cells, row 0 at the top, together with the move
/// counter that counts successful drops.
pub struct Grid {
    pub rows: usize,
    pub columns: usize,
    pub cells: Vec<Cell>,
    pub moves: usize,
}

impl Grid {
    /// The mathematical model of this grid.
    pub open spec fn model(self) -> BoardModel {
        BoardModel { rows: self.rows as int, columns: self.columns as int, cells: self.cells@ }
    }

    /// The cell at `(r, c)`.
    pub open spec fn at(self, r: int, c: int) -> Cell {
        self.model().at(r, c)
    }

    pub open spec fn occupied(self, r: int, c: int) -> bool {
        self.model().occupied(r, c)
    }

    /// Well-formedness: a well-formed model whose move counter equals the
    /// number of occupied cells.
    pub open spec fn wf(self) -> bool {
        &&& self.model().wf()
        &&& self.moves == count_filled(self.cells@)
    }

    /// Every cell is occupied; no further drop can succeed.
    pub open spec fn spec_full(self) -> bool {
        self.moves == self.rows * self.columns
    }

    /// A drop into column `c` is legal: in range, with its top cell empty.
    pub open spec fn col_open(self, c: int) -> bool {
        self.model().col_open(c)
    }

    pub open spec fn landing_row(self, c: int) -> int {
        self.model().landing_row(c)
    }

    /// Creates an empty grid.
    pub fn new(rows: usize, columns: usize) -> (g: Grid)
        requires
            1 <= rows <= 50,
            1 <= columns <= 50,
        ensures
            g.wf(),
            g.rows == rows,
            g.columns == columns,
            g.moves == 0,
            forall|r: int, c: int|
                g.model().in_bounds(r, c) ==> #[trigger] g.at(r, c) == blank_cell(),
            forall|r: int, c: int|
                g.model().in_bounds(r, c) ==> #[trigger] g.model().at(r, c) == blank_cell(),
    {
        proof {
            lemma_dims_bound(rows as int, columns as int);
        }
        let total = rows * columns;
        let mut cells: Vec<Cell> = Vec::new();
        let mut k: usize = 0;
        while k < total
            invariant
                k <= total,
                cells@.len() == k,
                forall|i: int| 0 <= i < k ==> #[trigger] cells@[i] == blank_cell(),
                count_filled(cells@) == 0,
            decreases total - k,
        {
            let ghost prev = cells@;
            cells.push(Cell { owner: Owner::Empty, letter: Letter::Blank });
            proof {
                assert(cells@.drop_last() =~= prev);
            }
            k += 1;
        }
        let g = Grid { rows, columns, cells, moves: 0 };
        proof {
            assert forall|r: int, c: int| g.model().in_bounds(r, c) implies #[trigger] g.at(r, c)
                == blank_cell() by {
                lemma_idx_in_range(g.rows as int, g.columns as int, r, c);
            }
            assert forall|r: int, c: int|
                0 <= r < g.rows && 0 <= c < g.columns implies !(#[trigger] g.model().occupied(
                r,
                c,
            )) by {
                lemma_idx_in_range(g.rows as int, g.columns as int, r, c);
            }
            assert forall|r: int, c: int|
                g.model().in_bounds(r, c) implies #[trigger] g.model().at(r, c)
                == blank_cell() by {
                lemma_idx_in_range(g.rows as int, g.columns as int, r, c);
            }
        }
        g
    }

    /// Duplicates the grid, field for field.
    pub fn duplicate(&self) -> (g: Grid)
        ensures
            g.rows == self.rows,
            g.columns == self.columns,
            g.moves == self.moves,
            g.cells@ == self.cells@,
            g.model() == self.model(),
    {
        let mut cells: Vec<Cell> = Vec::new();
        let mut k: usize = 0;
        let n = self.cells.len();
        while k < n
            invariant
                k <= n,
                n == self.cells@.len(),
                cells@ =~= self.cells@.subrange(0, k as int),
            decreases n - k,
        {
            cells.push(self.cells[k]);
            k += 1;
        }
        proof {
            assert(cells@ =~= self.cells@);
        }
        Grid { rows: self.rows, columns: self.columns, cells, moves: self.moves }
    }

    /// Read a cell; never fails for in-bounds coordinates.
    pub fn cell(&self, row: usize, column: usize) -> (r: Cell)
        requires
            self.wf(),
            row < self.rows,
            column < self.columns,
        ensures
            r == self.at(row as int, column as int),
    {
        proof {
            lemma_idx_in_range(self.rows as int, self.columns as int, row as int, column as int);
            lemma_dims_bound(self.rows as int, self.columns as int);
        }
        self.cells[row * self.columns + column]
    }

    /// True when the move counter has reached the grid capacity.
    pub fn is_full(&self) -> (r: bool)
        requires
            self.wf(),
        ensures
            r == self.spec_full(),
            r == self.model().full(),
    {
        proof {
            lemma_dims_bound(self.rows as int, self.columns as int);
            if self.spec_full() {
                lemma_count_filled_full(self.cells@);
            }
        }
        self.moves == self.rows * self.columns
    }

    /// Gravity-drop insertion, the only mutator of the grid.
    ///
    /// Fails with `InvalidMove`, leaving the grid unchanged, exactly when
    /// the column is out of range or its top cell is occupied.  On success
    /// the disc is written to the lowest empty row of the column, which is
    /// returned, and the move counter advances by one.
    pub fn try_drop(&mut self, column: usize, s: Side, l: Letter) -> (r: Result<
        usize,
        GameError,
    >)
        requires
            old(self).wf(),
        ensures
            final(self).wf(),
            r is Ok <==> old(self).col_open(column as int),
            r is Err ==> *final(self) == *old(self) && r == Err::<usize, GameError>(
                GameError::InvalidMove,
            ),
            r matches Ok(row) ==> {
                &&& row as int == old(self).landing_row(column as int)
                &&& row < old(self).rows
                &&& !old(self).occupied(row as int, column as int)
                &&& forall|r2: int|
                    row < r2 < old(self).rows ==> #[trigger] old(self).occupied(r2, column as int)
                &&& final(self).model() == old(self).model().do_drop(column as int, s, l)
                &&& final(self).rows == old(self).rows
                &&& final(self).columns == old(self).columns
                &&& final(self).moves == old(self).moves + 1
            },
    {
        if column >= self.columns {
            return Err(GameError::InvalidMove);
        }
        proof {
            lemma_idx_in_range(self.rows as int, self.columns as int, 0, column as int);
        }
        if self.cells[column].owner != Owner::Empty {
            proof {
                assert(self.at(0, column as int) == self.cells@[column as int]);
            }
            return Err(GameError::InvalidMove);
        }
        assert(self.col_open(column as int));
        let mut row: usize = 0;
        while row + 1 < self.rows && self.cell(row + 1, column).owner == Owner::Empty
            invariant
                self.wf(),
                self.col_open(column as int),
                row < self.rows,
                !self.occupied(row as int, column as int),
                self.landing_row(column as int) == self.model().landing_row_from(
                    column as int,
                    row as int,
                ),
            decreases self.rows - row,
        {
            row += 1;
        }
        proof {
            assert(self.landing_row(column as int) == row as int);
            self.model().lemma_landing_row_props(column as int, 0);
            lemma_idx_in_range(self.rows as int, self.columns as int, row as int, column as int);
            lemma_dims_bound(self.rows as int, self.columns as int);
            lemma_count_filled_le_len(self.cells@);
        }
        let ghost pre = *self;
        let i = row * self.columns + column;
        self.cells.set(i, Cell { owner: owner_of(s), letter: l });
        self.moves = self.moves + 1;
        proof {
            pre.model().lemma_do_drop_wf(column as int, s, l);
        }
        Ok(row)
    }
}

/// Dropping twice into the same column, with no move in between, fills two
/// distinct rows, the second strictly above the first.
pub proof fn lemma_drop_determinism(b: BoardModel, c: int, s1: Side, l1: Letter)
    requires
        b.wf(),
        b.col_open(c),
        b.do_drop(c, s1, l1).col_open(c),
    ensures
        b.do_drop(c, s1, l1).landing_row(c) == b.landing_row(c) - 1,
{
    let b2 = b.do_drop(c, s1, l1);
    b.lemma_landing_row_props(c, 0);
    b.lemma_do_drop_wf(c, s1, l1);
    let r1 = b.landing_row(c);
    lemma_idx_in_range(b.rows, b.columns, r1, c);
    lemma_idx_injective(b.rows, b.columns);
    assert(b2.occupied(r1, c));
    assert(r1 >= 1) by {
        if r1 == 0 {
            assert(b2.at(0, c).owner != Owner::Empty);
        }
    }
    assert forall|r: int| 0 <= r < r1 implies !b2.occupied(r, c) by {
        b.lemma_empty_above(c, r1, r);
        lemma_idx_in_range(b.rows, b.columns, r, c);
        assert(b2.at(r, c) == b.at(r, c));
    }
    lemma_landing_row_from_pinpoint(b2, c, 0, r1 - 1);
}

/// The landing-row scan, started at an empty row at or above the target,
/// stops exactly at the lowest empty row.
proof fn lemma_landing_row_from_pinpoint(b: BoardModel, c: int, r: int, target: int)
    requires
        b.wf(),
        0 <= c < b.columns,
        0 <= r <= target < b.rows,
        forall|r2: int| 0 <= r2 <= target ==> !(#[trigger] b.occupied(r2, c)),
        target + 1 < b.rows ==> b.occupied(target + 1, c),
    ensures
        b.landing_row_from(c, r) == target,
    decreases target - r,
{
    if r < target {
        lemma_landing_row_from_pinpoint(b, c, r + 1, target);
    }
}

} // verus!
