//! The match controllers: they own the board and the outcome, enforce
//! turn order, apply submitted moves, and at the terminal transition
//! stamp the timestamp and emit the finished-game record, exactly once.
//!
//! A match is in `AwaitingFirstMove` until the first valid drop, in
//! `InProgress` while moves are accepted, and in `Terminal` once the rule
//! set reports a winner or a draw; only `reset` leaves `Terminal`.

use vstd::prelude::*;
use vstd::string::StringExecFns;
use crate::board::{blank_cell, GameError, GameOutcome, Letter, Side};
use crate::connect4::{lemma_blank_no_wins, outcome_of, Connect4GameBoard};
use crate::record::Game;
use crate::toot::{lemma_blank_no_letter_wins, letter_outcome_of, TootOttoGameBoard};

verus! {

/// The three states of a match.
#[derive(Clone, Copy, PartialEq, Eq, Structural, Debug)]
pub enum MatchState {
    AwaitingFirstMove,
    InProgress,
    Terminal,
}

/// The side whose turn it is after `moves` successful drops: side A moves
/// on even counts, side B on odd ones.
pub open spec fn turn_side(moves: int) -> Side {
    if moves % 2 == 0 {
        Side::A
    } else {
        Side::B
    }
}

/// The winner name a finished-game record carries for `outcome`.
pub open spec fn spec_winner_name(outcome: GameOutcome, p1: Seq<char>, p2: Seq<char>) -> Seq<
    char,
> {
    if outcome == GameOutcome::WinnerA {
        p1
    } else if outcome == GameOutcome::WinnerB {
        p2
    } else {
        "Draw"@
    }
}

/// A freshly emitted record has these fields: caller-assigned sequence
/// number left 0, the match's kind and names, the winner name for
/// `outcome`, and the timestamp of the terminal transition.
pub open spec fn record_matches(
    g: Game,
    kind: Seq<char>,
    p1: Seq<char>,
    p2: Seq<char>,
    outcome: GameOutcome,
    now_millis: i64,
) -> bool {
    &&& g.game_number == 0
    &&& g.game_type@ == kind
    &&& g.player1_name@ == p1
    &&& g.player2_name@ == p2
    &&& g.winner_name@ == spec_winner_name(outcome, p1, p2)
    &&& g.game_date == now_millis
}

/// A match of the four-in-a-row game.
pub struct Connect4Match {
    pub board: Connect4GameBoard,
    pub outcome: GameOutcome,
    pub player1_name: String,
    pub player2_name: String,
    pub record: Option<Game>,
}

impl Connect4Match {
    /// Controller invariant: a well-formed board, an outcome equal to the
    /// rule set's evaluation of it, and a record exactly when terminal.
    pub open spec fn wf(self) -> bool {
        &&& self.board.wf()
        &&& self.outcome == outcome_of(self.board.grid.model())
        &&& (self.record is Some <==> self.outcome != GameOutcome::InProgress)
    }

    pub open spec fn spec_state(self) -> MatchState {
        if self.outcome != GameOutcome::InProgress {
            MatchState::Terminal
        } else if self.board.grid.moves == 0 {
            MatchState::AwaitingFirstMove
        } else {
            MatchState::InProgress
        }
    }

    /// The side to move.
    pub open spec fn turn(self) -> Side {
        turn_side(self.board.grid.moves as int)
    }

    /// Creates a match on an empty board, awaiting the first move.
    pub fn new(rows: usize, columns: usize, player1_name: String, player2_name: String) -> (m:
        Connect4Match)
        requires
            1 <= rows <= 50,
            1 <= columns <= 50,
        ensures
            m.wf(),
            m.spec_state() == MatchState::AwaitingFirstMove,
            m.board.grid.rows == rows,
            m.board.grid.columns == columns,
            m.board.grid.moves == 0,
            m.outcome == GameOutcome::InProgress,
            m.record is None,
            m.player1_name == player1_name,
            m.player2_name == player2_name,
            forall|r: int, c: int|
                m.board.grid.model().in_bounds(r, c) ==> #[trigger] m.board.grid.model().at(r, c)
                    == blank_cell(),
    {
        let board = Connect4GameBoard::new(rows, columns);
        proof {
            lemma_blank_no_wins(board.grid.model(), Side::A);
            lemma_blank_no_wins(board.grid.model(), Side::B);
            crate::board::lemma_idx_in_range(
                board.grid.rows as int,
                board.grid.columns as int,
                0,
                0,
            );
            assert(!board.grid.model().full());
        }
        Connect4Match {
            board,
            outcome: GameOutcome::InProgress,
            player1_name,
            player2_name,
            record: None,
        }
    }

    /// The current state of the match.
    pub fn state(&self) -> (r: MatchState)
        ensures
            r == self.spec_state(),
    {
        if !matches!(self.outcome, GameOutcome::InProgress) {
            MatchState::Terminal
        } else if self.board.grid.moves == 0 {
            MatchState::AwaitingFirstMove
        } else {
            MatchState::InProgress
        }
    }

    /// Submits a drop into `column` for the side whose turn it is.
    ///
    /// Fails with `GameAlreadyOver` when the match is terminal and with
    /// `InvalidMove` when the column is out of range or full; both
    /// failures leave the whole match unchanged.  On success the board is
    /// mutated by exactly that drop, the outcome is re-evaluated, and at
    /// a terminal transition the finished-game record is emitted with the
    /// given timestamp.
    pub fn submit_move(&mut self, column: usize, now_millis: i64) -> (r: Result<usize, GameError>)
        requires
            old(self).wf(),
        ensures
            final(self).wf(),
            final(self).player1_name == old(self).player1_name,
            final(self).player2_name == old(self).player2_name,
            r is Ok <==> (old(self).outcome == GameOutcome::InProgress
                && old(self).board.grid.col_open(column as int)),
            old(self).outcome != GameOutcome::InProgress ==> r == Err::<usize, GameError>(
                GameError::GameAlreadyOver,
            ) && *final(self) == *old(self),
            old(self).outcome == GameOutcome::InProgress && !old(self).board.grid.col_open(
                column as int,
            ) ==> r == Err::<usize, GameError>(GameError::InvalidMove) && *final(self) == *old(
                self,
            ),
            r matches Ok(row) ==> {
                &&& row as int == old(self).board.grid.landing_row(column as int)
                &&& final(self).board.grid.model() == old(self).board.grid.model().do_drop(
                    column as int,
                    old(self).turn(),
                    Letter::Blank,
                )
                &&& final(self).board.grid.moves == old(self).board.grid.moves + 1
                &&& final(self).outcome == outcome_of(final(self).board.grid.model())
                &&& (final(self).outcome == GameOutcome::InProgress ==> final(self).record
                    is None)
                &&& (final(self).outcome != GameOutcome::InProgress ==> (final(self).record
                    matches Some(g) && record_matches(
                    g,
                    "Connect4"@,
                    old(self).player1_name@,
                    old(self).player2_name@,
                    final(self).outcome,
                    now_millis,
                )))
            },
    {
        if !matches!(self.outcome, GameOutcome::InProgress) {
            return Err(GameError::GameAlreadyOver);
        }
        let side = if self.board.grid.moves % 2 == 0 {
            Side::A
        } else {
            Side::B
        };
        let res = self.board.try_drop(column, side);
        let row = match res {
            Err(e) => {
                return Err(e);
            },
            Ok(row) => row,
        };
        let oc = self.board.evaluate();
        self.outcome = oc;
        if !matches!(oc, GameOutcome::InProgress) {
            let winner_name = if matches!(oc, GameOutcome::WinnerA) {
                self.player1_name.clone()
            } else if matches!(oc, GameOutcome::WinnerB) {
                self.player2_name.clone()
            } else {
                String::from_str("Draw")
            };
            self.record = Some(
                Game {
                    game_number: 0,
                    game_type: String::from_str("Connect4"),
                    player1_name: self.player1_name.clone(),
                    player2_name: self.player2_name.clone(),
                    winner_name,
                    game_date: now_millis,
                },
            );
        }
        Ok(row)
    }

    /// Returns the match to `AwaitingFirstMove`: a fresh board of the
    /// same dimensions replaces the old one and the outcome and record
    /// are cleared.  The player names are kept.
    pub fn reset(&mut self)
        requires
            old(self).wf(),
        ensures
            final(self).wf(),
            final(self).spec_state() == MatchState::AwaitingFirstMove,
            final(self).board.grid.rows == old(self).board.grid.rows,
            final(self).board.grid.columns == old(self).board.grid.columns,
            final(self).board.grid.moves == 0,
            final(self).outcome == GameOutcome::InProgress,
            final(self).record is None,
            final(self).player1_name == old(self).player1_name,
            final(self).player2_name == old(self).player2_name,
            forall|r: int, c: int|
                final(self).board.grid.model().in_bounds(r, c)
                    ==> #[trigger] final(self).board.grid.model().at(r, c) == blank_cell(),
    {
        let board = Connect4GameBoard::new(self.board.grid.rows, self.board.grid.columns);
        proof {
            lemma_blank_no_wins(board.grid.model(), Side::A);
            lemma_blank_no_wins(board.grid.model(), Side::B);
            crate::board::lemma_idx_in_range(
                board.grid.rows as int,
                board.grid.columns as int,
                0,
                0,
            );
            assert(!board.grid.model().full());
        }
        self.board = board;
        self.outcome = GameOutcome::InProgress;
        self.record = None;
    }
}

/// A match of the letter-sequence game.  The glyph for the next drop is
/// selected separately, before the drop is submitted.
pub struct TootOttoMatch {
    pub board: TootOttoGameBoard,
    pub outcome: GameOutcome,
    pub selected: Letter,
    pub player1_name: String,
    pub player2_name: String,
    pub record: Option<Game>,
}

impl TootOttoMatch {
    /// Controller invariant: as for the four-in-a-row match, with a
    /// selected glyph that is never blank.
    pub open spec fn wf(self) -> bool {
        &&& self.board.wf()
        &&& self.outcome == letter_outcome_of(self.board.grid.model())
        &&& (self.record is Some <==> self.outcome != GameOutcome::InProgress)
        &&& self.selected != Letter::Blank
    }

    pub open spec fn spec_state(self) -> MatchState {
        if self.outcome != GameOutcome::InProgress {
            MatchState::Terminal
        } else if self.board.grid.moves == 0 {
            MatchState::AwaitingFirstMove
        } else {
            MatchState::InProgress
        }
    }

    /// The side to move.
    pub open spec fn turn(self) -> Side {
        turn_side(self.board.grid.moves as int)
    }

    /// Creates a match on an empty board; the selected glyph starts as T.
    pub fn new(rows: usize, columns: usize, player1_name: String, player2_name: String) -> (m:
        TootOttoMatch)
        requires
            1 <= rows <= 50,
            1 <= columns <= 50,
        ensures
            m.wf(),
            m.spec_state() == MatchState::AwaitingFirstMove,
            m.board.grid.rows == rows,
            m.board.grid.columns == columns,
            m.board.grid.moves == 0,
            m.outcome == GameOutcome::InProgress,
            m.selected == Letter::T,
            m.record is None,
            m.player1_name == player1_name,
            m.player2_name == player2_name,
            forall|r: int, c: int|
                m.board.grid.model().in_bounds(r, c) ==> #[trigger] m.board.grid.model().at(r, c)
                    == blank_cell(),
    {
        let board = TootOttoGameBoard::new(rows, columns);
        proof {
            lemma_blank_no_letter_wins(board.grid.model(), Side::A);
            lemma_blank_no_letter_wins(board.grid.model(), Side::B);
            crate::board::lemma_idx_in_range(
                board.grid.rows as int,
                board.grid.columns as int,
                0,
                0,
            );
            assert(!board.grid.model().full());
        }
        TootOttoMatch {
            board,
            outcome: GameOutcome::InProgress,
            selected: Letter::T,
            player1_name,
            player2_name,
            record: None,
        }
    }

    /// The current state of the match.
    pub fn state(&self) -> (r: MatchState)
        ensures
            r == self.spec_state(),
    {
        if !matches!(self.outcome, GameOutcome::InProgress) {
            MatchState::Terminal
        } else if self.board.grid.moves == 0 {
            MatchState::AwaitingFirstMove
        } else {
            MatchState::InProgress
        }
    }

    /// Selects the glyph the next submitted drop will carry.
    pub fn select_symbol(&mut self, l: Letter)
        requires
            old(self).wf(),
            l != Letter::Blank,
        ensures
            final(self).wf(),
            *final(self) == (Self { selected: l, ..*old(self) }),
    {
        self.selected = l;
    }

    /// Submits a drop of the selected glyph into `column` for the side
    /// whose turn it is; see `Connect4Match::submit_move`.
    pub fn submit_move(&mut self, column: usize, now_millis: i64) -> (r: Result<usize, GameError>)
        requires
            old(self).wf(),
        ensures
            final(self).wf(),
            final(self).player1_name == old(self).player1_name,
            final(self).player2_name == old(self).player2_name,
            final(self).selected == old(self).selected,
            r is Ok <==> (old(self).outcome == GameOutcome::InProgress
                && old(self).board.grid.col_open(column as int)),
            old(self).outcome != GameOutcome::InProgress ==> r == Err::<usize, GameError>(
                GameError::GameAlreadyOver,
            ) && *final(self) == *old(self),
            old(self).outcome == GameOutcome::InProgress && !old(self).board.grid.col_open(
                column as int,
            ) ==> r == Err::<usize, GameError>(GameError::InvalidMove) && *final(self) == *old(
                self,
            ),
            r matches Ok(row) ==> {
                &&& row as int == old(self).board.grid.landing_row(column as int)
                &&& final(self).board.grid.model() == old(self).board.grid.model().do_drop(
                    column as int,
                    old(self).turn(),
                    old(self).selected,
                )
                &&& final(self).board.grid.moves == old(self).board.grid.moves + 1
                &&& final(self).outcome == letter_outcome_of(final(self).board.grid.model())
                &&& (final(self).outcome == GameOutcome::InProgress ==> final(self).record
                    is None)
                &&& (final(self).outcome != GameOutcome::InProgress ==> (final(self).record
                    matches Some(g) && record_matches(
                    g,
                    "TOOT-OTTO"@,
                    old(self).player1_name@,
                    old(self).player2_name@,
                    final(self).outcome,
                    now_millis,
                )))
            },
    {
        if !matches!(self.outcome, GameOutcome::InProgress) {
            return Err(GameError::GameAlreadyOver);
        }
        let side = if self.board.grid.moves % 2 == 0 {
            Side::A
        } else {
            Side::B
        };
        let res = self.board.try_drop(column, side, self.selected);
        let row = match res {
            Err(e) => {
                return Err(e);
            },
            Ok(row) => row,
        };
        let oc = self.board.evaluate();
        self.outcome = oc;
        if !matches!(oc, GameOutcome::InProgress) {
            let winner_name = if matches!(oc, GameOutcome::WinnerA) {
                self.player1_name.clone()
            } else if matches!(oc, GameOutcome::WinnerB) {
                self.player2_name.clone()
            } else {
                String::from_str("Draw")
            };
            self.record = Some(
                Game {
                    game_number: 0,
                    game_type: String::from_str("TOOT-OTTO"),
                    player1_name: self.player1_name.clone(),
                    player2_name: self.player2_name.clone(),
                    winner_name,
                    game_date: now_millis,
                },
            );
        }
        Ok(row)
    }

    /// Returns the match to `AwaitingFirstMove`; see
    /// `Connect4Match::reset`.  The selected glyph returns to T.
    pub fn reset(&mut self)
        requires
            old(self).wf(),
        ensures
            final(self).wf(),
            final(self).spec_state() == MatchState::AwaitingFirstMove,
            final(self).board.grid.rows == old(self).board.grid.rows,
            final(self).board.grid.columns == old(self).board.grid.columns,
            final(self).board.grid.moves == 0,
            final(self).outcome == GameOutcome::InProgress,
            final(self).selected == Letter::T,
            final(self).record is None,
            final(self).player1_name == old(self).player1_name,
            final(self).player2_name == old(self).player2_name,
            forall|r: int, c: int|
                final(self).board.grid.model().in_bounds(r, c)
                    ==> #[trigger] final(self).board.grid.model().at(r, c) == blank_cell(),
    {
        let board = TootOttoGameBoard::new(self.board.grid.rows, self.board.grid.columns);
        proof {
            lemma_blank_no_letter_wins(board.grid.model(), Side::A);
            lemma_blank_no_letter_wins(board.grid.model(), Side::B);
            crate::board::lemma_idx_in_range(
                board.grid.rows as int,
                board.grid.columns as int,
                0,
                0,
            );
            assert(!board.grid.model().full());
        }
        self.board = board;
        self.outcome = GameOutcome::InProgress;
        self.selected = Letter::T;
        self.record = None;
    }
}

} // verus!
