use connect_games::board::{GameError, GameOutcome, Letter, Owner};
use connect_games::controller::{Connect4Match, MatchState, TootOttoMatch};

fn new_c4() -> Connect4Match {
    Connect4Match::new(6, 7, String::from("Alice"), String::from("Computer"))
}

#[test]
fn scenario_four_in_a_row_side_a_wins() {
    // side A stacks column 3; side B answers in column 4 between A's
    // drops; A's fourth disc in column 3 ends the match
    let mut m = new_c4();
    assert_eq!(m.state(), MatchState::AwaitingFirstMove);
    let moves = [3usize, 4, 3, 4, 3, 4, 3];
    for (k, &c) in moves.iter().enumerate() {
        let r = m.submit_move(c, 1_700_000_000_000 + k as i64);
        assert!(r.is_ok());
        if k < moves.len() - 1 {
            assert_eq!(m.outcome, GameOutcome::InProgress);
        }
    }
    assert_eq!(m.outcome, GameOutcome::WinnerA);
    assert_eq!(m.state(), MatchState::Terminal);
    let rec = m.record.as_ref().unwrap();
    assert_eq!(rec.winner_name, "Alice");
    assert_eq!(rec.game_type, "Connect4");
    assert_eq!(rec.player1_name, "Alice");
    assert_eq!(rec.player2_name, "Computer");
    assert_eq!(rec.game_date, 1_700_000_000_006);
    assert_eq!(rec.game_number, 0);
}

#[test]
fn scenario_full_board_without_a_run_is_a_draw() {
    // a fill order whose alternating discs leave no four-in-a-row in any
    // direction; the forty-second move ends the match in a draw
    let mut m = new_c4();
    let order = [
        2usize, 0, 0, 0, 0, 0, 0, 1, 1, 1, 1, 1, 1, 2, 2, 2, 2, 2, 3, 3, 3, 3, 3, 3, 6, 4, 4, 4,
        4, 4, 4, 5, 5, 5, 5, 5, 5, 6, 6, 6, 6, 6,
    ];
    for (k, &c) in order.iter().enumerate() {
        assert_eq!(m.outcome, GameOutcome::InProgress);
        let r = m.submit_move(c, k as i64);
        assert!(r.is_ok(), "move {} into column {} failed", k, c);
    }
    assert_eq!(m.board.grid.moves, 42);
    assert_eq!(m.outcome, GameOutcome::Draw);
    let rec = m.record.as_ref().unwrap();
    assert_eq!(rec.winner_name, "Draw");
    assert_eq!(rec.game_date, 41);
}

#[test]
fn submit_into_full_column_changes_nothing() {
    let mut m = new_c4();
    for k in 0..6 {
        assert!(m.submit_move(0, k).is_ok());
    }
    let moves_before = m.board.grid.moves;
    let outcome_before = m.outcome;
    let r = m.submit_move(0, 99);
    assert_eq!(r, Err(GameError::InvalidMove));
    assert_eq!(m.board.grid.moves, moves_before);
    assert_eq!(m.outcome, outcome_before);
    assert!(m.record.is_none());
    // the board itself is untouched: column 1 is still empty
    for r2 in 0..6 {
        assert_eq!(m.board.cell(r2, 1).owner, Owner::Empty);
    }
}

#[test]
fn submit_out_of_range_is_invalid() {
    let mut m = new_c4();
    assert_eq!(m.submit_move(7, 0), Err(GameError::InvalidMove));
    assert_eq!(m.board.grid.moves, 0);
    assert_eq!(m.state(), MatchState::AwaitingFirstMove);
}

#[test]
fn submit_after_terminal_fails_without_mutation() {
    let mut m = new_c4();
    for &c in &[3usize, 4, 3, 4, 3, 4, 3] {
        assert!(m.submit_move(c, 7).is_ok());
    }
    assert_eq!(m.outcome, GameOutcome::WinnerA);
    let moves_before = m.board.grid.moves;
    assert_eq!(m.submit_move(0, 8), Err(GameError::GameAlreadyOver));
    assert_eq!(m.board.grid.moves, moves_before);
    assert_eq!(m.outcome, GameOutcome::WinnerA);
}

#[test]
fn reset_returns_to_awaiting_first_move() {
    let mut m = new_c4();
    for &c in &[3usize, 4, 3, 4, 3, 4, 3] {
        assert!(m.submit_move(c, 7).is_ok());
    }
    assert_eq!(m.state(), MatchState::Terminal);
    m.reset();
    assert_eq!(m.state(), MatchState::AwaitingFirstMove);
    assert_eq!(m.board.grid.moves, 0);
    assert_eq!(m.outcome, GameOutcome::InProgress);
    assert!(m.record.is_none());
    assert_eq!(m.player1_name, "Alice");
    assert!(m.submit_move(3, 9).is_ok());
}

#[test]
fn scenario_letter_game_side_a_wins_by_symbols_alone() {
    // the sides alternate automatically, each choosing a glyph before the
    // drop; the glyphs spell T-O-O-T though the owners alternate A, B, A, B
    let mut m = TootOttoMatch::new(4, 6, String::from("Pat"), String::from("Computer"));
    let script = [
        (0usize, Letter::T),
        (1, Letter::O),
        (2, Letter::O),
        (3, Letter::T),
    ];
    for (k, &(c, l)) in script.iter().enumerate() {
        m.select_symbol(l);
        assert!(m.submit_move(c, 500 + k as i64).is_ok());
    }
    assert_eq!(m.outcome, GameOutcome::WinnerA);
    let rec = m.record.as_ref().unwrap();
    assert_eq!(rec.winner_name, "Pat");
    assert_eq!(rec.game_type, "TOOT-OTTO");
    assert_eq!(rec.game_date, 503);
}

#[test]
fn letter_match_otto_wins_for_side_b() {
    let mut m = TootOttoMatch::new(4, 6, String::from("Pat"), String::from("Computer"));
    let script = [
        (0usize, Letter::O),
        (1, Letter::T),
        (2, Letter::T),
        (3, Letter::O),
    ];
    for &(c, l) in script.iter() {
        m.select_symbol(l);
        assert!(m.submit_move(c, 0).is_ok());
    }
    assert_eq!(m.outcome, GameOutcome::WinnerB);
    assert_eq!(m.record.as_ref().unwrap().winner_name, "Computer");
}

#[test]
fn letter_match_reset_restores_selected_glyph() {
    let mut m = TootOttoMatch::new(4, 6, String::from("Pat"), String::from("Computer"));
    m.select_symbol(Letter::O);
    assert!(m.submit_move(0, 0).is_ok());
    m.reset();
    assert_eq!(m.selected, Letter::T);
    assert_eq!(m.board.grid.moves, 0);
    assert_eq!(m.state(), MatchState::AwaitingFirstMove);
}
