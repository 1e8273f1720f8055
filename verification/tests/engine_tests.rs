use connect_games::board::{GameError, Letter, Side};
use connect_games::connect4::{heuristic, Connect4GameBoard};
use connect_games::engine4::choose_move;
use connect_games::engine_toot::choose_move_toot;
use connect_games::toot::TootOttoGameBoard;

#[test]
fn search_takes_an_immediate_win() {
    // side B has three discs stacked in column 6; completing the stack
    // wins at once, and every depth finds it
    for depth in [1, 2, 4] {
        let mut board = Connect4GameBoard::new(6, 7);
        for &(c, s) in &[
            (6, Side::B),
            (0, Side::A),
            (6, Side::B),
            (1, Side::A),
            (6, Side::B),
            (2, Side::A),
        ] {
            assert!(board.try_drop(c, s).is_ok());
        }
        for seed in 0..20u64 {
            assert_eq!(choose_move(&board, Side::B, depth, seed), Ok(6));
        }
    }
}

#[test]
fn search_blocks_an_immediate_loss() {
    // side A threatens a vertical four in column 0; with two plies of
    // look-ahead, side B's only non-losing move is to block it
    let mut board = Connect4GameBoard::new(6, 7);
    for &(c, s) in &[
        (0, Side::A),
        (3, Side::B),
        (0, Side::A),
        (4, Side::B),
        (0, Side::A),
    ] {
        assert!(board.try_drop(c, s).is_ok());
    }
    for seed in 0..20u64 {
        assert_eq!(choose_move(&board, Side::B, 2, seed), Ok(0));
    }
}

#[test]
fn search_on_full_board_reports_no_move() {
    let mut board = Connect4GameBoard::new(2, 2);
    for &(c, s) in &[(0, Side::A), (0, Side::B), (1, Side::A), (1, Side::B)] {
        assert!(board.try_drop(c, s).is_ok());
    }
    for seed in 0..5u64 {
        assert_eq!(choose_move(&board, Side::A, 4, seed), Err(GameError::NoLegalMove));
    }
}

#[test]
fn tie_break_draws_only_from_the_best_score_set() {
    // at depth 1 the value of each column is the heuristic of the board
    // after the drop, so the best-score set can be computed directly
    let board = Connect4GameBoard::new(6, 7);
    let mut values: Vec<i64> = Vec::new();
    for c in 0..7 {
        let mut child = Connect4GameBoard { grid: board.grid.duplicate() };
        assert!(child.try_drop(c, Side::A).is_ok());
        values.push(heuristic(&child.grid));
    }
    let best = *values.iter().max().unwrap();
    let best_set: Vec<usize> = (0..7).filter(|&c| values[c] == best).collect();
    assert!(best_set.len() >= 2, "expected a tied position");
    let mut seen: Vec<usize> = Vec::new();
    for seed in 0..50u64 {
        let c = choose_move(&board, Side::A, 1, seed).unwrap();
        assert!(best_set.contains(&c), "column {} not among best {:?}", c, best_set);
        if !seen.contains(&c) {
            seen.push(c);
        }
    }
    seen.sort();
    assert_eq!(seen, best_set, "every tied column should be drawn");
}

#[test]
fn tie_break_is_deterministic_in_the_seed() {
    let board = Connect4GameBoard::new(6, 7);
    for seed in 0..10u64 {
        let a = choose_move(&board, Side::A, 3, seed);
        let b = choose_move(&board, Side::A, 3, seed);
        assert_eq!(a, b);
    }
}

#[test]
fn letter_search_completes_its_own_pattern() {
    // O-T-T on the bottom row: dropping an O into column 3 spells OTTO,
    // the pattern assigned to side B
    let mut board = TootOttoGameBoard::new(4, 6);
    for &(c, s, l) in &[
        (0, Side::A, Letter::O),
        (1, Side::B, Letter::T),
        (2, Side::A, Letter::T),
    ] {
        assert!(board.try_drop(c, s, l).is_ok());
    }
    for seed in 0..20u64 {
        assert_eq!(choose_move_toot(&board, Side::B, 2, seed), Ok((3, Letter::O)));
    }
}

#[test]
fn letter_search_on_full_board_reports_no_move() {
    let mut board = TootOttoGameBoard::new(2, 2);
    for &(c, l) in &[(0, Letter::T), (0, Letter::T), (1, Letter::T), (1, Letter::T)] {
        assert!(board.try_drop(c, Side::A, l).is_ok());
    }
    for seed in 0..5u64 {
        assert_eq!(choose_move_toot(&board, Side::B, 3, seed), Err(GameError::NoLegalMove));
    }
}

#[test]
fn letter_search_returns_a_legal_move() {
    let board = TootOttoGameBoard::new(4, 6);
    for seed in 0..20u64 {
        let (c, l) = choose_move_toot(&board, Side::A, 1, seed).unwrap();
        assert!(c < 6);
        assert!(l == Letter::T || l == Letter::O);
    }
}

#[test]
fn letter_search_blocks_with_the_right_glyph() {
    // T, O, O on the bottom row threaten T-O-O-T; only an O dropped into
    // column 3 avoids an immediate loss — a T there would complete the
    // opponent's pattern itself, and any other move leaves the T reply open
    let mut board = TootOttoGameBoard::new(4, 6);
    for &(c, s, l) in &[
        (0, Side::A, Letter::T),
        (1, Side::B, Letter::O),
        (2, Side::A, Letter::O),
    ] {
        assert!(board.try_drop(c, s, l).is_ok());
    }
    for seed in 0..20u64 {
        assert_eq!(choose_move_toot(&board, Side::B, 2, seed), Ok((3, Letter::O)));
    }
}
