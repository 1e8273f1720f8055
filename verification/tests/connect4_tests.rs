use connect_games::board::{GameOutcome, Letter, Side};
use connect_games::connect4::{heuristic, Connect4GameBoard};

fn drops(board: &mut Connect4GameBoard, moves: &[(usize, Side)]) {
    for &(c, s) in moves {
        assert!(board.try_drop(c, s).is_ok());
    }
}

#[test]
fn empty_board_is_in_progress() {
    let board = Connect4GameBoard::new(6, 7);
    assert_eq!(board.evaluate(), GameOutcome::InProgress);
}

#[test]
fn horizontal_run_wins() {
    let mut board = Connect4GameBoard::new(6, 7);
    drops(
        &mut board,
        &[
            (0, Side::A),
            (0, Side::B),
            (1, Side::A),
            (1, Side::B),
            (2, Side::A),
            (2, Side::B),
            (3, Side::A),
        ],
    );
    assert_eq!(board.evaluate(), GameOutcome::WinnerA);
}

#[test]
fn vertical_run_wins() {
    let mut board = Connect4GameBoard::new(6, 7);
    drops(
        &mut board,
        &[
            (5, Side::B),
            (5, Side::B),
            (5, Side::B),
            (5, Side::B),
        ],
    );
    assert_eq!(board.evaluate(), GameOutcome::WinnerB);
}

#[test]
fn up_right_diagonal_run_wins() {
    let mut board = Connect4GameBoard::new(6, 7);
    // stairs: A discs on (5,0), (4,1), (3,2), (2,3); B fills below
    drops(
        &mut board,
        &[
            (0, Side::A),
            (1, Side::B),
            (1, Side::A),
            (2, Side::B),
            (2, Side::B),
            (2, Side::A),
            (3, Side::B),
            (3, Side::B),
            (3, Side::B),
            (3, Side::A),
        ],
    );
    assert_eq!(board.evaluate(), GameOutcome::WinnerA);
}

#[test]
fn down_right_diagonal_run_wins() {
    let mut board = Connect4GameBoard::new(6, 7);
    // stairs the other way: A discs on (2,0), (3,1), (4,2), (5,3)
    drops(
        &mut board,
        &[
            (0, Side::B),
            (0, Side::B),
            (0, Side::B),
            (0, Side::A),
            (1, Side::B),
            (1, Side::B),
            (1, Side::A),
            (2, Side::B),
            (2, Side::A),
            (3, Side::A),
        ],
    );
    assert_eq!(board.evaluate(), GameOutcome::WinnerA);
}

#[test]
fn mirrored_win_is_detected_identically() {
    // the horizontal win of columns 0..=3, reflected to columns 3..=6
    let mut board = Connect4GameBoard::new(6, 7);
    drops(
        &mut board,
        &[
            (6, Side::A),
            (6, Side::B),
            (5, Side::A),
            (5, Side::B),
            (4, Side::A),
            (4, Side::B),
            (3, Side::A),
        ],
    );
    assert_eq!(board.evaluate(), GameOutcome::WinnerA);
}

#[test]
fn three_in_a_run_dominates_heuristic() {
    let mut with_run = Connect4GameBoard::new(6, 7);
    drops(&mut with_run, &[(0, Side::A), (1, Side::A), (2, Side::A)]);
    let mut spread = Connect4GameBoard::new(6, 7);
    drops(&mut spread, &[(0, Side::A), (2, Side::A), (4, Side::A)]);
    // cubing rewards consecutive discs over scattered ones
    assert!(heuristic(&with_run.grid) > heuristic(&spread.grid));
}

#[test]
fn heuristic_of_single_disc_counts_runs_through_it() {
    // a lone side-A disc at the bottom corner sits on 7 clipped runs,
    // each contributing 1^3
    let mut board = Connect4GameBoard::new(6, 7);
    drops(&mut board, &[(0, Side::A)]);
    assert_eq!(heuristic(&board.grid), 7);
    // the same disc for side B scores the opposite sign
    let mut board_b = Connect4GameBoard::new(6, 7);
    drops(&mut board_b, &[(0, Side::B)]);
    assert_eq!(heuristic(&board_b.grid), -7);
}

#[test]
fn heuristic_of_empty_board_is_zero() {
    let board = Connect4GameBoard::new(6, 7);
    assert_eq!(heuristic(&board.grid), 0);
}

#[test]
fn mixed_runs_contribute_zero_to_the_heuristic() {
    // a single row holding A, A, A, B: every window with cells of both
    // owners scores 0, so only the one-sided windows remain: three
    // single-cell windows per cell (+1 for each A cell, -1 for the B
    // cell) and the single-cell horizontal window of the B cell
    let mut board = Connect4GameBoard::new(1, 4);
    drops(
        &mut board,
        &[(0, Side::A), (1, Side::A), (2, Side::A), (3, Side::B)],
    );
    assert_eq!(heuristic(&board.grid), 5);
}
