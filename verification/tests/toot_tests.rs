use connect_games::board::{GameOutcome, Letter, Side};
use connect_games::toot::TootOttoGameBoard;

fn drops(board: &mut TootOttoGameBoard, moves: &[(usize, Side, Letter)]) {
    for &(c, s, l) in moves {
        assert!(board.try_drop(c, s, l).is_ok());
    }
}

#[test]
fn toot_row_wins_for_side_a_with_mixed_owners() {
    // the glyphs spell T-O-O-T; the owners alternate arbitrarily
    let mut board = TootOttoGameBoard::new(4, 6);
    drops(
        &mut board,
        &[
            (0, Side::A, Letter::T),
            (1, Side::B, Letter::O),
            (2, Side::A, Letter::O),
            (3, Side::B, Letter::T),
        ],
    );
    assert_eq!(board.evaluate(), GameOutcome::WinnerA);
}

#[test]
fn toot_row_wins_for_side_a_with_uniform_owners() {
    // the same glyph row, every disc dropped by side B: still side A's win
    let mut board = TootOttoGameBoard::new(4, 6);
    drops(
        &mut board,
        &[
            (0, Side::B, Letter::T),
            (1, Side::B, Letter::O),
            (2, Side::B, Letter::O),
            (3, Side::B, Letter::T),
        ],
    );
    assert_eq!(board.evaluate(), GameOutcome::WinnerA);
}

#[test]
fn otto_row_wins_for_side_b() {
    let mut board = TootOttoGameBoard::new(4, 6);
    drops(
        &mut board,
        &[
            (2, Side::A, Letter::O),
            (3, Side::B, Letter::T),
            (4, Side::A, Letter::T),
            (5, Side::B, Letter::O),
        ],
    );
    assert_eq!(board.evaluate(), GameOutcome::WinnerB);
}

#[test]
fn toot_vertical_and_diagonal_runs_win() {
    // vertical T-O-O-T read downward from the top of column 0
    let mut vertical = TootOttoGameBoard::new(4, 6);
    drops(
        &mut vertical,
        &[
            (0, Side::A, Letter::T),
            (0, Side::B, Letter::O),
            (0, Side::A, Letter::O),
            (0, Side::B, Letter::T),
        ],
    );
    assert_eq!(vertical.evaluate(), GameOutcome::WinnerA);

    // up-right diagonal O-T-T-O from the bottom-left corner to (0,3)
    let mut diagonal = TootOttoGameBoard::new(4, 6);
    drops(
        &mut diagonal,
        &[
            (0, Side::A, Letter::O),
            (1, Side::B, Letter::T),
            (1, Side::A, Letter::T),
            (2, Side::B, Letter::T),
            (2, Side::A, Letter::T),
            (2, Side::B, Letter::T),
            (3, Side::A, Letter::T),
            (3, Side::B, Letter::T),
            (3, Side::A, Letter::T),
            (3, Side::B, Letter::O),
        ],
    );
    assert_eq!(diagonal.evaluate(), GameOutcome::WinnerB);
}

#[test]
fn no_pattern_is_in_progress() {
    let mut board = TootOttoGameBoard::new(4, 6);
    drops(
        &mut board,
        &[
            (0, Side::A, Letter::T),
            (1, Side::B, Letter::T),
            (2, Side::A, Letter::T),
            (3, Side::B, Letter::T),
        ],
    );
    assert_eq!(board.evaluate(), GameOutcome::InProgress);
}
