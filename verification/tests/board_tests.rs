use connect_games::board::{GameError, Grid, Letter, Owner, Side};

#[test]
fn drop_lands_on_bottom_row_of_empty_column() {
    let mut g = Grid::new(6, 7);
    let r = g.try_drop(3, Side::A, Letter::Blank);
    assert_eq!(r, Ok(5));
    assert_eq!(g.moves, 1);
    let cell = g.cell(5, 3);
    assert_eq!(cell.owner, Owner::ByA);
    assert_eq!(cell.letter, Letter::Blank);
}

#[test]
fn drop_twice_fills_strictly_higher_row() {
    let mut g = Grid::new(6, 7);
    let r1 = g.try_drop(2, Side::A, Letter::Blank);
    let r2 = g.try_drop(2, Side::B, Letter::Blank);
    assert_eq!(r1, Ok(5));
    assert_eq!(r2, Ok(4));
    assert_eq!(g.cell(5, 2).owner, Owner::ByA);
    assert_eq!(g.cell(4, 2).owner, Owner::ByB);
}

#[test]
fn drop_out_of_range_is_invalid_and_changes_nothing() {
    let mut g = Grid::new(6, 7);
    let r = g.try_drop(7, Side::A, Letter::Blank);
    assert_eq!(r, Err(GameError::InvalidMove));
    assert_eq!(g.moves, 0);
}

#[test]
fn drop_into_full_column_is_invalid() {
    let mut g = Grid::new(6, 7);
    for k in 0..6 {
        let side = if k % 2 == 0 { Side::A } else { Side::B };
        assert!(g.try_drop(0, side, Letter::Blank).is_ok());
    }
    let r = g.try_drop(0, Side::A, Letter::Blank);
    assert_eq!(r, Err(GameError::InvalidMove));
    assert_eq!(g.moves, 6);
    // every other column still accepts a drop
    for c in 1..7 {
        let mut g2 = g.duplicate();
        assert!(g2.try_drop(c, Side::A, Letter::Blank).is_ok());
    }
}

#[test]
fn is_full_counts_every_cell() {
    let mut g = Grid::new(2, 2);
    assert!(!g.is_full());
    assert!(g.try_drop(0, Side::A, Letter::Blank).is_ok());
    assert!(g.try_drop(0, Side::B, Letter::Blank).is_ok());
    assert!(g.try_drop(1, Side::A, Letter::Blank).is_ok());
    assert!(!g.is_full());
    assert!(g.try_drop(1, Side::B, Letter::Blank).is_ok());
    assert!(g.is_full());
}

#[test]
fn cells_start_empty() {
    let g = Grid::new(4, 6);
    for r in 0..4 {
        for c in 0..6 {
            assert_eq!(g.cell(r, c).owner, Owner::Empty);
            assert_eq!(g.cell(r, c).letter, Letter::Blank);
        }
    }
}
