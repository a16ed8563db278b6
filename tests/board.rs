use desdemona::{Board, Disc};

#[test]
fn test_board_positions_of() {
    let board = Board::new();
    let empty_indexes = board.indexes_of(None).len();
    let light_indexes = board.indexes_of(Some(Disc::Light)).len();
    let dark_indexes = board.indexes_of(Some(Disc::Dark)).len();

    assert_eq!(empty_indexes, 60);
    assert_eq!(light_indexes, 2);
    assert_eq!(dark_indexes, 2);
}

#[test]
fn starting_discs_sit_in_the_center() {
    let board = Board::new();
    assert_eq!(board.get(27), Some(Disc::Light));
    assert_eq!(board.get(28), Some(Disc::Dark));
    assert_eq!(board.get(35), Some(Disc::Dark));
    assert_eq!(board.get(36), Some(Disc::Light));
    assert_eq!(board.get(0), None);
    assert_eq!(board.indexes_of(Some(Disc::Dark)), vec![28, 35]);
    assert_eq!(board.indexes_of(Some(Disc::Light)), vec![27, 36]);
}

#[test]
fn set_places_a_disc() {
    let mut board = Board::empty();
    assert_eq!(board.indexes_of(None).len(), 64);
    board.set(5, Disc::Dark);
    board.set(5, Disc::Light);
    board.set(63, Disc::Dark);
    assert_eq!(board.get(5), Some(Disc::Light));
    assert_eq!(board.indexes_of(Some(Disc::Dark)), vec![63]);
    assert_eq!(board.indexes_of(None).len(), 62);
}

#[test]
fn lines_run_to_the_edge() {
    let board = Board::new();
    let lines = board.lines_for(27);
    assert_eq!(lines.len(), 8);
    assert_eq!(lines[0], vec![27, 19, 11, 3]);
    assert_eq!(lines[2], vec![27, 28, 29, 30, 31]);
    assert_eq!(lines[7], vec![27, 18, 9, 0]);
    let corner = board.lines_for(0);
    assert_eq!(corner[0], vec![0]);
    assert_eq!(corner[3], vec![0, 9, 18, 27, 36, 45, 54, 63]);
}

#[test]
fn opposite_swaps_colors() {
    assert_eq!(Disc::Dark.opposite(), Disc::Light);
    assert_eq!(Disc::Light.opposite(), Disc::Dark);
    assert_eq!(Disc::default(), Disc::Dark);
}
