use desdemona::Position;

fn get_indices(list: &[Position]) -> Vec<usize> {
    list.iter().map(|p| p.index()).collect()
}

fn test_list(a: &[Position], b: Vec<usize>) {
    assert_eq!(get_indices(a), b);
}

#[test]
fn test_xy_index() {
    let equivalent_xy_indexes = [((0, 0), 0), ((1, 0), 1), ((1, 1), 9), ((7, 7), 63)];

    for ((x, y), target_index) in equivalent_xy_indexes {
        let position_from_xy = Position::from_xy(x, y);
        let position_from_index = Position::new(target_index);

        // these positions should be the same
        assert_eq!(position_from_xy, position_from_index);
    }
}

#[test]
fn test_lines() {
    // test the results of every corner in every direction
    let position = Position::new(0);
    test_list(&position.generate_north(), vec![0]);
    test_list(&position.generate_north_east(), vec![0]);
    test_list(&position.generate_east(), vec![0, 1, 2, 3, 4, 5, 6, 7]);
    test_list(&position.generate_south_east(), vec![0, 9, 18, 27, 36, 45, 54, 63]);
    test_list(&position.generate_south(), vec![0, 8, 16, 24, 32, 40, 48, 56]);
    test_list(&position.generate_south_west(), vec![0]);
    test_list(&position.generate_west(), vec![0]);
    test_list(&position.generate_north_west(), vec![0]);

    let position = Position::new(7);
    test_list(&position.generate_north(), vec![7]);
    test_list(&position.generate_north_east(), vec![7]);
    test_list(&position.generate_east(), vec![7]);
    test_list(&position.generate_south_east(), vec![7]);
    test_list(&position.generate_south(), vec![7, 15, 23, 31, 39, 47, 55, 63]);
    test_list(&position.generate_south_west(), vec![7, 14, 21, 28, 35, 42, 49, 56]);
    test_list(&position.generate_west(), vec![7, 6, 5, 4, 3, 2, 1, 0]);
    test_list(&position.generate_north_west(), vec![7]);

    let position = Position::new(56);
    test_list(&position.generate_north(), vec![56, 48, 40, 32, 24, 16, 8, 0]);
    test_list(&position.generate_north_east(), vec![56, 49, 42, 35, 28, 21, 14, 7]);
    test_list(&position.generate_east(), vec![56, 57, 58, 59, 60, 61, 62, 63]);
    test_list(&position.generate_south_east(), vec![56]);
    test_list(&position.generate_south(), vec![56]);
    test_list(&position.generate_south_west(), vec![56]);
    test_list(&position.generate_west(), vec![56]);
    test_list(&position.generate_north_west(), vec![56]);

    let position = Position::new(63);
    test_list(&position.generate_north(), vec![63, 55, 47, 39, 31, 23, 15, 7]);
    test_list(&position.generate_north_east(), vec![63]);
    test_list(&position.generate_east(), vec![63]);
    test_list(&position.generate_south_east(), vec![63]);
    test_list(&position.generate_south(), vec![63]);
    test_list(&position.generate_south_west(), vec![63]);
    test_list(&position.generate_west(), vec![63, 62, 61, 60, 59, 58, 57, 56]);
    test_list(&position.generate_north_west(), vec![63, 54, 45, 36, 27, 18, 9, 0]);

    // throw a center position in there for good measure
    let position = Position::new(27);
    test_list(&position.generate_north(), vec![27, 19, 11, 3]);
    test_list(&position.generate_north_east(), vec![27, 20, 13, 6]);
    test_list(&position.generate_east(), vec![27, 28, 29, 30, 31]);
    test_list(&position.generate_south_east(), vec![27, 36, 45, 54, 63]);
    test_list(&position.generate_south(), vec![27, 35, 43, 51, 59]);
    test_list(&position.generate_south_west(), vec![27, 34, 41, 48]);
    test_list(&position.generate_west(), vec![27, 26, 25, 24]);
    test_list(&position.generate_north_west(), vec![27, 18, 9, 0]);
}

#[test]
fn to_xy_splits_index() {
    assert_eq!(Position::new(0).to_xy(), (0, 0));
    assert_eq!(Position::new(19).to_xy(), (3, 2));
    assert_eq!(Position::new(63).to_xy(), (7, 7));
}

#[test]
fn coordinate_notation_round_trip() {
    assert_eq!(Position::from_chars('d', '3'), Some(Position::from_xy(3, 2)));
    assert_eq!(Position::from_chars('a', '1'), Some(Position::new(0)));
    assert_eq!(Position::from_chars('h', '8'), Some(Position::new(63)));
    assert_eq!(Position::new(19).to_chars(), ('d', '3'));
    assert_eq!(Position::new(44).to_chars(), ('e', '6'));
    for i in 0..64 {
        let (x, y) = Position::new(i).to_chars();
        assert_eq!(Position::from_chars(x, y), Some(Position::new(i)));
    }
}

#[test]
fn coordinate_notation_rejects_off_board() {
    assert_eq!(Position::from_chars('i', '1'), None);
    assert_eq!(Position::from_chars('a', '9'), None);
    assert_eq!(Position::from_chars('a', '0'), None);
    assert_eq!(Position::from_chars('p', ' '), None);
}
