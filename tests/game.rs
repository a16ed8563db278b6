use desdemona::{Board, Disc, Game, Play, Position};

fn complete_first_move_game() -> Game {
    let mut game = Game::new();
    while !game.is_complete {
        let vm = game.valid_moves(game.turn).into_iter().next();
        match vm {
            None => game.pass(),
            Some(vm) => game.play(vm),
        };
    }
    game
}

fn game_from_cells(cells: &str, turn: Disc) -> Game {
    let mut board = Board::empty();
    for (i, c) in cells.chars().enumerate() {
        match c {
            'D' => board.set(i, Disc::Dark),
            'L' => board.set(i, Disc::Light),
            _ => {}
        }
    }
    Game {
        turn,
        dark: board.indexes_of(Some(Disc::Dark)).len(),
        light: board.indexes_of(Some(Disc::Light)).len(),
        empty: board.indexes_of(None).len(),
        board,
        transcript: vec![],
        is_complete: false,
    }
}

#[test]
fn test_valid_moves() {
    // test valid_moves for the starting board.
    let game = Game::new();
    let valid_moves = game.valid_moves(game.turn);

    let mut move_positions: Vec<Position> = valid_moves.into_iter().map(Position::new).collect();
    move_positions.sort(); // ensure they're in a predictable order

    let mut target_move_positions = vec![
        Position::from_xy(2, 3),
        Position::from_xy(3, 2),
        Position::from_xy(5, 4),
        Position::from_xy(4, 5),
    ];
    target_move_positions.sort();

    assert_eq!(move_positions, target_move_positions);
}

#[test]
fn test_validate_move() {
    let game = Game::new();

    assert!(game.validate_move(game.turn, 0).is_none());

    let good_index = game.validate_move(game.turn, 19);

    assert_eq!(good_index.unwrap(), 19);
}

#[test]
fn test_play() {
    // play a few opening moves and check turn changes and transcript updates
    let mut game = Game::new();

    let valid_move1 = game.valid_moves(game.turn).into_iter().next().unwrap();
    game.play(valid_move1);

    assert_eq!(game.turn, Disc::Light);
    assert_eq!(game.transcript, vec![Play::Move(Position::new(valid_move1))]);

    let valid_move2 = game.valid_moves(game.turn).into_iter().next().unwrap();
    game.play(valid_move2);

    assert_eq!(game.turn, Disc::Dark);
    assert_eq!(
        game.transcript,
        vec![Play::Move(Position::new(valid_move1)), Play::Move(Position::new(valid_move2))]
    );
}

#[test]
fn test_partial_transcript_round_trip() {
    // test a couple of moves in with an incomplete game
    let mut game = Game::new();

    game.play(game.validate_move(game.turn, Position::from_xy(3, 2).index()).unwrap());
    game.play(game.validate_move(game.turn, Position::from_xy(2, 2).index()).unwrap());

    let game_from_transcript = Game::from_transcript(&game.transcript).unwrap();

    assert_eq!(game_from_transcript, game);
}

#[test]
fn test_complete_transcript_round_trip() {
    // test a complete game
    let game = complete_first_move_game();

    let game_from_transcript = Game::from_transcript(&game.transcript).unwrap();

    assert_eq!(game_from_transcript, game);
}

#[test]
fn test_scoring() {
    let game = complete_first_move_game();

    let dark = game.board.indexes_of(Some(Disc::Dark)).len();
    let light = game.board.indexes_of(Some(Disc::Light)).len();
    let empty = game.board.indexes_of(None).len();

    assert_eq!(game.dark, dark);
    assert_eq!(game.light, light);
    assert_eq!(game.empty, empty);
}

#[test]
fn start_has_four_moves_for_dark() {
    let game = Game::new();
    assert_eq!(game.turn, Disc::Dark);
    assert_eq!((game.dark, game.light, game.empty), (2, 2, 60));
    // c4, d3, f5, e6 in ascending index order
    assert_eq!(game.valid_moves(Disc::Dark), vec![19, 26, 37, 44]);
    let moves: Vec<usize> = game.legal_moves(Disc::Dark).iter().map(|m| m.position.index()).collect();
    assert_eq!(moves, vec![19, 26, 37, 44]);
    assert_eq!(game.valid_moves(Disc::Light), vec![20, 29, 34, 43]);
}

#[test]
fn playing_d3_flips_d4() {
    let mut game = Game::new();
    let d3 = Position::from_chars('d', '3').unwrap().index();
    assert_eq!(game.flips_for(d3), vec![27]);
    game.play(d3);
    assert_eq!(game.board.get(27), Some(Disc::Dark));
    assert_eq!(game.board.get(19), Some(Disc::Dark));
    assert_eq!((game.dark, game.light, game.empty), (4, 1, 59));
    assert_eq!(game.turn, Disc::Light);
    assert!(!game.is_complete);
}

#[test]
fn flips_from_several_rays_make_one_move() {
    // dark at a1 flips b1 (east), a2 (south) and b2 (south-east)
    let cells = ".LD.....LL......D.D.............................................";
    let game = game_from_cells(cells, Disc::Dark);
    assert_eq!(game.flips_for(0), vec![1, 8, 9]);
    let moves = game.legal_moves(Disc::Dark);
    let at_corner: Vec<_> = moves.iter().filter(|m| m.position.index() == 0).collect();
    assert_eq!(at_corner.len(), 1);
    let flips: Vec<usize> = at_corner[0].flips.iter().map(|p| p.index()).collect();
    assert_eq!(flips, vec![1, 8, 9]);
    assert_eq!(at_corner[0].score(), 3);

    let valid = game.legal_move(Disc::Dark, 0).unwrap();
    assert_eq!(&valid, at_corner[0]);
    let mut played = game.clone();
    played.play_valid_move(valid);
    let mut direct = game.clone();
    direct.play(0);
    assert_eq!(played, direct);
    assert_eq!((played.dark, played.light), (7, 0));
}

#[test]
fn illegal_moves_are_not_offered() {
    let game = Game::new();
    assert!(game.legal_move(Disc::Dark, 27).is_none());
    assert!(game.legal_move(Disc::Dark, 0).is_none());
    assert!(game.legal_move(Disc::Dark, 64).is_none());
    assert!(game.validate_move(Disc::Dark, 100).is_none());
    for player in [Disc::Dark, Disc::Light] {
        for index in game.valid_moves(player) {
            assert_eq!(game.board.get(index), None);
        }
    }
}

#[test]
fn two_passes_complete_the_game() {
    let mut game = Game::new();
    game.pass();
    assert!(!game.is_complete);
    assert_eq!(game.turn, Disc::Light);
    assert_eq!(game.transcript, vec![Play::Pass]);
    game.pass();
    assert!(game.is_complete);
    assert_eq!(game.transcript, vec![Play::Pass]);
}

#[test]
fn counts_always_total_sixty_four() {
    let mut game = Game::new();
    while !game.is_complete {
        assert_eq!(game.dark + game.light + game.empty, 64);
        match game.valid_moves(game.turn).last() {
            None => game.pass(),
            Some(&index) => game.play(index),
        }
    }
    assert_eq!(game.dark + game.light + game.empty, 64);
    let again = Game::from_transcript(&game.transcript).unwrap();
    assert_eq!(again, game);
}

#[test]
fn replay_stops_at_an_illegal_move() {
    let transcript = vec![Play::Move(Position::from_xy(3, 2)), Play::Move(Position::new(0))];
    assert!(Game::from_transcript(&transcript).is_none());
    assert!(Game::from_transcript(&[Play::Move(Position::new(27))]).is_none());
}

#[test]
fn replay_of_nothing_is_the_start() {
    let game = Game::from_transcript(&[]).unwrap();
    assert_eq!(game, Game::new());
}

#[test]
fn replay_marks_a_full_board_complete() {
    let game = complete_first_move_game();
    assert!(game.is_complete);
    assert!(game.valid_moves(Disc::Dark).is_empty());
    assert!(game.valid_moves(Disc::Light).is_empty());
}
