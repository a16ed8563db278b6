use desdemona::strategies::{
    is_win, run_game, Constrain, Corners, Maximize, Minimize, Monte, Random, Simple, Strategies, Strategy,
};
use desdemona::{Board, Disc, Game, Position};

fn after_plays(plays: &[usize]) -> Game {
    let mut game = Game::new();
    for &index in plays {
        let valid = game.validate_move(game.turn, index).unwrap();
        game.play(valid);
    }
    game
}

fn game_from_cells(cells: &str, turn: Disc) -> Game {
    let mut board = Board::empty();
    for (i, c) in cells.chars().enumerate() {
        match c {
            'D' => board.set(i, Disc::Dark),
            'L' => board.set(i, Disc::Light),
            _ => {}
        }
    }
    Game {
        turn,
        dark: board.indexes_of(Some(Disc::Dark)).len(),
        light: board.indexes_of(Some(Disc::Light)).len(),
        empty: board.indexes_of(None).len(),
        board,
        transcript: vec![],
        is_complete: false,
    }
}

// light to move with moves 11, 20, 25, 34, 37 flipping 1, 1, 1, 4, 3 discs, leaving dark
// 5, 6, 7, 8, 8 replies
fn middle_game() -> Game {
    after_plays(&[19, 18, 17, 9, 1, 0, 26, 2, 10])
}

#[test]
fn middle_game_is_as_expected() {
    let game = middle_game();
    assert_eq!(game.turn, Disc::Light);
    assert_eq!(game.valid_moves(Disc::Light), vec![11, 20, 25, 34, 37]);
    let flips: Vec<usize> = [11, 20, 25, 34, 37].iter().map(|&i| game.flips_for(i).len()).collect();
    assert_eq!(flips, vec![1, 1, 1, 4, 3]);
}

#[test]
fn maximize_and_minimize_pick_opposite_ends() {
    let game = middle_game();
    assert_eq!(Maximize {}.next_play(&game), Some(34));
    assert_eq!(Minimize {}.next_play(&game), Some(25));
}

#[test]
fn maximize_and_minimize_agree_on_a_single_move() {
    // dark on a1, light on b1: dark's only move is c1
    let cells = "DL..............................................................";
    let game = game_from_cells(cells, Disc::Dark);
    assert_eq!(game.valid_moves(Disc::Dark), vec![2]);
    assert_eq!(Maximize {}.next_play(&game), Some(2));
    assert_eq!(Minimize {}.next_play(&game), Some(2));
}

#[test]
fn constrain_leaves_fewest_replies() {
    assert_eq!(Constrain {}.next_play(&middle_game()), Some(11));
}

#[test]
fn simple_plays_first_move() {
    assert_eq!(Simple {}.next_play(&middle_game()), Some(11));
    assert_eq!(Simple {}.next_play(&Game::new()), Some(19));
}

#[test]
fn corners_takes_a_corner() {
    // light to move with moves 0, 11, 16, 20, 29, 34, 43
    let game = after_plays(&[19, 18, 17, 9, 1]);
    assert_eq!(game.valid_moves(game.turn), vec![0, 11, 16, 20, 29, 34, 43]);
    assert_eq!(Corners {}.next_play(&game), Some(0));
    // no corner and no cell next to an empty corner: the last move
    assert_eq!(Corners {}.next_play(&middle_game()), Some(37));
}

#[test]
fn corners_avoids_cells_next_to_empty_corners() {
    // dark may play b2 (next to the empty a1) or e3
    let cells = "..........LD.........L.....LD......DL...........................";
    let game = game_from_cells(cells, Disc::Dark);
    let moves = game.valid_moves(Disc::Dark);
    assert!(moves.contains(&9));
    assert_eq!(moves, vec![9, 14, 19, 26, 37, 44]);
    // b2 and g2 touch empty corners; the rest are neutral, and the last of them wins
    assert_eq!(Corners {}.next_play(&game), Some(44));
}

#[test]
fn random_plays_legal_moves() {
    let game = Game::new();
    for _ in 0..20 {
        let pick = Random {}.next_play(&game).unwrap();
        assert!(game.valid_moves(Disc::Dark).contains(&pick));
    }
    let mut game = Game::new();
    Random {}.solve(&mut game);
    assert!(game.is_complete);
    assert_eq!(game.dark + game.light + game.empty, 64);
    assert_eq!(Game::from_transcript(&game.transcript).unwrap(), game);
}

#[test]
fn no_move_means_none() {
    // light has no disc to flip against
    let cells = "DL..............................................................";
    let game = game_from_cells(cells, Disc::Light);
    assert!(game.valid_moves(Disc::Light).is_empty());
    assert_eq!(Simple {}.next_play(&game), None);
    assert_eq!(Maximize {}.next_play(&game), None);
    assert_eq!(Minimize {}.next_play(&game), None);
    assert_eq!(Corners {}.next_play(&game), None);
    assert_eq!(Constrain {}.next_play(&game), None);
    assert_eq!(Random {}.next_play(&game), None);
    assert_eq!(Monte {}.next_play(&game), None);
}

#[test]
fn monte_finds_the_winning_move() {
    // dark to move with 24, 50 and 57; only 24 wins however the game goes on
    let cells = "DLDDDDLDLDDDLLDDLLLDLDLL.DLLLDLDLDDLDLLLLLLDLDLDDL.DLLLLL.LDLDLL";
    let game = game_from_cells(cells, Disc::Dark);
    assert_eq!(game.valid_moves(Disc::Dark), vec![24, 50, 57]);
    let mut hits = 0;
    for _ in 0..5 {
        let pick = Monte {}.next_play(&game);
        if pick == Some(24) {
            hits += 1;
        }
    }
    assert!(hits >= 4);
    assert!(Monte::wins_for(&game, 24, 20) == 20);
    assert_eq!(Monte::wins_for(&game, 50, 20), 0);
}

#[test]
fn every_strategy_finishes_a_game() {
    for strategy in Strategies::all() {
        if strategy == Strategies::Monte {
            continue;
        }
        let mut game = Game::new();
        while !game.is_complete {
            match strategy.next_play(&game) {
                Some(index) => game.play(index),
                None => game.pass(),
            }
        }
        assert_eq!(game.dark + game.light + game.empty, 64);
        assert_eq!(Game::from_transcript(&game.transcript).unwrap(), game);
    }
}

#[test]
fn registry_finds_strategies_by_name() {
    assert_eq!(Strategies::from_name("constrain"), Some(Strategies::Constrain));
    assert_eq!(Strategies::from_name("corners"), Some(Strategies::Corners));
    assert_eq!(Strategies::from_name("maximize"), Some(Strategies::Maximize));
    assert_eq!(Strategies::from_name("minimize"), Some(Strategies::Minimize));
    assert_eq!(Strategies::from_name("monte"), Some(Strategies::Monte));
    assert_eq!(Strategies::from_name("random"), Some(Strategies::Random));
    assert_eq!(Strategies::from_name("simple"), Some(Strategies::Simple));
    assert_eq!(Strategies::from_name("Simple"), None);
    assert_eq!(Strategies::from_name(""), None);
    for strategy in Strategies::all() {
        assert_eq!(Strategies::from_name(strategy.name()), Some(strategy));
    }
    assert_eq!(Maximize {}.name(), "maximize");
    assert_eq!(Position::new(0).index(), 0);
}

#[test]
fn run_game_plays_both_sides() {
    let game = run_game(Strategies::Maximize, Strategies::Minimize);
    assert!(game.is_complete);
    assert_eq!(game.dark + game.light + game.empty, 64);
    assert_eq!(Game::from_transcript(&game.transcript).unwrap(), game);
    // the same deterministic strategies always give the same game
    assert_eq!(run_game(Strategies::Maximize, Strategies::Minimize), game);
    let mut replayed = Game::new();
    for play in &game.transcript {
        let expected = match replayed.turn {
            Disc::Dark => Maximize {}.next_play(&replayed),
            Disc::Light => Minimize {}.next_play(&replayed),
        };
        match play {
            desdemona::Play::Move(p) => {
                assert_eq!(expected, Some(p.index()));
                replayed.play(p.index());
            }
            desdemona::Play::Pass => {
                assert_eq!(expected, None);
                replayed.pass();
            }
        }
    }
}

#[test]
fn win_needs_strictly_more_discs() {
    let mut game = Game::new();
    assert!(!is_win(&game, Disc::Dark));
    assert!(!is_win(&game, Disc::Light));
    game.play(19);
    assert!(is_win(&game, Disc::Dark));
    assert!(!is_win(&game, Disc::Light));
}
