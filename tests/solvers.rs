use desdemona::solvers::{Minimize, Random, Simple, Solver};
use desdemona::{Disc, Game, Position, ValidMove};

fn vec_usize_to_positions(indexes: &[usize]) -> Vec<Position> {
    indexes.iter().map(|i| Position::new(*i)).collect()
}

#[test]
fn test_moves_sort() {
    let flips1: Vec<usize> = vec![1];
    let flips2: Vec<usize> = vec![1, 2];
    let flips3: Vec<usize> = vec![1, 2, 3];

    let vm1 = ValidMove::new(Position::new(0), vec_usize_to_positions(&flips1));
    let vm2 = ValidMove::new(Position::new(0), vec_usize_to_positions(&flips2));
    let vm3 = ValidMove::new(Position::new(0), vec_usize_to_positions(&flips3));

    let mut sortable = vec![vm2, vm3.clone(), vm1.clone()];
    Minimize::sort(&mut sortable);
    let sorted = &mut sortable;
    assert_eq!(sorted.first(), Some(&vm3));
    assert_eq!(sorted.pop(), Some(vm1));
}

fn after_plays(plays: &[usize]) -> Game {
    let mut game = Game::new();
    for &index in plays {
        let valid = game.validate_move(game.turn, index).unwrap();
        game.play(valid);
    }
    game
}

#[test]
fn solvers_pick_from_the_legal_moves() {
    let game = after_plays(&[19, 18, 17, 9, 1, 0, 26, 2, 10]);
    let simple = Simple {}.next_play(&game).unwrap();
    assert_eq!(simple.position.index(), 37);
    assert_eq!(simple.score(), 3);
    let least = Minimize {}.next_play(&game).unwrap();
    assert_eq!(least.score(), 1);
    assert!([11, 20, 25].contains(&least.position.index()));
    let random = Random::new().next_play(&game).unwrap();
    assert_eq!(Some(random.clone()), game.legal_move(Disc::Light, random.position.index()));
}

#[test]
fn solver_plays_a_whole_game() {
    let mut game = Game::new();
    Random::new().solve(&mut game);
    assert!(game.is_complete);
    assert_eq!(Game::from_transcript(&game.transcript).unwrap(), game);
    let mut game = Game::new();
    Minimize {}.solve(&mut game);
    assert!(game.is_complete);
    assert_eq!(game.dark + game.light + game.empty, 64);
}

#[test]
fn sort_keeps_equal_scores_in_order() {
    let a = ValidMove::new(Position::new(5), vec_usize_to_positions(&[1]));
    let b = ValidMove::new(Position::new(6), vec_usize_to_positions(&[1, 2]));
    let c = ValidMove::new(Position::new(7), vec_usize_to_positions(&[3]));
    let d = ValidMove::new(Position::new(8), vec_usize_to_positions(&[4, 5]));
    let mut moves = vec![a.clone(), b.clone(), c.clone(), d.clone()];
    Minimize::sort(&mut moves);
    assert_eq!(moves, vec![b, d, a, c]);
}
