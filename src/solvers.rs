use vstd::prelude::*;

use crate::board::{lemma_board_len, lemma_count_zero};
use crate::game::{ends_with_pass, lemma_move_score, Game, GameView, ValidMove};
use crate::laws::{lemma_disc_total, lemma_play_out_push, play_out, reaches};
use crate::game::Play;
use crate::rules::{has_moves, is_legal, legal_list, lemma_legal_list_empty, lemma_legal_upto, move_flips};
use crate::strategies::{is_rollout_tally, last_max_index, pick_last_max, random_below, tally_in_parallel};
use crate::board::as_ints;

verus! {

broadcast use lemma_board_len;

/// Whether `r` is one of the legal moves of the player to move with its flips, or `None` when
/// there is none.
pub open spec fn some_valid_move(g: GameView, r: Option<ValidMove>) -> bool {
    match r {
        Some(m) => m.is_move_of(g.board, g.turn),
        None => !has_moves(g.board, g.turn),
    }
}

/// Each move flips at least as many discs as the next.
pub open spec fn by_score_descending(s: Seq<ValidMove>) -> bool {
    forall|i: int, j: int| 0 <= i < j < s.len() ==> s[i].flips@.len() >= s[j].flips@.len()
}

/// Whether `after` puts the moves of `before` in a new order with move `k` taken from place
/// `from[k]`, each place used once, and moves with equal flip counts in their old order.
pub open spec fn is_stable_reorder(before: Seq<ValidMove>, after: Seq<ValidMove>, from: Seq<int>) -> bool {
    &&& after.len() == before.len()
    &&& from.len() == before.len()
    &&& forall|k: int| 0 <= k < after.len() ==> 0 <= #[trigger] from[k] < before.len() && after[k] == before[from[k]]
    &&& forall|a: int, b: int| 0 <= a < b < from.len() ==> from[a] != from[b]
    &&& forall|a: int, b: int|
        0 <= a < b < after.len() && after[a].flips@.len() == after[b].flips@.len() ==> from[a] < from[b]
}

/// A gameplay solver: given a game, the next move of the player to move with its flips, or
/// `None` to pass.
pub trait Solver {
    /// The answers this solver may give in state `g`.
    spec fn answers(&self, g: GameView, r: Option<ValidMove>) -> bool;

    /// The name and version of this solver.
    fn name(&self) -> &'static str;

    /// The next move for the player to move: always a legal one, and `None` only when that
    /// player has no legal move.
    fn next_play(&mut self, game: &Game) -> (r: Option<ValidMove>)
        requires
            game.wf(),
        ensures
            old(self).answers(game@, r),
            some_valid_move(game@, r),
    ;

    /// Plays the game to completion, making every move of both sides with this solver and
    /// passing when it has none.
    fn solve(&mut self, game: &mut Game)
        requires
            old(game).wf(),
        ensures
            final(game).wf(),
            final(game).is_complete,
            reaches(old(game)@, final(game)@),
    {
        let ghost start = game@;
        let ghost mut plays: Seq<Play> = Seq::empty();
        while !game.is_complete
            invariant
                game.wf(),
                play_out(start, plays) == Some(game@),
            decreases 2 * game.empty + (if ends_with_pass(game.transcript@) {
                0int
            } else {
                1int
            }) + (if game.is_complete {
                0int
            } else {
                1int
            }),
        {
            match self.next_play(game) {
                Some(valid_move) => {
                    proof {
                        lemma_count_zero(game.board@, None);
                        lemma_play_out_push(start, plays, Play::Move(valid_move.position));
                        plays = plays.push(Play::Move(valid_move.position));
                    }
                    game.play_valid_move(valid_move);
                },
                None => {
                    proof {
                        lemma_play_out_push(start, plays, Play::Pass);
                        plays = plays.push(Play::Pass);
                    }
                    game.pass();
                },
            }
            proof {
                lemma_disc_total(game);
            }
        }
        assert(play_out(start, plays) == Some(game@));
    }

    /// Plays `count` complete games from the start with this solver.
    fn bench(&mut self, count: usize) {
        let mut i: usize = 0;
        while i < count
            decreases count - i,
        {
            let mut game = Game::new();
            self.solve(&mut game);
            i += 1;
        }
    }
}

/// The legal moves of the player to move with their flips, and the facts that pickers need.
fn valid_moves_of(game: &Game) -> (r: Vec<ValidMove>)
    ensures
        r@.len() == legal_list(game.board@, game.turn).len(),
        r@.len() > 0 <==> has_moves(game.board@, game.turn),
        forall|j: int| 0 <= j < r@.len() ==> (#[trigger] r@[j]).position@ == legal_list(game.board@, game.turn)[j]
            && r@[j].is_move_of(game.board@, game.turn),
{
    let moves = game.legal_moves(game.turn);
    proof {
        lemma_legal_list_empty(game.board@, game.turn);
    }
    moves
}

/// Whether `r` is at the move with the most rollout wins, the last among equals, for some
/// tally of `rounds` rollouts of each legal move of the player to move.
pub open spec fn is_best_move_by_rollouts(g: GameView, rounds: int, r: Option<ValidMove>) -> bool {
    exists|tallies: Seq<int>|
        #![trigger tallies.len()]
        tallies.len() == legal_list(g.board, g.turn).len() && (forall|j: int|
            0 <= j < tallies.len() ==> is_rollout_tally(g, legal_list(g.board, g.turn)[j], rounds, #[trigger] tallies[j]))
            && (r is Some ==> r->0.position@ == legal_list(g.board, g.turn)[last_max_index(tallies)])
}

/// Plays the move that flips the fewest discs.
pub struct Minimize {}

impl Minimize {
    /// Orders moves by the number of discs they flip, most first; moves with equal counts keep
    /// their order.
    pub fn sort(valid_moves: &mut Vec<ValidMove>)
        ensures
            final(valid_moves)@.to_multiset() == old(valid_moves)@.to_multiset(),
            by_score_descending(final(valid_moves)@),
            exists|from: Seq<int>| is_stable_reorder(old(valid_moves)@, final(valid_moves)@, from),
    {
        let ghost original = valid_moves@;
        let n = valid_moves.len();
        let ghost mut from: Seq<int> = Seq::new(n as nat, |k: int| k);
        let mut i: usize = 1;
        while i < n
            invariant
                n == valid_moves@.len(),
                n == original.len(),
                1 <= i || n == 0,
                i <= n || n == 0,
                valid_moves@.to_multiset() == original.to_multiset(),
                forall|a: int, b: int| 0 <= a < b < i && b < n ==> valid_moves@[a].flips@.len() >= valid_moves@[b].flips@.len(),
                from.len() == n,
                forall|k: int| 0 <= k < n ==> 0 <= #[trigger] from[k] < n && valid_moves@[k] == original[from[k]],
                forall|k: int| i <= k < n ==> #[trigger] from[k] == k,
                forall|k: int| 0 <= k < i && k < n ==> #[trigger] from[k] < i,
                forall|a: int, b: int| 0 <= a < b < n ==> from[a] != from[b],
                forall|a: int, b: int|
                    0 <= a < b < i && b < n && valid_moves@[a].flips@.len() == valid_moves@[b].flips@.len()
                        ==> from[a] < from[b],
            decreases n - i,
        {
            let ghost before = valid_moves@;
            let ghost from_before = from;
            let x = valid_moves.remove(i);
            let score = x.flips.len();
            proof {
                vstd::seq_lib::to_multiset_remove(before, i as int);
            }
            let mut j: usize = 0;
            while j < i && valid_moves[j].flips.len() >= score
                invariant
                    j <= i,
                    i < n,
                    valid_moves@.len() == n - 1,
                    forall|q: int| 0 <= q < j ==> valid_moves@[q].flips@.len() >= score,
                decreases i - j,
            {
                j += 1;
            }
            let ghost removed = valid_moves@;
            valid_moves.insert(j, x);
            proof {
                vstd::seq_lib::to_multiset_insert(removed, j as int, x);
                vstd::seq_lib::to_multiset_contains(before, x);
                assert(before[i as int] == x);
                assert(before.contains(x));
                assert(valid_moves@ == removed.insert(j as int, x));
                assert(before.to_multiset().remove(x).insert(x) =~= before.to_multiset());
                let s = valid_moves@;
                from = from_before.remove(i as int).insert(j as int, i as int);
                assert forall|k: int| 0 <= k < n implies #[trigger] s[k] == original[from[k]] by {
                    if k < j {
                        assert(s[k] == before[k]);
                        assert(from[k] == from_before[k]);
                        assert(before[k] == original[from_before[k]]);
                    } else if k == j {
                        assert(from[k] == i);
                        assert(from_before[i as int] == i);
                        assert(before[i as int] == original[from_before[i as int]]);
                    } else {
                        assert(s[k] == removed[k - 1]);
                        if k - 1 < i {
                            assert(removed[k - 1] == before[k - 1]);
                            assert(from[k] == from_before[k - 1]);
                            assert(before[k - 1] == original[from_before[k - 1]]);
                        } else {
                            assert(removed[k - 1] == before[k]);
                            assert(from[k] == from_before[k]);
                            assert(before[k] == original[from_before[k]]);
                        }
                    }
                }
                assert forall|a: int, b: int| 0 <= a < b < i + 1 && b < n implies s[a].flips@.len() >= s[b].flips@.len() by {
                    if b < j {
                    } else if b == j {
                    } else if a < j {
                        assert(removed[a] == s[a]);
                        assert(removed[b - 1] == s[b]);
                        assert(before[a] == s[a]);
                    } else if a == j {
                        assert(removed[j as int].flips@.len() < score);
                        assert(removed[j as int] == before[j as int]);
                        assert(removed[b - 1] == before[b - 1]);
                        assert(s[b] == removed[b - 1]);
                        assert(s[a] == x);
                    } else {
                        assert(removed[a - 1] == s[a]);
                        assert(removed[b - 1] == s[b]);
                    }
                }
                assert forall|a: int, b: int|
                    0 <= a < b < i + 1 && b < n && s[a].flips@.len() == s[b].flips@.len() implies from[a] < from[b] by {
                    if a == j {
                        assert(removed[j as int] == before[j as int]);
                        assert(removed[b - 1] == before[b - 1]);
                        assert(before[j as int].flips@.len() >= before[b - 1].flips@.len());
                        assert(removed[j as int].flips@.len() < score);
                    } else if b == j {
                    } else if b < j {
                        assert(s[a] == before[a] && s[b] == before[b]);
                    } else if a < j {
                        assert(s[a] == before[a] && s[b] == before[b - 1]);
                    } else {
                        assert(s[a] == before[a - 1] && s[b] == before[b - 1]);
                    }
                }
                assert forall|k: int| i + 1 <= k < n implies #[trigger] from[k] == k by {
                    assert(from[k] == from_before[k]);
                }
            }
            i += 1;
        }
        proof {
            assert(is_stable_reorder(original, valid_moves@, from));
        }
    }
}

impl Solver for Minimize {
    open spec fn answers(&self, g: GameView, r: Option<ValidMove>) -> bool {
        r is Some ==> forall|t: int| is_legal(g.board, g.turn, t) ==> r->0.flips@.len() <= move_flips(g.board, g.turn, t).len()
    }

    fn name(&self) -> &'static str {
        "Minimize v1.0"
    }

    fn next_play(&mut self, game: &Game) -> (r: Option<ValidMove>) {
        let mut moves = valid_moves_of(game);
        if moves.len() == 0 {
            assert(self.answers(game@, None));
            return None;
        }
        let ghost listed = moves@;
        Self::sort(&mut moves);
        let ghost sorted = moves@;
        let r = moves.pop();
        proof {
            let last = sorted[sorted.len() - 1];
            assert(sorted.len() == listed.len()) by {
                vstd::seq_lib::to_multiset_len(sorted);
                vstd::seq_lib::to_multiset_len(listed);
            }
            assert(r == Some(last));
            vstd::seq_lib::to_multiset_contains(sorted, last);
            vstd::seq_lib::to_multiset_contains(listed, last);
            assert(sorted.contains(last));
            assert(listed.contains(last));
            let k = choose|k: int| 0 <= k < listed.len() && listed[k] == last;
            assert(last.is_move_of(game.board@, game.turn));
            assert forall|t: int| is_legal(game.board@, game.turn, t) implies last.flips@.len() <= move_flips(
                game.board@,
                game.turn,
                t,
            ).len() by {
                lemma_legal_upto(game.board@, game.turn, 64);
                assert(legal_list(game.board@, game.turn).contains(t));
                let q = choose|q: int| 0 <= q < listed.len() && legal_list(game.board@, game.turn)[q] == t;
                let m = listed[q];
                assert(m.position@ == t);
                lemma_move_score(m, game.board@, game.turn);
                vstd::seq_lib::to_multiset_contains(listed, m);
                vstd::seq_lib::to_multiset_contains(sorted, m);
                assert(listed.contains(m));
                assert(sorted.contains(m));
                let w = choose|w: int| 0 <= w < sorted.len() && sorted[w] == m;
                if w < sorted.len() - 1 {
                    assert(sorted[w].flips@.len() >= sorted[sorted.len() - 1].flips@.len());
                }
            }
            assert(self.answers(game@, r));
        }
        r
    }
}

/// Plays the last legal move in ascending cell order.
pub struct Simple {}

impl Solver for Simple {
    open spec fn answers(&self, g: GameView, r: Option<ValidMove>) -> bool {
        r is Some ==> r->0.position@ == legal_list(g.board, g.turn).last()
    }

    fn name(&self) -> &'static str {
        "Simple v1.0"
    }

    fn next_play(&mut self, game: &Game) -> (r: Option<ValidMove>) {
        let mut moves = valid_moves_of(game);
        let ghost listed = moves@;
        let r = moves.pop();
        proof {
            if listed.len() > 0 {
                assert(r == Some(listed[listed.len() - 1]));
            }
        }
        assert(self.answers(game@, r));
        r
    }
}

/// Plays a legal move chosen uniformly at random.
pub struct Random {}

impl Random {
    /// A random solver.
    pub fn new() -> (r: Random) {
        Random {}
    }
}

impl Solver for Random {
    open spec fn answers(&self, g: GameView, r: Option<ValidMove>) -> bool {
        some_valid_move(g, r)
    }

    fn name(&self) -> &'static str {
        "Random v1.0"
    }

    fn next_play(&mut self, game: &Game) -> (r: Option<ValidMove>) {
        let mut moves = valid_moves_of(game);
        if moves.len() == 0 {
            assert(self.answers(game@, None));
            return None;
        }
        let j = random_below(moves.len());
        let r = Some(moves.swap_remove(j));
        assert(self.answers(game@, r));
        r
    }
}

/// Scores each legal move by random rollouts and plays the one that won most often; among
/// equals, the last in cell order.
pub struct Monte {}

impl Monte {
    /// Rollouts per candidate move.
    pub const ROUNDS: usize = 5_000;

    /// A Monte Carlo solver.
    pub fn new() -> (r: Monte) {
        Monte {}
    }
}

impl Solver for Monte {
    open spec fn answers(&self, g: GameView, r: Option<ValidMove>) -> bool {
        is_best_move_by_rollouts(g, Self::ROUNDS as int, r)
    }

    fn name(&self) -> &'static str {
        "Monte v1.0"
    }

    fn next_play(&mut self, game: &Game) -> (r: Option<ValidMove>) {
        let mut moves = valid_moves_of(game);
        if moves.len() == 0 {
            proof {
                let t = Seq::<int>::empty();
                assert(t.len() == legal_list(game.board@, game.turn).len());
                assert(forall|j: int| 0 <= j < t.len() ==> is_rollout_tally(
                    game@, legal_list(game.board@, game.turn)[j], Self::ROUNDS as int, #[trigger] t[j]));
                assert(is_best_move_by_rollouts(game@, Self::ROUNDS as int, None));
            }
            assert(self.answers(game@, None));
            return None;
        }
        let ghost l = legal_list(game.board@, game.turn);
        let mut targets: Vec<usize> = Vec::with_capacity(moves.len());
        let mut j: usize = 0;
        while j < moves.len()
            invariant
                j <= moves@.len(),
                targets@.len() == j,
                l == legal_list(game.board@, game.turn),
                moves@.len() == l.len(),
                forall|q: int| 0 <= q < moves@.len() ==> (#[trigger] moves@[q]).is_move_of(game.board@, game.turn)
                    && moves@[q].position@ == l[q],
                forall|q: int| 0 <= q < j ==> is_legal(game.board@, game.turn, #[trigger] targets@[q] as int)
                    && targets@[q] as int == l[q],
            decreases moves@.len() - j,
        {
            targets.push(moves[j].position.index());
            j += 1;
        }
        let tallies = tally_in_parallel(game, &targets, Self::ROUNDS);
        let best = pick_last_max(&tallies);
        let ghost listed = moves@;
        let r = Some(moves.swap_remove(best));
        proof {
            let t = as_ints(tallies@);
            assert(t.len() == l.len());
            assert forall|q: int| 0 <= q < t.len() implies is_rollout_tally(game@, l[q], Self::ROUNDS as int, #[trigger] t[q]) by {
                assert(targets@[q] as int == l[q]);
            }
            assert(r->0 == listed[best as int]);
            assert(r->0.position@ == l[last_max_index(t)]);
            assert(is_best_move_by_rollouts(game@, Self::ROUNDS as int, r));
        }
        assert(self.answers(game@, r));
        r
    }
}

} // verus!
