use vstd::prelude::*;

use rand::Rng;
use vstd::string::StringSliceAdditionalSpecFns;
use rayon::iter::{IntoParallelRefIterator, ParallelIterator};

use crate::board::{as_ints, lemma_board_len, lemma_count_zero, Board};
use crate::disc::Disc;
use crate::game::{after_move, Game, GameView, Play};
use crate::laws::{lemma_disc_total, lemma_play_out_push, play_out, reaches};
use crate::position::{lemma_position_at_view, Position};
use crate::rules::{has_moves, is_legal, legal_list, lemma_legal_list_empty, move_flips, place};

verus! {

broadcast use {lemma_board_len, lemma_position_at_view};

/// Index of the last largest value of a non-empty sequence.
pub open spec fn last_max_index(s: Seq<int>) -> int
    decreases s.len(),
{
    if s.len() <= 1 {
        0
    } else {
        let j = last_max_index(s.drop_last());
        if s.last() >= s[j] {
            s.len() - 1
        } else {
            j
        }
    }
}

/// Index of the last smallest value of a non-empty sequence.
pub open spec fn last_min_index(s: Seq<int>) -> int
    decreases s.len(),
{
    if s.len() <= 1 {
        0
    } else {
        let j = last_min_index(s.drop_last());
        if s.last() <= s[j] {
            s.len() - 1
        } else {
            j
        }
    }
}

/// Index of the first smallest value of a non-empty sequence.
pub open spec fn first_min_index(s: Seq<int>) -> int
    decreases s.len(),
{
    if s.len() <= 1 {
        0
    } else {
        let j = first_min_index(s.drop_last());
        if s.last() < s[j] {
            s.len() - 1
        } else {
            j
        }
    }
}

/// The last largest value is in range, no value exceeds it, and every later value is smaller.
pub proof fn lemma_last_max_index(s: Seq<int>)
    requires
        s.len() > 0,
    ensures
        0 <= last_max_index(s) < s.len(),
        forall|i: int| 0 <= i < s.len() ==> #[trigger] s[i] <= s[last_max_index(s)],
        forall|i: int| last_max_index(s) < i < s.len() ==> #[trigger] s[i] < s[last_max_index(s)],
    decreases s.len(),
{
    if s.len() > 1 {
        let t = s.drop_last();
        lemma_last_max_index(t);
        assert forall|i: int| 0 <= i < s.len() - 1 implies #[trigger] s[i] == t[i] by {}
    }
}

/// The last smallest value is in range, no value is below it, and every later value is larger.
pub proof fn lemma_last_min_index(s: Seq<int>)
    requires
        s.len() > 0,
    ensures
        0 <= last_min_index(s) < s.len(),
        forall|i: int| 0 <= i < s.len() ==> s[last_min_index(s)] <= #[trigger] s[i],
        forall|i: int| last_min_index(s) < i < s.len() ==> s[last_min_index(s)] < #[trigger] s[i],
    decreases s.len(),
{
    if s.len() > 1 {
        let t = s.drop_last();
        lemma_last_min_index(t);
        assert forall|i: int| 0 <= i < s.len() - 1 implies #[trigger] s[i] == t[i] by {}
    }
}

/// The first smallest value is in range, no value is below it, and every earlier value is larger.
pub proof fn lemma_first_min_index(s: Seq<int>)
    requires
        s.len() > 0,
    ensures
        0 <= first_min_index(s) < s.len(),
        forall|i: int| 0 <= i < s.len() ==> s[first_min_index(s)] <= #[trigger] s[i],
        forall|i: int| 0 <= i < first_min_index(s) ==> s[first_min_index(s)] < #[trigger] s[i],
    decreases s.len(),
{
    if s.len() > 1 {
        let t = s.drop_last();
        lemma_first_min_index(t);
        assert forall|i: int| 0 <= i < s.len() - 1 implies #[trigger] s[i] == t[i] by {}
    }
}

/// Picking by most flips and by fewest flips from the same scores: the first pick scores at
/// least every move, the second at most every move, and with a single move both pick it.
pub proof fn lemma_max_min_picks(s: Seq<int>)
    requires
        s.len() > 0,
    ensures
        forall|i: int| 0 <= i < s.len() ==> s[last_min_index(s)] <= #[trigger] s[i] <= s[last_max_index(s)],
        s.len() == 1 ==> last_max_index(s) == 0 && last_min_index(s) == 0,
{
    lemma_last_max_index(s);
    lemma_last_min_index(s);
}

/// The position of the last largest score.
pub fn pick_last_max(scores: &Vec<usize>) -> (r: usize)
    requires
        scores@.len() > 0,
    ensures
        r == last_max_index(as_ints(scores@)),
        r < scores@.len(),
{
    let ghost s = as_ints(scores@);
    let mut best: usize = 0;
    let mut i: usize = 1;
    assert(s.subrange(0, 1).len() == 1);
    while i < scores.len()
        invariant
            1 <= i <= scores@.len(),
            s == as_ints(scores@),
            best < i,
            best == last_max_index(s.subrange(0, i as int)),
        decreases scores@.len() - i,
    {
        let ghost prefix = s.subrange(0, i + 1);
        assert(prefix.drop_last() =~= s.subrange(0, i as int));
        if scores[i] >= scores[best] {
            best = i;
        }
        i += 1;
    }
    assert(s.subrange(0, i as int) =~= s);
    best
}

/// The position of the last smallest score.
pub fn pick_last_min(scores: &Vec<usize>) -> (r: usize)
    requires
        scores@.len() > 0,
    ensures
        r == last_min_index(as_ints(scores@)),
        r < scores@.len(),
{
    let ghost s = as_ints(scores@);
    let mut best: usize = 0;
    let mut i: usize = 1;
    assert(s.subrange(0, 1).len() == 1);
    while i < scores.len()
        invariant
            1 <= i <= scores@.len(),
            s == as_ints(scores@),
            best < i,
            best == last_min_index(s.subrange(0, i as int)),
        decreases scores@.len() - i,
    {
        let ghost prefix = s.subrange(0, i + 1);
        assert(prefix.drop_last() =~= s.subrange(0, i as int));
        if scores[i] <= scores[best] {
            best = i;
        }
        i += 1;
    }
    assert(s.subrange(0, i as int) =~= s);
    best
}

/// The position of the first smallest score.
pub fn pick_first_min(scores: &Vec<usize>) -> (r: usize)
    requires
        scores@.len() > 0,
    ensures
        r == first_min_index(as_ints(scores@)),
        r < scores@.len(),
{
    let ghost s = as_ints(scores@);
    let mut best: usize = 0;
    let mut i: usize = 1;
    assert(s.subrange(0, 1).len() == 1);
    while i < scores.len()
        invariant
            1 <= i <= scores@.len(),
            s == as_ints(scores@),
            best < i,
            best == first_min_index(s.subrange(0, i as int)),
        decreases scores@.len() - i,
    {
        let ghost prefix = s.subrange(0, i + 1);
        assert(prefix.drop_last() =~= s.subrange(0, i as int));
        if scores[i] < scores[best] {
            best = i;
        }
        i += 1;
    }
    assert(s.subrange(0, i as int) =~= s);
    best
}

/// The number of discs each legal move of the player to move flips.
pub open spec fn flip_scores(g: GameView) -> Seq<int> {
    legal_list(g.board, g.turn).map_values(|t: int| move_flips(g.board, g.turn, t).len() as int)
}

/// Whether a cell is one of the four corners.
pub open spec fn is_corner(t: int) -> bool {
    t == 0 || t == 7 || t == 56 || t == 63
}

/// The corner that a cell touches, or -1 for a cell that touches none.
pub open spec fn corner_touched(t: int) -> int {
    if t == 1 || t == 8 || t == 9 {
        0
    } else if t == 6 || t == 14 || t == 15 {
        7
    } else if t == 48 || t == 49 || t == 57 {
        56
    } else if t == 54 || t == 55 || t == 62 {
        63
    } else {
        -1
    }
}

/// A corner ranks 2; a cell next to an empty corner, which hands that corner to the
/// opponent, ranks 0; every other cell ranks 1.
pub open spec fn corner_rank(b: Seq<Option<Disc>>, t: int) -> int {
    if is_corner(t) {
        2
    } else if corner_touched(t) >= 0 && b[corner_touched(t)] is None {
        0
    } else {
        1
    }
}

/// The corner rank of each legal move of the player to move.
pub open spec fn corner_scores(g: GameView) -> Seq<int> {
    legal_list(g.board, g.turn).map_values(|t: int| corner_rank(g.board, t))
}

/// How many legal moves the opponent has after each legal move of the player to move.
pub open spec fn mobility_scores(g: GameView) -> Seq<int> {
    legal_list(g.board, g.turn).map_values(
        |t: int| legal_list(place(g.board, g.turn, t), g.turn.opp()).len() as int,
    )
}

/// The legal move at position `j` of the list when there is one, else `None`.
pub open spec fn pick_of(g: GameView, j: int) -> Option<usize> {
    if legal_list(g.board, g.turn).len() == 0 {
        None
    } else {
        Some(legal_list(g.board, g.turn)[j] as usize)
    }
}

/// Whether `r` is one of the legal moves of the player to move, or `None` when there is none.
pub open spec fn some_legal_move(g: GameView, r: Option<usize>) -> bool {
    match r {
        Some(t) => is_legal(g.board, g.turn, t as int),
        None => !has_moves(g.board, g.turn),
    }
}

/// Relies on rand's `thread_rng` and `Rng::gen_range`: a value of a non-empty range, which
/// it panics on only when the range is empty.
#[verifier::external_body]
pub(crate) fn random_below(n: usize) -> (r: usize)
    requires
        n > 0,
    ensures
        r < n,
{
    rand::thread_rng().gen_range(0..n)
}

/// Relies on rayon's `par_iter`, `map` and `collect` into a `Vec`: one result per move, in
/// the order of the moves, each what `Monte::wins_for` returned for that move.
#[verifier::external_body]
pub(crate) fn tally_in_parallel(game: &Game, moves: &Vec<usize>, rounds: usize) -> (r: Vec<usize>)
    requires
        game.wf(),
        forall|j: int| 0 <= j < moves@.len() ==> is_legal(game.board@, game.turn, #[trigger] moves@[j] as int),
    ensures
        r@.len() == moves@.len(),
        forall|j: int| 0 <= j < r@.len() ==> #[trigger] r@[j] <= rounds,
        forall|j: int|
            0 <= j < r@.len() ==> is_rollout_tally(game@, moves@[j] as int, rounds as int, #[trigger] r@[j] as int),
{
    moves.par_iter().map(|m| Monte::wins_for(game, *m, rounds)).collect()
}

/// The rank of a cell under the corner heuristic.
fn corner_rank_at(board: &Board, t: usize) -> (r: usize)
    requires
        t < 64,
    ensures
        r == corner_rank(board@, t as int),
{
    if t == 0 || t == 7 || t == 56 || t == 63 {
        return 2;
    }
    let corner: usize = if t == 1 || t == 8 || t == 9 {
        0
    } else if t == 6 || t == 14 || t == 15 {
        7
    } else if t == 48 || t == 49 || t == 57 {
        56
    } else if t == 54 || t == 55 || t == 62 {
        63
    } else {
        return 1;
    };
    if board.get(corner).is_none() {
        0
    } else {
        1
    }
}

/// A copy of a game, for playing ahead without touching the original.
pub fn snapshot(game: &Game) -> (r: Game)
    ensures
        r@ == game@,
{
    let mut transcript = Vec::with_capacity(game.transcript.len());
    let mut j: usize = 0;
    while j < game.transcript.len()
        invariant
            j <= game.transcript@.len(),
            transcript@ == game.transcript@.subrange(0, j as int),
        decreases game.transcript@.len() - j,
    {
        transcript.push(game.transcript[j]);
        assert(transcript@ =~= game.transcript@.subrange(0, j + 1));
        j += 1;
    }
    assert(transcript@ =~= game.transcript@);
    Game {
        turn: game.turn,
        dark: game.dark,
        light: game.light,
        empty: game.empty,
        board: game.board,
        transcript,
        is_complete: game.is_complete,
    }
}

/// The move that a picker chooses is the move at the picked place of the list.
proof fn lemma_pick(g: GameView, moves: Seq<usize>, j: int)
    requires
        as_ints(moves) == legal_list(g.board, g.turn),
        0 <= j < moves.len(),
    ensures
        pick_of(g, j) == Some(moves[j]),
{
    assert(as_ints(moves)[j] == moves[j] as int);
}

/// The legal moves of the player to move, with the facts that pickers need.
pub(crate) fn moves_of(game: &Game) -> (r: Vec<usize>)
    ensures
        as_ints(r@) == legal_list(game.board@, game.turn),
        legal_list(game.board@, game.turn).len() == r@.len(),
        pick_of(game@, 0) is None <==> r@.len() == 0,
        r@.len() > 0 <==> has_moves(game.board@, game.turn),
        forall|j: int| 0 <= j < r@.len() ==> is_legal(game.board@, game.turn, #[trigger] r@[j] as int),
        forall|j: int| 0 <= j < r@.len() ==> #[trigger] r@[j] < 64,
{
    let moves = game.valid_moves(game.turn);
    proof {
        lemma_legal_list_empty(game.board@, game.turn);
    }
    moves
}

/// A gameplay strategy: given a game, the next move of the player to move, or `None` to pass.
pub trait Strategy {
    /// The answers this strategy may give in state `g`.
    spec fn answers(&self, g: GameView, r: Option<usize>) -> bool;

    /// The registry key of this strategy.
    fn name(&self) -> &'static str;

    /// The version of this strategy.
    fn version(&self) -> &'static str;

    /// The next move for the player to move: always a legal one, and `None` only when that
    /// player has no legal move.
    fn next_play(&mut self, game: &Game) -> (r: Option<usize>)
        requires
            game.wf(),
        ensures
            old(self).answers(game@, r),
            some_legal_move(game@, r),
    ;

    /// Plays the game to completion, making every move of both sides with this strategy and
    /// passing when it has none.
    fn solve(&mut self, game: &mut Game)
        requires
            old(game).wf(),
        ensures
            final(game).wf(),
            final(game).is_complete,
            reaches(old(game)@, final(game)@),
    {
        let ghost start = game@;
        let ghost mut plays: Seq<Play> = Seq::empty();
        while !game.is_complete
            invariant
                game.wf(),
                play_out(start, plays) == Some(game@),
            decreases 2 * game.empty + (if crate::game::ends_with_pass(game.transcript@) {
                0int
            } else {
                1int
            }) + (if game.is_complete {
                0int
            } else {
                1int
            }),
        {
            let ghost before = game@;
            match self.next_play(game) {
                Some(index) => {
                    proof {
                        lemma_count_zero(game.board@, None);
                        lemma_play_out_push(start, plays, Play::Move(Position::at(index as int)));
                        plays = plays.push(Play::Move(Position::at(index as int)));
                    }
                    game.play(index);
                },
                None => {
                    proof {
                        lemma_play_out_push(start, plays, Play::Pass);
                        plays = plays.push(Play::Pass);
                    }
                    game.pass();
                },
            }
            proof {
                lemma_disc_total(game);
            }
        }
        assert(play_out(start, plays) == Some(game@));
    }

    /// Plays `count` complete games from the start with this strategy.
    fn bench(&mut self, count: usize) {
        let mut i: usize = 0;
        while i < count
            decreases count - i,
        {
            let mut game = Game::new();
            self.solve(&mut game);
            i += 1;
        }
    }
}

/// Plays the first legal move in ascending cell order.
#[derive(Copy, Clone)]
pub struct Simple {}

impl Strategy for Simple {
    open spec fn answers(&self, g: GameView, r: Option<usize>) -> bool {
        r == pick_of(g, 0)
    }

    fn name(&self) -> &'static str {
        "simple"
    }

    fn version(&self) -> &'static str {
        "0.1"
    }

    fn next_play(&mut self, game: &Game) -> (r: Option<usize>) {
        let moves = moves_of(game);
        if moves.len() == 0 {
            assert(self.answers(game@, None));
            return None;
        }
        proof {
            lemma_pick(game@, moves@, 0);
        }
        let r = Some(moves[0]);
        assert(self.answers(game@, r));
        r
    }
}

/// Plays the move that flips the most discs; among equals, the last in cell order.
#[derive(Copy, Clone)]
pub struct Maximize {}

/// The number of discs each move flips for the player to move.
fn flip_counts(game: &Game, moves: &Vec<usize>) -> (r: Vec<usize>)
    requires
        as_ints(moves@) == legal_list(game.board@, game.turn),
        forall|j: int| 0 <= j < moves@.len() ==> #[trigger] moves@[j] < 64,
    ensures
        as_ints(r@) == flip_scores(game@),
        r@.len() == moves@.len(),
{
    let ghost want = flip_scores(game@);
    let mut counts: Vec<usize> = Vec::with_capacity(moves.len());
    let mut j: usize = 0;
    while j < moves.len()
        invariant
            j <= moves@.len(),
            as_ints(moves@) == legal_list(game.board@, game.turn),
            forall|q: int| 0 <= q < moves@.len() ==> #[trigger] moves@[q] < 64,
            want == flip_scores(game@),
            want.len() == moves@.len(),
            as_ints(counts@) == want.subrange(0, j as int),
        decreases moves@.len() - j,
    {
        let ghost prev = counts@;
        let n = game.flips_for(moves[j]).len();
        counts.push(n);
        proof {
            assert(want[j as int] == n as int);
            assert(as_ints(counts@) =~= as_ints(prev).push(n as int));
            assert(want.subrange(0, j + 1) =~= want.subrange(0, j as int).push(want[j as int]));
        }
        j += 1;
    }
    assert(want.subrange(0, j as int) =~= want);
    counts
}

impl Strategy for Maximize {
    open spec fn answers(&self, g: GameView, r: Option<usize>) -> bool {
        r == pick_of(g, last_max_index(flip_scores(g)))
    }

    fn name(&self) -> &'static str {
        "maximize"
    }

    fn version(&self) -> &'static str {
        "0.1"
    }

    fn next_play(&mut self, game: &Game) -> (r: Option<usize>) {
        let moves = moves_of(game);
        if moves.len() == 0 {
            assert(self.answers(game@, None));
            return None;
        }
        let counts = flip_counts(game, &moves);
        let best = pick_last_max(&counts);
        proof {
            lemma_pick(game@, moves@, best as int);
        }
        let r = Some(moves[best]);
        assert(self.answers(game@, r));
        r
    }
}

/// Plays the move that flips the fewest discs; among equals, the last in cell order.
#[derive(Copy, Clone)]
pub struct Minimize {}

impl Strategy for Minimize {
    open spec fn answers(&self, g: GameView, r: Option<usize>) -> bool {
        r == pick_of(g, last_min_index(flip_scores(g)))
    }

    fn name(&self) -> &'static str {
        "minimize"
    }

    fn version(&self) -> &'static str {
        "0.1"
    }

    fn next_play(&mut self, game: &Game) -> (r: Option<usize>) {
        let moves = moves_of(game);
        if moves.len() == 0 {
            assert(self.answers(game@, None));
            return None;
        }
        let counts = flip_counts(game, &moves);
        let best = pick_last_min(&counts);
        proof {
            lemma_pick(game@, moves@, best as int);
        }
        let r = Some(moves[best]);
        assert(self.answers(game@, r));
        r
    }
}

/// Plays a corner when it can, avoids cells next to an empty corner when it can, and
/// otherwise plays any move; among equals, the last in cell order.
#[derive(Copy, Clone)]
pub struct Corners {}

impl Strategy for Corners {
    open spec fn answers(&self, g: GameView, r: Option<usize>) -> bool {
        r == pick_of(g, last_max_index(corner_scores(g)))
    }

    fn name(&self) -> &'static str {
        "corners"
    }

    fn version(&self) -> &'static str {
        "0.1"
    }

    fn next_play(&mut self, game: &Game) -> (r: Option<usize>) {
        let moves = moves_of(game);
        if moves.len() == 0 {
            assert(self.answers(game@, None));
            return None;
        }
        let ghost want = corner_scores(game@);
        let mut ranks: Vec<usize> = Vec::with_capacity(moves.len());
        let mut j: usize = 0;
        while j < moves.len()
            invariant
                j <= moves@.len(),
                as_ints(moves@) == legal_list(game.board@, game.turn),
                forall|q: int| 0 <= q < moves@.len() ==> #[trigger] moves@[q] < 64,
                want == corner_scores(game@),
                want.len() == moves@.len(),
                as_ints(ranks@) == want.subrange(0, j as int),
            decreases moves@.len() - j,
        {
            let ghost prev = ranks@;
            let n = corner_rank_at(&game.board, moves[j]);
            ranks.push(n);
            proof {
                assert(want[j as int] == n as int);
                assert(as_ints(ranks@) =~= as_ints(prev).push(n as int));
                assert(want.subrange(0, j + 1) =~= want.subrange(0, j as int).push(want[j as int]));
            }
            j += 1;
        }
        assert(want.subrange(0, j as int) =~= want);
        let best = pick_last_max(&ranks);
        proof {
            lemma_pick(game@, moves@, best as int);
        }
        let r = Some(moves[best]);
        assert(self.answers(game@, r));
        r
    }
}

/// Plays the move that leaves the opponent the fewest legal moves; among equals, the first
/// in cell order.
#[derive(Copy, Clone)]
pub struct Constrain {}

impl Strategy for Constrain {
    open spec fn answers(&self, g: GameView, r: Option<usize>) -> bool {
        r == pick_of(g, first_min_index(mobility_scores(g)))
    }

    fn name(&self) -> &'static str {
        "constrain"
    }

    fn version(&self) -> &'static str {
        "0.1"
    }

    fn next_play(&mut self, game: &Game) -> (r: Option<usize>) {
        let moves = moves_of(game);
        if moves.len() == 0 {
            assert(self.answers(game@, None));
            return None;
        }
        let ghost want = mobility_scores(game@);
        let mut counts: Vec<usize> = Vec::with_capacity(moves.len());
        let mut j: usize = 0;
        while j < moves.len()
            invariant
                game.wf(),
                j <= moves@.len(),
                as_ints(moves@) == legal_list(game.board@, game.turn),
                forall|q: int| 0 <= q < moves@.len() ==> is_legal(game.board@, game.turn, #[trigger] moves@[q] as int),
                want == mobility_scores(game@),
                want.len() == moves@.len(),
                as_ints(counts@) == want.subrange(0, j as int),
            decreases moves@.len() - j,
        {
            let ghost prev = counts@;
            // play the move on a copy and count the opponent's replies
            let mut possible = snapshot(game);
            possible.play(moves[j]);
            let n = possible.valid_moves(possible.turn).len();
            counts.push(n);
            proof {
                assert(possible.board@ == place(game.board@, game.turn, moves@[j as int] as int));
                assert(want[j as int] == n as int);
                assert(as_ints(counts@) =~= as_ints(prev).push(n as int));
                assert(want.subrange(0, j + 1) =~= want.subrange(0, j as int).push(want[j as int]));
            }
            j += 1;
        }
        assert(want.subrange(0, j as int) =~= want);
        let best = pick_first_min(&counts);
        proof {
            lemma_pick(game@, moves@, best as int);
        }
        let r = Some(moves[best]);
        assert(self.answers(game@, r));
        r
    }
}

/// Plays a legal move chosen uniformly at random.
#[derive(Default, Copy, Clone)]
pub struct Random {}

impl Strategy for Random {
    open spec fn answers(&self, g: GameView, r: Option<usize>) -> bool {
        some_legal_move(g, r)
    }

    fn name(&self) -> &'static str {
        "random"
    }

    fn version(&self) -> &'static str {
        "0.1"
    }

    fn next_play(&mut self, game: &Game) -> (r: Option<usize>) {
        let moves = moves_of(game);
        if moves.len() == 0 {
            assert(self.answers(game@, None));
            return None;
        }
        let j = random_below(moves.len());
        let r = Some(moves[j]);
        assert(self.answers(game@, r));
        r
    }
}

/// Scores each legal move by random rollouts and plays the one that won most often; among
/// equals, the last in cell order.
#[derive(Default, Copy, Clone)]
pub struct Monte {}

/// Whether the final position of a game is a win for `player`: strictly more discs.
pub open spec fn wins(g: GameView, player: Disc) -> bool {
    if player == Disc::Dark {
        g.dark > g.light
    } else {
        g.light > g.dark
    }
}

/// How many of the final positions are wins for `player`; draws count for neither side.
pub open spec fn win_count(finals: Seq<GameView>, player: Disc) -> nat
    decreases finals.len(),
{
    if finals.len() == 0 {
        0
    } else {
        win_count(finals.drop_last(), player) + if wins(finals.last(), player) {
            1nat
        } else {
            0nat
        }
    }
}

/// Whether `w` counts the wins of the player to move in `g` over `rounds` rollouts, each of
/// which plays `t` and then finishes the game by the rules.
pub open spec fn is_rollout_tally(g: GameView, t: int, rounds: int, w: int) -> bool {
    exists|finals: Seq<GameView>|
        finals.len() == rounds && (forall|k: int|
            0 <= k < rounds ==> (#[trigger] finals[k]).is_complete && reaches(after_move(g, t), finals[k]))
            && w == win_count(finals, g.turn)
}

/// Whether `r` is the move with the most rollout wins, the last among equals, for some tally of
/// `rounds` rollouts of each legal move of the player to move.
pub open spec fn is_best_by_rollouts(g: GameView, rounds: int, r: Option<usize>) -> bool {
    exists|tallies: Seq<int>|
        tallies.len() == legal_list(g.board, g.turn).len() && (forall|j: int|
            0 <= j < tallies.len() ==> is_rollout_tally(g, legal_list(g.board, g.turn)[j], rounds, #[trigger] tallies[j]))
            && r == pick_of(g, last_max_index(tallies))
}

/// Whether `player` has strictly more discs than the other side.
pub fn is_win(game: &Game, player: Disc) -> (r: bool)
    ensures
        r == wins(game@, player),
{
    match player {
        Disc::Dark => game.dark > game.light,
        Disc::Light => game.light > game.dark,
    }
}

impl Monte {
    /// Rollouts per candidate move.
    pub const ROUNDS: usize = 100;

    /// Plays `index` on copies of `game`, finishes each copy with random moves for both sides,
    /// and counts the copies that the player to move in `game` wins.
    pub fn wins_for(game: &Game, index: usize, rounds: usize) -> (r: usize)
        requires
            game.wf(),
            is_legal(game.board@, game.turn, index as int),
        ensures
            r <= rounds,
            is_rollout_tally(game@, index as int, rounds as int, r as int),
    {
        let mut random = Random {};
        let mut wins: usize = 0;
        let ghost mut finals: Seq<GameView> = Seq::empty();
        let mut i: usize = 0;
        while i < rounds
            invariant
                game.wf(),
                is_legal(game.board@, game.turn, index as int),
                wins <= i <= rounds,
                finals.len() == i,
                forall|k: int|
                    0 <= k < i ==> (#[trigger] finals[k]).is_complete && reaches(
                        after_move(game@, index as int),
                        finals[k],
                    ),
                wins == win_count(finals, game.turn),
            decreases rounds - i,
        {
            // make a copy of the game, play the move, and finish it at random
            let mut new_game = snapshot(game);
            new_game.play(index);
            random.solve(&mut new_game);
            // tally whether this is a win for the player who made the move
            if is_win(&new_game, game.turn) {
                wins += 1;
            }
            proof {
                let next = finals.push(new_game@);
                assert(next.drop_last() =~= finals);
                finals = next;
            }
            i += 1;
        }
        wins
    }
}

impl Strategy for Monte {
    open spec fn answers(&self, g: GameView, r: Option<usize>) -> bool {
        is_best_by_rollouts(g, Self::ROUNDS as int, r)
    }

    fn name(&self) -> &'static str {
        "monte"
    }

    fn version(&self) -> &'static str {
        "0.1"
    }

    fn next_play(&mut self, game: &Game) -> (r: Option<usize>) {
        let moves = moves_of(game);
        if moves.len() == 0 {
            proof {
                let t = Seq::<int>::empty();
                let l = legal_list(game.board@, game.turn);
                assert(t.len() == l.len());
                assert(forall|j: int| 0 <= j < t.len() ==> is_rollout_tally(game@, l[j], Self::ROUNDS as int, #[trigger] t[j]));
                assert(None::<usize> == pick_of(game@, last_max_index(t)));
                assert(is_best_by_rollouts(game@, Self::ROUNDS as int, None));
            }
            assert(self.answers(game@, None));
            return None;
        }
        let tallies = tally_in_parallel(game, &moves, Self::ROUNDS);
        let best = pick_last_max(&tallies);
        let r = Some(moves[best]);
        proof {
            lemma_pick(game@, moves@, best as int);
            let t = as_ints(tallies@);
            let l = legal_list(game.board@, game.turn);
            assert forall|j: int| 0 <= j < t.len() implies is_rollout_tally(game@, l[j], Self::ROUNDS as int, #[trigger] t[j]) by {
                assert(as_ints(moves@)[j] == moves@[j] as int);
            }
            assert(t.len() == l.len());
            assert(r == pick_of(game@, last_max_index(t)));
            assert(is_best_by_rollouts(game@, Self::ROUNDS as int, r));
        }
        assert(self.answers(game@, r));
        r
    }
}

/// The answers that strategy `s` may give in state `g`.
pub open spec fn strategy_answers(s: Strategies, g: GameView, r: Option<usize>) -> bool {
    match s {
        Strategies::Constrain => (Constrain {}).answers(g, r),
        Strategies::Corners => (Corners {}).answers(g, r),
        Strategies::Maximize => (Maximize {}).answers(g, r),
        Strategies::Minimize => (Minimize {}).answers(g, r),
        Strategies::Monte => (Monte {}).answers(g, r),
        Strategies::Random => (Random {}).answers(g, r),
        Strategies::Simple => (Simple {}).answers(g, r),
    }
}

/// The move a transcript entry makes, or `None` for a pass.
pub open spec fn play_choice(p: Play) -> Option<usize> {
    match p {
        Play::Move(q) => Some(q@ as usize),
        Play::Pass => None,
    }
}

/// Whether every play, made from `g` on, is an answer that the strategy of the side to move
/// may give: `dark` for dark, `light` for light.
pub open spec fn chosen_by(g: GameView, plays: Seq<Play>, dark: Strategies, light: Strategies) -> bool
    decreases plays.len(),
{
    plays.len() == 0 || (chosen_by(g, plays.drop_last(), dark, light) && match play_out(g, plays.drop_last()) {
        Some(h) => strategy_answers(
            if h.turn == Disc::Dark {
                dark
            } else {
                light
            },
            h,
            play_choice(plays.last()),
        ),
        None => false,
    })
}

/// The closed set of strategies, for looking one up by its registry key.
#[derive(Debug, Copy, Clone, PartialEq, Eq, Hash, Structural)]
pub enum Strategies {
    Constrain,
    Corners,
    Maximize,
    Minimize,
    Monte,
    Random,
    Simple,
}

/// The registry key of each strategy, as bytes.
pub open spec fn key_bytes(s: Strategies) -> Seq<u8> {
    match s {
        Strategies::Constrain => "constrain".spec_bytes(),
        Strategies::Corners => "corners".spec_bytes(),
        Strategies::Maximize => "maximize".spec_bytes(),
        Strategies::Minimize => "minimize".spec_bytes(),
        Strategies::Monte => "monte".spec_bytes(),
        Strategies::Random => "random".spec_bytes(),
        Strategies::Simple => "simple".spec_bytes(),
    }
}

/// Whether two byte strings are equal.
fn same_bytes(a: &[u8], b: &[u8]) -> (r: bool)
    ensures
        r == (a@ == b@),
{
    if a.len() != b.len() {
        return false;
    }
    let mut i: usize = 0;
    while i < a.len()
        invariant
            a@.len() == b@.len(),
            i <= a@.len(),
            forall|j: int| 0 <= j < i ==> a@[j] == b@[j],
        decreases a@.len() - i,
    {
        if a[i] != b[i] {
            return false;
        }
        i += 1;
    }
    assert(a@ =~= b@);
    true
}

impl Strategies {
    /// Every strategy, in the order of their keys.
    pub fn all() -> (r: Vec<Strategies>)
        ensures
            r@ == seq![
                Strategies::Constrain,
                Strategies::Corners,
                Strategies::Maximize,
                Strategies::Minimize,
                Strategies::Monte,
                Strategies::Random,
                Strategies::Simple,
            ],
    {
        let r = vec![
            Strategies::Constrain,
            Strategies::Corners,
            Strategies::Maximize,
            Strategies::Minimize,
            Strategies::Monte,
            Strategies::Random,
            Strategies::Simple,
        ];
        assert(r@ =~= seq![
            Strategies::Constrain,
            Strategies::Corners,
            Strategies::Maximize,
            Strategies::Minimize,
            Strategies::Monte,
            Strategies::Random,
            Strategies::Simple,
        ]);
        r
    }

    /// The registry key of this strategy.
    pub fn name(&self) -> (r: &'static str)
        ensures
            r.spec_bytes() == key_bytes(*self),
    {
        match self {
            Strategies::Constrain => "constrain",
            Strategies::Corners => "corners",
            Strategies::Maximize => "maximize",
            Strategies::Minimize => "minimize",
            Strategies::Monte => "monte",
            Strategies::Random => "random",
            Strategies::Simple => "simple",
        }
    }

    /// The strategy whose registry key is `name`, if any.
    pub fn from_name(name: &str) -> (r: Option<Strategies>)
        ensures
            r is Some <==> exists|s: Strategies| key_bytes(s) == name.spec_bytes(),
            r is Some ==> key_bytes(r->0) == name.spec_bytes(),
    {
        let all = Self::all();
        let wanted = name.as_bytes();
        let mut i: usize = 0;
        while i < all.len()
            invariant
                i <= all@.len(),
                all@.len() == 7,
                wanted@ == name.spec_bytes(),
                forall|s: Strategies| all@.contains(s),
                forall|j: int| 0 <= j < i ==> key_bytes(#[trigger] all@[j]) != name.spec_bytes(),
            decreases all@.len() - i,
        {
            let candidate = all[i];
            if same_bytes(candidate.name().as_bytes(), wanted) {
                return Some(candidate);
            }
            i += 1;
        }
        proof {
            assert forall|s: Strategies| key_bytes(s) != name.spec_bytes() by {
                let j = choose|j: int| 0 <= j < all@.len() && all@[j] == s;
                assert(key_bytes(all@[j]) != name.spec_bytes());
            }
        }
        None
    }

    /// The next move that this strategy makes: always a legal one, and `None` only when the
    /// player to move has no legal move.
    pub fn next_play(&self, game: &Game) -> (r: Option<usize>)
        requires
            game.wf(),
        ensures
            strategy_answers(*self, game@, r),
            some_legal_move(game@, r),
    {
        match self {
            Strategies::Constrain => Constrain {}.next_play(game),
            Strategies::Corners => Corners {}.next_play(game),
            Strategies::Maximize => Maximize {}.next_play(game),
            Strategies::Minimize => Minimize {}.next_play(game),
            Strategies::Monte => Monte {}.next_play(game),
            Strategies::Random => Random {}.next_play(game),
            Strategies::Simple => Simple {}.next_play(game),
        }
    }
}

/// Plays a whole game from the start, dark's moves chosen by `dark` and light's by `light`,
/// each side passing when it has no legal move.
pub fn run_game(dark: Strategies, light: Strategies) -> (r: Game)
    ensures
        r.wf(),
        r.is_complete,
        exists|plays: Seq<Play>|
            play_out(crate::game::start_view(), plays) == Some(r@) && chosen_by(
                crate::game::start_view(),
                plays,
                dark,
                light,
            ),
{
    let mut game = Game::new();
    let ghost start = game@;
    let ghost mut plays: Seq<Play> = Seq::empty();
    while !game.is_complete
        invariant
            game.wf(),
            start == crate::game::start_view(),
            play_out(start, plays) == Some(game@),
            chosen_by(start, plays, dark, light),
        decreases 2 * game.empty + (if crate::game::ends_with_pass(game.transcript@) {
            0int
        } else {
            1int
        }) + (if game.is_complete {
            0int
        } else {
            1int
        }),
    {
        let strategy = match game.turn {
            Disc::Dark => dark,
            Disc::Light => light,
        };
        let ghost before = game@;
        match strategy.next_play(&game) {
            Some(index) => {
                proof {
                    lemma_count_zero(game.board@, None);
                    let play = Play::Move(Position::at(index as int));
                    lemma_play_out_push(start, plays, play);
                    let next = plays.push(play);
                    assert(next.drop_last() =~= plays);
                    assert(play_choice(play) == Some(index));
                    plays = next;
                }
                game.play(index);
            },
            None => {
                proof {
                    lemma_play_out_push(start, plays, Play::Pass);
                    let next = plays.push(Play::Pass);
                    assert(next.drop_last() =~= plays);
                    plays = next;
                }
                game.pass();
            },
        }
        proof {
            lemma_disc_total(&game);
        }
    }
    game
}

} // verus!
