use vstd::prelude::*;

use crate::board::{as_ints, count, lemma_board_len, lemma_count_total, lemma_count_update, start_cells, Board};
use crate::disc::Disc;
use crate::position::{dir_back, lemma_ray_reverse, indexes_of_positions, lemma_position_at_of_view, lemma_position_at_view, ray, ray_cell_at, ray_reach, reach, Position};
use crate::rules::{back_target, closing_disc, lemma_back_target_complete, lemma_back_target_sound, flips_upto, has_moves, is_legal, legal_list, legal_upto, lemma_legal_upto, lemma_flip_cell, lemma_opp_run_split, move_flips, place, ray_flips, strictly_sorted};

verus! {

broadcast use {lemma_board_len, lemma_position_at_view, lemma_position_at_of_view};

/// One entry of a game's transcript: a disc placed at a position, or a pass.
#[derive(Debug, Copy, Clone, PartialEq, Eq, Structural)]
pub enum Play {
    Move(Position),
    Pass,
}

/// A legal move: the cell played and every disc it flips, in ascending index order.
#[derive(Debug, Clone, PartialEq, Eq)]
pub struct ValidMove {
    pub position: Position,
    pub flips: Vec<Position>,
}

impl ValidMove {
    /// A move at `position` flipping `flips`.
    pub fn new(position: Position, flips: Vec<Position>) -> (r: ValidMove)
        ensures
            r.position == position,
            r.flips@ == flips@,
    {
        ValidMove { position, flips }
    }

    /// The number of discs the move flips.
    pub fn score(&self) -> (r: usize)
        ensures
            r == self.flips@.len(),
    {
        self.flips.len()
    }

    /// Whether this is the legal move of player `p` at its position on board `b`, with its
    /// flips in ascending order.
    pub open spec fn is_move_of(&self, b: Seq<Option<Disc>>, p: Disc) -> bool {
        &&& is_legal(b, p, self.position@)
        &&& strictly_sorted(indexes_of_positions(self.flips@))
        &&& indexes_of_positions(self.flips@).to_set() == move_flips(b, p, self.position@)
    }
}

/// A move's score, the number of its flips, is the number of discs it flips.
pub proof fn lemma_move_score(m: ValidMove, b: Seq<Option<Disc>>, p: Disc)
    requires
        m.is_move_of(b, p),
    ensures
        m.flips@.len() == move_flips(b, p, m.position@).len(),
{
    let s = indexes_of_positions(m.flips@);
    assert(s.no_duplicates());
    s.unique_seq_to_set();
}

/// The state of a game as mathematical values.
pub struct GameView {
    pub turn: Disc,
    pub dark: nat,
    pub light: nat,
    pub empty: nat,
    pub board: Seq<Option<Disc>>,
    pub transcript: Seq<Play>,
    pub is_complete: bool,
}

/// The state of a game: whose turn it is, the score of each side, the number of empty
/// cells, the board, the transcript of plays so far, and whether the game is over.
#[derive(Debug, Clone, PartialEq, Eq)]
pub struct Game {
    /// Which player is currently playing
    pub turn: Disc,
    /// The score of the dark player
    pub dark: usize,
    /// The score of the light player
    pub light: usize,
    /// The number of empty positions on the board
    pub empty: usize,
    /// The game board
    pub board: Board,
    /// The transcript of the game played so far
    pub transcript: Vec<Play>,
    /// Whether or not the game is complete
    pub is_complete: bool,
}

impl View for Game {
    type V = GameView;

    open spec fn view(&self) -> GameView {
        GameView {
            turn: self.turn,
            dark: self.dark as nat,
            light: self.light as nat,
            empty: self.empty as nat,
            board: self.board@,
            transcript: self.transcript@,
            is_complete: self.is_complete,
        }
    }
}

/// The standard starting position: four discs in the center, dark to move.
pub open spec fn start_view() -> GameView {
    GameView {
        turn: Disc::Dark,
        dark: 2,
        light: 2,
        empty: 60,
        board: start_cells(),
        transcript: Seq::empty(),
        is_complete: false,
    }
}

/// The score counters agree with the board.
pub open spec fn counts_match(g: GameView) -> bool {
    &&& g.board.len() == 64
    &&& g.dark == count(g.board, Some(Disc::Dark))
    &&& g.light == count(g.board, Some(Disc::Light))
    &&& g.empty == count(g.board, None)
}

/// The state after the player to move plays at `t`: the flips and the played disc are placed,
/// the mover gains the flip count plus one, the opponent loses the flip count, one empty cell
/// is gone, the move is recorded, and the turn passes; a full board ends the game.
pub open spec fn after_move(g: GameView, t: int) -> GameView {
    let f = move_flips(g.board, g.turn, t).len();
    let empty = (g.empty - 1) as nat;
    GameView {
        turn: g.turn.opp(),
        dark: if g.turn == Disc::Dark {
            g.dark + f + 1
        } else {
            (g.dark - f) as nat
        },
        light: if g.turn == Disc::Light {
            g.light + f + 1
        } else {
            (g.light - f) as nat
        },
        empty: empty,
        board: place(g.board, g.turn, t),
        transcript: g.transcript.push(Play::Move(Position::at(t))),
        is_complete: g.is_complete || empty == 0,
    }
}

/// Whether the last play of a transcript is a pass.
pub open spec fn ends_with_pass(s: Seq<Play>) -> bool {
    s.len() > 0 && s.last() == Play::Pass
}

/// The state after the player to move passes: a pass right after a pass ends the game,
/// otherwise the pass is recorded and the turn changes.
pub open spec fn after_pass(g: GameView) -> GameView {
    if ends_with_pass(g.transcript) {
        GameView { is_complete: true, ..g }
    } else {
        GameView { turn: g.turn.opp(), transcript: g.transcript.push(Play::Pass), ..g }
    }
}

/// Replays one transcript entry; a move that is not legal fails.
pub open spec fn replay_step(g: GameView, play: Play) -> Option<GameView> {
    match play {
        Play::Move(q) => if is_legal(g.board, g.turn, q@) {
            Some(after_move(g, q@))
        } else {
            None
        },
        Play::Pass => Some(after_pass(g)),
    }
}

/// Replays a sequence of plays from `g`, failing at the first illegal move.
pub open spec fn replay_from(g: GameView, plays: Seq<Play>) -> Option<GameView>
    decreases plays.len(),
{
    if plays.len() == 0 {
        Some(g)
    } else {
        match replay_from(g, plays.drop_last()) {
            Some(h) => replay_step(h, plays.last()),
            None => None,
        }
    }
}

/// The game is complete exactly when neither side has a legal move.
pub open spec fn settle(g: GameView) -> GameView {
    GameView {
        is_complete: !has_moves(g.board, Disc::Dark) && !has_moves(g.board, Disc::Light),
        ..g
    }
}

/// The game rebuilt from a transcript: the plays replayed from the start, then completion
/// decided from the moves left.
pub open spec fn replay(plays: Seq<Play>) -> Option<GameView> {
    match replay_from(start_view(), plays) {
        Some(h) => Some(settle(h)),
        None => None,
    }
}

/// A replay that fails on a prefix fails on the whole.
pub proof fn lemma_replay_fails_after(g: GameView, plays: Seq<Play>, n: int)
    requires
        0 <= n <= plays.len(),
        replay_from(g, plays.subrange(0, n)) is None,
    ensures
        replay_from(g, plays) is None,
    decreases plays.len() - n,
{
    if n < plays.len() {
        assert(plays.subrange(0, n + 1).drop_last() =~= plays.subrange(0, n));
        lemma_replay_fails_after(g, plays, n + 1);
    } else {
        assert(plays.subrange(0, n) =~= plays);
    }
}

/// The first `j` cells of `fl` set to `p` on board `b`.
spec fn partly_placed(b: Seq<Option<Disc>>, p: Disc, fl: Seq<usize>, j: int) -> Seq<Option<Disc>> {
    Seq::new(
        b.len(),
        |i: int|
            if exists|q: int| 0 <= q < j && fl[q] as int == i {
                Some(p)
            } else {
                b[i]
            },
    )
}

/// Inserts `c` into a strictly ascending vector, keeping it strictly ascending.
fn insert_cell(v: &mut Vec<usize>, c: usize)
    requires
        strictly_sorted(as_ints(old(v)@)),
    ensures
        strictly_sorted(as_ints(final(v)@)),
        as_ints(final(v)@).to_set() == as_ints(old(v)@).to_set().insert(c as int),
{
    let ghost s0 = as_ints(v@);
    let mut i: usize = 0;
    while i < v.len() && v[i] < c
        invariant
            i <= v@.len(),
            v@ == old(v)@,
            forall|q: int| 0 <= q < i ==> v@[q] < c,
        decreases v@.len() - i,
    {
        i += 1;
    }
    if i < v.len() && v[i] == c {
        assert(as_ints(v@).to_set() =~= s0.to_set().insert(c as int)) by {
            assert(s0[i as int] == c as int);
        }
        return;
    }
    v.insert(i, c);
    proof {
        let s1 = as_ints(v@);
        assert(s1 =~= s0.insert(i as int, c as int));
        assert forall|a: int, b: int| 0 <= a < b < s1.len() implies s1[a] < s1[b] by {
            if b < i {
            } else if a < i && b == i {
            } else if a < i {
                assert(s0[a] < s0[i as int]);
            } else if a == i {
                assert(s0[i as int] > c);
            } else {
            }
        }
        assert forall|e: int| s1.contains(e) <==> (s0.contains(e) || e == c as int) by {
            if s1.contains(e) {
                let q = choose|q: int| 0 <= q < s1.len() && s1[q] == e;
                if q < i {
                    assert(s0[q] == e);
                } else if q > i {
                    assert(s0[q - 1] == e);
                }
            }
            if s0.contains(e) {
                let q = choose|q: int| 0 <= q < s0.len() && s0[q] == e;
                if q < i {
                    assert(s1[q] == e);
                } else {
                    assert(s1[q + 1] == e);
                }
            }
            if e == c as int {
                assert(s1[i as int] == e);
            }
        }
        assert(s1.to_set() =~= s0.to_set().insert(c as int));
    }
}

impl Game {
    /// The score counters agree with the board.
    pub open spec fn wf(&self) -> bool {
        counts_match(self@)
    }

    /// A new game: the four starting discs placed, dark to move.
    pub fn new() -> (r: Game)
        ensures
            r@ == start_view(),
            r.wf(),
    {
        proof {
            crate::board::lemma_start_counts();
        }
        let turn = Disc::Dark;
        let board = Board::new();
        let transcript: Vec<Play> = Vec::with_capacity(64);
        let is_complete = false;
        let r = Game { turn, dark: 2, light: 2, empty: 60, board, transcript, is_complete };
        assert(r@.transcript =~= Seq::<Play>::empty());
        r
    }

    /// The discs that `player` flips along ray `d` from `index`, nearest first.
    fn ray_flips_at(&self, player: Disc, index: usize, d: usize) -> (r: Vec<usize>)
        requires
            index < 64,
            d < 8,
        ensures
            as_ints(r@) == ray_flips(self.board@, player, ray(index as int, d as int)),
    {
        let x = index % 8;
        let y = index / 8;
        let n = ray_reach(x, y, d);
        let ghost b = self.board@;
        let ghost r = ray(index as int, d as int);
        let opposition = player.opposite();
        let mut line: Vec<usize> = Vec::new();
        let mut k: usize = 1;
        while k <= n
            invariant
                x < 8,
                y < 8,
                index == x + 8 * y,
                d < 8,
                n == reach(index as int, d as int),
                n <= 7,
                1 <= k <= n + 1,
                b == self.board@,
                opposition == player.opp(),
                r == ray(index as int, d as int),
                r.len() == n + 1,
                as_ints(line@) == r.subrange(1, k as int),
                forall|j: int| 1 <= j < k ==> b[r[j]] == Some(player.opp()),
            decreases n + 1 - k,
        {
            let cell = ray_cell_at(x, y, d, k);
            assert(r[k as int] == cell);
            match self.board.get(cell) {
                None => {
                    proof {
                        lemma_opp_run_split(b, player, r, 1, k as int);
                    }
                    let e: Vec<usize> = Vec::new();
                    assert(as_ints(e@) =~= Seq::<int>::empty());
                    return e;
                },
                Some(disc) => {
                    if disc == opposition {
                        let ghost prev = line@;
                        line.push(cell);
                        proof {
                            assert(line@ == prev.push(cell));
                            assert(as_ints(line@) =~= as_ints(prev).push(cell as int));
                            assert(r.subrange(1, k + 1) =~= r.subrange(1, k as int).push(r[k as int]));
                        }
                    } else {
                        proof {
                            lemma_opp_run_split(b, player, r, 1, k as int);
                        }
                        if line.len() == 0 {
                            let e: Vec<usize> = Vec::new();
                            assert(as_ints(e@) =~= Seq::<int>::empty());
                            return e;
                        }
                        return line;
                    }
                },
            }
            k += 1;
        }
        proof {
            lemma_opp_run_split(b, player, r, 1, k as int);
        }
        let e: Vec<usize> = Vec::new();
        assert(as_ints(e@) =~= Seq::<int>::empty());
        e
    }

    /// Every disc that `player` flips by playing at `index`, in ascending order.
    fn flips_of(&self, player: Disc, index: usize) -> (r: Vec<usize>)
        requires
            index < 64,
        ensures
            strictly_sorted(as_ints(r@)),
            as_ints(r@).to_set() == move_flips(self.board@, player, index as int),
            r@.len() == move_flips(self.board@, player, index as int).len(),
            forall|q: int| 0 <= q < r@.len() ==> #[trigger] r@[q] < 64,
    {
        let ghost b = self.board@;
        let mut flips: Vec<usize> = Vec::with_capacity(32);
        assert(as_ints(flips@).to_set() =~= flips_upto(b, player, index as int, 0));
        let mut d: usize = 0;
        while d < 8
            invariant
                index < 64,
                d <= 8,
                b == self.board@,
                strictly_sorted(as_ints(flips@)),
                as_ints(flips@).to_set() == flips_upto(b, player, index as int, d as int),
            decreases 8 - d,
        {
            let line = self.ray_flips_at(player, index, d);
            let ghost before = flips_upto(b, player, index as int, d as int);
            let ghost ls = as_ints(line@);
            let mut q: usize = 0;
            assert(ls.subrange(0, 0).to_set() =~= Set::<int>::empty());
            assert(as_ints(flips@).to_set() =~= before + ls.subrange(0, 0).to_set());
            while q < line.len()
                invariant
                    q <= line@.len(),
                    ls == as_ints(line@),
                    strictly_sorted(as_ints(flips@)),
                    as_ints(flips@).to_set() == before + ls.subrange(0, q as int).to_set(),
                decreases line@.len() - q,
            {
                let ghost prev = as_ints(flips@).to_set();
                insert_cell(&mut flips, line[q]);
                proof {
                    assert(ls.subrange(0, q + 1) =~= ls.subrange(0, q as int).push(line@[q as int] as int));
                    assert(ls.subrange(0, q + 1).to_set() =~= ls.subrange(0, q as int).to_set().insert(
                        line@[q as int] as int,
                    )) by {
                        ls.subrange(0, q as int).lemma_push_to_set_commute(line@[q as int] as int);
                    }
                    assert(as_ints(flips@).to_set() =~= before + ls.subrange(0, q + 1).to_set());
                }
                q += 1;
            }
            assert(ls.subrange(0, q as int) =~= ls);
            d += 1;
        }
        proof {
            let fs = as_ints(flips@);
            assert(fs.no_duplicates());
            fs.unique_seq_to_set();
            assert forall|q: int| 0 <= q < flips@.len() implies #[trigger] flips@[q] < 64 by {
                assert(fs[q] == flips@[q] as int);
                assert(fs.to_set().contains(fs[q]));
                lemma_flip_cell(b, player, index as int, 8, fs[q]);
            }
        }
        flips
    }

    /// The discs that would be flipped by the player to move playing at `index`, in
    /// ascending order.
    pub fn flips_for(&self, index: usize) -> (r: Vec<usize>)
        requires
            index < 64,
        ensures
            strictly_sorted(as_ints(r@)),
            as_ints(r@).to_set() == move_flips(self.board@, self.turn, index as int),
            r@.len() == move_flips(self.board@, self.turn, index as int).len(),
    {
        self.flips_of(self.turn, index)
    }

    /// Whether `player` may play at `index`.
    fn can_move(&self, player: Disc, index: usize) -> (r: bool)
        requires
            index < 64,
        ensures
            r == is_legal(self.board@, player, index as int),
    {
        // basic check ... occupied?
        if self.board.get(index).is_some() {
            return false;
        }
        let mut d: usize = 0;
        while d < 8
            invariant
                index < 64,
                d <= 8,
                self.board@[index as int] is None,
                forall|e: int| 0 <= e < d ==> (#[trigger] ray_flips(self.board@, player, ray(index as int, e))).len() == 0,
            decreases 8 - d,
        {
            let line = self.ray_flips_at(player, index, d);
            if line.len() > 0 {
                assert(ray_flips(self.board@, player, ray(index as int, d as int)).len() > 0);
                return true;
            }
            d += 1;
        }
        false
    }

    /// Returns `index` if it is a legal move for `player`.
    pub fn validate_move(&self, player: Disc, index: usize) -> (r: Option<usize>)
        ensures
            r == (if is_legal(self.board@, player, index as int) {
                Some(index)
            } else {
                None
            }),
    {
        if index < 64 && self.can_move(player, index) {
            return Some(index);
        }
        None
    }

    /// The legal moves of `player`, found by looking outward from each empty cell.
    fn moves_from_empty(&self, player: Disc) -> (r: Vec<usize>)
        ensures
            as_ints(r@) == legal_list(self.board@, player),
    {
        let mut output: Vec<usize> = Vec::new();
        let mut i: usize = 0;
        while i < 64
            invariant
                i <= 64,
                as_ints(output@) == legal_upto(self.board@, player, i as int),
            decreases 64 - i,
        {
            if self.can_move(player, i) {
                let ghost prev = as_ints(output@);
                output.push(i);
                assert(as_ints(output@) =~= prev.push(i as int));
            }
            i += 1;
        }
        output
    }

    /// The cell that `player` could play seen from its own disc at `o` towards direction `d`.
    fn back_target_at(&self, player: Disc, o: usize, d: usize) -> (r: Option<usize>)
        requires
            o < 64,
            d < 8,
        ensures
            r is Some <==> back_target(self.board@, player, o as int, d as int) is Some,
            r is Some ==> r->0 == back_target(self.board@, player, o as int, d as int)->0,
    {
        let x = o % 8;
        let y = o / 8;
        let n = ray_reach(x, y, d);
        let ghost b = self.board@;
        let ghost r = ray(o as int, d as int);
        let opposition = player.opposite();
        let mut k: usize = 1;
        while k <= n
            invariant
                x < 8,
                y < 8,
                o == x + 8 * y,
                d < 8,
                n == reach(o as int, d as int),
                n <= 7,
                1 <= k <= n + 1,
                b == self.board@,
                opposition == player.opp(),
                r == ray(o as int, d as int),
                r.len() == n + 1,
                forall|j: int| 1 <= j < k ==> b[r[j]] == Some(player.opp()),
            decreases n + 1 - k,
        {
            let cell = ray_cell_at(x, y, d, k);
            assert(r[k as int] == cell);
            proof {
                lemma_opp_run_split(b, player, r, 1, k as int);
            }
            match self.board.get(cell) {
                None => {
                    if k > 1 {
                        return Some(cell);
                    }
                    return None;
                },
                Some(disc) => {
                    if disc != opposition {
                        return None;
                    }
                },
            }
            k += 1;
        }
        proof {
            lemma_opp_run_split(b, player, r, 1, k as int);
        }
        None
    }

    /// Marks every cell that `player` could play as seen from its own disc at `o`.
    fn mark_targets_from(&self, player: Disc, o: usize, marks: &mut Vec<bool>)
        requires
            o < 64,
            self.board@[o as int] == Some(player),
            old(marks)@.len() == 64,
            forall|t: int| 0 <= t < 64 && #[trigger] old(marks)@[t] ==> is_legal(self.board@, player, t),
        ensures
            final(marks)@.len() == 64,
            forall|t: int| 0 <= t < 64 && #[trigger] final(marks)@[t] ==> is_legal(self.board@, player, t),
            forall|t: int| 0 <= t < 64 && old(marks)@[t] ==> #[trigger] final(marks)@[t],
            forall|e: int|
                0 <= e < 8 && #[trigger] back_target(self.board@, player, o as int, e) is Some
                    ==> final(marks)@[back_target(self.board@, player, o as int, e)->0],
    {
        let ghost b = self.board@;
        let mut d: usize = 0;
        while d < 8
            invariant
                b == self.board@,
                o < 64,
                b[o as int] == Some(player),
                d <= 8,
                marks@.len() == 64,
                forall|t: int| 0 <= t < 64 && #[trigger] marks@[t] ==> is_legal(b, player, t),
                forall|t: int| 0 <= t < 64 && old(marks)@[t] ==> #[trigger] marks@[t],
                forall|e: int|
                    0 <= e < d && #[trigger] back_target(b, player, o as int, e) is Some
                        ==> marks@[back_target(b, player, o as int, e)->0],
            decreases 8 - d,
        {
            match self.back_target_at(player, o, d) {
                Some(t) => {
                    proof {
                        lemma_back_target_sound(b, player, o as int, d as int);
                    }
                    marks.set(t, true);
                },
                None => {},
            }
            d += 1;
        }
    }

    /// The legal moves of `player`, found by looking outward from each of its own discs past
    /// a run of opponent discs to an empty cell.
    fn moves_from_own(&self, player: Disc) -> (r: Vec<usize>)
        ensures
            as_ints(r@) == legal_list(self.board@, player),
    {
        let ghost b = self.board@;
        let own = self.board.indexes_of(Some(player));
        let mut marks: Vec<bool> = Vec::with_capacity(64);
        while marks.len() < 64
            invariant
                marks@.len() <= 64,
                forall|t: int| 0 <= t < marks@.len() ==> !marks@[t],
            decreases 64 - marks@.len(),
        {
            marks.push(false);
        }
        let mut q: usize = 0;
        while q < own.len()
            invariant
                b == self.board@,
                q <= own@.len(),
                marks@.len() == 64,
                forall|j: int| 0 <= j < own@.len() ==> #[trigger] own@[j] < 64 && b[own@[j] as int] == Some(player),
                forall|t: int| 0 <= t < 64 && #[trigger] marks@[t] ==> is_legal(b, player, t),
                forall|j: int, e: int|
                    0 <= j < q && 0 <= e < 8 && #[trigger] back_target(b, player, own@[j] as int, e) is Some
                        ==> marks@[back_target(b, player, own@[j] as int, e)->0],
            decreases own@.len() - q,
        {
            let ghost before = marks@;
            self.mark_targets_from(player, own[q], &mut marks);
            proof {
                assert forall|j: int, e: int|
                    0 <= j < q + 1 && 0 <= e < 8 && #[trigger] back_target(b, player, own@[j] as int, e) is Some
                        implies marks@[back_target(b, player, own@[j] as int, e)->0] by {
                    if j < q {
                        assert(before[back_target(b, player, own@[j] as int, e)->0]);
                    }
                }
            }
            q += 1;
        }
        proof {
            assert forall|t: int| is_legal(b, player, t) implies #[trigger] marks@[t] by {
                let d = choose|d: int| 0 <= d < 8 && (#[trigger] ray_flips(b, player, ray(t, d))).len() > 0;
                lemma_back_target_complete(b, player, t, d);
                let o = closing_disc(b, player, t, d);
                assert(own@.contains(o as usize));
                let j = choose|j: int| 0 <= j < own@.len() && own@[j] == o as usize;
                lemma_ray_reverse(t, d, 0, 0);
                assert(back_target(b, player, own@[j] as int, dir_back(d)) is Some);
            }
        }
        let mut output: Vec<usize> = Vec::new();
        let mut i: usize = 0;
        while i < 64
            invariant
                i <= 64,
                b == self.board@,
                marks@.len() == 64,
                forall|t: int| 0 <= t < 64 ==> (#[trigger] marks@[t] <==> is_legal(b, player, t)),
                as_ints(output@) == legal_upto(b, player, i as int),
            decreases 64 - i,
        {
            if marks[i] {
                let ghost prev = as_ints(output@);
                output.push(i);
                assert(as_ints(output@) =~= prev.push(i as int));
            }
            i += 1;
        }
        output
    }

    /// Every legal move of `player`, in ascending index order; each is an empty cell. The
    /// search starts from whichever is fewer: the player's own discs, or the empty cells.
    pub fn valid_moves(&self, player: Disc) -> (r: Vec<usize>)
        ensures
            as_ints(r@) == legal_list(self.board@, player),
            strictly_sorted(as_ints(r@)),
            forall|j: int| 0 <= j < r@.len() ==> is_legal(self.board@, player, #[trigger] r@[j] as int),
            forall|j: int| 0 <= j < r@.len() ==> self.board@[#[trigger] r@[j] as int] is None,
            forall|t: int| is_legal(self.board@, player, t) ==> #[trigger] as_ints(r@).contains(t),
    {
        let own = if player == Disc::Dark {
            self.dark
        } else {
            self.light
        };
        let output = if own < self.empty {
            self.moves_from_own(player)
        } else {
            self.moves_from_empty(player)
        };
        proof {
            let l = legal_list(self.board@, player);
            lemma_legal_upto(self.board@, player, 64);
            assert forall|j: int| 0 <= j < output@.len() implies is_legal(self.board@, player, #[trigger] output@[j] as int) by {
                assert(l[j] == output@[j] as int);
            }
        }
        output
    }

    /// The legal move of `player` at `index`, a cell known to be legal.
    fn valid_move_at(&self, player: Disc, index: usize) -> (r: ValidMove)
        requires
            is_legal(self.board@, player, index as int),
        ensures
            r.position@ == index,
            r.is_move_of(self.board@, player),
    {
        let flips = self.flips_of(player, index);
        let mut positions: Vec<Position> = Vec::with_capacity(flips.len());
        let mut j: usize = 0;
        while j < flips.len()
            invariant
                j <= flips@.len(),
                forall|q: int| 0 <= q < flips@.len() ==> flips@[q] < 64,
                indexes_of_positions(positions@) == as_ints(flips@).subrange(0, j as int),
            decreases flips@.len() - j,
        {
            let ghost prev = positions@;
            let p = Position::new(flips[j]);
            positions.push(p);
            proof {
                assert(positions@ == prev.push(p));
                assert(indexes_of_positions(positions@) =~= indexes_of_positions(prev).push(p@));
                assert(as_ints(flips@).subrange(0, j + 1) =~= as_ints(flips@).subrange(0, j as int).push(
                    flips@[j as int] as int,
                ));
            }
            j += 1;
        }
        assert(as_ints(flips@).subrange(0, j as int) =~= as_ints(flips@));
        ValidMove::new(Position::new(index), positions)
    }

    /// The legal move of `player` at `index` with every disc it flips, or `None` if the move
    /// is not legal. Discs that several rays reach are listed once.
    pub fn legal_move(&self, player: Disc, index: usize) -> (r: Option<ValidMove>)
        ensures
            r is Some <==> is_legal(self.board@, player, index as int),
            r is Some ==> r->0.position@ == index && r->0.is_move_of(self.board@, player),
    {
        if index < 64 && self.can_move(player, index) {
            Some(self.valid_move_at(player, index))
        } else {
            None
        }
    }

    /// Every legal move of `player` with its flips, one per target cell, in ascending order of
    /// the target cell.
    pub fn legal_moves(&self, player: Disc) -> (r: Vec<ValidMove>)
        ensures
            r@.len() == legal_list(self.board@, player).len(),
            forall|j: int| 0 <= j < r@.len() ==> (#[trigger] r@[j]).position@ == legal_list(self.board@, player)[j]
                && r@[j].is_move_of(self.board@, player),
            forall|i: int, j: int| 0 <= i < j < r@.len() ==> r@[i].position@ < r@[j].position@,
            forall|t: int| is_legal(self.board@, player, t) ==> exists|j: int| 0 <= j < r@.len() && (#[trigger] r@[j]).position@ == t,
    {
        let targets = self.valid_moves(player);
        let ghost l = legal_list(self.board@, player);
        let mut output: Vec<ValidMove> = Vec::with_capacity(targets.len());
        let mut j: usize = 0;
        while j < targets.len()
            invariant
                j <= targets@.len(),
                as_ints(targets@) == l,
                l == legal_list(self.board@, player),
                forall|q: int| 0 <= q < targets@.len() ==> is_legal(self.board@, player, #[trigger] targets@[q] as int),
                output@.len() == j,
                forall|q: int| 0 <= q < j ==> (#[trigger] output@[q]).position@ == l[q] && output@[q].is_move_of(self.board@, player),
            decreases targets@.len() - j,
        {
            let m = self.valid_move_at(player, targets[j]);
            output.push(m);
            j += 1;
        }
        proof {
            lemma_legal_upto(self.board@, player, 64);
            assert forall|t: int| is_legal(self.board@, player, t) implies exists|j: int| 0 <= j < output@.len() && (#[trigger] output@[j]).position@ == t by {
                assert(l.contains(t));
                let j = choose|j: int| 0 <= j < l.len() && l[j] == t;
                assert(output@[j].position@ == t);
            }
        }
        output
    }

    /// Places the disc of the player to move at `index` and flips `flips`, which are exactly
    /// the discs that this move flips.
    fn apply_move(&mut self, index: usize, flips: &Vec<usize>)
        requires
            old(self).wf(),
            is_legal(old(self).board@, old(self).turn, index as int),
            strictly_sorted(as_ints(flips@)),
            as_ints(flips@).to_set() == move_flips(old(self).board@, old(self).turn, index as int),
        ensures
            final(self)@ == after_move(old(self)@, index as int),
            final(self).wf(),
    {
        let ghost b0 = self.board@;
        let ghost g0 = self@;
        let ghost fl = flips@;
        let player = self.turn;
        let ghost opp = player.opp();
        let ghost fset = move_flips(b0, player, index as int);
        proof {
            assert(as_ints(fl).no_duplicates());
            as_ints(fl).unique_seq_to_set();
            lemma_count_total(b0);
            assert forall|q: int| 0 <= q < fl.len() implies fl[q] < 64 && b0[fl[q] as int] == Some(opp)
                && fl[q] != index by {
                assert(as_ints(fl)[q] == fl[q] as int);
                assert(as_ints(fl).to_set().contains(fl[q] as int));
                lemma_flip_cell(b0, player, index as int, 8, fl[q] as int);
            }
            assert forall|a: int, c: int| 0 <= a < c < fl.len() implies fl[a] < fl[c] by {
                assert(as_ints(fl)[a] < as_ints(fl)[c]);
            }
        }
        // save this for scoring updates
        let changed = flips.len();
        assert(self.board@ =~= partly_placed(b0, player, fl, 0));
        let mut j: usize = 0;
        while j < flips.len()
            invariant
                j <= fl.len(),
                fl == flips@,
                index < 64,
                player == self.turn,
                opp == player.opp(),
                self.dark == g0.dark,
                self.light == g0.light,
                self.empty == g0.empty,
                self.turn == g0.turn,
                self.transcript@ == g0.transcript,
                self.is_complete == g0.is_complete,
                b0.len() == 64,
                self.board@ == partly_placed(b0, player, fl, j as int),
                count(self.board@, Some(player)) == count(b0, Some(player)) + j,
                count(self.board@, Some(opp)) + j == count(b0, Some(opp)),
                count(self.board@, None) == count(b0, None),
                forall|q: int| 0 <= q < fl.len() ==> fl[q] < 64 && b0[fl[q] as int] == Some(opp) && fl[q] != index,
                forall|a: int, c: int| 0 <= a < c < fl.len() ==> fl[a] < fl[c],
            decreases fl.len() - j,
        {
            let c = flips[j];
            proof {
                let cur = self.board@;
                assert(!exists|q: int| 0 <= q < j && fl[q] as int == c as int);
                assert(cur[c as int] == Some(opp));
                lemma_count_update(cur, c as int, Some(player), Some(player));
                lemma_count_update(cur, c as int, Some(player), Some(opp));
                lemma_count_update(cur, c as int, Some(player), None);
                let next = partly_placed(b0, player, fl, j + 1);
                assert forall|i: int| 0 <= i < 64 implies #[trigger] next[i] == cur.update(c as int, Some(player))[i] by {
                    if i == c {
                        assert(fl[j as int] as int == i);
                    } else if exists|q: int| 0 <= q < j + 1 && fl[q] as int == i {
                        let q = choose|q: int| 0 <= q < j + 1 && fl[q] as int == i;
                        assert(q < j);
                    }
                }
                assert(partly_placed(b0, player, fl, j + 1) =~= cur.update(c as int, Some(player)));
            }
            self.board.set(c, player);
            j += 1;
        }
        proof {
            let cur = self.board@;
            assert(cur[index as int] == b0[index as int]);
            lemma_count_update(cur, index as int, Some(player), Some(player));
            lemma_count_update(cur, index as int, Some(player), Some(opp));
            lemma_count_update(cur, index as int, Some(player), None);
            assert forall|i: int| 0 <= i < 64 implies fset.contains(i) == (exists|q: int| 0 <= q < fl.len() && fl[q] as int == i) by {
                if fset.contains(i) {
                    assert(as_ints(fl).contains(i));
                    let q = choose|q: int| 0 <= q < fl.len() && as_ints(fl)[q] == i;
                    assert(fl[q] as int == i);
                }
                if exists|q: int| 0 <= q < fl.len() && fl[q] as int == i {
                    let q = choose|q: int| 0 <= q < fl.len() && fl[q] as int == i;
                    assert(as_ints(fl)[q] == i);
                    assert(as_ints(fl).contains(i));
                }
            }
            assert(cur.update(index as int, Some(player)) =~= place(b0, player, index as int));
        }
        // the played cell last, then the score
        self.board.set(index, player);
        self.transcript.push(Play::Move(Position::new(index)));
        if self.turn == Disc::Dark {
            self.dark = self.dark + changed + 1;
            self.light = self.light - changed;
        } else {
            self.light = self.light + changed + 1;
            self.dark = self.dark - changed;
        }
        self.empty = self.empty - 1;
        if self.empty == 0 {
            self.is_complete = true;
        }
        self.turn = self.turn.opposite();
    }

    /// Plays a disc at `index` for the player to move, flipping opposition discs and
    /// updating the score.
    pub fn play(&mut self, index: usize)
        requires
            old(self).wf(),
            is_legal(old(self).board@, old(self).turn, index as int),
        ensures
            final(self)@ == after_move(old(self)@, index as int),
            final(self).wf(),
    {
        let flips = self.flips_for(index);
        self.apply_move(index, &flips);
    }

    /// Plays a move found by [Game::legal_move] or [Game::legal_moves] for the player to move.
    pub fn play_valid_move(&mut self, valid_move: ValidMove)
        requires
            old(self).wf(),
            valid_move.is_move_of(old(self).board@, old(self).turn),
        ensures
            final(self)@ == after_move(old(self)@, valid_move.position@),
            final(self).wf(),
    {
        let ghost pf = indexes_of_positions(valid_move.flips@);
        let mut flips: Vec<usize> = Vec::with_capacity(valid_move.flips.len());
        let mut j: usize = 0;
        while j < valid_move.flips.len()
            invariant
                j <= valid_move.flips@.len(),
                pf == indexes_of_positions(valid_move.flips@),
                as_ints(flips@) == pf.subrange(0, j as int),
            decreases valid_move.flips@.len() - j,
        {
            let ghost prev = flips@;
            let cell = valid_move.flips[j].index();
            flips.push(cell);
            proof {
                assert(pf[j as int] == cell as int);
                assert(as_ints(flips@) =~= as_ints(prev).push(cell as int));
                assert(pf.subrange(0, j + 1) =~= pf.subrange(0, j as int).push(pf[j as int]));
            }
            j += 1;
        }
        assert(pf.subrange(0, j as int) =~= pf);
        self.apply_move(valid_move.position.index(), &flips);
    }

    /// Forfeits the turn of the player to move; a pass right after a pass ends the game.
    pub fn pass(&mut self)
        ensures
            final(self)@ == after_pass(old(self)@),
            old(self).wf() ==> final(self).wf(),
    {
        // if the last (opponent) play was also a pass, then the game is over.
        let n = self.transcript.len();
        if n > 0 && self.transcript[n - 1] == Play::Pass {
            self.is_complete = true;
        } else {
            // otherwise, mark the pass and move on to the other player!
            self.transcript.push(Play::Pass);
            self.turn = self.turn.opposite();
        }
    }

    /// Marks the game complete exactly when neither side has a legal move.
    fn validate_completion(&mut self)
        ensures
            final(self)@ == settle(old(self)@),
    {
        let dark = self.valid_moves(Disc::Dark);
        let light = self.valid_moves(Disc::Light);
        proof {
            let b = self.board@;
            if has_moves(b, Disc::Dark) {
                let t = choose|t: int| is_legal(b, Disc::Dark, t);
                assert(as_ints(dark@).contains(t));
            }
            if dark@.len() > 0 {
                assert(is_legal(b, Disc::Dark, dark@[0] as int));
            }
            if has_moves(b, Disc::Light) {
                let t = choose|t: int| is_legal(b, Disc::Light, t);
                assert(as_ints(light@).contains(t));
            }
            if light@.len() > 0 {
                assert(is_legal(b, Disc::Light, light@[0] as int));
            }
        }
        self.is_complete = dark.len() == 0 && light.len() == 0;
    }

    /// Replays a game from a transcript, returning `None` at the first move that is not legal.
    pub fn from_transcript(transcript: &[Play]) -> (r: Option<Game>)
        ensures
            r is Some <==> replay(transcript@) is Some,
            r is Some ==> r->0@ == replay(transcript@)->0 && r->0.wf(),
    {
        let mut game = Game::new();
        let mut i: usize = 0;
        while i < transcript.len()
            invariant
                i <= transcript@.len(),
                game.wf(),
                replay_from(start_view(), transcript@.subrange(0, i as int)) == Some(game@),
            decreases transcript@.len() - i,
        {
            assert(transcript@.subrange(0, i + 1).drop_last() =~= transcript@.subrange(0, i as int));
            match transcript[i] {
                Play::Move(p) => {
                    let index = p.index();
                    match game.validate_move(game.turn, index) {
                        Some(valid) => game.play(valid),
                        None => {
                            proof {
                                lemma_replay_fails_after(start_view(), transcript@, i as int + 1);
                            }
                            return None;
                        },
                    }
                },
                Play::Pass => game.pass(),
            }
            i += 1;
        }
        assert(transcript@.subrange(0, i as int) =~= transcript@);
        game.validate_completion();
        Some(game)
    }
}

} // verus!
