use vstd::prelude::*;

use crate::board::{count, lemma_board_len, lemma_count_same_places, lemma_count_total, lemma_count_update, lemma_count_zero, lemma_start_counts};
use crate::disc::Disc;
use crate::game::{after_move, after_pass, ends_with_pass, replay, replay_from, replay_step, settle, start_view, Game, GameView, Play};
use crate::position::{lemma_position_at_view, Position};
use crate::rules::{has_moves, is_legal, lemma_flip_cell, move_flips, place};

verus! {

broadcast use {lemma_board_len, lemma_position_at_view};

/// Every game whose counters agree with its board holds 64 cells in all: dark, light and
/// empty together.
pub proof fn lemma_disc_total(g: &Game)
    requires
        g.wf(),
    ensures
        g.dark + g.light + g.empty == 64,
{
    lemma_count_total(g.board@);
}

/// Two passes in a row always complete the game.
pub proof fn lemma_two_passes_complete(g: GameView)
    ensures
        after_pass(after_pass(g)).is_complete,
{
}

/// One play made by the rules: a legal move, or a pass by a player who has no legal move.
pub open spec fn rule_step(g: GameView, play: Play) -> Option<GameView> {
    match play {
        Play::Move(q) => if is_legal(g.board, g.turn, q@) {
            Some(after_move(g, q@))
        } else {
            None
        },
        Play::Pass => if !has_moves(g.board, g.turn) {
            Some(after_pass(g))
        } else {
            None
        },
    }
}

/// The game reached from `g` by making `plays` by the rules, if each of them is allowed.
pub open spec fn play_out(g: GameView, plays: Seq<Play>) -> Option<GameView>
    decreases plays.len(),
{
    if plays.len() == 0 {
        Some(g)
    } else {
        match play_out(g, plays.drop_last()) {
            Some(h) => rule_step(h, plays.last()),
            None => None,
        }
    }
}

/// Whether some plays made by the rules lead from `g` to `h`.
pub open spec fn reaches(g: GameView, h: GameView) -> bool {
    exists|plays: Seq<Play>| play_out(g, plays) == Some(h)
}

/// One more play extends a play-out by one rule step.
pub proof fn lemma_play_out_push(g: GameView, plays: Seq<Play>, play: Play)
    ensures
        play_out(g, plays.push(play)) == match play_out(g, plays) {
            Some(h) => rule_step(h, play),
            None => None,
        },
{
    assert(plays.push(play).drop_last() =~= plays);
}

/// What a game played by the rules keeps true, and what replaying its transcript rebuilds:
/// the same state, completed only when the board is full.
spec fn replayable(g: GameView) -> bool {
    &&& g.board.len() == 64
    &&& g.empty == count(g.board, None)
    &&& g.is_complete ==> !has_moves(g.board, Disc::Dark) && !has_moves(g.board, Disc::Light)
    &&& ends_with_pass(g.transcript) ==> !has_moves(g.board, g.turn.opp())
    &&& replay_from(start_view(), g.transcript) == Some(GameView { is_complete: g.empty == 0, ..g })
}

/// A move removes exactly one empty cell from the board.
proof fn lemma_place_empty_count(b: Seq<Option<Disc>>, p: Disc, t: int)
    requires
        b.len() == 64,
        is_legal(b, p, t),
    ensures
        count(place(b, p, t), None) + 1 == count(b, None),
{
    let u = b.update(t, Some(p));
    lemma_count_update(b, t, Some(p), None);
    assert forall|i: int| 0 <= i < 64 implies (place(b, p, t)[i] == None::<Disc>) == (u[i] == None::<Disc>) by {
        if move_flips(b, p, t).contains(i) {
            lemma_flip_cell(b, p, t, 8, i);
        }
    }
    lemma_count_same_places(place(b, p, t), u, None);
}

/// One more play made by the rules keeps a game replayable.
proof fn lemma_replayable_step(g: GameView, play: Play)
    requires
        replayable(g),
        rule_step(g, play) is Some,
    ensures
        replayable(rule_step(g, play)->0),
{
    let h = rule_step(g, play)->0;
    let gr = GameView { is_complete: g.empty == 0, ..g };
    match play {
        Play::Move(q) => {
            let t = q@;
            lemma_place_empty_count(g.board, g.turn, t);
            lemma_count_zero(g.board, None);
            assert(g.empty >= 1);
            lemma_count_zero(place(g.board, g.turn, t), None);
            assert(h.transcript.drop_last() =~= g.transcript);
            assert(replay_step(gr, Play::Move(Position::at(t))) == Some(GameView { is_complete: h.empty == 0, ..h }));
            if h.is_complete {
                if h.empty == 0 {
                    assert forall|c: Disc, u: int| !is_legal(h.board, c, u) by {
                        if 0 <= u < 64 {
                            assert(h.board[u] != None::<Disc>);
                        }
                    }
                }
            }
        },
        Play::Pass => {
            if ends_with_pass(g.transcript) {
                assert(h.transcript == g.transcript);
                assert(g.turn == Disc::Dark || g.turn == Disc::Light);
            } else {
                assert(h.transcript.drop_last() =~= g.transcript);
                assert(h.turn.opp() == g.turn);
            }
        },
    }
}

/// Every game played by the rules from the start is replayable.
proof fn lemma_play_out_replayable(plays: Seq<Play>)
    requires
        play_out(start_view(), plays) is Some,
    ensures
        replayable(play_out(start_view(), plays)->0),
    decreases plays.len(),
{
    if plays.len() == 0 {
        lemma_start_counts();
        assert(replay_from(start_view(), Seq::<Play>::empty()) == Some(start_view()));
    } else {
        lemma_play_out_replayable(plays.drop_last());
        lemma_replayable_step(play_out(start_view(), plays.drop_last())->0, plays.last());
    }
}

/// Replaying the transcript of a game played by the rules from the start rebuilds that game
/// in every field, provided the game is already marked complete whenever neither side has a
/// move left.
pub proof fn lemma_transcript_round_trip(plays: Seq<Play>)
    requires
        play_out(start_view(), plays) is Some,
        !has_moves(play_out(start_view(), plays)->0.board, Disc::Dark) && !has_moves(
            play_out(start_view(), plays)->0.board,
            Disc::Light,
        ) ==> play_out(start_view(), plays)->0.is_complete,
    ensures
        replay(play_out(start_view(), plays)->0.transcript) == play_out(start_view(), plays),
{
    lemma_play_out_replayable(plays);
    let g = play_out(start_view(), plays)->0;
    assert(settle(GameView { is_complete: g.empty == 0, ..g }) == g);
}

} // verus!
