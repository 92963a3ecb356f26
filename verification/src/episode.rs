//! One turn of a self-play episode: the move, what it earns, whether it ends
//! the game, and the board that the next player finds.

use crate::action::Action;
use crate::board::GameState;
use crate::progress::{lemma_swap_keeps_measure, lemma_turn_lowers_limit, turn_limit};
use crate::rules::{ended, legal, lemma_played_single, played, score, swapped, total, SIDE};
use vstd::prelude::*;

verus! {

/// What one turn of an episode comes to.
#[derive(Debug, PartialEq, Eq, Clone, Copy)]
pub struct Turn {
    /// The board right after the move, still seen by the player who made it.
    pub reached: GameState,
    /// The gain in the mover's lead over the opponent that the move brought.
    pub reward: i16,
    /// Whether the move ended the game.
    pub ended: bool,
    /// The board from which the episode goes on: `reached` turned round for
    /// the other player, or `reached` itself where the game has ended.
    pub next: GameState,
}

impl GameState {
    /// The mover's lead: the mover's store less the opponent's.
    pub fn score_diff(&self) -> (lead: i16)
        ensures
            lead == score(self@),
            -(u8::MAX as int) <= lead <= u8::MAX,
    {
        proof {
            self.lemma_view_is_board();
        }
        let ours: i16 = self.mover_store() as i16;
        let theirs: i16 = self.opponent_store() as i16;
        ours - theirs
    }

    /// Plays `action` as one turn of an episode. This board stays as it is.
    ///
    /// The reward is the lead after the move less the lead before it. Unless
    /// the move ends the game, the board is turned round for the next player.
    /// A turn that plays one legal pit lowers the number of turns that can
    /// still follow.
    pub fn play_turn(&self, action: Action) -> (turn: Turn)
        requires
            self.well_formed(),
            action.well_formed(),
            forall|i: int| 0 <= i < action@.len() ==> action@[i] < SIDE,
        ensures
            turn.reached@ == played(self@, action@),
            turn.reward == score(turn.reached@) - score(self@),
            turn.ended == ended(turn.reached@),
            turn.next@ == if turn.ended {
                turn.reached@
            } else {
                swapped(turn.reached@)
            },
            turn.reached.well_formed(),
            turn.next.well_formed(),
            total(turn.next@) == total(self@),
            action@.len() == 1 && legal(self@, action@[0] as int) ==> 0 <= turn_limit(turn.next@)
                < turn_limit(self@),
    {
        let before: i16 = self.score_diff();
        let reached: GameState = self.evaluate_to_new_state(action);
        let reward: i16 = reached.score_diff() - before;
        let ended: bool = reached.is_ended();
        let mut next: GameState = reached;
        if !ended {
            next.swap_board();
        }
        proof {
            self.lemma_view_is_board();
            reached.lemma_view_is_board();
            if action@.len() == 1 && legal(self@, action@[0] as int) {
                lemma_played_single(self@, action@);
                lemma_turn_lowers_limit(self@, action@[0] as int);
                lemma_swap_keeps_measure(reached@);
            }
        }
        Turn { reached, reward, ended, next }
    }
}

} // verus!
