//! The moves that a board offers to the player who moves next.

use crate::action::{Action, SubAction};
use crate::board::GameState;
use crate::rules::{
    first_legal_from, legal, legal_pits, legal_pits_below, lemma_played_single, lemma_skip_illegal, none_legal_from,
    step, SIDE,
};
use vstd::prelude::*;

verus! {

/// Whether `choices` lists the actions that play `pits`, one sub-move each
/// and in that order, each with the board that it leads to from `b`.
pub open spec fn offers(choices: Seq<(Action, GameState)>, b: Seq<int>, pits: Seq<int>) -> bool {
    &&& choices.len() == pits.len()
    &&& forall|i: int|
        0 <= i < choices.len() ==> {
            &&& (#[trigger] choices[i]).0.well_formed()
            &&& choices[i].0@ == seq![pits[i] as u8]
            &&& choices[i].1@ == step(b, pits[i])
            &&& choices[i].1.well_formed()
        }
}

/// Walks the mover's pits from the first to the last and yields, for each
/// one that holds a seed, the action that plays it. It yields each action
/// once and cannot be rewound.
pub struct ActionIter<'a> {
    next_subaction: SubAction,
    state: &'a GameState,
}

impl<'a> ActionIter<'a> {
    /// The board whose moves are generated.
    pub closed spec fn board(&self) -> Seq<int> {
        self.state@
    }

    /// The pit at which the search for the next action starts.
    pub closed spec fn cursor(&self) -> int {
        self.next_subaction as int
    }

    /// The next action: the single sub-move that plays the first pit, at or
    /// past the cursor, that holds a seed. `None` when there is no such pit.
    pub fn next(&mut self) -> (yielded: Option<Action>)
        ensures
            final(self).board() == old(self).board(),
            match yielded {
                Some(action) => {
                    &&& action.well_formed()
                    &&& action@.len() == 1
                    &&& first_legal_from(old(self).board(), old(self).cursor(), action@[0] as int)
                    &&& final(self).cursor() == action@[0] + 1
                },
                None => {
                    &&& none_legal_from(old(self).board(), old(self).cursor())
                    &&& final(self).cursor() == old(self).cursor()
                },
            },
    {
        let pits: [u8; 12] = self.state.houses();
        let mut index: SubAction = self.next_subaction;
        while index < 6
            invariant
                self.next_subaction == old(self).next_subaction,
                self.state == old(self).state,
                old(self).next_subaction <= index,
                forall|q: int| 0 <= q < SIDE ==> pits[q] == self.state@[q],
                forall|q: int| old(self).next_subaction <= q < index ==> !legal(self.state@, q),
            decreases SIDE - index,
        {
            if pits[index as usize] > 0 {
                let mut action = Action::new();
                action.push_action(index);
                self.next_subaction = index + 1;
                return Some(action);
            }
            index = index + 1;
        }
        None
    }
}

impl GameState {
    /// The generator of this board's legal actions, set before the first pit.
    pub fn gen_actions(&self) -> (actions: ActionIter<'_>)
        ensures
            actions.board() == self@,
            actions.cursor() == 0,
    {
        ActionIter { next_subaction: 0, state: self }
    }

    /// Every legal action of this board, in the order in which the generator
    /// yields them, each with the board that playing it leads to.
    pub fn successors(&self) -> (choices: Vec<(Action, GameState)>)
        requires
            self.well_formed(),
        ensures
            offers(choices@, self@, legal_pits(self@)),
    {
        let mut choices: Vec<(Action, GameState)> = Vec::new();
        let mut actions = self.gen_actions();
        loop
            invariant
                self.well_formed(),
                actions.board() == self@,
                0 <= actions.cursor() <= SIDE,
                offers(choices@, self@, legal_pits_below(self@, actions.cursor())),
            ensures
                offers(choices@, self@, legal_pits(self@)),
            decreases SIDE - actions.cursor(),
        {
            let ghost from = actions.cursor();
            match actions.next() {
                Some(action) => {
                    let ghost pit = action@[0] as int;
                    proof {
                        lemma_skip_illegal(self@, from, pit);
                        assert(legal_pits_below(self@, pit + 1) == legal_pits_below(
                            self@,
                            from,
                        ).push(pit));
                        assert(action@ =~= seq![pit as u8]);
                        lemma_played_single(self@, action@);
                    }
                    let new_state = self.evaluate_to_new_state(action);
                    choices.push((action, new_state));
                },
                None => {
                    proof {
                        lemma_skip_illegal(self@, from, SIDE as int);
                    }
                    break ;
                },
            }
        }
        choices
    }
}

} // verus!
