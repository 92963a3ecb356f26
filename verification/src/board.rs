//! The board of a game in progress and the turns played on it.

use crate::action::{Action, SubAction};
use crate::rules::{
    captured, ended, first_legal_from, fresh, is_board, legal, lemma_captured, lemma_next_slot,
    lemma_slot_within_total, lemma_sown, lemma_step_conserves, lemma_swap_twice, lemma_update_total, mirror,
    none_legal_from, played, slot_after, sown, step, swapped, total, MAX_SEEDS, MOVER_STORE,
    OPPONENT_STORE, SIDE, SLOTS,
};
use vstd::prelude::*;

verus! {

/// A board, always seen from the side of the player who moves next.
///
/// Two boards are equal exactly when every pit and store holds the same
/// count, so a board can key a table of learned values.
#[derive(Debug, PartialEq, Eq, Hash, Clone, Copy)]
pub struct GameState {
    slots: [u8; 14],
}

impl View for GameState {
    type V = Seq<int>;

    closed spec fn view(&self) -> Seq<int> {
        Seq::new(SLOTS as nat, |i: int| self.slots[i] as int)
    }
}

/// The seeds in the slots below `upto`.
spec fn partial_total(b: Seq<int>, upto: int) -> int
    decreases upto,
{
    if upto <= 0 {
        0
    } else {
        partial_total(b, upto - 1) + b[upto - 1]
    }
}

impl GameState {
    /// The board holds few enough seeds that no count can outgrow a byte,
    /// whatever is played from here.
    pub open spec fn well_formed(&self) -> bool {
        total(self@) <= MAX_SEEDS
    }

    /// Every board value is a board of fourteen counts, each within a byte.
    pub proof fn lemma_view_is_board(&self)
        ensures
            is_board(self@),
            forall|i: int| 0 <= i < SLOTS ==> #[trigger] self@[i] <= u8::MAX,
    {
    }

    /// Boards that hold the same counts are the same value.
    pub proof fn lemma_same_counts_same_board(a: GameState, b: GameState)
        requires
            a@ == b@,
        ensures
            a == b,
    {
        assert forall|i: int| 0 <= i < SLOTS implies a.slots[i] == b.slots[i] by {
            assert(a@[i] == a.slots[i] as int);
            assert(b@[i] == b.slots[i] as int);
        }
        assert(a.slots =~= b.slots);
    }

    /// Turning a board round twice gives the same board again.
    pub proof fn lemma_swapped_twice_is_same(before: GameState, once: GameState, twice: GameState)
        requires
            once@ == swapped(before@),
            twice@ == swapped(once@),
        ensures
            twice == before,
    {
        before.lemma_view_is_board();
        lemma_swap_twice(before@);
        Self::lemma_same_counts_same_board(twice, before);
    }

    /// A board with `starting_seeds` seeds in every pit and empty stores.
    pub fn new(starting_seeds: u8) -> (state: GameState)
        ensures
            state@ == fresh(starting_seeds as int),
            state.well_formed() <==> 12 * starting_seeds <= MAX_SEEDS,
    {
        let mut slots: [u8; 14] = [starting_seeds; 14];
        slots[MOVER_STORE] = 0;
        slots[OPPONENT_STORE] = 0;
        let state = GameState { slots };
        assert(state@ =~= fresh(starting_seeds as int));
        state
    }

    /// Whether the game is over: one side's pits are all empty.
    pub fn is_ended(&self) -> (over: bool)
        ensures
            over == ended(self@),
    {
        let mut mover_empty = true;
        let mut opponent_empty = true;
        let mut pit: usize = 0;
        while pit < SIDE
            invariant
                pit <= SIDE,
                mover_empty == (forall|i: int| 0 <= i < pit ==> self@[i] == 0),
                opponent_empty == (forall|i: int| 0 <= i < pit ==> self@[mirror(i)] == 0),
            decreases SIDE - pit,
        {
            if self.slots[pit] != 0 {
                mover_empty = false;
                assert(self@[pit as int] != 0);
            }
            if self.slots[pit + SIDE + 1] != 0 {
                opponent_empty = false;
                assert(self@[mirror(pit as int)] != 0);
            }
            pit = pit + 1;
        }
        proof {
            assert(opponent_empty == (self@[mirror(0)] == 0 && self@[mirror(1)] == 0
                && self@[mirror(2)] == 0 && self@[mirror(3)] == 0 && self@[mirror(4)] == 0
                && self@[mirror(5)] == 0));
        }
        mover_empty || opponent_empty
    }

    /// Sows `seeds` seeds, one into each slot that follows `source`, and
    /// returns the slot that the last one fell into.
    fn sow(&mut self, source: usize, seeds: u8) -> (last: usize)
        requires
            source < SLOTS,
            total(old(self)@) + seeds <= MAX_SEEDS,
        ensures
            final(self)@ == sown(old(self)@, source as int, seeds as nat),
            last == slot_after(source as int, seeds as int),
    {
        let ghost start: Seq<int> = self@;
        let mut at: usize = source;
        let mut done: u8 = 0;
        while done < seeds
            invariant
                done <= seeds,
                source < SLOTS,
                at == slot_after(source as int, done as int),
                start.len() == SLOTS,
                forall|i: int| 0 <= i < SLOTS ==> 0 <= #[trigger] start[i],
                total(start) + seeds <= MAX_SEEDS,
                self@ == sown(start, source as int, done as nat),
            decreases seeds - done,
        {
            let ghost before: Seq<int> = self@;
            at = if at + 1 == SLOTS {
                0
            } else {
                at + 1
            };
            proof {
                lemma_next_slot(source as int, done as int);
                lemma_sown(start, source as int, done as nat);
                lemma_slot_within_total(before, at as int);
                assert(before[at as int] == self.slots[at as int]);
            }
            self.slots[at] = self.slots[at] + 1;
            done = done + 1;
            assert(self@ =~= before.update(at as int, before[at as int] + 1));
        }
        at
    }

    /// Moves the seed in the mover's pit `landing` and all seeds in the pit
    /// across from it into the mover's store.
    fn capture(&mut self, landing: usize)
        requires
            landing < SIDE,
            old(self)@[landing as int] == 1,
            total(old(self)@) <= MAX_SEEDS,
        ensures
            final(self)@ == captured(old(self)@, landing as int),
    {
        let across: usize = landing + SIDE + 1;
        proof {
            lemma_captured(self@, landing as int);
            assert(self@[across as int] == self.slots[across as int]);
            assert(self@[MOVER_STORE as int] == self.slots[MOVER_STORE as int]);
        }
        let gain: u8 = 1 + self.slots[across];
        self.slots[MOVER_STORE] = self.slots[MOVER_STORE] + gain;
        self.slots[landing] = 0;
        self.slots[across] = 0;
        assert(self@ =~= captured(old(self)@, landing as int));
    }

    /// Plays one sub-move: picks up all seeds of the mover's pit `subaction`,
    /// sows them one by one into the slots that follow, and captures where the
    /// last seed ends alone in one of the mover's own pits.
    pub fn evaluate_subaction(&mut self, subaction: SubAction)
        requires
            old(self).well_formed(),
            subaction < SIDE,
        ensures
            final(self)@ == step(old(self)@, subaction as int),
            final(self).well_formed(),
            total(final(self)@) == total(old(self)@),
    {
        let source: usize = subaction as usize;
        let seeds: u8 = self.slots[source];
        proof {
            lemma_update_total(self@, source as int, 0);
            lemma_step_conserves(self@, source as int);
        }
        self.slots[source] = 0;
        assert(self@ =~= old(self)@.update(source as int, 0));
        let last: usize = self.sow(source, seeds);
        let ghost after: Seq<int> = self@;
        proof {
            lemma_sown(old(self)@.update(source as int, 0), source as int, seeds as nat);
            assert(after[last as int] == self.slots[last as int]);
        }
        if seeds > 0 && last < SIDE && self.slots[last] == 1 {
            self.capture(last);
        }
    }

    /// Plays a whole action: its sub-moves one after the other, first pushed
    /// first, until none is left.
    pub fn evaluate_action(&mut self, action_list: Action)
        requires
            old(self).well_formed(),
            action_list.well_formed(),
            forall|i: int| 0 <= i < action_list@.len() ==> action_list@[i] < SIDE,
        ensures
            final(self)@ == played(old(self)@, action_list@),
            final(self).well_formed(),
            total(final(self)@) == total(old(self)@),
    {
        let mut rest = action_list;
        while !rest.is_empty()
            invariant
                self.well_formed(),
                rest.well_formed(),
                forall|i: int| 0 <= i < rest@.len() ==> rest@[i] < SIDE,
                total(self@) == total(old(self)@),
                played(self@, rest@) == played(old(self)@, action_list@),
            decreases rest@.len(),
        {
            let ghost queued: Seq<u8> = rest@;
            let subaction = rest.pop_action();
            assert forall|i: int| 0 <= i < rest@.len() implies rest@[i] < SIDE by {
                assert(rest@[i] == queued[i + 1]);
            }
            self.evaluate_subaction(subaction);
        }
    }

    /// The board that playing `action_list` from this one leads to. This
    /// board stays as it is.
    pub fn evaluate_to_new_state(&self, action_list: Action) -> (new_state: GameState)
        requires
            self.well_formed(),
            action_list.well_formed(),
            forall|i: int| 0 <= i < action_list@.len() ==> action_list@[i] < SIDE,
        ensures
            new_state@ == played(self@, action_list@),
            new_state.well_formed(),
            total(new_state@) == total(self@),
    {
        let mut new_state = *self;
        new_state.evaluate_action(action_list);
        new_state
    }

    /// The first of the mover's pits that holds a seed, if there is one.
    pub fn next_valid_submove(&self) -> (found: Option<SubAction>)
        ensures
            match found {
                Some(pit) => first_legal_from(self@, 0, pit as int),
                None => none_legal_from(self@, 0),
            },
    {
        let mut pit: u8 = 0;
        while pit < 6
            invariant
                pit <= SIDE,
                forall|q: int| 0 <= q < pit ==> !legal(self@, q),
            decreases SIDE - pit,
        {
            if self.slots[pit as usize] > 0 {
                assert(self@[pit as int] > 0);
                return Some(pit);
            }
            assert(self@[pit as int] == 0);
            pit = pit + 1;
        }
        None
    }

    /// Turns the board round so that the other player is the mover: every pit
    /// changes places with the pit across from it, and so do the stores.
    pub fn swap_board(&mut self)
        ensures
            final(self)@ == swapped(old(self)@),
            total(final(self)@) == total(old(self)@),
            final(self).well_formed() == old(self).well_formed(),
    {
        let mut i: usize = 0;
        while i <= MOVER_STORE
            invariant
                i <= MOVER_STORE + 1,
                forall|j: int| 0 <= j < i ==> self.slots[j] == old(self).slots[j + 7],
                forall|j: int| 7 <= j < i + 7 ==> self.slots[j] == old(self).slots[j - 7],
                forall|j: int| i <= j < 7 ==> self.slots[j] == old(self).slots[j],
                forall|j: int| i + 7 <= j < SLOTS ==> self.slots[j] == old(self).slots[j],
            decreases MOVER_STORE + 1 - i,
        {
            let temp: u8 = self.slots[i];
            self.slots[i] = self.slots[i + SIDE + 1];
            self.slots[i + SIDE + 1] = temp;
            i = i + 1;
        }
        proof {
            assert forall|j: int| 0 <= j < SLOTS implies self@[j] == swapped(old(self)@)[j] by {
                if j <= MOVER_STORE {
                    assert(self.slots[j] == old(self).slots[j + 7]);
                } else {
                    assert(self.slots[j] == old(self).slots[j - 7]);
                }
            }
            assert(self@ =~= swapped(old(self)@));
            lemma_swap_twice(old(self)@);
        }
    }

    /// The twelve pits: the mover's six, then the opponent's six, each side
    /// in sowing order.
    pub fn houses(&self) -> (pits: [u8; 12])
        ensures
            forall|pit: int| 0 <= pit < SIDE ==> pits[pit] == self@[pit],
            forall|pit: int| SIDE <= pit < 2 * SIDE ==> pits[pit] == self@[pit + 1],
    {
        let mut pits: [u8; 12] = [0; 12];
        let mut pit: usize = 0;
        while pit < SIDE
            invariant
                pit <= SIDE,
                forall|q: int| 0 <= q < pit ==> pits[q] == self@[q],
                forall|q: int| SIDE <= q < pit + SIDE ==> pits[q] == self@[q + 1],
            decreases SIDE - pit,
        {
            pits[pit] = self.slots[pit];
            pits[pit + SIDE] = self.slots[pit + SIDE + 1];
            pit = pit + 1;
        }
        pits
    }

    /// All seeds on the board. A board is well formed when this is at most
    /// 255.
    pub fn seed_total(&self) -> (seeds: u16)
        ensures
            seeds == total(self@),
    {
        let mut seeds: u16 = 0;
        let mut slot: usize = 0;
        while slot < SLOTS
            invariant
                slot <= SLOTS,
                seeds <= 255 * slot,
                seeds == partial_total(self@, slot as int),
            decreases SLOTS - slot,
        {
            seeds = seeds + self.slots[slot] as u16;
            slot = slot + 1;
        }
        proof {
            reveal_with_fuel(partial_total, 15);
        }
        seeds
    }

    /// The seeds in the mover's store.
    pub fn mover_store(&self) -> (seeds: u8)
        ensures
            seeds == self@[MOVER_STORE as int],
    {
        self.slots[MOVER_STORE]
    }

    /// The seeds in the opponent's store.
    pub fn opponent_store(&self) -> (seeds: u8)
        ensures
            seeds == self@[OPPONENT_STORE as int],
    {
        self.slots[OPPONENT_STORE]
    }
}

} // verus!
