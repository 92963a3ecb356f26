//! A player's turn as a short first-in, first-out queue of sub-moves.

use vstd::prelude::*;

verus! {

/// One sub-move: the index of the pit that is picked up and sown.
pub type SubAction = u8;

/// The number of sub-moves that one action can hold.
pub const ACTION_CAPACITY: usize = 8;

/// An ordered queue of sub-moves. Sub-moves leave in the order they came.
///
/// The queue is stored inline so that an action is a plain copyable value.
/// Cells past the end are kept at zero, so that two queues holding the same
/// sub-moves in the same order are the same value.
#[derive(Debug, PartialEq, Eq, Hash, Clone, Copy)]
pub struct Action {
    cells: [SubAction; 8],
    count: u8,
}

impl View for Action {
    type V = Seq<SubAction>;

    closed spec fn view(&self) -> Seq<SubAction> {
        self.cells@.subrange(0, self.count as int)
    }
}

impl Action {
    /// The representation is canonical: the count is within the capacity and
    /// every unused cell is zero.
    pub closed spec fn well_formed(&self) -> bool {
        &&& self.count <= ACTION_CAPACITY
        &&& forall|i: int| self.count <= i < ACTION_CAPACITY ==> self.cells[i] == 0
    }

    /// An action with no sub-moves.
    pub fn new() -> (action: Action)
        ensures
            action.well_formed(),
            action@ == Seq::<SubAction>::empty(),
    {
        let action = Action { cells: [0; 8], count: 0 };
        assert(action@ =~= Seq::<SubAction>::empty());
        action
    }

    /// An action that holds the one sub-move `index`.
    pub fn singleton(index: SubAction) -> (action: Action)
        ensures
            action.well_formed(),
            action@ == seq![index],
    {
        let mut cells: [SubAction; 8] = [0; 8];
        cells[0] = index;
        let action = Action { cells, count: 1 };
        assert(action@ =~= seq![index]);
        action
    }

    /// The number of sub-moves that are left.
    pub fn len(&self) -> (count: usize)
        requires
            self.well_formed(),
        ensures
            count == self@.len(),
            count <= ACTION_CAPACITY,
    {
        self.count as usize
    }

    /// Whether no sub-move is left.
    pub fn is_empty(&self) -> (empty: bool)
        requires
            self.well_formed(),
        ensures
            empty == (self@.len() == 0),
    {
        self.count == 0
    }

    /// Appends `index` as the last sub-move to apply.
    pub fn push_action(&mut self, index: SubAction)
        requires
            old(self).well_formed(),
            old(self)@.len() < ACTION_CAPACITY,
        ensures
            final(self).well_formed(),
            final(self)@ == old(self)@.push(index),
    {
        let at: usize = self.count as usize;
        self.cells[at] = index;
        self.count = self.count + 1;
        assert(self@ =~= old(self)@.push(index));
    }

    /// Removes the sub-move that was pushed first and returns it.
    pub fn pop_action(&mut self) -> (front: SubAction)
        requires
            old(self).well_formed(),
            old(self)@.len() > 0,
        ensures
            final(self).well_formed(),
            front == old(self)@[0],
            final(self)@ == old(self)@.drop_first(),
    {
        let front: SubAction = self.cells[0];
        let last: usize = (self.count - 1) as usize;
        let mut i: usize = 0;
        while i < last
            invariant
                i <= last < ACTION_CAPACITY,
                self.count == old(self).count,
                last == self.count - 1,
                forall|j: int| 0 <= j < i ==> self.cells[j] == old(self).cells[j + 1],
                forall|j: int| i <= j < ACTION_CAPACITY ==> self.cells[j] == old(self).cells[j],
            decreases last - i,
        {
            self.cells[i] = self.cells[i + 1];
            i = i + 1;
        }
        self.cells[last] = 0;
        self.count = self.count - 1;
        assert(self@ =~= old(self)@.drop_first());
        front
    }

    /// Two well-formed actions that hold the same sub-moves in the same order
    /// are the same value, so `==` and hashing tell actions apart exactly by
    /// their sub-moves and the order of these.
    pub proof fn lemma_same_moves_same_action(a: Action, b: Action)
        requires
            a.well_formed(),
            b.well_formed(),
            a@ == b@,
        ensures
            a == b,
    {
        assert(a@.len() == a.count);
        assert(b@.len() == b.count);
        assert forall|i: int| 0 <= i < ACTION_CAPACITY implies a.cells[i] == b.cells[i] by {
            if i < a.count {
                assert(a@[i] == a.cells[i]);
                assert(b@[i] == b.cells[i]);
            }
        }
        assert(a.cells =~= b.cells);
    }

    /// A queue gives its sub-moves back in the order in which they were
    /// pushed: of a queue that held `moves` and took `index` last, `index`
    /// leaves exactly after all of `moves` have left.
    pub proof fn lemma_first_in_first_out(moves: Seq<SubAction>, index: SubAction)
        ensures
            moves.len() == 0 ==> moves.push(index)[0] == index && moves.push(index).drop_first()
                == moves,
            moves.len() > 0 ==> moves.push(index)[0] == moves[0] && moves.push(index).drop_first()
                == moves.drop_first().push(index),
    {
        if moves.len() == 0 {
            assert(moves.push(index).drop_first() =~= moves);
        } else {
            assert(moves.push(index).drop_first() =~= moves.drop_first().push(index));
        }
    }
}

} // verus!
