//! The rules of the game as mathematics.
//!
//! A board is a sequence of fourteen seed counts laid out in sowing order:
//! slots 0 to 5 are the mover's pits, slot 6 is the mover's store, slots 7 to
//! 12 are the opponent's pits and slot 13 is the opponent's store. Sowing
//! walks this sequence and wraps from slot 13 to slot 0.

use vstd::prelude::*;

verus! {

/// The number of slots on the board: twelve pits and two stores.
pub const SLOTS: usize = 14;

/// The number of pits on one side.
pub const SIDE: usize = 6;

/// The slot of the mover's store.
pub const MOVER_STORE: usize = 6;

/// The slot of the opponent's store.
pub const OPPONENT_STORE: usize = 13;

/// The most seeds that a board may hold so that every count fits in a byte
/// whatever is played.
pub const MAX_SEEDS: usize = 255;

/// A board has fourteen slots and no slot holds a negative count.
pub open spec fn is_board(b: Seq<int>) -> bool {
    &&& b.len() == SLOTS
    &&& forall|i: int| 0 <= i < SLOTS ==> 0 <= #[trigger] b[i]
}

/// The seeds in the mover's six pits.
pub open spec fn mover_seeds(b: Seq<int>) -> int {
    b[0] + b[1] + b[2] + b[3] + b[4] + b[5]
}

/// The seeds in the opponent's six pits.
pub open spec fn opponent_seeds(b: Seq<int>) -> int {
    b[7] + b[8] + b[9] + b[10] + b[11] + b[12]
}

/// All seeds on the board, in pits and in stores.
pub open spec fn total(b: Seq<int>) -> int {
    mover_seeds(b) + b[6] + opponent_seeds(b) + b[13]
}

/// The game is over when one side's pits are all empty. Stores play no part.
pub open spec fn ended(b: Seq<int>) -> bool {
    mover_seeds(b) == 0 || opponent_seeds(b) == 0
}

/// The board at the start of a game: `seeds` in every pit, nothing in a store.
pub open spec fn fresh(seeds: int) -> Seq<int> {
    Seq::new(
        SLOTS as nat,
        |i: int|
            if i == MOVER_STORE || i == OPPONENT_STORE {
                0
            } else {
                seeds
            },
    )
}

/// The slot that the `k`-th seed sown from `source` falls into.
pub open spec fn slot_after(source: int, k: int) -> int {
    (source + k) % (SLOTS as int)
}

/// The board after the first `k` seeds taken from `source` have been sown:
/// one seed into each slot that follows `source`, stores included, going
/// round the board as often as it takes.
pub open spec fn sown(b: Seq<int>, source: int, k: nat) -> Seq<int>
    decreases k,
{
    if k == 0 {
        b
    } else {
        let before = sown(b, source, (k - 1) as nat);
        let at = slot_after(source, k as int);
        before.update(at, before[at] + 1)
    }
}

/// The pit across the board from the mover's pit `pit`.
pub open spec fn mirror(pit: int) -> int {
    pit + SIDE + 1
}

/// Whether sowing `n` seeds from `source` ends in a capture, given the board
/// `b` after the sowing: the last seed fell into one of the mover's own pits
/// and is alone there.
pub open spec fn captures(b: Seq<int>, source: int, n: int) -> bool {
    &&& n > 0
    &&& slot_after(source, n) < SIDE
    &&& b[slot_after(source, n)] == 1
}

/// The board after the seed in the mover's pit `landing` and all seeds
/// in the pit across from it have gone to the mover's store.
pub open spec fn captured(b: Seq<int>, landing: int) -> Seq<int> {
    b.update(MOVER_STORE as int, b[MOVER_STORE as int] + 1 + b[mirror(landing)]).update(
        landing,
        0,
    ).update(mirror(landing), 0)
}

/// The board after the mover has played the pit `source`: all its seeds are
/// picked up and sown, and a capture follows where the last seed calls for it.
pub open spec fn step(b: Seq<int>, source: int) -> Seq<int> {
    let n = b[source];
    let after = sown(b.update(source, 0), source, n as nat);
    if captures(after, source, n) {
        captured(after, slot_after(source, n))
    } else {
        after
    }
}

/// The board after the mover has played the pits of `moves`, first to last.
pub open spec fn played(b: Seq<int>, moves: Seq<u8>) -> Seq<int>
    decreases moves.len(),
{
    if moves.len() == 0 {
        b
    } else {
        played(step(b, moves[0] as int), moves.drop_first())
    }
}

/// An action of one sub-move is one turn at that pit.
pub proof fn lemma_played_single(b: Seq<int>, moves: Seq<u8>)
    requires
        moves.len() == 1,
    ensures
        played(b, moves) == step(b, moves[0] as int),
{
    assert(moves.drop_first().len() == 0);
    assert(played(step(b, moves[0] as int), moves.drop_first()) == step(b, moves[0] as int));
}

/// The mover's lead: the seeds in the mover's store less those in the
/// opponent's.
pub open spec fn score(b: Seq<int>) -> int {
    b[MOVER_STORE as int] - b[OPPONENT_STORE as int]
}

/// Whether the mover may play `pit`: it is one of the mover's pits and holds
/// at least one seed.
pub open spec fn legal(b: Seq<int>, pit: int) -> bool {
    0 <= pit < SIDE && b[pit] > 0
}

/// Whether `pit` is the first pit, from `from` on, that the mover may play.
pub open spec fn first_legal_from(b: Seq<int>, from: int, pit: int) -> bool {
    &&& from <= pit
    &&& legal(b, pit)
    &&& forall|q: int| from <= q < pit ==> !legal(b, q)
}

/// Whether the mover may play no pit from `from` on.
pub open spec fn none_legal_from(b: Seq<int>, from: int) -> bool {
    forall|q: int| from <= q ==> !legal(b, q)
}

/// The pits below `upto` that the mover may play, in rising order.
pub open spec fn legal_pits_below(b: Seq<int>, upto: int) -> Seq<int>
    decreases upto,
{
    if upto <= 0 {
        Seq::empty()
    } else if legal(b, upto - 1) {
        legal_pits_below(b, upto - 1).push(upto - 1)
    } else {
        legal_pits_below(b, upto - 1)
    }
}

/// All pits that the mover may play, in rising order.
pub open spec fn legal_pits(b: Seq<int>) -> Seq<int> {
    legal_pits_below(b, SIDE as int)
}

/// Pits that may not be played add nothing to the list of legal pits.
pub proof fn lemma_skip_illegal(b: Seq<int>, from: int, upto: int)
    requires
        0 <= from <= upto,
        forall|q: int| from <= q < upto ==> !legal(b, q),
    ensures
        legal_pits_below(b, upto) == legal_pits_below(b, from),
    decreases upto - from,
{
    if from < upto {
        lemma_skip_illegal(b, from, upto - 1);
    }
}

/// Every listed pit may be played, and the list rises.
pub proof fn lemma_legal_pits(b: Seq<int>, upto: int)
    requires
        0 <= upto <= SIDE,
    ensures
        legal_pits_below(b, upto).len() <= upto,
        forall|i: int|
            0 <= i < legal_pits_below(b, upto).len() ==> legal(
                b,
                #[trigger] legal_pits_below(b, upto)[i],
            ) && legal_pits_below(b, upto)[i] < upto,
        forall|i: int, j: int|
            0 <= i < j < legal_pits_below(b, upto).len() ==> legal_pits_below(b, upto)[i]
                < legal_pits_below(b, upto)[j],
        forall|pit: int|
            0 <= pit < upto && legal(b, pit) ==> legal_pits_below(b, upto).contains(pit),
    decreases upto,
{
    if upto > 0 {
        lemma_legal_pits(b, upto - 1);
        let shorter = legal_pits_below(b, upto - 1);
        let whole = legal_pits_below(b, upto);
        assert forall|pit: int| 0 <= pit < upto && legal(b, pit) implies whole.contains(pit) by {
            if pit < upto - 1 {
                let i = choose|i: int| 0 <= i < shorter.len() && shorter[i] == pit;
                assert(whole[i] == pit);
            } else {
                assert(whole[whole.len() - 1] == pit);
            }
        }
    }
}

/// The board seen from the other side: each pit changes places with the pit
/// across from it, and the two stores change places.
pub open spec fn swapped(b: Seq<int>) -> Seq<int> {
    Seq::new(
        SLOTS as nat,
        |i: int|
            if i <= MOVER_STORE {
                b[i + SIDE + 1]
            } else {
                b[i - SIDE - 1]
            },
    )
}

/// No slot holds more than the whole board does.
pub proof fn lemma_slot_within_total(b: Seq<int>, i: int)
    requires
        is_board(b),
        0 <= i < SLOTS,
    ensures
        b[i] <= total(b),
{
    assert(b[0] >= 0 && b[1] >= 0 && b[2] >= 0 && b[3] >= 0 && b[4] >= 0 && b[5] >= 0 && b[6] >= 0);
    assert(b[7] >= 0 && b[8] >= 0 && b[9] >= 0 && b[10] >= 0 && b[11] >= 0 && b[12] >= 0 && b[13]
        >= 0);
}

/// Changing one slot changes the total by as much.
pub proof fn lemma_update_total(b: Seq<int>, i: int, count: int)
    requires
        b.len() == SLOTS,
        0 <= i < SLOTS,
    ensures
        total(b.update(i, count)) == total(b) - b[i] + count,
{
}

/// A capture keeps a board a board and keeps its total; what the store
/// receives is no more than the board holds.
pub proof fn lemma_captured(b: Seq<int>, landing: int)
    requires
        is_board(b),
        0 <= landing < SIDE,
        b[landing] == 1,
    ensures
        is_board(captured(b, landing)),
        total(captured(b, landing)) == total(b),
        b[MOVER_STORE as int] + 1 + b[mirror(landing)] <= total(b),
        captured(b, landing)[MOVER_STORE as int] >= b[MOVER_STORE as int],
        captured(b, landing)[OPPONENT_STORE as int] == b[OPPONENT_STORE as int],
{
    let store = MOVER_STORE as int;
    let b1 = b.update(store, b[store] + 1 + b[mirror(landing)]);
    let b2 = b1.update(landing, 0);
    lemma_update_total(b, store, b[store] + 1 + b[mirror(landing)]);
    lemma_update_total(b1, landing, 0);
    lemma_update_total(b2, mirror(landing), 0);
    assert(b[mirror(landing)] >= 0);
    assert(b[store] >= 0);
    assert(total(b) >= b[store] + 1 + b[mirror(landing)]) by {
        assert(b[0] >= 0 && b[1] >= 0 && b[2] >= 0 && b[3] >= 0 && b[4] >= 0 && b[5] >= 0);
        assert(b[7] >= 0 && b[8] >= 0 && b[9] >= 0 && b[10] >= 0 && b[11] >= 0 && b[12] >= 0
            && b[13] >= 0);
    }
}

/// The sowing walk goes from each slot to the next and from the last slot to
/// the first.
pub proof fn lemma_next_slot(source: int, k: int)
    requires
        0 <= source < SLOTS,
        0 <= k,
    ensures
        0 <= slot_after(source, k) < SLOTS,
        slot_after(source, k + 1) == if slot_after(source, k) + 1 == SLOTS {
            0
        } else {
            slot_after(source, k) + 1
        },
{
}

/// Sowing keeps a board a board, adds exactly the seeds sown, and takes
/// nothing out of any slot.
pub proof fn lemma_sown(b: Seq<int>, source: int, k: nat)
    requires
        is_board(b),
        0 <= source < SLOTS,
    ensures
        is_board(sown(b, source, k)),
        total(sown(b, source, k)) == total(b) + k,
        forall|i: int| 0 <= i < SLOTS ==> b[i] <= #[trigger] sown(b, source, k)[i],
    decreases k,
{
    if k > 0 {
        lemma_sown(b, source, (k - 1) as nat);
    }
}

/// Seeds are only moved: a turn keeps the number of seeds on the board.
/// A turn takes nothing out of a store.
pub proof fn lemma_step_conserves(b: Seq<int>, source: int)
    requires
        is_board(b),
        0 <= source < SIDE,
    ensures
        is_board(step(b, source)),
        total(step(b, source)) == total(b),
        step(b, source)[MOVER_STORE as int] >= b[MOVER_STORE as int],
        step(b, source)[OPPONENT_STORE as int] >= b[OPPONENT_STORE as int],
{
    let n = b[source];
    let picked = b.update(source, 0);
    assert(is_board(picked));
    lemma_update_total(b, source, 0);
    lemma_sown(picked, source, n as nat);
    let after = sown(picked, source, n as nat);
    if captures(after, source, n) {
        lemma_captured(after, slot_after(source, n));
    }
}

/// A sequence of turns keeps the number of seeds on the board.
pub proof fn lemma_played_conserves(b: Seq<int>, moves: Seq<u8>)
    requires
        is_board(b),
        forall|i: int| 0 <= i < moves.len() ==> moves[i] < SIDE,
    ensures
        is_board(played(b, moves)),
        total(played(b, moves)) == total(b),
        played(b, moves)[MOVER_STORE as int] >= b[MOVER_STORE as int],
        played(b, moves)[OPPONENT_STORE as int] >= b[OPPONENT_STORE as int],
    decreases moves.len(),
{
    if moves.len() > 0 {
        lemma_step_conserves(b, moves[0] as int);
        lemma_played_conserves(step(b, moves[0] as int), moves.drop_first());
    }
}

/// Swapping sides twice gives the board back; one swap keeps every count and
/// puts it in the slot across the board.
pub proof fn lemma_swap_twice(b: Seq<int>)
    requires
        b.len() == SLOTS,
    ensures
        swapped(swapped(b)) == b,
        total(swapped(b)) == total(b),
        mover_seeds(swapped(b)) == opponent_seeds(b),
        opponent_seeds(swapped(b)) == mover_seeds(b),
        ended(swapped(b)) == ended(b),
        forall|pit: int| 0 <= pit < SIDE ==> swapped(b)[mirror(pit)] == b[pit],
        forall|pit: int| 0 <= pit < SIDE ==> swapped(b)[pit] == b[mirror(pit)],
        swapped(b)[MOVER_STORE as int] == b[OPPONENT_STORE as int],
        swapped(b)[OPPONENT_STORE as int] == b[MOVER_STORE as int],
{
    assert(swapped(swapped(b)) =~= b);
}

} // verus!
