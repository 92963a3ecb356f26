//! Why every game ends: each turn uses up a measure that cannot fall below
//! zero.
//!
//! A seed in a store never leaves it, and a seed in a pit only ever moves
//! towards the next store on its way round the board. So each turn either puts
//! a seed into a store or brings the seeds in the pits closer to one.

use crate::rules::{
    captured, captures, ended, is_board, legal, lemma_captured, lemma_sown, lemma_swap_twice,
    lemma_update_total, mover_seeds, opponent_seeds, slot_after, sown, step, swapped, total,
    MOVER_STORE, SIDE, SLOTS,
};
use vstd::prelude::*;

verus! {

/// The seeds that are still in play: those in the twelve pits.
pub open spec fn pit_seeds(b: Seq<int>) -> int {
    mover_seeds(b) + opponent_seeds(b)
}

/// The way that the seeds in play still have to go: for each seed in a pit,
/// the number of slots from its pit to the store that follows it.
pub open spec fn distance(b: Seq<int>) -> int {
    6 * (b[0] + b[7]) + 5 * (b[1] + b[8]) + 4 * (b[2] + b[9]) + 3 * (b[3] + b[10]) + 2 * (b[4]
        + b[11]) + (b[5] + b[12])
}

/// A bound on the number of turns that can still be played from `b`.
pub open spec fn turn_limit(b: Seq<int>) -> int {
    3 * pit_seeds(b) * (pit_seeds(b) + 1) + distance(b)
}

/// Whether `pits` can be played in turn from `b`, the players alternating:
/// each pit is legal for the player whose turn it is.
pub open spec fn legal_play(b: Seq<int>, pits: Seq<int>) -> bool
    decreases pits.len(),
{
    pits.len() == 0 || (legal(b, pits[0]) && legal_play(
        swapped(step(b, pits[0])),
        pits.drop_first(),
    ))
}

/// Sowing that stays short of the end of the board puts one seed into each
/// of the slots that follow the source and leaves the others alone.
proof fn lemma_sown_short(b: Seq<int>, source: int, k: nat)
    requires
        b.len() == SLOTS,
        0 <= source,
        source + k < SLOTS,
    ensures
        sown(b, source, k).len() == SLOTS,
        forall|i: int|
            0 <= i < SLOTS ==> #[trigger] sown(b, source, k)[i] == b[i] + if source < i <= source
                + k {
                1int
            } else {
                0int
            },
    decreases k,
{
    if k > 0 {
        lemma_sown_short(b, source, (k - 1) as nat);
        assert(slot_after(source, k as int) == source + k);
    }
}

/// Sowing that goes as far as the mover's store leaves a seed there.
proof fn lemma_sown_reaches_store(b: Seq<int>, source: int, k: nat)
    requires
        is_board(b),
        0 <= source < SIDE,
        source + k >= MOVER_STORE,
    ensures
        sown(b, source, k)[MOVER_STORE as int] >= b[MOVER_STORE as int] + 1,
    decreases k,
{
    lemma_sown(b, source, (k - 1) as nat);
    if source + k == MOVER_STORE {
        assert(slot_after(source, k as int) == MOVER_STORE);
    } else {
        lemma_sown_reaches_store(b, source, (k - 1) as nat);
    }
}

/// The measure of a board is never negative, and the way to go is at most six
/// slots for each seed in play.
pub proof fn lemma_measure_bounds(b: Seq<int>)
    requires
        is_board(b),
    ensures
        0 <= pit_seeds(b) <= total(b),
        0 <= distance(b) <= 6 * pit_seeds(b),
        0 <= turn_limit(b),
{
    assert(b[0] >= 0 && b[1] >= 0 && b[2] >= 0 && b[3] >= 0 && b[4] >= 0 && b[5] >= 0 && b[6] >= 0);
    assert(b[7] >= 0 && b[8] >= 0 && b[9] >= 0 && b[10] >= 0 && b[11] >= 0 && b[12] >= 0 && b[13]
        >= 0);
    let p = pit_seeds(b);
    assert(3 * p * (p + 1) >= 0) by (nonlinear_arith)
        requires
            p >= 0,
    ;
}

/// Turning the board round changes neither the seeds in play nor their way
/// to go.
pub proof fn lemma_swap_keeps_measure(b: Seq<int>)
    requires
        b.len() == SLOTS,
    ensures
        pit_seeds(swapped(b)) == pit_seeds(b),
        distance(swapped(b)) == distance(b),
        turn_limit(swapped(b)) == turn_limit(b),
{
    lemma_swap_twice(b);
}

/// A legal turn makes progress: it takes at least one seed out of play, or
/// it keeps all seeds in play and shortens their way to go.
pub proof fn lemma_turn_makes_progress(b: Seq<int>, pit: int)
    requires
        is_board(b),
        legal(b, pit),
    ensures
        pit_seeds(step(b, pit)) < pit_seeds(b) || (pit_seeds(step(b, pit)) == pit_seeds(b)
            && distance(step(b, pit)) < distance(b)),
{
    let n = b[pit];
    let picked = b.update(pit, 0);
    let after = sown(picked, pit, n as nat);
    let landing = slot_after(pit, n);
    lemma_update_total(b, pit, 0);
    lemma_sown(picked, pit, n as nat);
    assert(pit_seeds(after) < pit_seeds(b) || (pit_seeds(after) == pit_seeds(b) && distance(after)
        < distance(b))) by {
        if pit + n >= MOVER_STORE {
            lemma_sown_reaches_store(picked, pit, n as nat);
        } else {
            lemma_sown_short(picked, pit, n as nat);
        }
    }
    if captures(after, pit, n) {
        lemma_captured(after, landing);
        assert(pit_seeds(captured(after, landing)) < pit_seeds(after));
    }
}

/// A legal turn lowers the bound on the turns that are left.
pub proof fn lemma_turn_lowers_limit(b: Seq<int>, pit: int)
    requires
        is_board(b),
        legal(b, pit),
    ensures
        is_board(swapped(step(b, pit))),
        0 <= turn_limit(swapped(step(b, pit))) < turn_limit(b),
{
    let next = step(b, pit);
    crate::rules::lemma_step_conserves(b, pit);
    lemma_turn_makes_progress(b, pit);
    lemma_measure_bounds(b);
    lemma_measure_bounds(next);
    lemma_swap_keeps_measure(next);
    lemma_swap_twice(next);
    let p0 = pit_seeds(b);
    let p1 = pit_seeds(next);
    if p1 < p0 {
        assert(3 * p1 * (p1 + 1) + 6 * p1 < 3 * p0 * (p0 + 1)) by (nonlinear_arith)
            requires
                0 <= p1 <= p0 - 1,
        ;
    }
}

/// Every game is finite: however the players choose among their legal moves,
/// no more than `turn_limit` turns can be played from a board.
pub proof fn lemma_play_is_finite(b: Seq<int>, pits: Seq<int>)
    requires
        is_board(b),
        legal_play(b, pits),
    ensures
        pits.len() <= turn_limit(b),
    decreases pits.len(),
{
    lemma_measure_bounds(b);
    if pits.len() > 0 {
        lemma_turn_lowers_limit(b, pits[0]);
        lemma_play_is_finite(swapped(step(b, pits[0])), pits.drop_first());
    }
}

/// While the game is not over, the mover has a legal move, and will have one
/// after the board is turned round.
pub proof fn lemma_unfinished_game_has_move(b: Seq<int>)
    requires
        is_board(b),
        !ended(b),
    ensures
        exists|pit: int| legal(b, pit),
        exists|pit: int| legal(swapped(b), pit),
{
    lemma_swap_twice(b);
    let s = swapped(b);
    assert(legal(b, 0) || legal(b, 1) || legal(b, 2) || legal(b, 3) || legal(b, 4) || legal(b, 5));
    assert(legal(s, 0) || legal(s, 1) || legal(s, 2) || legal(s, 3) || legal(s, 4) || legal(s, 5));
}

} // verus!
