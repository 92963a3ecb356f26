use mancala::action::Action;
use mancala::board::GameState;

#[test]
fn test_swap_board() {
    let mut state = GameState::new(4);
    let action = Action::singleton(4);
    state.evaluate_action(action);
    assert_eq!(state.houses()[4], 0);
    assert_eq!(state.houses()[5], 5);
    state.swap_board();
    println!("{:?}", state);
    assert_eq!(state.houses()[10], 0);
    assert_eq!(state.houses()[11], 5);
}

#[test]
fn new_board_has_seeds_in_pits_only() {
    let state = GameState::new(4);
    assert_eq!(state.houses(), [4; 12]);
    assert_eq!(state.mover_store(), 0);
    assert_eq!(state.opponent_store(), 0);
    assert_eq!(state.seed_total(), 48);
    assert!(!state.is_ended());
}

#[test]
fn largest_starting_count_is_kept() {
    let state = GameState::new(255);
    assert_eq!(state.houses(), [255; 12]);
    assert_eq!(state.mover_store(), 0);
    assert_eq!(state.opponent_store(), 0);
    assert_eq!(state.seed_total(), 3060);
}

#[test]
fn sowing_passes_through_the_store() {
    let mut state = GameState::new(4);
    state.evaluate_subaction(4);
    assert_eq!(state.houses(), [4, 4, 4, 4, 0, 5, 5, 5, 4, 4, 4, 4]);
    assert_eq!(state.mover_store(), 1);
    assert_eq!(state.opponent_store(), 0);
}

#[test]
fn sowing_that_ends_in_the_store_captures_nothing() {
    let mut state = GameState::new(4);
    state.evaluate_subaction(2);
    assert_eq!(state.houses(), [4, 4, 0, 5, 5, 5, 4, 4, 4, 4, 4, 4]);
    assert_eq!(state.mover_store(), 1);
    assert_eq!(state.opponent_store(), 0);
}

#[test]
fn sowing_wraps_round_the_board() {
    let mut state = GameState::new(21);
    state.evaluate_subaction(3);
    assert_eq!(state.houses(), [22, 22, 22, 1, 23, 23, 23, 23, 23, 23, 22, 22]);
    assert_eq!(state.mover_store(), 2);
    assert_eq!(state.opponent_store(), 1);
    assert_eq!(state.seed_total(), 252);
}

#[test]
fn last_seed_alone_in_own_pit_captures() {
    let mut state = GameState::new(4);
    state.evaluate_subaction(5);
    state.swap_board();
    state.evaluate_subaction(0);
    state.swap_board();
    assert_eq!(state.houses(), [4, 4, 4, 4, 4, 0, 0, 6, 6, 5, 5, 5]);
    assert_eq!(state.mover_store(), 1);
    state.evaluate_subaction(1);
    assert_eq!(state.houses(), [4, 0, 5, 5, 5, 0, 0, 6, 6, 5, 5, 0]);
    assert_eq!(state.mover_store(), 7);
    assert_eq!(state.opponent_store(), 0);
    assert_eq!(state.seed_total(), 48);
}

#[test]
fn full_round_ends_in_the_emptied_pit_and_captures() {
    let mut state = GameState::new(14);
    state.evaluate_subaction(2);
    assert_eq!(state.houses(), [15, 15, 0, 15, 15, 15, 15, 15, 0, 15, 15, 15]);
    assert_eq!(state.mover_store(), 17);
    assert_eq!(state.opponent_store(), 1);
    assert_eq!(state.seed_total(), 168);
}

#[test]
fn empty_pit_changes_nothing() {
    let mut state = GameState::new(4);
    state.evaluate_subaction(0);
    let before = state;
    state.evaluate_subaction(0);
    assert_eq!(state, before);
}

#[test]
fn seeds_are_conserved_by_every_first_move() {
    for pit in 0..6u8 {
        let mut state = GameState::new(4);
        state.evaluate_subaction(pit);
        assert_eq!(state.seed_total(), 48);
        let pits: u16 = state.houses().iter().map(|&seeds| seeds as u16).sum();
        assert_eq!(
            pits + state.mover_store() as u16 + state.opponent_store() as u16,
            48
        );
    }
}

#[test]
fn action_plays_its_sub_moves_in_order() {
    let mut action = Action::new();
    action.push_action(0);
    action.push_action(1);
    let mut by_action = GameState::new(4);
    by_action.evaluate_action(action);
    let mut by_hand = GameState::new(4);
    by_hand.evaluate_subaction(0);
    by_hand.evaluate_subaction(1);
    assert_eq!(by_action, by_hand);
    assert_eq!(by_action.houses(), [0, 0, 6, 6, 6, 5, 4, 4, 4, 4, 4, 4]);
    assert_eq!(by_action.mover_store(), 1);
    let mut other_order = GameState::new(4);
    other_order.evaluate_subaction(1);
    other_order.evaluate_subaction(0);
    assert_ne!(by_action, other_order);
}

#[test]
fn empty_action_leaves_the_board() {
    let mut state = GameState::new(4);
    state.evaluate_action(Action::new());
    assert_eq!(state, GameState::new(4));
}

#[test]
fn look_ahead_leaves_the_board() {
    let state = GameState::new(4);
    let new_state = state.evaluate_to_new_state(Action::singleton(4));
    assert_eq!(state, GameState::new(4));
    assert_eq!(new_state.houses(), [4, 4, 4, 4, 0, 5, 5, 5, 4, 4, 4, 4]);
    assert_eq!(new_state.mover_store(), 1);
    let mut played = state;
    played.evaluate_action(Action::singleton(4));
    assert_eq!(new_state, played);
}

#[test]
fn swap_exchanges_sides_and_stores() {
    let mut state = GameState::new(4);
    state.evaluate_subaction(4);
    state.swap_board();
    assert_eq!(state.houses(), [5, 5, 4, 4, 4, 4, 4, 4, 4, 4, 0, 5]);
    assert_eq!(state.mover_store(), 0);
    assert_eq!(state.opponent_store(), 1);
    assert_eq!(state.seed_total(), 48);
}

#[test]
fn swapping_twice_gives_the_board_back() {
    let mut state = GameState::new(4);
    state.evaluate_subaction(3);
    let before = state;
    state.swap_board();
    assert_ne!(state, before);
    state.swap_board();
    assert_eq!(state, before);
}

#[test]
fn game_ends_when_one_side_is_empty() {
    assert!(GameState::new(0).is_ended());
    let mut state = GameState::new(1);
    assert!(!state.is_ended());
    state.evaluate_subaction(5);
    assert!(!state.is_ended());
    for pit in [4u8, 3, 2, 1, 0] {
        state.evaluate_subaction(pit);
    }
    assert_eq!(state.houses()[..6], [0; 6]);
    assert!(state.is_ended());
    state.swap_board();
    assert!(state.is_ended());
}

#[test]
fn stores_do_not_count_for_the_end() {
    let mut state = GameState::new(1);
    state.evaluate_subaction(5);
    assert_eq!(state.mover_store(), 1);
    assert!(!state.is_ended());
}

#[test]
fn first_pit_with_seeds_is_the_next_valid_sub_move() {
    let mut state = GameState::new(4);
    assert_eq!(state.next_valid_submove(), Some(0));
    state.evaluate_subaction(0);
    assert_eq!(state.next_valid_submove(), Some(1));
    state.evaluate_subaction(1);
    assert_eq!(state.next_valid_submove(), Some(2));
}

#[test]
fn equal_boards_hash_alike() {
    let mut table = std::collections::HashMap::new();
    let mut state = GameState::new(4);
    state.evaluate_subaction(2);
    table.insert(state, 1);
    let mut again = GameState::new(4);
    again.evaluate_action(Action::singleton(2));
    assert_eq!(table.get(&again), Some(&1));
    assert_eq!(table.get(&GameState::new(4)), None);
}
