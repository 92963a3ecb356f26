use mancala::action::Action;
use mancala::board::GameState;
use std::collections::HashMap;

fn pick_action(state: &GameState, values: &HashMap<GameState, f64>) -> (Action, f64) {
    let choices: Vec<(Action, f64)> = state
        .successors()
        .into_iter()
        .map(|(action, possible_state)| {
            (action, *values.get(&possible_state).unwrap_or(&0.1f64))
        })
        .collect();
    let mut best = &choices[0];
    for choice in &choices {
        if choice.1 > best.1 {
            best = choice;
        }
    }
    (best.0, best.1)
}

#[test]
fn pick_actions() {
    let mut value_fun: HashMap<GameState, f64> = HashMap::new();
    let mut state = GameState::new(4);
    let action = Action::singleton(3);
    let mut good_state = state.clone();
    good_state.evaluate_action(action);
    value_fun.insert(good_state, 10.0);
    assert_eq!(pick_action(&state, &value_fun).0, action);
    // After that move and a swap the table knows none of the boards in reach.
    state.evaluate_action(action);
    state.swap_board();
    let mut p2_good_state = state.clone();
    p2_good_state.evaluate_action(Action::singleton(1));
    value_fun.insert(p2_good_state, 4.0);
    println!("{:?}", pick_action(&state, &value_fun));
    assert_eq!(pick_action(&state, &value_fun).0, Action::singleton(1));
}

#[test]
fn first_choice_wins_a_tie() {
    let value_fun: HashMap<GameState, f64> = HashMap::new();
    let state = GameState::new(4);
    let (action, value) = pick_action(&state, &value_fun);
    assert_eq!(action, Action::singleton(0));
    assert_eq!(value, 0.1);
}

#[test]
fn successors_pair_each_action_with_its_board() {
    let state = GameState::new(4);
    let choices = state.successors();
    assert_eq!(choices.len(), 6);
    for (pit, (action, reached)) in choices.iter().enumerate() {
        assert_eq!(*action, Action::singleton(pit as u8));
        assert_eq!(*reached, state.evaluate_to_new_state(*action));
        assert_ne!(*reached, state);
    }
    assert_eq!(choices[4].1.houses(), [4, 4, 4, 4, 0, 5, 5, 5, 4, 4, 4, 4]);
    assert_eq!(choices[4].1.mover_store(), 1);
}

#[test]
fn successors_leave_out_empty_pits() {
    let mut state = GameState::new(4);
    state.evaluate_subaction(2);
    let choices = state.successors();
    let pits: Vec<Action> = choices.iter().map(|choice| choice.0).collect();
    assert_eq!(
        pits,
        vec![
            Action::singleton(0),
            Action::singleton(1),
            Action::singleton(3),
            Action::singleton(4),
            Action::singleton(5),
        ]
    );
}

#[test]
fn score_diff_is_the_movers_lead() {
    let mut state = GameState::new(4);
    assert_eq!(state.score_diff(), 0);
    state.evaluate_subaction(2);
    assert_eq!(state.score_diff(), 1);
    state.swap_board();
    assert_eq!(state.score_diff(), -1);
}

#[test]
fn turn_gives_reward_and_turns_the_board() {
    let state = GameState::new(4);
    let turn = state.play_turn(Action::singleton(4));
    assert_eq!(state, GameState::new(4));
    assert_eq!(turn.reached.houses(), [4, 4, 4, 4, 0, 5, 5, 5, 4, 4, 4, 4]);
    assert_eq!(turn.reached.mover_store(), 1);
    assert_eq!(turn.reward, 1);
    assert!(!turn.ended);
    assert_eq!(turn.next.houses(), [5, 5, 4, 4, 4, 4, 4, 4, 4, 4, 0, 5]);
    assert_eq!(turn.next.mover_store(), 0);
    assert_eq!(turn.next.opponent_store(), 1);
}

#[test]
fn turn_without_gain_has_no_reward() {
    let state = GameState::new(4);
    let turn = state.play_turn(Action::singleton(0));
    assert_eq!(turn.reward, 0);
    assert!(!turn.ended);
}

#[test]
fn capture_is_rewarded() {
    let mut state = GameState::new(4);
    state.evaluate_subaction(5);
    state.swap_board();
    state.evaluate_subaction(0);
    state.swap_board();
    let turn = state.play_turn(Action::singleton(1));
    assert_eq!(turn.reward, 6);
    assert_eq!(turn.reached.mover_store(), 7);
    assert_eq!(turn.next.opponent_store(), 7);
}

#[test]
fn sowing_into_the_opponents_store_costs() {
    let state = GameState::new(21);
    let turn = state.play_turn(Action::singleton(3));
    assert_eq!(turn.reached.mover_store(), 2);
    assert_eq!(turn.reached.opponent_store(), 1);
    assert_eq!(turn.reward, 1);
    let far = GameState::new(8).play_turn(Action::singleton(5));
    assert_eq!(far.reached.mover_store(), 1);
    assert_eq!(far.reached.opponent_store(), 1);
    assert_eq!(far.reward, 0);
}

#[test]
fn last_turn_is_not_turned_round() {
    let mut state = GameState::new(1);
    for pit in [5u8, 4, 3, 2, 1] {
        state.evaluate_subaction(pit);
    }
    let turn = state.play_turn(Action::singleton(0));
    assert!(turn.ended);
    assert_eq!(turn.next, turn.reached);
    assert_eq!(turn.reached.mover_store(), 11);
    assert_eq!(turn.reward, 2);
}

#[test]
fn every_game_of_first_legal_moves_ends() {
    for seeds in 1..=21u8 {
        let mut state = GameState::new(seeds);
        let mut turns = 0u32;
        loop {
            let pit = state.next_valid_submove().expect("a move while the game goes on");
            let turn = state.play_turn(Action::singleton(pit));
            turns += 1;
            assert_eq!(turn.next.seed_total(), 12 * seeds as u16);
            if turn.ended {
                break;
            }
            state = turn.next;
            assert!(turns < 1_000_000);
        }
        if seeds == 4 {
            assert_eq!(turns, 11);
        }
    }
}

#[test]
fn every_game_of_last_legal_moves_ends() {
    let mut state = GameState::new(4);
    let mut turns = 0u32;
    loop {
        let choices = state.successors();
        let (action, reached) = choices[choices.len() - 1];
        let turn = state.play_turn(action);
        assert_eq!(turn.reached, reached);
        turns += 1;
        if turn.ended {
            break;
        }
        state = turn.next;
        assert!(turns < 1_000_000);
    }
    assert!(turns > 0);
}
