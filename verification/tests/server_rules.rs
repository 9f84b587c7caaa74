use catcheb::game::{Input, JoinError};
use catcheb::idmap::IdMap;
use catcheb::ids::TickNum;
use catcheb::server::{
    closest_tick_index, diff_base, handle_ack_tick, is_full, join_target, non_full_games, prune_sent,
    receive_input, take_tick_inputs, valid_input_count, AckOutcome, InputReceipt, JoinTarget,
    MAX_DIFF_TICKS,
};

fn input(left: bool) -> Input {
    Input {
        move_left: left,
        ..Input::default()
    }
}

fn sent(keys: &[u32]) -> IdMap<TickNum, u32> {
    let mut m = IdMap::new();
    for k in keys {
        m.insert(TickNum(*k), *k);
    }
    m
}

fn keys(m: &IdMap<TickNum, u32>) -> Vec<u32> {
    m.as_slice().iter().map(|(k, _)| k.0).collect()
}

#[test]
fn ack_ahead_of_game_is_ignored() {
    let mut last = Some(TickNum(3));
    let mut last_sent = sent(&[3, 4, 5]);
    assert_eq!(handle_ack_tick(&mut last, &mut last_sent, TickNum(9), TickNum(8)), AckOutcome::AheadOfGame);
    assert_eq!(last, Some(TickNum(3)));
    assert_eq!(keys(&last_sent), vec![3, 4, 5]);
}

#[test]
fn newer_ack_forgets_older_sent_states() {
    let mut last = Some(TickNum(3));
    let mut last_sent = sent(&[3, 4, 5, 6]);
    assert_eq!(handle_ack_tick(&mut last, &mut last_sent, TickNum(5), TickNum(8)), AckOutcome::Accepted);
    assert_eq!(last, Some(TickNum(5)));
    assert_eq!(keys(&last_sent), vec![5, 6]);

    let mut none = None;
    let mut last_sent = sent(&[1, 2]);
    assert_eq!(handle_ack_tick(&mut none, &mut last_sent, TickNum(2), TickNum(2)), AckOutcome::Accepted);
    assert_eq!(none, Some(TickNum(2)));
    assert_eq!(keys(&last_sent), vec![2]);
}

#[test]
fn stale_ack_changes_nothing() {
    let mut last = Some(TickNum(5));
    let mut last_sent = sent(&[5, 6]);
    assert_eq!(handle_ack_tick(&mut last, &mut last_sent, TickNum(5), TickNum(8)), AckOutcome::Stale);
    assert_eq!(handle_ack_tick(&mut last, &mut last_sent, TickNum(4), TickNum(8)), AckOutcome::Stale);
    assert_eq!(last, Some(TickNum(5)));
    assert_eq!(keys(&last_sent), vec![5, 6]);
}

#[test]
fn sent_states_are_pruned_past_the_limit() {
    let all: Vec<u32> = (10..10 + MAX_DIFF_TICKS + 1).collect();
    let mut last_sent = sent(&all);
    assert!(prune_sent(&mut last_sent));
    assert_eq!(last_sent.len(), MAX_DIFF_TICKS as usize);
    assert_eq!(keys(&last_sent)[0], 11);
    assert!(!prune_sent(&mut last_sent));
    assert_eq!(last_sent.len(), MAX_DIFF_TICKS as usize);
}

#[test]
fn input_counts_per_message() {
    assert!(!valid_input_count(0));
    assert!(valid_input_count(1));
    assert!(valid_input_count(5));
    assert!(!valid_input_count(6));
}

#[test]
fn inputs_are_checked_in_order() {
    let mut inputs = vec![(TickNum(8), input(false))];
    // Ahead of the game, even when also too old.
    assert_eq!(receive_input(&mut inputs, None, TickNum(10), TickNum(11), input(true), true), InputReceipt::Ahead);
    assert_eq!(receive_input(&mut inputs, None, TickNum(10), TickNum(9), input(true), true), InputReceipt::TooOld);
    assert_eq!(
        receive_input(&mut inputs, Some(TickNum(6)), TickNum(10), TickNum(6), input(true), false),
        InputReceipt::AlreadyRun
    );
    assert_eq!(receive_input(&mut inputs, Some(TickNum(6)), TickNum(10), TickNum(8), input(true), false), InputReceipt::Duplicate);
    assert_eq!(receive_input(&mut inputs, Some(TickNum(6)), TickNum(10), TickNum(10), input(true), false), InputReceipt::Stored);
    assert_eq!(receive_input(&mut inputs, Some(TickNum(6)), TickNum(10), TickNum(7), input(true), false), InputReceipt::Stored);
    let ticks: Vec<u32> = inputs.iter().map(|(t, _)| t.0).collect();
    assert_eq!(ticks, vec![10, 8, 7]);
    assert!(!inputs[1].1.move_left);
}

#[test]
fn due_inputs_are_taken_oldest_first() {
    let mut inputs = vec![(TickNum(9), input(false)), (TickNum(7), input(true)), (TickNum(5), input(false))];
    let taken = take_tick_inputs(&mut inputs, Some(TickNum(7)), None);
    let taken_ticks: Vec<u32> = taken.iter().map(|(t, _)| t.0).collect();
    assert_eq!(taken_ticks, vec![5, 7]);
    assert!(taken[1].1.move_left);
    assert_eq!(inputs.len(), 1);
    assert_eq!(inputs[0].0, TickNum(9));
}

#[test]
fn last_input_is_reused_when_none_is_due() {
    let mut inputs = vec![(TickNum(9), input(false))];
    let taken = take_tick_inputs(&mut inputs, Some(TickNum(8)), Some((TickNum(4), input(true))));
    assert_eq!(taken.len(), 1);
    assert_eq!(taken[0].0, TickNum(5));
    assert!(taken[0].1.move_left);
    assert_eq!(inputs.len(), 1);

    let mut empty: Vec<(TickNum, Input)> = Vec::new();
    assert!(take_tick_inputs(&mut empty, None, None).is_empty());
    // Nothing due at all when no tick is due yet.
    let mut inputs = vec![(TickNum(0), input(false))];
    assert!(take_tick_inputs(&mut inputs, None, None).is_empty());
    assert_eq!(inputs.len(), 1);
}

#[test]
fn closest_tick_prefers_the_first_of_equals() {
    assert_eq!(closest_tick_index(&Vec::new(), TickNum(3)), None);
    let ticks = vec![TickNum(1), TickNum(5), TickNum(7), TickNum(9)];
    assert_eq!(closest_tick_index(&ticks, TickNum(6)), Some(1));
    assert_eq!(closest_tick_index(&ticks, TickNum(8)), Some(2));
    assert_eq!(closest_tick_index(&ticks, TickNum(100)), Some(3));
    assert_eq!(closest_tick_index(&ticks, TickNum(0)), Some(0));
}

#[test]
fn games_with_room() {
    assert!(is_full(4, 4));
    assert!(!is_full(3, 4));
    assert_eq!(non_full_games(&vec![4, 1, 4, 0], 4), vec![1, 3]);
    assert_eq!(non_full_games(&vec![], 4), Vec::<usize>::new());
}

#[test]
fn join_target_follows_request() {
    let games = vec![4, 2];
    assert_eq!(join_target(&games, 4, 10, Some(Some(1)), None), Ok(JoinTarget::Existing(1)));
    assert_eq!(join_target(&games, 4, 10, Some(Some(0)), None), Err(JoinError::FullGame));
    assert_eq!(join_target(&games, 4, 10, Some(None), None), Err(JoinError::InvalidGameId));
    assert_eq!(join_target(&games, 4, 10, None, Some(1)), Ok(JoinTarget::Existing(1)));
}

#[test]
fn join_target_creates_games_up_to_the_limit() {
    let full = vec![4, 4];
    assert_eq!(join_target(&full, 4, 3, None, None), Ok(JoinTarget::New));
    assert_eq!(join_target(&full, 4, 2, None, None), Err(JoinError::FullGame));
    assert_eq!(join_target(&Vec::new(), 4, 1, None, None), Ok(JoinTarget::New));
}

#[test]
fn accepted_ack_becomes_the_delta_base() {
    let mut last = Some(TickNum(3));
    let mut last_sent = sent(&[3, 4, 5, 6]);
    assert_eq!(handle_ack_tick(&mut last, &mut last_sent, TickNum(5), TickNum(6)), AckOutcome::Accepted);
    let oldest = last_sent.first().map(|e| e.0);
    assert_eq!(oldest, Some(TickNum(5)));
    assert_eq!(diff_base(last, oldest, TickNum(7)), Some(TickNum(5)));
    // Too old to be a base.
    assert_eq!(diff_base(last, oldest, TickNum(55)), None);
}
