use std::collections::VecDeque;

use catcheb::client::{
    add_future_events, interp_target, max_playback_tick, push_last_input, receive_tick, update_ticks,
    TickReceipt,
};
use catcheb::game::{Input, MAX_INPUTS_PER_MESSAGE};
use catcheb::idmap::IdMap;
use catcheb::ids::TickNum;

fn states(keys: &[u32]) -> IdMap<TickNum, u32> {
    let mut m = IdMap::new();
    for k in keys {
        m.insert(TickNum(*k), *k * 2);
    }
    m
}

#[test]
fn input_messages_repeat_the_newest_inputs() {
    let mut last_inputs = VecDeque::new();
    let first = push_last_input(&mut last_inputs, TickNum(1), Input::default());
    assert_eq!(first.len(), 1);
    for t in 2..=7 {
        push_last_input(&mut last_inputs, TickNum(t), Input::default());
    }
    let msg = push_last_input(&mut last_inputs, TickNum(8), Input { move_up: true, ..Input::default() });
    assert_eq!(msg.len(), MAX_INPUTS_PER_MESSAGE);
    let ticks: Vec<u32> = msg.iter().map(|(t, _)| t.0).collect();
    assert_eq!(ticks, vec![4, 5, 6, 7, 8]);
    assert!(msg[4].1.move_up);
    assert_eq!(last_inputs.len(), MAX_INPUTS_PER_MESSAGE);
}

#[test]
fn playback_stops_at_the_newest_known_tick() {
    assert_eq!(max_playback_tick(&states(&[3, 9]), TickNum(5), None), TickNum(9));
    assert_eq!(max_playback_tick(&states(&[3]), TickNum(5), Some(TickNum(4))), TickNum(5));
    assert_eq!(max_playback_tick(&states(&[3]), TickNum(5), Some(TickNum(7))), TickNum(7));
    assert_eq!(max_playback_tick(&states(&[]), TickNum(0), None), TickNum(0));
}

#[test]
fn interp_target_is_kept_until_reached() {
    let received = states(&[5, 6, 8]);
    assert_eq!(interp_target(&received, Some(TickNum(6)), TickNum(5)), Some(TickNum(6)));
    // Reached: look for the next one.
    assert_eq!(interp_target(&received, Some(TickNum(6)), TickNum(6)), Some(TickNum(8)));
    assert_eq!(interp_target(&received, None, TickNum(4)), Some(TickNum(5)));
    assert_eq!(interp_target(&received, None, TickNum(8)), None);
}

#[test]
fn only_future_events_are_kept() {
    let mut events = states(&[9]);
    add_future_events(&mut events, vec![(TickNum(3), 30), (TickNum(7), 70), (TickNum(9), 91), (TickNum(7), 71)], TickNum(5));
    let kept: Vec<(u32, u32)> = events.as_slice().iter().map(|(k, v)| (k.0, *v)).collect();
    assert_eq!(kept, vec![(7, 71), (9, 91)]);
    add_future_events(&mut events, vec![(TickNum(5), 50)], TickNum(5));
    assert_eq!(events.len(), 2);
}

#[test]
fn tick_messages_are_received_from_their_base() {
    let mut received = states(&[1, 4, 5, 9]);
    let mut events = states(&[]);
    // Too old, or encoded against a state that is not kept: nothing changes.
    assert_eq!(
        receive_tick(&mut received, &mut events, vec![(TickNum(12), 1)], TickNum(8), Some(TickNum(9)), true),
        TickReceipt::TooOld
    );
    assert_eq!(
        receive_tick(&mut received, &mut events, vec![(TickNum(12), 1)], TickNum(8), Some(TickNum(7)), false),
        TickReceipt::MissingBase(TickNum(7))
    );
    assert_eq!(received.len(), 4);
    assert_eq!(events.len(), 0);
    // From base 9: the states more than five ticks older are forgotten and
    // the future events kept.
    assert_eq!(
        receive_tick(&mut received, &mut events, vec![(TickNum(7), 70), (TickNum(12), 1)], TickNum(8), Some(TickNum(9)), false),
        TickReceipt::FromBase(TickNum(9))
    );
    let left: Vec<u32> = received.as_slice().iter().map(|(k, _)| k.0).collect();
    assert_eq!(left, vec![4, 5, 9]);
    let ev: Vec<u32> = events.as_slice().iter().map(|(k, _)| k.0).collect();
    assert_eq!(ev, vec![12]);
    assert_eq!(
        receive_tick(&mut received, &mut events, Vec::new(), TickNum(8), None, false),
        TickReceipt::FromScratch
    );
    assert_eq!(received.len(), 3);
}

#[test]
fn crossed_ticks_start_events_and_send_inputs() {
    let mut last_inputs = VecDeque::new();
    let mut events = states(&[2, 3, 4, 7]);
    let crossed = update_ticks(&mut last_inputs, &mut events, TickNum(1), TickNum(3), Input::default());
    let ticks: Vec<u32> = crossed.iter().map(|c| c.tick_num.0).collect();
    assert_eq!(ticks, vec![2, 3]);
    assert_eq!(crossed[0].events, Some(4));
    assert_eq!(crossed[1].events, Some(6));
    assert_eq!(crossed[1].inputs.len(), 2);
    // Events of ticks crossed or passed are gone; later ones stay.
    let left: Vec<u32> = events.as_slice().iter().map(|(k, _)| k.0).collect();
    assert_eq!(left, vec![4, 7]);
    // Not moving crosses nothing.
    assert!(update_ticks(&mut last_inputs, &mut events, TickNum(3), TickNum(3), Input::default()).is_empty());
}
