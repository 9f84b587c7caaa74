use std::collections::VecDeque;

use catcheb::game::ReceivedPongError;
use catcheb::idmap::IdMap;
use catcheb::ids::{SequenceNum, TickNum};
use catcheb::ping::{match_pong, push_bounded};

#[test]
fn pong_matches_waiting_ping_and_drops_older_ones() {
    let mut waiting = vec![(SequenceNum(1), 10u64), (SequenceNum(2), 20), (SequenceNum(3), 30)];
    assert_eq!(match_pong(&mut waiting, SequenceNum(2)), Ok(20));
    assert_eq!(waiting, vec![(SequenceNum(3), 30)]);
}

#[test]
fn unknown_pong_is_an_error() {
    let mut waiting = vec![(SequenceNum(4), 40u64)];
    assert_eq!(match_pong(&mut waiting, SequenceNum(2)), Err(ReceivedPongError::InvalidSequenceNum));
    assert_eq!(waiting, vec![(SequenceNum(4), 40)]);
    let mut none: Vec<(SequenceNum, u64)> = Vec::new();
    assert_eq!(match_pong(&mut none, SequenceNum(0)), Err(ReceivedPongError::InvalidSequenceNum));
}

#[test]
fn bounded_window_keeps_newest() {
    let mut q = VecDeque::new();
    for x in 0..7u32 {
        push_bounded(&mut q, x, 3);
    }
    assert_eq!(q.iter().copied().collect::<Vec<u32>>(), vec![4, 5, 6]);
    let mut q: VecDeque<u32> = VecDeque::new();
    push_bounded(&mut q, 1, 0);
    assert!(q.is_empty());
}

#[test]
fn map_entries_come_out_in_key_order() {
    let mut m = IdMap::new();
    m.insert(TickNum(5), 'b');
    m.insert(TickNum(2), 'a');
    m.insert(TickNum(9), 'c');
    let e = m.into_entries();
    assert_eq!(e, vec![(TickNum(2), 'a'), (TickNum(5), 'b'), (TickNum(9), 'c')]);
}
