use catcheb::game::Input;
use catcheb::ids::TickNum;
use catcheb::loss::LossEstimation;
use catcheb::server::{diff_base, insert_input, is_new_input, max_input_num};

#[test]
fn loss_starts_empty() {
    let loss = LossEstimation::default();
    assert_eq!(loss.received_range(), None);
}

#[test]
fn loss_records_and_reports_range() {
    let mut loss = LossEstimation::new();
    loss.record_received(10);
    loss.record_received(12);
    loss.record_received(11);
    loss.record_received(15);
    assert_eq!(loss.received_range(), Some((4, 10, 15)));
}

#[test]
fn loss_forgets_old_numbers() {
    let mut loss = LossEstimation::new();
    loss.record_received(5);
    loss.record_received(105);
    // 5 + 100 >= 105: still kept.
    assert_eq!(loss.received_range(), Some((2, 5, 105)));
    loss.record_received(106);
    // 5 + 100 < 106: forgotten.
    assert_eq!(loss.received_range(), Some((2, 105, 106)));
}

#[test]
fn loss_keeps_larger_numbers_received_out_of_order() {
    let mut loss = LossEstimation::new();
    loss.record_received(300);
    loss.record_received(3);
    assert_eq!(loss.received_range(), Some((2, 3, 300)));
    loss.record_received(3);
    assert_eq!(loss.received_range(), Some((2, 3, 300)));
}

fn input(left: bool) -> Input {
    Input {
        move_left: left,
        ..Input::default()
    }
}

#[test]
fn inputs_are_kept_descending_without_duplicates() {
    let mut inputs = Vec::new();
    assert!(insert_input(&mut inputs, TickNum(5), input(true)));
    assert!(insert_input(&mut inputs, TickNum(7), input(false)));
    assert!(insert_input(&mut inputs, TickNum(6), input(false)));
    assert!(insert_input(&mut inputs, TickNum(1), input(false)));
    // The input received first for a tick wins.
    assert!(!insert_input(&mut inputs, TickNum(5), input(false)));
    let ticks: Vec<u32> = inputs.iter().map(|(t, _)| t.0).collect();
    assert_eq!(ticks, vec![7, 6, 5, 1]);
    assert!(inputs[2].1.move_left);
}

#[test]
fn max_input_num_finds_largest_tick() {
    assert_eq!(max_input_num(&Vec::new()), None);
    let inputs = vec![(TickNum(3), input(false)), (TickNum(9), input(false)), (TickNum(4), input(true))];
    assert_eq!(max_input_num(&inputs), Some(TickNum(9)));
}

#[test]
fn new_inputs_are_not_ahead_and_not_run_yet() {
    assert!(is_new_input(TickNum(5), TickNum(10), None));
    assert!(is_new_input(TickNum(10), TickNum(10), Some(TickNum(9))));
    // Ahead of the server.
    assert!(!is_new_input(TickNum(11), TickNum(10), None));
    // Already run.
    assert!(!is_new_input(TickNum(9), TickNum(10), Some(TickNum(9))));
    assert!(!is_new_input(TickNum(3), TickNum(10), Some(TickNum(9))));
}

#[test]
fn diff_base_requires_recent_acknowledged_state() {
    assert_eq!(diff_base(Some(TickNum(100)), Some(TickNum(100)), TickNum(120)), Some(TickNum(100)));
    // The acknowledged state is no longer the oldest one remembered.
    assert_eq!(diff_base(Some(TickNum(100)), Some(TickNum(101)), TickNum(120)), None);
    // Too old: 100 + 50 is not above 150.
    assert_eq!(diff_base(Some(TickNum(100)), Some(TickNum(100)), TickNum(150)), None);
    assert_eq!(diff_base(Some(TickNum(100)), Some(TickNum(100)), TickNum(149)), Some(TickNum(100)));
    assert_eq!(diff_base(None, Some(TickNum(100)), TickNum(120)), None);
    assert_eq!(diff_base(Some(TickNum(100)), None, TickNum(120)), None);
    // No overflow near the largest tick number.
    assert_eq!(
        diff_base(Some(TickNum(u32::MAX)), Some(TickNum(u32::MAX)), TickNum(u32::MAX)),
        Some(TickNum(u32::MAX))
    );
}
