use catcheb::client::{crossed_tick_nums, forget_before, forget_old_states, next_interp_tick};
use catcheb::idmap::IdMap;
use catcheb::ids::{EntityId, PlayerId, TickNum};
use catcheb::server::{first_free_entity_id, next_player_id};

fn ticks(v: Vec<TickNum>) -> Vec<u32> {
    v.into_iter().map(|t| t.0).collect()
}

#[test]
fn crossed_ticks_in_order() {
    assert_eq!(ticks(crossed_tick_nums(TickNum(7), TickNum(7))), Vec::<u32>::new());
    assert_eq!(ticks(crossed_tick_nums(TickNum(7), TickNum(8))), vec![8]);
    assert_eq!(ticks(crossed_tick_nums(TickNum(7), TickNum(10))), vec![8, 9, 10]);
    // Playback never goes back, but nothing is crossed if it does.
    assert_eq!(ticks(crossed_tick_nums(TickNum(7), TickNum(3))), Vec::<u32>::new());
}

#[test]
fn crossed_ticks_are_capped_to_the_last_ones() {
    assert_eq!(ticks(crossed_tick_nums(TickNum(0), TickNum(5))), vec![1, 2, 3, 4, 5]);
    assert_eq!(ticks(crossed_tick_nums(TickNum(0), TickNum(6))), vec![2, 3, 4, 5, 6]);
    assert_eq!(ticks(crossed_tick_nums(TickNum(10), TickNum(100))), vec![96, 97, 98, 99, 100]);
}

fn states(keys: &[u32]) -> IdMap<TickNum, u32> {
    let mut m = IdMap::new();
    for k in keys {
        m.insert(TickNum(*k), *k * 2);
    }
    m
}

#[test]
fn next_interp_tick_is_first_received_close_ahead() {
    let received = states(&[3, 5, 6, 12]);
    assert_eq!(next_interp_tick(&received, TickNum(3)), Some(TickNum(5)));
    assert_eq!(next_interp_tick(&received, TickNum(2)), Some(TickNum(3)));
    // 12 is more than three ticks ahead of 6.
    assert_eq!(next_interp_tick(&received, TickNum(6)), None);
    assert_eq!(next_interp_tick(&received, TickNum(9)), Some(TickNum(12)));
    assert_eq!(next_interp_tick(&states(&[]), TickNum(0)), None);
}

#[test]
fn old_states_are_forgotten_relative_to_diff_base() {
    let mut received = states(&[1, 4, 5, 9, 10]);
    forget_old_states(&mut received, TickNum(10));
    // 4 + 5 < 10 is forgotten; 5 + 5 >= 10 is kept.
    let left: Vec<u32> = received.as_slice().iter().map(|(k, _)| k.0).collect();
    assert_eq!(left, vec![5, 9, 10]);

    let mut received = states(&[0, 1]);
    forget_old_states(&mut received, TickNum(5));
    assert_eq!(received.len(), 2);
}

#[test]
fn events_before_tick_are_forgotten() {
    let mut events = states(&[2, 3, 4]);
    forget_before(&mut events, TickNum(3));
    let left: Vec<u32> = events.as_slice().iter().map(|(k, _)| k.0).collect();
    assert_eq!(left, vec![3, 4]);
    forget_before(&mut events, TickNum(0));
    assert_eq!(events.len(), 2);
}

#[test]
fn joining_players_get_next_id() {
    let mut players: IdMap<PlayerId, &str> = IdMap::new();
    assert_eq!(next_player_id(&players), PlayerId(1));
    players.insert(PlayerId(1), "a");
    players.insert(PlayerId(4), "b");
    assert_eq!(next_player_id(&players), PlayerId(5));
}

#[test]
fn entity_ids_start_after_map_entities() {
    let mut entities: IdMap<EntityId, ()> = IdMap::new();
    assert_eq!(first_free_entity_id(&entities), EntityId(0));
    entities.insert(EntityId(0), ());
    entities.insert(EntityId(2), ());
    assert_eq!(first_free_entity_id(&entities), EntityId(3));
}
