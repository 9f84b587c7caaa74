use catcheb::game::{food_lost_on_death, next_catcher, DeathReason, Input, Item, JoinError};
use catcheb::ids::{EntityId, IdKey, PlayerId, TickNum};

#[test]
fn player_id_next_increments() {
    assert_eq!(PlayerId(0).next(), PlayerId(1));
    assert_eq!(PlayerId(41).next(), PlayerId(42));
}

#[test]
fn entity_id_next_increments() {
    assert_eq!(EntityId(7).next(), EntityId(8));
    assert_eq!(EntityId(u32::MAX - 1).next(), EntityId(u32::MAX));
}

#[test]
fn tick_num_next_increments() {
    assert_eq!(TickNum(0).next(), TickNum(1));
    assert_eq!(TickNum(29).next().next(), TickNum(31));
}

#[test]
fn key_numbers_of_ids() {
    assert_eq!(PlayerId(3).key(), 3);
    assert_eq!(EntityId(u32::MAX).key(), u32::MAX as u64);
    assert_eq!(TickNum(12).key(), 12);
    assert_eq!(5u32.key(), 5);
}

#[test]
fn default_input_holds_no_key() {
    let input = Input::default();
    assert!(!input.move_left);
    assert!(!input.move_right);
    assert!(!input.move_up);
    assert!(!input.move_down);
    assert!(!input.use_item);
    assert!(!input.use_action);
}

#[test]
fn plain_game_values_compare() {
    assert_eq!(Item::Gun { shots: 3 }, Item::Gun { shots: 3 });
    assert_ne!(Item::Gun { shots: 3 }, Item::StunGun);
    assert_eq!(
        DeathReason::ShotBy(Some(PlayerId(2))),
        DeathReason::ShotBy(Some(PlayerId(2)))
    );
    assert_ne!(DeathReason::TouchedTheDanger, DeathReason::CaughtBy(PlayerId(1)));
    assert_ne!(JoinError::FullGame, JoinError::InvalidGameId);
}

#[test]
fn food_lost_on_death_clamps() {
    // A player without food still drops one item but keeps nothing.
    assert_eq!(food_lost_on_death(0), (1, 0));
    assert_eq!(food_lost_on_death(1), (1, 0));
    assert_eq!(food_lost_on_death(3), (3, 0));
    assert_eq!(food_lost_on_death(5), (5, 0));
    // At most five items are dropped.
    assert_eq!(food_lost_on_death(12), (5, 7));
    assert_eq!(food_lost_on_death(u32::MAX), (5, u32::MAX - 5));
}

#[test]
fn catcher_stays_while_alive() {
    let alive = vec![PlayerId(2), PlayerId(5)];
    assert_eq!(next_catcher(Some(PlayerId(5)), &alive, Some(0)), (Some(PlayerId(5)), false));
    // A dead catcher is replaced by the player drawn.
    assert_eq!(next_catcher(Some(PlayerId(7)), &alive, Some(0)), (Some(PlayerId(2)), true));
    assert_eq!(next_catcher(None, &alive, Some(1)), (Some(PlayerId(5)), true));
    // Nobody alive: no catcher.
    assert_eq!(next_catcher(Some(PlayerId(7)), &Vec::new(), None), (None, false));
}
