use catcheb::game::Input;
use catcheb::idmap::IdMap;
use catcheb::ids::{EntityId, PlayerId, TickNum};
use catcheb::prediction::{
    add_predicted_entity, extract_predicted_entities, is_predicted, load_entities, EntityClass,
    Prediction, ReceivedState, SimState, Tagged,
};

type Entities = IdMap<EntityId, Tagged<i64>>;
type State = SimState<(), i64>;

const ME: PlayerId = PlayerId(1);

/// A one-dimensional world: the player's entity 1 moves by one per tick
/// towards the held direction; using an item spawns a bullet; entity 7 is
/// scenery that nobody predicts.
fn run(mut s: State, me: PlayerId, input: Input) -> (State, Vec<Tagged<i64>>, Vec<String>) {
    let mut spawned = Vec::new();
    if let Some(e) = s.entities.get(&EntityId(1)) {
        let mut e = *e;
        if input.move_right {
            e.body += 1;
        }
        if input.move_left {
            e.body -= 1;
        }
        if input.use_item {
            spawned.push(Tagged { class: EntityClass::Bullet(Some(me)), body: e.body });
        }
        s.entities.insert(EntityId(1), e);
    }
    let events = vec![format!("player {} at tick {}", me.0, s.tick_num.0)];
    (s, spawned, events)
}

/// Takes the server's word for our entities; asks for a replay when the
/// prediction was off.
fn correct(me: PlayerId, predicted: Entities, server: &State) -> (Entities, bool) {
    let corrected = extract_predicted_entities(&server.entities, me);
    let error = match (predicted.get(&EntityId(1)), corrected.get(&EntityId(1))) {
        (Some(a), Some(b)) => (a.body - b.body).abs(),
        _ => 1,
    };
    (corrected, error >= 1)
}

fn world(pos: i64, tick: u32) -> State {
    let mut entities = IdMap::new();
    entities.insert(EntityId(1), Tagged { class: EntityClass::Player(ME), body: pos });
    entities.insert(EntityId(7), Tagged { class: EntityClass::Other, body: 100 });
    SimState { world: (), tick_num: TickNum(tick), entities }
}

fn server(pos: i64, tick: u32, my_last_input: Option<u32>) -> Option<ReceivedState<State>> {
    Some(ReceivedState {
        game: world(pos, tick),
        my_last_input: my_last_input.map(TickNum),
    })
}

fn right() -> Input {
    Input {
        move_right: true,
        ..Input::default()
    }
}

fn pos(p: &Prediction<(), i64>, tick: u32) -> Option<i64> {
    p.predicted_entities(TickNum(tick))
        .map(|m| m.get(&EntityId(1)).map(|e| e.body).unwrap())
}

fn record(p: &mut Prediction<(), i64>, tick: u32, input: Input, st: Option<ReceivedState<State>>) -> Vec<String> {
    p.record_tick_input(TickNum(tick), input, st, correct, run)
}

#[test]
fn prediction_waits_for_a_server_state() {
    let mut p: Prediction<(), i64> = Prediction::new(ME);
    assert!(record(&mut p, 0, right(), None).is_empty());
    assert_eq!(pos(&p, 1), None);
    // A state without any acknowledged input does not start prediction.
    assert!(record(&mut p, 0, right(), server(0, 0, None)).is_empty());
    assert_eq!(pos(&p, 1), None);
}

#[test]
fn prediction_runs_inputs_and_corrects_with_replay() {
    let mut p: Prediction<(), i64> = Prediction::new(ME);
    let events = record(&mut p, 1, right(), server(5, 1, Some(0)));
    assert_eq!(events, vec!["player 1 at tick 1".to_string()]);
    assert_eq!(pos(&p, 2), Some(6));

    let events = record(&mut p, 2, right(), None);
    assert_eq!(events, vec!["player 1 at tick 2".to_string()]);
    assert_eq!(pos(&p, 3), Some(7));

    // The server ran our input of tick 1 and says we are at 10 at tick 2:
    // the prediction for tick 2 is corrected and tick 3 is run again.
    record(&mut p, 3, right(), server(10, 2, Some(1)));
    assert_eq!(pos(&p, 2), Some(10));
    assert_eq!(pos(&p, 3), Some(11));
    assert_eq!(pos(&p, 4), Some(12));

    // Acknowledging input 3 forgets the predictions up to tick 3.
    record(&mut p, 4, right(), server(12, 4, Some(3)));
    assert_eq!(pos(&p, 2), None);
    assert_eq!(pos(&p, 3), None);
    assert_eq!(pos(&p, 4), Some(12));
    assert_eq!(pos(&p, 5), Some(13));
}

#[test]
fn predictions_hold_only_our_own_entities() {
    let mut p: Prediction<(), i64> = Prediction::new(ME);
    let shoot = Input { use_item: true, ..right() };
    record(&mut p, 1, shoot, server(0, 1, Some(0)));
    let m = p.predicted_entities(TickNum(2)).unwrap();
    // Our player and the bullet we shot, under the id above the largest
    // one, but not the scenery.
    let ids: Vec<u32> = m.as_slice().iter().map(|(k, _)| k.0).collect();
    assert_eq!(ids, vec![1, 8]);
    assert_eq!(m.get(&EntityId(8)).unwrap().class, EntityClass::Bullet(Some(ME)));
}

#[test]
fn prediction_resets_when_ticks_are_skipped() {
    let mut p: Prediction<(), i64> = Prediction::new(PlayerId(1));
    record(&mut p, 1, right(), server(0, 1, Some(0)));
    assert_eq!(pos(&p, 2), Some(1));
    // Tick 9 does not follow the log, which is thrown away together with
    // the server state, so nothing can be predicted.
    assert!(record(&mut p, 9, right(), None).is_empty());
    assert_eq!(pos(&p, 2), None);
    assert_eq!(pos(&p, 10), None);
}

#[test]
fn prediction_classes() {
    assert!(is_predicted(&EntityClass::Player(ME), ME));
    assert!(!is_predicted(&EntityClass::Player(PlayerId(2)), ME));
    assert!(is_predicted(&EntityClass::Bullet(Some(ME)), ME));
    assert!(!is_predicted(&EntityClass::Bullet(None), ME));
    assert!(!is_predicted(&EntityClass::Other, ME));
}

#[test]
fn loading_replaces_entities_with_the_same_id() {
    let mut target = world(3, 0).entities;
    let mut loaded = IdMap::new();
    loaded.insert(EntityId(1), Tagged { class: EntityClass::Player(ME), body: 9 });
    loaded.insert(EntityId(4), Tagged { class: EntityClass::Other, body: 4 });
    load_entities(&mut target, &loaded);
    let bodies: Vec<(u32, i64)> = target.as_slice().iter().map(|(k, e)| (k.0, e.body)).collect();
    assert_eq!(bodies, vec![(1, 9), (4, 4), (7, 100)]);
}

#[test]
fn predicted_entities_get_fresh_ids() {
    let mut m: Entities = IdMap::new();
    let b = Tagged { class: EntityClass::Bullet(Some(ME)), body: 0 };
    assert!(add_predicted_entity(&mut m, b));
    assert!(m.contains_key(&EntityId(1)));
    assert!(add_predicted_entity(&mut m, b));
    assert!(m.contains_key(&EntityId(2)));
    m.insert(EntityId(u32::MAX), b);
    // No id is left above the largest.
    assert!(!add_predicted_entity(&mut m, b));
    assert_eq!(m.len(), 3);
}
