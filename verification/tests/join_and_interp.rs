use catcheb::idmap::IdMap;
use catcheb::ids::{EntityId, TickNum};
use catcheb::interp::{interp_entities, interp_entity};
use catcheb::join::{full_join, Item};

fn describe(item: Item<u32, char, char>) -> String {
    match item {
        Item::Left(k, t) => format!("L{}{}", k, t),
        Item::Right(k, u) => format!("R{}{}", k, u),
        Item::Both(k, t, u) => format!("B{}{}{}", k, t, u),
    }
}

#[test]
fn full_join_merges_sorted_sequences() {
    let left = vec![(1u32, 'a'), (3, 'c'), (4, 'd')];
    let right = vec![(2u32, 'x'), (3, 'y'), (6, 'z')];
    let mut it = full_join(left, right);
    let mut out = Vec::new();
    while let Some(item) = it.next() {
        out.push(describe(item));
    }
    assert_eq!(out, vec!["L1a", "R2x", "B3cy", "L4d", "R6z"]);
    // The join stays exhausted.
    assert!(it.next().is_none());
}

#[test]
fn full_join_of_empty_sides() {
    let mut it = full_join::<u32, char, char>(Vec::new(), Vec::new());
    assert!(it.next().is_none());

    let mut it = full_join::<u32, char, char>(vec![(7, 'q')], Vec::new());
    assert_eq!(describe(it.next().unwrap()), "L7q");
    assert!(it.next().is_none());

    let mut it = full_join::<u32, char, char>(Vec::new(), vec![(0, 'w')]);
    assert_eq!(describe(it.next().unwrap()), "R0w");
    assert!(it.next().is_none());
}

fn entities(pairs: &[(u32, &'static str)]) -> IdMap<EntityId, &'static str> {
    let mut m = IdMap::new();
    for (k, v) in pairs {
        m.insert(EntityId(*k), *v);
    }
    m
}

#[test]
fn interp_entity_cases() {
    let now = entities(&[(1, "a"), (2, "b")]);
    let next = entities(&[(2, "b2"), (3, "c2")]);
    match interp_entity(&now, &next, EntityId(1)) {
        Some(Item::Left(id, e)) => {
            assert_eq!(id, EntityId(1));
            assert_eq!(*e, "a");
        }
        _ => panic!("expected the current state alone"),
    }
    match interp_entity(&now, &next, EntityId(2)) {
        Some(Item::Both(id, e, n)) => {
            assert_eq!(id, EntityId(2));
            assert_eq!((*e, *n), ("b", "b2"));
        }
        _ => panic!("expected both states"),
    }
    // An entity that only exists later is not drawn.
    assert!(interp_entity(&now, &next, EntityId(3)).is_none());
    assert!(interp_entity(&now, &next, EntityId(9)).is_none());
}

#[test]
fn interp_entities_draws_current_entities_in_order() {
    let now = entities(&[(4, "d"), (1, "a"), (2, "b")]);
    let next = entities(&[(2, "b2"), (3, "c2"), (4, "d2")]);
    let drawn: Vec<String> = interp_entities(&now, &next)
        .into_iter()
        .map(|item| match item {
            Item::Left(id, e) => format!("{}:{}", id.0, e),
            Item::Both(id, e, n) => format!("{}:{}->{}", id.0, e, n),
            Item::Right(id, _) => format!("{}:later", id.0),
        })
        .collect();
    assert_eq!(drawn, vec!["1:a", "2:b->b2", "4:d->d2"]);
}

#[test]
fn join_projects_back_onto_both_sides() {
    let left = vec![(TickNum(1), 'a'), (TickNum(3), 'b'), (TickNum(4), 'c')];
    let right = vec![(TickNum(2), 20u32), (TickNum(3), 30), (TickNum(9), 90)];
    let mut it = full_join(left.clone(), right.clone());
    let mut lefts = Vec::new();
    let mut rights = Vec::new();
    let mut keys = Vec::new();
    while let Some(item) = it.next() {
        match item {
            Item::Left(k, t) => {
                keys.push(k.0);
                lefts.push((k, t));
            }
            Item::Right(k, u) => {
                keys.push(k.0);
                rights.push((k, u));
            }
            Item::Both(k, t, u) => {
                keys.push(k.0);
                lefts.push((k, t));
                rights.push((k, u));
            }
        }
    }
    assert_eq!(lefts, left);
    assert_eq!(rights, right);
    // Each key once, in order.
    assert_eq!(keys, vec![1, 2, 3, 4, 9]);
}
