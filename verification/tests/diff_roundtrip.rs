use catcheb::diff::{ApplyError, BTreeMapDiff};
use catcheb::idmap::IdMap;
use catcheb::ids::PlayerId;

fn map(pairs: &[(u32, u32)]) -> IdMap<PlayerId, u32> {
    let mut m = IdMap::new();
    for (k, v) in pairs {
        m.insert(PlayerId(*k), *v);
    }
    m
}

fn contents(m: &IdMap<PlayerId, u32>) -> Vec<(u32, u32)> {
    m.as_slice().iter().map(|(k, v)| (k.0, *v)).collect()
}

#[test]
fn diff_lists_inserts_removals_and_changes() {
    let old = map(&[(1, 10), (2, 20), (3, 30)]);
    let new = map(&[(2, 20), (3, 31), (4, 40)]);
    let d = BTreeMapDiff::diff(&old, &new);
    assert_eq!(d.remove, vec![PlayerId(1)]);
    assert_eq!(d.insert, vec![(PlayerId(4), 40)]);
    assert_eq!(d.update, vec![(PlayerId(3), 31)]);
}

#[test]
fn diff_then_apply_gives_new_map() {
    let old = map(&[(1, 10), (2, 20), (3, 30), (7, 70)]);
    let new = map(&[(2, 21), (3, 30), (5, 50), (8, 80)]);
    let d = BTreeMapDiff::diff(&old, &new);
    let mut value = map(&[(1, 10), (2, 20), (3, 30), (7, 70)]);
    assert!(d.apply(&mut value).is_ok());
    assert_eq!(contents(&value), contents(&new));
}

#[test]
fn diff_of_equal_maps_is_empty() {
    let a = map(&[(1, 1), (2, 2)]);
    let d = BTreeMapDiff::diff(&a, &a);
    assert!(d.insert.is_empty() && d.remove.is_empty() && d.update.is_empty());
}

#[test]
fn apply_reports_invalid_remove() {
    let d = BTreeMapDiff::<PlayerId, u32> {
        insert: vec![(PlayerId(9), 90)],
        remove: vec![PlayerId(1), PlayerId(2)],
        update: Vec::new(),
    };
    let mut value = map(&[(1, 10), (3, 30)]);
    assert!(matches!(d.apply(&mut value), Err(ApplyError::InvalidRemove)));
    // The removals before the failing one have happened; nothing else.
    assert_eq!(contents(&value), vec![(3, 30)]);
}

#[test]
fn apply_reports_invalid_update() {
    let d = BTreeMapDiff::<PlayerId, u32> {
        insert: vec![(PlayerId(2), 20)],
        remove: Vec::new(),
        update: vec![(PlayerId(2), 21), (PlayerId(5), 50), (PlayerId(6), 60)],
    };
    let mut value = map(&[(1, 10)]);
    assert!(matches!(d.apply(&mut value), Err(ApplyError::InvalidUpdate)));
    assert_eq!(contents(&value), vec![(1, 10), (2, 21)]);
}
