use catcheb::idmap::IdMap;
use catcheb::ids::{EntityId, TickNum};

fn keys<V>(m: &IdMap<EntityId, V>) -> Vec<u32> {
    m.as_slice().iter().map(|(k, _)| k.0).collect()
}

#[test]
fn idmap_keeps_entries_sorted() {
    let mut m = IdMap::new();
    assert_eq!(m.insert(EntityId(5), "e"), None);
    assert_eq!(m.insert(EntityId(1), "a"), None);
    assert_eq!(m.insert(EntityId(3), "c"), None);
    assert_eq!(keys(&m), vec![1, 3, 5]);
    assert_eq!(m.len(), 3);
}

#[test]
fn idmap_insert_replaces_and_get_reads_back() {
    let mut m = IdMap::new();
    m.insert(EntityId(2), 20);
    assert_eq!(m.insert(EntityId(2), 21), Some(20));
    assert_eq!(m.get(&EntityId(2)), Some(&21));
    assert_eq!(m.get(&EntityId(3)), None);
    assert!(m.contains_key(&EntityId(2)));
    assert!(!m.contains_key(&EntityId(0)));
    assert_eq!(m.len(), 1);
}

#[test]
fn idmap_remove_takes_entry_out() {
    let mut m = IdMap::new();
    m.insert(EntityId(1), 10);
    m.insert(EntityId(2), 20);
    assert_eq!(m.remove(&EntityId(1)), Some(10));
    assert_eq!(m.remove(&EntityId(1)), None);
    assert_eq!(keys(&m), vec![2]);
}

#[test]
fn idmap_first_last_and_positions() {
    let mut m = IdMap::new();
    assert!(m.first().is_none());
    assert_eq!(m.last_key(), None);
    m.insert(EntityId(9), 'x');
    m.insert(EntityId(4), 'y');
    assert_eq!(m.first(), Some(&(EntityId(4), 'y')));
    assert_eq!(m.last_key(), Some(EntityId(9)));
    assert_eq!(m.entry_at(1), &(EntityId(9), 'x'));
    m.set_value_at(1, 'z');
    assert_eq!(m.get(&EntityId(9)), Some(&'z'));
}

#[test]
fn idmap_retain_greater_drops_low_keys() {
    let mut m = IdMap::new();
    for t in [3u32, 7, 1, 8, 5] {
        m.insert(TickNum(t), t * 10);
    }
    m.retain_greater(&TickNum(5));
    let left: Vec<(u32, u32)> = m.as_slice().iter().map(|(k, v)| (k.0, *v)).collect();
    assert_eq!(left, vec![(7, 70), (8, 80)]);
    m.retain_greater(&TickNum(100));
    assert_eq!(m.len(), 0);
}

#[test]
fn idmap_entry_refs_borrow_in_order() {
    let mut m = IdMap::new();
    m.insert(EntityId(2), String::from("two"));
    m.insert(EntityId(1), String::from("one"));
    let refs = m.entry_refs();
    assert_eq!(refs.len(), 2);
    assert_eq!(refs[0].0, EntityId(1));
    assert_eq!(refs[0].1, "one");
    assert_eq!(refs[1].1, "two");
}
