use vstd::prelude::*;

use vstd::std_specs::cmp::PartialEqSpec;

use crate::ids::IdKey;
use crate::idmap::{entries_map, has_key, keys_increasing, lemma_entries_map_index, IdMap};
use crate::join::{
    full_join, item_agrees, join_seq, join_step, lemma_drop_first, lemma_full_join, reverse_vec,
    reversed, Item,
};

verus! {

/// Why a diff could not be applied to a value.
#[derive(Debug, Clone, Copy, PartialEq, Eq, Structural)]
pub enum ApplyError {
    /// The diff removes a key that the map does not have.
    InvalidRemove,
    /// The diff updates a key that the map does not have.
    InvalidUpdate,
}

/// The difference between two maps, as sent over the network: entries to
/// insert, keys to remove, and entries whose value changed. Values are
/// replaced whole.
#[derive(Debug, Clone)]
pub struct BTreeMapDiff<K, V> {
    pub insert: Vec<(K, V)>,
    pub remove: Vec<K>,
    pub update: Vec<(K, V)>,
}

/// The keys of `s` strictly increase by their numbers.
pub open spec fn ids_increasing<K: IdKey>(s: Seq<K>) -> bool {
    forall|i: int, j: int|
        #![trigger s[i], s[j]]
        0 <= i < j < s.len() ==> s[i].key_num() < s[j].key_num()
}

/// `insert`, `remove` and `update` describe how to get from map `a` to map
/// `b`: `remove` lists the keys of `a` that `b` lacks, `insert` holds copies
/// of the entries of `b` whose key `a` lacks, and `update` holds copies of
/// entries of `b` whose key is in both maps; when the values compare by
/// `eq_spec`, exactly the keys whose values differ are updated. All three
/// are sorted by key.
pub open spec fn is_diff<K: IdKey, V: Clone + PartialEq>(
    remove: Seq<K>,
    insert: Seq<(K, V)>,
    update: Seq<(K, V)>,
    a: Map<K, V>,
    b: Map<K, V>,
) -> bool {
    let im = entries_map(insert);
    let um = entries_map(update);
    &&& ids_increasing(remove)
    &&& keys_increasing(insert)
    &&& keys_increasing(update)
    &&& forall|k: K| #[trigger] remove.contains(k) <==> a.contains_key(k) && !b.contains_key(k)
    &&& forall|k: K| #[trigger] im.contains_key(k) <==> b.contains_key(k) && !a.contains_key(k)
    &&& forall|k: K| #[trigger] im.contains_key(k) ==> cloned(b[k], im[k])
    &&& forall|k: K| #[trigger]
        um.contains_key(k) ==> a.contains_key(k) && b.contains_key(k) && cloned(b[k], um[k])
    &&& V::obeys_eq_spec() ==> forall|k: K|
        a.contains_key(k) && b.contains_key(k) ==> (#[trigger] um.contains_key(k) <==> !a[k].eq_spec(
            &b[k],
        ))
}

/// Removes the keys of `rs` from `m` one after the other; stops, reporting
/// failure, at the first key that `m` no longer has.
pub open spec fn remove_keys<K, V>(rs: Seq<K>, m: Map<K, V>) -> (bool, Map<K, V>)
    decreases rs.len(),
{
    if rs.len() == 0 {
        (true, m)
    } else if !m.contains_key(rs[0]) {
        (false, m)
    } else {
        remove_keys(rs.drop_first(), m.remove(rs[0]))
    }
}

/// Inserts the entries of `es` into `m` one after the other.
pub open spec fn insert_all<K, V>(es: Seq<(K, V)>, m: Map<K, V>) -> Map<K, V>
    decreases es.len(),
{
    if es.len() == 0 {
        m
    } else {
        insert_all(es.drop_first(), m.insert(es[0].0, es[0].1))
    }
}

/// Replaces the values of the keys of `es` in `m` one after the other;
/// stops, reporting failure, at the first key that `m` does not have.
pub open spec fn update_all<K, V>(es: Seq<(K, V)>, m: Map<K, V>) -> (bool, Map<K, V>)
    decreases es.len(),
{
    if es.len() == 0 {
        (true, m)
    } else if !m.contains_key(es[0].0) {
        (false, m)
    } else {
        update_all(es.drop_first(), m.insert(es[0].0, es[0].1))
    }
}

/// The outcome of applying a diff to `m`, and the map it leaves behind:
/// first the removals, then the insertions, then the updates.
pub open spec fn apply_spec<K, V>(
    remove: Seq<K>,
    insert: Seq<(K, V)>,
    update: Seq<(K, V)>,
    m: Map<K, V>,
) -> (Result<(), ApplyError>, Map<K, V>) {
    let (removed, m1) = remove_keys(remove, m);
    if !removed {
        (Err(ApplyError::InvalidRemove), m1)
    } else {
        let m2 = insert_all(insert, m1);
        let (updated, m3) = update_all(update, m2);
        if updated {
            (Ok(()), m3)
        } else {
            (Err(ApplyError::InvalidUpdate), m3)
        }
    }
}

/// Removing distinct keys that are all present succeeds and drops exactly
/// those keys.
proof fn lemma_remove_keys<K: IdKey, V>(rs: Seq<K>, m: Map<K, V>)
    requires
        ids_increasing(rs),
        forall|i: int| 0 <= i < rs.len() ==> m.contains_key(#[trigger] rs[i]),
    ensures
        remove_keys(rs, m).0,
        forall|k: K| #[trigger]
            remove_keys(rs, m).1.contains_key(k) <==> m.contains_key(k) && !rs.contains(k),
        forall|k: K| #[trigger] remove_keys(rs, m).1.contains_key(k) ==> remove_keys(rs, m).1[k] == m[k],
    decreases rs.len(),
{
    if rs.len() > 0 {
        let t = rs.drop_first();
        let m2 = m.remove(rs[0]);
        assert forall|i: int, j: int| #![trigger t[i], t[j]] 0 <= i < j < t.len() implies t[i].key_num()
            < t[j].key_num() by {
            assert(rs[i + 1].key_num() < rs[j + 1].key_num());
        }
        assert forall|i: int| 0 <= i < t.len() implies m2.contains_key(#[trigger] t[i]) by {
            assert(rs[0].key_num() < rs[i + 1].key_num());
            assert(m.contains_key(rs[i + 1]));
        }
        lemma_remove_keys(t, m2);
        assert forall|k: K| #[trigger] rs.contains(k) <==> k == rs[0] || t.contains(k) by {
            if rs.contains(k) && k != rs[0] {
                let i = choose|i: int| 0 <= i < rs.len() && rs[i] == k;
                assert(t[i - 1] == k);
            }
            if t.contains(k) {
                let i = choose|i: int| 0 <= i < t.len() && t[i] == k;
                assert(rs[i + 1] == k);
            }
        }
    } else {
        assert forall|k: K| !(#[trigger] rs.contains(k)) by {}
    }
}

/// Inserting entries with distinct keys puts each of them in the map and
/// leaves the other keys alone.
proof fn lemma_insert_all<K: IdKey, V>(es: Seq<(K, V)>, m: Map<K, V>)
    requires
        keys_increasing(es),
    ensures
        forall|k: K| #[trigger]
            insert_all(es, m).contains_key(k) <==> m.contains_key(k) || entries_map(es).contains_key(k),
        forall|k: K| #[trigger]
            entries_map(es).contains_key(k) ==> insert_all(es, m)[k] == entries_map(es)[k],
        forall|k: K|
            m.contains_key(k) && !entries_map(es).contains_key(k) ==> #[trigger] insert_all(es, m)[k]
                == m[k],
    decreases es.len(),
{
    if es.len() > 0 {
        lemma_drop_first(es);
        lemma_entries_map_index(es, 0);
        let t = es.drop_first();
        let mi = m.insert(es[0].0, es[0].1);
        assert(insert_all(es, m) == insert_all(t, mi));
        lemma_insert_all(t, mi);
        let em = entries_map(es);
        let et = entries_map(t);
        assert forall|k: K| #[trigger] insert_all(es, m).contains_key(k) <==> m.contains_key(k)
            || em.contains_key(k) by {
            assert(et.contains_key(k) <==> em.contains_key(k) && k != es[0].0);
        }
        assert forall|k: K| #[trigger] em.contains_key(k) implies insert_all(es, m)[k] == em[k] by {
            if k != es[0].0 {
                assert(et.contains_key(k));
            }
        }
        assert forall|k: K| m.contains_key(k) && !em.contains_key(k) implies #[trigger] insert_all(
            es,
            m,
        )[k] == m[k] by {
            assert(!et.contains_key(k));
            assert(k != es[0].0);
        }
    } else {
        assert(entries_map(es) =~= Map::<K, V>::empty());
    }
}

/// Updating keys that are all present with entries of distinct keys
/// succeeds, sets each of them, and leaves the other keys alone.
proof fn lemma_update_all<K: IdKey, V>(es: Seq<(K, V)>, m: Map<K, V>)
    requires
        keys_increasing(es),
        forall|k: K| #[trigger] entries_map(es).contains_key(k) ==> m.contains_key(k),
    ensures
        update_all(es, m).0,
        update_all(es, m).1 == insert_all(es, m),
    decreases es.len(),
{
    if es.len() > 0 {
        lemma_drop_first(es);
        lemma_entries_map_index(es, 0);
        let m2 = m.insert(es[0].0, es[0].1);
        lemma_update_all(es.drop_first(), m2);
    }
}

/// Round trip of delta encoding: applying to a map the diff that leads
/// from it to another map succeeds and gives that other map, provided that
/// cloning a value copies it and that the values' `==` is equality.
pub proof fn lemma_apply_diff<K: IdKey, V: Clone + PartialEq>(
    remove: Seq<K>,
    insert: Seq<(K, V)>,
    update: Seq<(K, V)>,
    a: Map<K, V>,
    b: Map<K, V>,
)
    requires
        is_diff(remove, insert, update, a, b),
        forall|x: V, y: V| #[trigger] cloned(x, y) ==> x == y,
        V::obeys_eq_spec(),
        forall|x: V, y: V| #[trigger] x.eq_spec(&y) <==> x == y,
    ensures
        apply_spec(remove, insert, update, a) == (Ok::<(), ApplyError>(()), b),
{
    let im = entries_map(insert);
    let um = entries_map(update);
    assert forall|i: int| 0 <= i < remove.len() implies a.contains_key(#[trigger] remove[i]) by {
        assert(remove.contains(remove[i]));
    }
    lemma_remove_keys(remove, a);
    let m1 = remove_keys(remove, a).1;
    lemma_insert_all(insert, m1);
    let m2 = insert_all(insert, m1);
    assert forall|k: K| #[trigger] um.contains_key(k) implies m2.contains_key(k) by {
        assert(!remove.contains(k));
    }
    lemma_update_all(update, m2);
    lemma_insert_all(update, m2);
    let m3 = insert_all(update, m2);
    assert forall|k: K| #[trigger] m3.contains_key(k) <==> b.contains_key(k) by {
        if b.contains_key(k) && a.contains_key(k) {
            assert(!remove.contains(k));
        }
    }
    assert forall|k: K| #[trigger] m3.contains_key(k) implies m3[k] == b[k] by {
        if um.contains_key(k) {
            assert(cloned(b[k], um[k]));
        } else if im.contains_key(k) {
            assert(cloned(b[k], im[k]));
        } else {
            assert(!remove.contains(k));
            assert(a[k].eq_spec(&b[k]));
        }
    }
    assert(m3 =~= b);
}

impl<K: IdKey, V: Clone + PartialEq> BTreeMapDiff<K, V> {
    /// The diff that turns `old` into `new`.
    pub fn diff(old: &IdMap<K, V>, new: &IdMap<K, V>) -> (r: Self)
        ensures
            is_diff(r.remove@, r.insert@, r.update@, old@, new@),
    {
        let lrefs = old.entry_refs();
        let rrefs = new.entry_refs();
        let ghost ls = lrefs@;
        let ghost rs = rrefs@;
        let ghost items = join_seq(ls, rs);
        let ghost lm = entries_map(ls);
        let ghost rm = entries_map(rs);
        proof {
            lemma_full_join(ls, rs);
        }
        let mut it = full_join(lrefs, rrefs);
        let mut insert: Vec<(K, V)> = Vec::new();
        let mut remove: Vec<K> = Vec::new();
        let mut update: Vec<(K, V)> = Vec::new();
        // For each entry of the three vectors, the element of the join it
        // came from.
        let ghost mut ri: Seq<int> = Seq::empty();
        let ghost mut ii: Seq<int> = Seq::empty();
        let ghost mut ui: Seq<int> = Seq::empty();
        let ghost mut n: int = 0;
        let mut done = false;
        while !done
            invariant
                0 <= n <= items.len(),
                done ==> n == items.len(),
                join_seq(it.left_rest(), it.right_rest()) == items.skip(n),
                forall|i: int, j: int|
                    #![trigger items[i], items[j]]
                    0 <= i < j < items.len() ==> items[i].key().key_num()
                        < items[j].key().key_num(),
                forall|i: int| 0 <= i < items.len() ==> item_agrees(#[trigger] items[i], lm, rm),
                forall|k: K| #[trigger] lm.contains_key(k) <==> old@.contains_key(k),
                forall|k: K| #[trigger] lm.contains_key(k) ==> *lm[k] == old@[k],
                forall|k: K| #[trigger] rm.contains_key(k) <==> new@.contains_key(k),
                forall|k: K| #[trigger] rm.contains_key(k) ==> *rm[k] == new@[k],
                // Removals so far.
                ri.len() == remove@.len(),
                forall|j: int|
                    0 <= j < ri.len() ==> 0 <= #[trigger] ri[j] < n && items[ri[j]] is Left
                        && items[ri[j]].key() == remove@[j],
                forall|j: int, j2: int| 0 <= j < j2 < ri.len() ==> #[trigger] ri[j] < #[trigger] ri[j2],
                forall|i: int|
                    0 <= i < n && (#[trigger] items[i] is Left) ==> remove@.contains(items[i].key()),
                // Insertions so far.
                ii.len() == insert@.len(),
                forall|j: int|
                    0 <= j < ii.len() ==> 0 <= #[trigger] ii[j] < n && items[ii[j]] is Right
                        && items[ii[j]].key() == insert@[j].0,
                forall|j: int, j2: int| 0 <= j < j2 < ii.len() ==> #[trigger] ii[j] < #[trigger] ii[j2],
                forall|j: int|
                    0 <= j < insert@.len() ==> rm.contains_key(#[trigger] insert@[j].0) && cloned(
                        *rm[insert@[j].0],
                        insert@[j].1,
                    ),
                forall|i: int|
                    0 <= i < n && (#[trigger] items[i] is Right) ==> has_key(insert@, items[i].key()),
                // Updates so far.
                ui.len() == update@.len(),
                forall|j: int|
                    0 <= j < ui.len() ==> 0 <= #[trigger] ui[j] < n && items[ui[j]] is Both
                        && items[ui[j]].key() == update@[j].0,
                forall|j: int, j2: int| 0 <= j < j2 < ui.len() ==> #[trigger] ui[j] < #[trigger] ui[j2],
                forall|j: int|
                    0 <= j < update@.len() ==> rm.contains_key(#[trigger] update@[j].0) && cloned(
                        *rm[update@[j].0],
                        update@[j].1,
                    ),
                V::obeys_eq_spec() ==> forall|j: int|
                    0 <= j < update@.len() ==> !(*lm[#[trigger] update@[j].0]).eq_spec(
                        &*rm[update@[j].0],
                    ),
                V::obeys_eq_spec() ==> forall|i: int|
                    0 <= i < n && (#[trigger] items[i] is Both) && !(*lm[items[i].key()]).eq_spec(
                        &*rm[items[i].key()],
                    ) ==> has_key(update@, items[i].key()),
            decreases it.left_rest().len() + it.right_rest().len() + if done { 0int } else { 1int },
        {
            let ghost lr = it.left_rest();
            let ghost rr = it.right_rest();
            let next = it.next();
            proof {
                assert(join_seq(lr, rr) == match join_step(lr, rr).0 {
                    Some(x) => seq![x] + join_seq(join_step(lr, rr).1, join_step(lr, rr).2),
                    None => Seq::<Item<K, &V, &V>>::empty(),
                });
            }
            match next {
                None => {
                    proof {
                        assert(items.skip(n).len() == 0);
                    }
                    done = true;
                },
                Some(item) => {
                    proof {
                        assert(items.skip(n) == seq![item] + join_seq(
                            it.left_rest(),
                            it.right_rest(),
                        ));
                        assert(items.skip(n)[0] == item);
                        assert(items[n] == item);
                        assert(items.skip(n + 1) =~= items.skip(n).drop_first());
                        assert(item_agrees(items[n], lm, rm));
                    }
                    match item {
                        Item::Left(k, _) => {
                            let ghost before = remove@;
                            remove.push(k);
                            proof {
                                assert forall|i: int|
                                    0 <= i < n + 1 && (#[trigger] items[i] is Left) implies remove@.contains(
                                    items[i].key()) by {
                                    if i < n {
                                        let j = choose|j: int|
                                            0 <= j < before.len() && before[j] == items[i].key();
                                        assert(remove@[j] == before[j]);
                                    } else {
                                        assert(remove@[before.len() as int] == k);
                                    }
                                }
                                ri = ri.push(n);
                            }
                        },
                        Item::Right(k, v) => {
                            let ghost before = insert@;
                            insert.push((k, v.clone()));
                            proof {
                                assert forall|i: int|
                                    0 <= i < n + 1 && (#[trigger] items[i] is Right) implies has_key(
                                    insert@, items[i].key()) by {
                                    if i < n {
                                        let j = choose|j: int|
                                            0 <= j < before.len() && #[trigger] before[j].0 == items[i].key();
                                        assert(insert@[j] == before[j]);
                                    } else {
                                        assert(insert@[before.len() as int].0 == k);
                                    }
                                }
                                ii = ii.push(n);
                            }
                        },
                        Item::Both(k, a, b) => {
                            if a != b {
                                let ghost before = update@;
                                update.push((k, b.clone()));
                                proof {
                                    if V::obeys_eq_spec() {
                                        assert forall|i: int|
                                            0 <= i < n + 1 && (#[trigger] items[i] is Both) && !(*lm[items[i].key()]).eq_spec(
                                                &*rm[items[i].key()]) implies has_key(update@, items[i].key()) by {
                                            if i < n {
                                                let j = choose|j: int|
                                                    0 <= j < before.len() && #[trigger] before[j].0 == items[i].key();
                                                assert(update@[j] == before[j]);
                                            } else {
                                                assert(update@[before.len() as int].0 == k);
                                            }
                                        }
                                    }
                                    ui = ui.push(n);
                                }
                            }
                        },
                    }
                    proof {
                        n = n + 1;
                    }
                },
            }
        }
        proof {
            let im = entries_map(insert@);
            let um = entries_map(update@);
            assert forall|j: int, j2: int|
                #![trigger remove@[j], remove@[j2]]
                0 <= j < j2 < remove@.len() implies remove@[j].key_num() < remove@[j2].key_num() by {
                assert(ri[j] < ri[j2]);
            }
            assert forall|j: int, j2: int|
                #![trigger insert@[j], insert@[j2]]
                0 <= j < j2 < insert@.len() implies insert@[j].0.key_num() < insert@[j2].0.key_num() by {
                assert(ii[j] < ii[j2]);
            }
            assert forall|j: int, j2: int|
                #![trigger update@[j], update@[j2]]
                0 <= j < j2 < update@.len() implies update@[j].0.key_num() < update@[j2].0.key_num() by {
                assert(ui[j] < ui[j2]);
            }
            assert forall|k: K| #[trigger] remove@.contains(k) <==> old@.contains_key(k)
                && !new@.contains_key(k) by {
                if remove@.contains(k) {
                    let j = choose|j: int| 0 <= j < remove@.len() && remove@[j] == k;
                    assert(item_agrees(items[ri[j]], lm, rm));
                }
                if old@.contains_key(k) && !new@.contains_key(k) {
                    assert(lm.contains_key(k));
                    let i = choose|i: int| 0 <= i < items.len() && #[trigger] items[i].key() == k;
                    assert(item_agrees(items[i], lm, rm));
                    assert(items[i] is Left);
                }
            }
            assert forall|k: K| #[trigger] im.contains_key(k) <==> new@.contains_key(k)
                && !old@.contains_key(k) by {
                if im.contains_key(k) {
                    let j = choose|j: int| 0 <= j < insert@.len() && #[trigger] insert@[j].0 == k;
                    assert(item_agrees(items[ii[j]], lm, rm));
                }
                if new@.contains_key(k) && !old@.contains_key(k) {
                    assert(rm.contains_key(k));
                    let i = choose|i: int| 0 <= i < items.len() && #[trigger] items[i].key() == k;
                    assert(item_agrees(items[i], lm, rm));
                    assert(items[i] is Right);
                }
            }
            assert forall|k: K| #[trigger] im.contains_key(k) implies cloned(new@[k], im[k]) by {
                let j = choose|j: int| 0 <= j < insert@.len() && #[trigger] insert@[j].0 == k;
                lemma_entries_map_index(insert@, j);
            }
            assert forall|k: K| #[trigger] um.contains_key(k) implies old@.contains_key(k)
                && new@.contains_key(k) && cloned(new@[k], um[k]) by {
                let j = choose|j: int| 0 <= j < update@.len() && #[trigger] update@[j].0 == k;
                lemma_entries_map_index(update@, j);
                assert(item_agrees(items[ui[j]], lm, rm));
            }
            if V::obeys_eq_spec() {
                assert forall|k: K| old@.contains_key(k) && new@.contains_key(k) implies (
                #[trigger] um.contains_key(k) <==> !old@[k].eq_spec(&new@[k])) by {
                    if um.contains_key(k) {
                        let j = choose|j: int| 0 <= j < update@.len() && #[trigger] update@[j].0 == k;
                        assert(!(*lm[update@[j].0]).eq_spec(&*rm[update@[j].0]));
                    }
                    if !old@[k].eq_spec(&new@[k]) {
                        assert(lm.contains_key(k));
                        let i = choose|i: int| 0 <= i < items.len() && #[trigger] items[i].key() == k;
                        assert(item_agrees(items[i], lm, rm));
                        assert(items[i] is Both);
                    }
                }
            }
        }
        BTreeMapDiff { insert, remove, update }
    }

    /// Applies the diff to `value`: removes the keys listed, inserts the new
    /// entries, then replaces the updated values. Stops at the first key to
    /// remove or update that `value` lacks, leaving the changes made so far.
    pub fn apply(self, value: &mut IdMap<K, V>) -> (r: Result<(), ApplyError>)
        ensures
            (r, final(value)@) == apply_spec(self.remove@, self.insert@, self.update@, old(value)@),
    {
        let ghost m0 = value@;
        let ghost d = self;
        let BTreeMapDiff { insert, remove, update } = self;
        assert(remove@ == d.remove@ && insert@ == d.insert@ && update@ == d.update@);
        let ghost rs = remove@;
        let n = remove.len();
        let mut i: usize = 0;
        assert(rs.skip(0) =~= rs);
        while i < n
            invariant
                n == rs.len(),
                rs == remove@,
                rs == d.remove@,
                m0 == old(value)@,
                d == self,
                i <= n,
                remove_keys(rs, m0) == remove_keys(rs.skip(i as int), value@),
            decreases n - i,
        {
            let k = remove[i];
            proof {
                assert(rs.skip(i as int)[0] == k);
                assert(rs.skip(i as int).drop_first() =~= rs.skip(i + 1));
            }
            let ghost mb = value@;
            match value.remove(&k) {
                Some(_) => {},
                None => {
                    assert(mb.remove(k) =~= mb);
                    assert(remove_keys(rs.skip(i as int), value@) == (false, value@));
                    return Err(ApplyError::InvalidRemove);
                },
            }
            i = i + 1;
        }
        proof {
            assert(rs.skip(n as int) =~= Seq::<K>::empty());
        }
        let ghost m1 = value@;
        let ghost ins = insert@;
        let mut rev = reverse_vec(insert);
        while rev.len() > 0
            invariant
                insert_all(ins, m1) == insert_all(reversed(rev@), value@),
            decreases rev.len(),
        {
            let ghost before = rev@;
            let (k, v) = rev.pop().unwrap();
            proof {
                assert(reversed(before)[0] == (k, v));
                assert(reversed(before).drop_first() =~= reversed(rev@));
            }
            value.insert(k, v);
        }
        proof {
            assert(reversed(rev@) =~= Seq::<(K, V)>::empty());
        }
        let ghost m2 = value@;
        let ghost ups = update@;
        let mut rev = reverse_vec(update);
        while rev.len() > 0
            invariant
                update_all(ups, m2) == update_all(reversed(rev@), value@),
                ups == d.update@,
                d == self,
                remove_keys(d.remove@, old(value)@) == (true, m1),
                insert_all(d.insert@, m1) == m2,
            decreases rev.len(),
        {
            let ghost before = rev@;
            let (k, v) = rev.pop().unwrap();
            proof {
                assert(reversed(before)[0] == (k, v));
                assert(reversed(before).drop_first() =~= reversed(rev@));
            }
            if !value.contains_key(&k) {
                assert(update_all(reversed(before), value@) == (false, value@));
                return Err(ApplyError::InvalidUpdate);
            }
            value.insert(k, v);
        }
        proof {
            assert(reversed(rev@) =~= Seq::<(K, V)>::empty());
        }
        Ok(())
    }
}

} // verus!
