use vstd::prelude::*;

use crate::idmap::{entries_map, IdMap};
use crate::ids::{EntityId, IdKey};
use crate::join::{full_join, item_agrees, join_seq, join_step, lemma_full_join, Item};

verus! {

/// What an entity is drawn from at some point between two ticks: its state
/// now alone (`Left`) when no later state of it is known, or its state now
/// and the later one (`Both`) to interpolate between. Entities that only
/// exist later are not drawn.
pub open spec fn interp_source<'a, E, N>(
    it: Item<EntityId, &'a E, &'a N>,
    now: Map<EntityId, E>,
    next: Map<EntityId, N>,
) -> bool {
    match it {
        Item::Left(k, e) => now.contains_key(k) && *e == now[k] && !next.contains_key(k),
        Item::Both(k, e, n) => now.contains_key(k) && *e == now[k] && next.contains_key(k) && *n
            == next[k],
        Item::Right(_, _) => false,
    }
}

/// The states to draw the entity `entity_id` from: `None` when it does not
/// exist now.
pub fn interp_entity<'a, E, N>(
    entities: &'a IdMap<EntityId, E>,
    next_entities: &'a IdMap<EntityId, N>,
    entity_id: EntityId,
) -> (r: Option<Item<EntityId, &'a E, &'a N>>)
    ensures
        match r {
            None => !entities@.contains_key(entity_id),
            Some(it) => it.key() == entity_id && interp_source(it, entities@, next_entities@),
        },
{
    match (entities.get(&entity_id), next_entities.get(&entity_id)) {
        (Some(entity), None) => Some(Item::Left(entity_id, entity)),
        (Some(entity), Some(next_entity)) => Some(Item::Both(entity_id, entity, next_entity)),
        (None, _) => None,
    }
}

/// The states to draw every entity that exists now from, in increasing
/// order of entity id.
pub fn interp_entities<'a, E, N>(
    entities: &'a IdMap<EntityId, E>,
    next_entities: &'a IdMap<EntityId, N>,
) -> (r: Vec<Item<EntityId, &'a E, &'a N>>)
    ensures
        forall|i: int|
            0 <= i < r@.len() ==> interp_source(#[trigger] r@[i], entities@, next_entities@),
        forall|i: int, j: int|
            #![trigger r@[i], r@[j]]
            0 <= i < j < r@.len() ==> r@[i].key().key_num() < r@[j].key().key_num(),
        forall|k: EntityId|
            #[trigger] entities@.contains_key(k) ==> exists|i: int|
                0 <= i < r@.len() && #[trigger] r@[i].key() == k,
{
    let lrefs = entities.entry_refs();
    let rrefs = next_entities.entry_refs();
    let ghost ls = lrefs@;
    let ghost rs = rrefs@;
    let ghost items = join_seq(ls, rs);
    let ghost lm = entries_map(ls);
    let ghost rm = entries_map(rs);
    proof {
        lemma_full_join(ls, rs);
    }
    let mut it = full_join(lrefs, rrefs);
    let mut r: Vec<Item<EntityId, &'a E, &'a N>> = Vec::new();
    // For each element of `r`, the element of the join it came from.
    let ghost mut src: Seq<int> = Seq::empty();
    let ghost mut n: int = 0;
    let mut done = false;
    while !done
        invariant
            0 <= n <= items.len(),
            done ==> n == items.len(),
            join_seq(it.left_rest(), it.right_rest()) == items.skip(n),
            forall|i: int, j: int|
                #![trigger items[i], items[j]]
                0 <= i < j < items.len() ==> items[i].key().key_num() < items[j].key().key_num(),
            forall|i: int| 0 <= i < items.len() ==> item_agrees(#[trigger] items[i], lm, rm),
            forall|k: EntityId| #[trigger] lm.contains_key(k) <==> entities@.contains_key(k),
            forall|k: EntityId| #[trigger] lm.contains_key(k) ==> *lm[k] == entities@[k],
            forall|k: EntityId| #[trigger] rm.contains_key(k) <==> next_entities@.contains_key(k),
            forall|k: EntityId| #[trigger] rm.contains_key(k) ==> *rm[k] == next_entities@[k],
            src.len() == r@.len(),
            forall|j: int|
                0 <= j < src.len() ==> 0 <= #[trigger] src[j] < n && items[src[j]] == r@[j]
                    && !(items[src[j]] is Right),
            forall|j: int, j2: int| 0 <= j < j2 < src.len() ==> #[trigger] src[j] < #[trigger] src[j2],
            forall|i: int|
                0 <= i < n && !(#[trigger] items[i] is Right) ==> exists|j: int|
                    0 <= j < src.len() && #[trigger] src[j] == i,
        decreases it.left_rest().len() + it.right_rest().len() + if done {
            0int
        } else {
            1int
        },
    {
        let ghost lr = it.left_rest();
        let ghost rr = it.right_rest();
        let next = it.next();
        proof {
            assert(join_seq(lr, rr) == match join_step(lr, rr).0 {
                Some(x) => seq![x] + join_seq(join_step(lr, rr).1, join_step(lr, rr).2),
                None => Seq::<Item<EntityId, &E, &N>>::empty(),
            });
        }
        match next {
            None => {
                proof {
                    assert(items.skip(n).len() == 0);
                }
                done = true;
            },
            Some(item) => {
                proof {
                    assert(items.skip(n) == seq![item] + join_seq(it.left_rest(), it.right_rest()));
                    assert(items.skip(n)[0] == item);
                    assert(items[n] == item);
                    assert(items.skip(n + 1) =~= items.skip(n).drop_first());
                }
                match item {
                    Item::Right(_, _) => {},
                    _ => {
                        let ghost before = src;
                        r.push(item);
                        proof {
                            src = src.push(n);
                            assert(src[src.len() - 1] == n);
                            assert forall|i: int|
                                0 <= i < n + 1 && !(#[trigger] items[i] is Right) implies exists|j: int|
                                0 <= j < src.len() && #[trigger] src[j] == i by {
                                if i < n {
                                    let j = choose|j: int| 0 <= j < before.len() && #[trigger] before[j] == i;
                                    assert(src[j] == before[j]);
                                } else {
                                    assert(src[src.len() - 1] == i);
                                }
                            }
                        }
                    },
                }
                proof {
                    n = n + 1;
                }
            },
        }
    }
    proof {
        assert forall|i: int| 0 <= i < r@.len() implies interp_source(
            #[trigger] r@[i],
            entities@,
            next_entities@,
        ) by {
            assert(item_agrees(items[src[i]], lm, rm));
        }
        assert forall|i: int, j: int|
            #![trigger r@[i], r@[j]]
            0 <= i < j < r@.len() implies r@[i].key().key_num() < r@[j].key().key_num() by {
            assert(src[i] < src[j]);
        }
        assert forall|k: EntityId| #[trigger] entities@.contains_key(k) implies exists|i: int|
            0 <= i < r@.len() && #[trigger] r@[i].key() == k by {
            assert(lm.contains_key(k));
            let i = choose|i: int| 0 <= i < items.len() && #[trigger] items[i].key() == k;
            assert(item_agrees(items[i], lm, rm));
            let j = choose|j: int| 0 <= j < src.len() && #[trigger] src[j] == i;
            assert(r@[j] == items[i]);
        }
    }
    r
}

/// An entity has a single source to draw it from: what `interp_entities`
/// lists for an entity is what `interp_entity` gives for it.
pub proof fn lemma_interp_source_unique<'a, E, N>(
    a: Item<EntityId, &'a E, &'a N>,
    b: Item<EntityId, &'a E, &'a N>,
    now: Map<EntityId, E>,
    next: Map<EntityId, N>,
)
    requires
        interp_source(a, now, next),
        interp_source(b, now, next),
        a.key() == b.key(),
    ensures
        a == b,
{
}

} // verus!
