use vstd::prelude::*;

use crate::ids::IdKey;
use crate::idmap::{entries_map, has_key, key_index, keys_increasing, lemma_entries_map_index};

verus! {

/// Element of a full join.
pub enum Item<K, T, U> {
    /// The key `K` is only contained in the left sequence.
    Left(K, T),
    /// The key `K` is only contained in the right sequence.
    Right(K, U),
    /// The key `K` is contained in both sequences.
    Both(K, T, U),
}

impl<K, T, U> Item<K, T, U> {
    /// The key of the element.
    pub open spec fn key(self) -> K {
        match self {
            Item::Left(k, _) => k,
            Item::Right(k, _) => k,
            Item::Both(k, _, _) => k,
        }
    }
}

/// One step of the join: the element that comes next, and what is left of
/// both sequences afterwards. The element with the smaller key is taken;
/// on equal keys both heads are taken together.
pub open spec fn join_step<K: IdKey, T, U>(l: Seq<(K, T)>, r: Seq<(K, U)>) -> (
    Option<Item<K, T, U>>,
    Seq<(K, T)>,
    Seq<(K, U)>,
) {
    if l.len() > 0 && r.len() > 0 {
        if l[0].0.key_num() < r[0].0.key_num() {
            (Some(Item::Left(l[0].0, l[0].1)), l.drop_first(), r)
        } else if l[0].0.key_num() > r[0].0.key_num() {
            (Some(Item::Right(r[0].0, r[0].1)), l, r.drop_first())
        } else {
            (Some(Item::Both(l[0].0, l[0].1, r[0].1)), l.drop_first(), r.drop_first())
        }
    } else if l.len() > 0 {
        (Some(Item::Left(l[0].0, l[0].1)), l.drop_first(), r)
    } else if r.len() > 0 {
        (Some(Item::Right(r[0].0, r[0].1)), l, r.drop_first())
    } else {
        (None, l, r)
    }
}

/// All elements of the join of `l` and `r`, in the order they come.
pub open spec fn join_seq<K: IdKey, T, U>(l: Seq<(K, T)>, r: Seq<(K, U)>) -> Seq<Item<K, T, U>>
    decreases l.len() + r.len(),
{
    let (item, l2, r2) = join_step(l, r);
    match item {
        Some(it) => seq![it] + join_seq(l2, r2),
        None => Seq::empty(),
    }
}

/// An element of a join agrees with the maps joined: a `Left` key is only
/// in the left map, a `Right` key only in the right one, a `Both` key in
/// both, each with the values carried.
pub open spec fn item_agrees<K, T, U>(it: Item<K, T, U>, lm: Map<K, T>, rm: Map<K, U>) -> bool {
    match it {
        Item::Left(k, t) => lm.contains_key(k) && lm[k] == t && !rm.contains_key(k),
        Item::Right(k, u) => !lm.contains_key(k) && rm.contains_key(k) && rm[k] == u,
        Item::Both(k, t, u) => lm.contains_key(k) && lm[k] == t && rm.contains_key(k) && rm[k]
            == u,
    }
}

/// Dropping the head of increasing entries drops its key from the map.
pub proof fn lemma_drop_first<K: IdKey, V>(s: Seq<(K, V)>)
    requires
        keys_increasing(s),
        s.len() > 0,
    ensures
        keys_increasing(s.drop_first()),
        entries_map(s.drop_first()) == entries_map(s).remove(s[0].0),
        forall|k: K| #[trigger] entries_map(s.drop_first()).contains_key(k) ==> s[0].0.key_num()
            < k.key_num(),
{
    let t = s.drop_first();
    assert forall|i: int, j: int| 0 <= i < j < t.len() implies #[trigger] t[i].0.key_num()
        < #[trigger] t[j].0.key_num() by {
        assert(s[i + 1].0.key_num() < s[j + 1].0.key_num());
    }
    let m = entries_map(s);
    let mt = entries_map(t);
    assert forall|k: K| #[trigger] mt.contains_key(k) == m.remove(s[0].0).contains_key(k) by {
        if has_key(t, k) {
            let i = key_index(t, k);
            assert(s[i + 1].0 == k);
            assert(s[0].0.key_num() < s[i + 1].0.key_num());
        }
        if has_key(s, k) && k != s[0].0 {
            let i = key_index(s, k);
            assert(t[i - 1].0 == k);
        }
    }
    assert forall|k: K| mt.contains_key(k) implies #[trigger] mt[k] == m.remove(s[0].0)[k] by {
        let i = key_index(t, k);
        lemma_entries_map_index(t, i);
        lemma_entries_map_index(s, i + 1);
    }
    assert(mt =~= m.remove(s[0].0));
    assert forall|k: K| #[trigger] mt.contains_key(k) implies s[0].0.key_num() < k.key_num() by {
        let i = key_index(t, k);
        assert(s[0].0.key_num() < s[i + 1].0.key_num());
    }
}

/// The head of increasing entries has the smallest key of the map.
proof fn lemma_head_smallest<K: IdKey, V>(s: Seq<(K, V)>, k: K)
    requires
        keys_increasing(s),
        entries_map(s).contains_key(k),
    ensures
        s.len() > 0,
        s[0].0.key_num() <= k.key_num(),
        k.key_num() == s[0].0.key_num() ==> k == s[0].0,
{
    let i = key_index(s, k);
    if i > 0 {
        assert(s[0].0.key_num() < s[i].0.key_num());
    }
}

/// The full join of two sequences sorted by key visits each key of either
/// sequence exactly once, in increasing order, and tells whether the key is
/// in the left sequence only, in the right one only, or in both, with the
/// values stored there.
pub proof fn lemma_full_join<K: IdKey, T, U>(l: Seq<(K, T)>, r: Seq<(K, U)>)
    requires
        keys_increasing(l),
        keys_increasing(r),
    ensures
        forall|i: int, j: int|
            #![trigger join_seq(l, r)[i], join_seq(l, r)[j]]
            0 <= i < j < join_seq(l, r).len() ==> join_seq(l, r)[i].key().key_num() < join_seq(
                l,
                r,
            )[j].key().key_num(),
        forall|i: int|
            0 <= i < join_seq(l, r).len() ==> item_agrees(
                #[trigger] join_seq(l, r)[i],
                entries_map(l),
                entries_map(r),
            ),
        forall|k: K|
            entries_map(l).contains_key(k) || entries_map(r).contains_key(k) ==> exists|i: int|
                0 <= i < join_seq(l, r).len() && #[trigger] join_seq(l, r)[i].key() == k,
    decreases l.len() + r.len(),
{
    let lm = entries_map(l);
    let rm = entries_map(r);
    let items = join_seq(l, r);
    let (item, l2, r2) = join_step(l, r);
    if l.len() == 0 && r.len() == 0 {
        assert(lm =~= Map::<K, T>::empty());
        assert(rm =~= Map::<K, U>::empty());
        return;
    }
    let it = item.unwrap();
    assert(items == seq![it] + join_seq(l2, r2));
    if l.len() > 0 {
        lemma_drop_first(l);
        lemma_entries_map_index(l, 0);
    }
    if r.len() > 0 {
        lemma_drop_first(r);
        lemma_entries_map_index(r, 0);
    }
    lemma_full_join(l2, r2);
    let lm2 = entries_map(l2);
    let rm2 = entries_map(r2);
    let rest = join_seq(l2, r2);
    // Every key left after the step is above the key taken.
    assert forall|k: K| lm2.contains_key(k) || rm2.contains_key(k) implies it.key().key_num()
        < k.key_num() by {
        if l.len() > 0 && r.len() > 0 {
            if lm2.contains_key(k) {
                if l2 == l {
                    lemma_head_smallest(l, k);
                }
            } else {
                if r2 == r {
                    lemma_head_smallest(r, k);
                }
            }
        }
    }
    // The head element agrees with the maps.
    if l.len() > 0 && r.len() > 0 {
        if l[0].0.key_num() < r[0].0.key_num() {
            if rm.contains_key(l[0].0) {
                lemma_head_smallest(r, l[0].0);
            }
        } else if l[0].0.key_num() > r[0].0.key_num() {
            if lm.contains_key(r[0].0) {
                lemma_head_smallest(l, r[0].0);
            }
        } else {
            K::lemma_key_num_injective(l[0].0, r[0].0);
        }
    } else if l.len() > 0 {
        assert(rm =~= Map::<K, U>::empty());
    } else {
        assert(lm =~= Map::<K, T>::empty());
    }
    assert(item_agrees(it, lm, rm));
    assert forall|i: int| 0 <= i < items.len() implies item_agrees(#[trigger] items[i], lm, rm) by {
        if i > 0 {
            let x = rest[i - 1];
            assert(items[i] == x);
            assert(item_agrees(x, lm2, rm2));
            match x {
                Item::Left(k, t) => {
                    assert(it.key().key_num() < k.key_num());
                },
                Item::Right(k, u) => {
                    assert(it.key().key_num() < k.key_num());
                },
                Item::Both(k, t, u) => {
                },
            }
        }
    }
    assert forall|i: int, j: int|
        #![trigger items[i], items[j]]
        0 <= i < j < items.len() implies items[i].key().key_num() < items[j].key().key_num() by {
        assert(items[j] == rest[j - 1]);
        assert(item_agrees(rest[j - 1], lm2, rm2));
        if i > 0 {
            assert(items[i] == rest[i - 1]);
        }
    }
    assert forall|k: K| lm.contains_key(k) || rm.contains_key(k) implies exists|i: int|
        0 <= i < items.len() && #[trigger] items[i].key() == k by {
        if k == it.key() {
            assert(items[0].key() == k);
        } else {
            assert(lm2.contains_key(k) || rm2.contains_key(k));
            let i = choose|i: int| 0 <= i < rest.len() && #[trigger] rest[i].key() == k;
            assert(items[i + 1] == rest[i]);
        }
    }
}

/// In the full join of two sorted sequences each key comes exactly once:
/// two elements with the same key are the same element.
pub proof fn lemma_full_join_keys_once<K: IdKey, T, U>(l: Seq<(K, T)>, r: Seq<(K, U)>)
    requires
        keys_increasing(l),
        keys_increasing(r),
    ensures
        forall|i: int, j: int|
            #![trigger join_seq(l, r)[i], join_seq(l, r)[j]]
            0 <= i < join_seq(l, r).len() && 0 <= j < join_seq(l, r).len() && join_seq(l, r)[i].key()
                == join_seq(l, r)[j].key() ==> i == j,
{
    lemma_full_join(l, r);
}

/// The entries of the left sequence that the elements of a join carry, in
/// order.
pub open spec fn left_part<K, T, U>(items: Seq<Item<K, T, U>>) -> Seq<(K, T)>
    decreases items.len(),
{
    if items.len() == 0 {
        Seq::empty()
    } else {
        let rest = left_part(items.drop_first());
        match items[0] {
            Item::Left(k, t) => seq![(k, t)] + rest,
            Item::Both(k, t, _) => seq![(k, t)] + rest,
            Item::Right(_, _) => rest,
        }
    }
}

/// The entries of the right sequence that the elements of a join carry, in
/// order.
pub open spec fn right_part<K, T, U>(items: Seq<Item<K, T, U>>) -> Seq<(K, U)>
    decreases items.len(),
{
    if items.len() == 0 {
        Seq::empty()
    } else {
        let rest = right_part(items.drop_first());
        match items[0] {
            Item::Right(k, u) => seq![(k, u)] + rest,
            Item::Both(k, _, u) => seq![(k, u)] + rest,
            Item::Left(_, _) => rest,
        }
    }
}

/// The full join of two sequences, sorted or not, loses and repeats
/// nothing: the entries it carries from either side are that side, in
/// order.
pub proof fn lemma_full_join_projections<K: IdKey, T, U>(l: Seq<(K, T)>, r: Seq<(K, U)>)
    ensures
        left_part(join_seq(l, r)) == l,
        right_part(join_seq(l, r)) == r,
    decreases l.len() + r.len(),
{
    let items = join_seq(l, r);
    let (item, l2, r2) = join_step(l, r);
    if l.len() == 0 && r.len() == 0 {
        assert(items =~= Seq::<Item<K, T, U>>::empty());
        assert(l =~= Seq::<(K, T)>::empty());
        assert(r =~= Seq::<(K, U)>::empty());
        return;
    }
    lemma_full_join_projections(l2, r2);
    let it = item.unwrap();
    assert(items == seq![it] + join_seq(l2, r2));
    assert(items.drop_first() =~= join_seq(l2, r2));
    assert(items[0] == it);
    if l.len() > 0 {
        assert(l =~= seq![l[0]] + l.drop_first());
    }
    if r.len() > 0 {
        assert(r =~= seq![r[0]] + r.drop_first());
    }
    match it {
        Item::Left(k, t) => {
            assert(right_part(items) == right_part(items.drop_first()));
            assert(r2 == r);
        },
        Item::Right(k, u) => {
            assert(right_part(items) == seq![(k, u)] + right_part(items.drop_first()));
            assert(r2 == r.drop_first() && (k, u) == r[0]);
        },
        Item::Both(k, t, u) => {
            K::lemma_key_num_injective(l[0].0, r[0].0);
            assert(right_part(items) == seq![(k, u)] + right_part(items.drop_first()));
            assert(r2 == r.drop_first() && (k, u) == r[0]);
        },
    }
}

/// The reverse of `s`.
pub open spec fn reversed<A>(s: Seq<A>) -> Seq<A> {
    Seq::new(s.len(), |i: int| s[s.len() - 1 - i])
}

/// Iterator over the full join of two sequences of key value pairs. The
/// sequences are assumed to be sorted by the key in ascending order.
pub struct FullJoinIter<K, T, U> {
    left: Vec<(K, T)>,
    right: Vec<(K, U)>,
}

impl<K: IdKey, T, U> FullJoinIter<K, T, U> {
    /// What is left of the left sequence, in order.
    pub closed spec fn left_rest(self) -> Seq<(K, T)> {
        reversed(self.left@)
    }

    /// What is left of the right sequence, in order.
    pub closed spec fn right_rest(self) -> Seq<(K, U)> {
        reversed(self.right@)
    }

    /// Advances the sequence whose head has the smaller key.
    pub fn next(&mut self) -> (r: Option<Item<K, T, U>>)
        ensures
            (r, final(self).left_rest(), final(self).right_rest()) == join_step(
                old(self).left_rest(),
                old(self).right_rest(),
            ),
    {
        let ghost l0 = self.left@;
        let ghost r0 = self.right@;
        let nl = self.left.len();
        let nr = self.right.len();
        if nl > 0 && nr > 0 {
            let lk = self.left[nl - 1].0.key();
            let rk = self.right[nr - 1].0.key();
            if lk < rk {
                let (k, t) = self.pop_left();
                Some(Item::Left(k, t))
            } else if lk > rk {
                let (k, u) = self.pop_right();
                Some(Item::Right(k, u))
            } else {
                let (k, t) = self.pop_left();
                let (_, u) = self.pop_right();
                Some(Item::Both(k, t, u))
            }
        } else if nl > 0 {
            let (k, t) = self.pop_left();
            Some(Item::Left(k, t))
        } else if nr > 0 {
            let (k, u) = self.pop_right();
            Some(Item::Right(k, u))
        } else {
            None
        }
    }

    fn pop_left(&mut self) -> (r: (K, T))
        requires
            old(self).left@.len() > 0,
        ensures
            r == old(self).left_rest()[0],
            final(self).left_rest() == old(self).left_rest().drop_first(),
            final(self).right_rest() == old(self).right_rest(),
    {
        let ghost l0 = self.left@;
        let r = self.left.pop().unwrap();
        assert(reversed(self.left@) =~= reversed(l0).drop_first());
        r
    }

    fn pop_right(&mut self) -> (r: (K, U))
        requires
            old(self).right@.len() > 0,
        ensures
            r == old(self).right_rest()[0],
            final(self).right_rest() == old(self).right_rest().drop_first(),
            final(self).left_rest() == old(self).left_rest(),
    {
        let ghost r0 = self.right@;
        let r = self.right.pop().unwrap();
        assert(reversed(self.right@) =~= reversed(r0).drop_first());
        r
    }
}

/// Reverses a vector by moving its elements.
pub(crate) fn reverse_vec<A>(v: Vec<A>) -> (r: Vec<A>)
    ensures
        reversed(r@) == v@,
{
    let ghost v0 = v@;
    let mut v = v;
    let mut r: Vec<A> = Vec::new();
    while v.len() > 0
        invariant
            v0 == v@ + reversed(r@),
        decreases v.len(),
    {
        let ghost before = v@;
        let ghost rb = r@;
        match v.pop() {
            Some(x) => {
                r.push(x);
                assert(before == v@.push(x));
                assert(reversed(r@) =~= seq![x] + reversed(rb));
                assert(v0 =~= v@ + reversed(r@));
            },
            None => {},
        }
    }
    assert(v@ =~= Seq::<A>::empty());
    assert(v0 =~= reversed(r@));
    r
}

/// The full join of two sequences of key value pairs.
pub fn full_join<K: IdKey, T, U>(left: Vec<(K, T)>, right: Vec<(K, U)>) -> (r: FullJoinIter<
    K,
    T,
    U,
>)
    ensures
        r.left_rest() == left@,
        r.right_rest() == right@,
{
    FullJoinIter { left: reverse_vec(left), right: reverse_vec(right) }
}

} // verus!
