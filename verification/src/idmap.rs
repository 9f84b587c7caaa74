use vstd::prelude::*;

use crate::ids::IdKey;

verus! {

/// The keys of `s` strictly increase by their numbers.
pub open spec fn keys_increasing<K: IdKey, V>(s: Seq<(K, V)>) -> bool {
    forall|i: int, j: int|
        #![trigger s[i], s[j]]
        0 <= i < j < s.len() ==> s[i].0.key_num() < s[j].0.key_num()
}

/// `k` is the key of some entry of `s`.
pub open spec fn has_key<K, V>(s: Seq<(K, V)>, k: K) -> bool {
    exists|i: int| 0 <= i < s.len() && #[trigger] s[i].0 == k
}

/// An index of an entry of `s` whose key is `k`.
pub open spec fn key_index<K, V>(s: Seq<(K, V)>, k: K) -> int {
    choose|i: int| 0 <= i < s.len() && #[trigger] s[i].0 == k
}

/// The map that a sequence of entries stands for.
pub open spec fn entries_map<K, V>(s: Seq<(K, V)>) -> Map<K, V> {
    Map::new(|k: K| has_key(s, k), |k: K| s[key_index(s, k)].1)
}

/// In a sequence with increasing keys, each entry is found under its key.
pub proof fn lemma_entries_map_index<K: IdKey, V>(s: Seq<(K, V)>, i: int)
    requires
        keys_increasing(s),
        0 <= i < s.len(),
    ensures
        key_index(s, s[i].0) == i,
        entries_map(s).contains_key(s[i].0),
        entries_map(s)[s[i].0] == s[i].1,
{
    assert(has_key(s, s[i].0));
    let j = key_index(s, s[i].0);
    if j < i {
        assert(s[j].0.key_num() < s[i].0.key_num());
    } else if i < j {
        assert(s[i].0.key_num() < s[j].0.key_num());
    }
}

/// In a sequence with increasing keys, a key is present iff some entry has
/// its number.
pub proof fn lemma_has_key_num<K: IdKey, V>(s: Seq<(K, V)>, k: K, i: int)
    requires
        0 <= i < s.len(),
        s[i].0.key_num() == k.key_num(),
    ensures
        s[i].0 == k,
        has_key(s, k),
{
    K::lemma_key_num_injective(s[i].0, k);
}

/// Keys below a position whose number is at most that of the entry there
/// are not present when it is larger.
pub proof fn lemma_absent_between<K: IdKey, V>(s: Seq<(K, V)>, k: K, p: int)
    requires
        keys_increasing(s),
        0 <= p <= s.len(),
        forall|i: int| 0 <= i < p ==> #[trigger] s[i].0.key_num() < k.key_num(),
        p < s.len() ==> k.key_num() < s[p].0.key_num(),
    ensures
        !has_key(s, k),
{
    if has_key(s, k) {
        let j = key_index(s, k);
        if j < p {
            assert(s[j].0.key_num() < k.key_num());
        } else if j > p {
            assert(s[p].0.key_num() < s[j].0.key_num());
        }
    }
}

/// Replacing the value of an entry keeps the keys increasing.
proof fn lemma_update_increasing<K: IdKey, V>(s0: Seq<(K, V)>, p: int, k: K, v: V)
    requires
        keys_increasing(s0),
        0 <= p < s0.len(),
        s0[p].0 == k,
    ensures
        keys_increasing(s0.update(p, (k, v))),
{
    let s1 = s0.update(p, (k, v));
    assert forall|i: int, j: int| 0 <= i < j < s1.len() implies
        #[trigger] s1[i].0.key_num() < #[trigger] s1[j].0.key_num() by {
        assert(s0[i].0.key_num() < s0[j].0.key_num());
    }
}

/// Replacing the value of an entry replaces it in the map.
proof fn lemma_entries_map_update<K: IdKey, V>(s0: Seq<(K, V)>, p: int, k: K, v: V)
    requires
        keys_increasing(s0),
        0 <= p < s0.len(),
        s0[p].0 == k,
    ensures
        entries_map(s0.update(p, (k, v))) == entries_map(s0).insert(k, v),
{
    let s1 = s0.update(p, (k, v));
    lemma_update_increasing(s0, p, k, v);
    let m0 = entries_map(s0);
    let m1 = entries_map(s1);
    assert forall|x: K| #[trigger] m1.contains_key(x) == m0.insert(k, v).contains_key(x) by {
        if has_key(s1, x) {
            let i = key_index(s1, x);
            if i != p {
                assert(s0[i].0 == x);
            }
        }
        if has_key(s0, x) {
            let i = key_index(s0, x);
            assert(s1[i].0 == x);
        }
    }
    assert forall|x: K| m1.contains_key(x) implies #[trigger] m1[x] == m0.insert(k, v)[x] by {
        let i = key_index(s1, x);
        lemma_entries_map_index(s1, i);
        if i != p {
            lemma_entries_map_index(s0, i);
        }
    }
    assert(m1 =~= m0.insert(k, v));
}

/// Inserting a key between smaller and larger ones keeps the keys
/// increasing.
proof fn lemma_insert_increasing<K: IdKey, V>(s0: Seq<(K, V)>, p: int, k: K, v: V)
    requires
        keys_increasing(s0),
        0 <= p <= s0.len(),
        forall|i: int| 0 <= i < p ==> #[trigger] s0[i].0.key_num() < k.key_num(),
        p < s0.len() ==> k.key_num() < s0[p].0.key_num(),
    ensures
        keys_increasing(s0.insert(p, (k, v))),
{
    s0.insert_ensures(p, (k, v));
    let s1 = s0.insert(p, (k, v));
    assert forall|j: int| p < j < s1.len() implies s1[j] == s0[j - 1] by {
        assert(s1[(j - 1) + 1] == s0[j - 1]);
    }
    assert forall|i: int, j: int| 0 <= i < j < s1.len() implies
        #[trigger] s1[i].0.key_num() < #[trigger] s1[j].0.key_num() by {
        if j < p {
            assert(s0[i].0.key_num() < s0[j].0.key_num());
        } else if j == p {
            assert(s0[i].0.key_num() < k.key_num());
        } else if i < p {
            assert(s0[i].0.key_num() < k.key_num());
            if j - 1 > p {
                assert(s0[p].0.key_num() < s0[j - 1].0.key_num());
            }
        } else if i == p {
            if j - 1 > p {
                assert(s0[p].0.key_num() < s0[j - 1].0.key_num());
            }
        } else {
            assert(s0[i - 1].0.key_num() < s0[j - 1].0.key_num());
        }
    }
}

/// Removing an entry keeps the keys increasing.
proof fn lemma_remove_increasing<K: IdKey, V>(s0: Seq<(K, V)>, p: int)
    requires
        keys_increasing(s0),
        0 <= p < s0.len(),
    ensures
        keys_increasing(s0.remove(p)),
{
    s0.remove_ensures(p);
    let s1 = s0.remove(p);
    assert forall|i: int, j: int| 0 <= i < j < s1.len() implies
        #[trigger] s1[i].0.key_num() < #[trigger] s1[j].0.key_num() by {
        let i0 = if i < p { i } else { i + 1 };
        let j0 = if j < p { j } else { j + 1 };
        assert(s1[i] == s0[i0] && s1[j] == s0[j0]);
        assert(s0[i0].0.key_num() < s0[j0].0.key_num());
    }
}

/// A contiguous part of increasing keys is increasing.
proof fn lemma_subrange_increasing<K: IdKey, V>(s0: Seq<(K, V)>, a: int, b: int)
    requires
        keys_increasing(s0),
        0 <= a <= b <= s0.len(),
    ensures
        keys_increasing(s0.subrange(a, b)),
{
    let s1 = s0.subrange(a, b);
    assert forall|i: int, j: int| 0 <= i < j < s1.len() implies
        #[trigger] s1[i].0.key_num() < #[trigger] s1[j].0.key_num() by {
        assert(s0[i + a].0.key_num() < s0[j + a].0.key_num());
    }
}

/// Removing an entry removes its key from the map.
proof fn lemma_entries_map_remove<K: IdKey, V>(s0: Seq<(K, V)>, p: int)
    requires
        keys_increasing(s0),
        0 <= p < s0.len(),
    ensures
        entries_map(s0.remove(p)) == entries_map(s0).remove(s0[p].0),
{
    s0.remove_ensures(p);
    lemma_remove_increasing(s0, p);
    let s1 = s0.remove(p);
    let k = s0[p].0;
    let m0 = entries_map(s0);
    let m1 = entries_map(s1);
    assert forall|x: K| #[trigger] m1.contains_key(x) == m0.remove(k).contains_key(x) by {
        if has_key(s1, x) {
            let i = key_index(s1, x);
            let i0 = if i < p { i } else { i + 1 };
            assert(s1[i] == s0[i0]);
            assert(s0[i0].0 == x);
            if i0 < p {
                assert(s0[i0].0.key_num() < s0[p].0.key_num());
            } else {
                assert(s0[p].0.key_num() < s0[i0].0.key_num());
            }
        }
        if has_key(s0, x) && x != k {
            let i = key_index(s0, x);
            if i < p {
                assert(s1[i].0 == x);
            } else {
                assert(i != p);
                assert(s1[i - 1] == s0[i]);
                assert(s1[i - 1].0 == x);
            }
        }
    }
    assert forall|x: K| m1.contains_key(x) implies #[trigger] m1[x] == m0.remove(k)[x] by {
        let i = key_index(s1, x);
        lemma_entries_map_index(s1, i);
        let i0 = if i < p { i } else { i + 1 };
        assert(s1[i] == s0[i0]);
        lemma_entries_map_index(s0, i0);
    }
    assert(m1 =~= m0.remove(k));
}

/// The map of the first `i + 1` entries is that of the first `i` with entry
/// `i` added.
pub proof fn lemma_entries_map_take_push<K: IdKey, V>(s: Seq<(K, V)>, i: int)
    requires
        keys_increasing(s),
        0 <= i < s.len(),
    ensures
        entries_map(s.take(i + 1)) == entries_map(s.take(i)).insert(s[i].0, s[i].1),
{
    let a = s.take(i);
    let b = s.take(i + 1);
    lemma_subrange_increasing(s, 0, i);
    lemma_subrange_increasing(s, 0, i + 1);
    let ma = entries_map(a);
    let mb = entries_map(b);
    let m = ma.insert(s[i].0, s[i].1);
    lemma_entries_map_index(b, i);
    assert forall|k: K| #[trigger] mb.contains_key(k) == m.contains_key(k) by {
        if has_key(b, k) {
            let j = key_index(b, k);
            if j < i {
                assert(a[j].0 == k);
            }
        }
        if has_key(a, k) {
            let j = key_index(a, k);
            assert(b[j].0 == k);
        }
    }
    assert forall|k: K| mb.contains_key(k) implies #[trigger] mb[k] == m[k] by {
        if k != s[i].0 {
            let j = key_index(b, k);
            lemma_entries_map_index(b, j);
            if j == i {
                assert(b[j].0 == s[i].0);
            }
            assert(j < i);
            assert(a[j] == b[j]);
            lemma_entries_map_index(a, j);
        }
    }
    assert(mb =~= m);
}

/// A sequence of entries with increasing keys stands for a finite map with
/// as many keys as the sequence has entries.
pub proof fn lemma_entries_map_len<K: IdKey, V>(s: Seq<(K, V)>)
    requires
        keys_increasing(s),
    ensures
        entries_map(s).dom().finite(),
        entries_map(s).len() == s.len(),
{
    let keys = s.map_values(|e: (K, V)| e.0);
    assert(keys.no_duplicates()) by {
        assert forall|i: int, j: int| 0 <= i < s.len() && 0 <= j < s.len() && i != j implies keys[i]
            != keys[j] by {
            if i < j {
                assert(s[i].0.key_num() < s[j].0.key_num());
            } else {
                assert(s[j].0.key_num() < s[i].0.key_num());
            }
        }
    }
    keys.unique_seq_to_set();
    vstd::seq_lib::seq_to_set_is_finite(keys);
    assert(entries_map(s).dom() =~= keys.to_set()) by {
        assert forall|k: K| #[trigger] entries_map(s).dom().contains(k) implies keys.to_set().contains(
            k,
        ) by {
            let i = key_index(s, k);
            assert(keys[i] == k);
        }
        assert forall|k: K| #[trigger] keys.to_set().contains(k) implies entries_map(s).dom().contains(
            k,
        ) by {
            let i = choose|i: int| 0 <= i < keys.len() && keys[i] == k;
            assert(s[i].0 == k);
        }
    }
}

/// A finite map from identifiers to values, kept as a sequence of entries
/// sorted by key. Iteration visits the entries in increasing key order.
pub struct IdMap<K: IdKey, V> {
    entries: Vec<(K, V)>,
}

impl<K: IdKey, V> View for IdMap<K, V> {
    type V = Map<K, V>;

    open spec fn view(&self) -> Map<K, V> {
        entries_map(self.entries())
    }
}

impl<K: IdKey, V> IdMap<K, V> {
    /// The keys of the entries increase.
    #[verifier::type_invariant]
    pub open spec fn inv(self) -> bool {
        keys_increasing(self.entries())
    }

    /// The entries of the map, in increasing key order.
    pub closed spec fn entries(self) -> Seq<(K, V)> {
        self.entries@
    }

    /// An empty map.
    pub fn new() -> (r: Self)
        ensures
            r.entries() == Seq::<(K, V)>::empty(),
            r@ == Map::<K, V>::empty(),
    {
        let r = IdMap { entries: Vec::new() };
        assert(r@ =~= Map::<K, V>::empty());
        r
    }

    /// The number of entries.
    pub fn len(&self) -> (r: usize)
        ensures
            r == self.entries().len(),
            r == self@.len(),
            self@.dom().finite(),
    {
        proof {
            use_type_invariant(self);
            lemma_entries_map_len(self.entries@);
        }
        self.entries.len()
    }

    /// The entries in increasing key order.
    pub fn as_slice(&self) -> (r: &[(K, V)])
        ensures
            r@ == self.entries(),
            keys_increasing(r@),
    {
        proof {
            use_type_invariant(self);
        }
        self.entries.as_slice()
    }

    /// The entries of `m` with their values borrowed.
    pub fn entry_refs(&self) -> (r: Vec<(K, &V)>)
        ensures
            r@.len() == self.entries().len(),
            forall|i: int|
                0 <= i < r@.len() ==> (#[trigger] r@[i]).0 == self.entries()[i].0 && *r@[i].1
                    == self.entries()[i].1,
            keys_increasing(r@),
            forall|k: K| #[trigger] entries_map(r@).contains_key(k) <==> self@.contains_key(k),
            forall|k: K| #[trigger] entries_map(r@).contains_key(k) ==> *entries_map(r@)[k] == self@[k],
    {
        let s = self.as_slice();
        let n = s.len();
        let mut r: Vec<(K, &V)> = Vec::new();
        let mut i: usize = 0;
        while i < n
            invariant
                n == s@.len(),
                s@ == self.entries(),
                keys_increasing(s@),
                i <= n,
                r@.len() == i,
                forall|j: int|
                    0 <= j < i ==> (#[trigger] r@[j]).0 == s@[j].0 && *r@[j].1 == s@[j].1,
            decreases n - i,
        {
            r.push((s[i].0, &s[i].1));
            i = i + 1;
        }
        proof {
            let rs = r@;
            let es = s@;
            assert forall|a: int, b: int| 0 <= a < b < rs.len() implies #[trigger] rs[a].0.key_num()
                < #[trigger] rs[b].0.key_num() by {
                assert(es[a].0.key_num() < es[b].0.key_num());
            }
            assert forall|k: K| #[trigger] entries_map(rs).contains_key(k) <==> self@.contains_key(k) by {
                if entries_map(rs).contains_key(k) {
                    let j = choose|j: int| 0 <= j < rs.len() && #[trigger] rs[j].0 == k;
                    lemma_entries_map_index(es, j);
                }
                if self@.contains_key(k) {
                    let j = choose|j: int| 0 <= j < es.len() && #[trigger] es[j].0 == k;
                    assert(rs[j].0 == k);
                }
            }
            assert forall|k: K| #[trigger] entries_map(rs).contains_key(k) implies *entries_map(rs)[k]
                == self@[k] by {
                let j = choose|j: int| 0 <= j < rs.len() && #[trigger] rs[j].0 == k;
                lemma_entries_map_index(es, j);
                lemma_entries_map_index(rs, j);
            }
        }
        r
    }

    /// The first position whose key number is not below that of `k`, and
    /// whether the key there is `k`.
    fn position(&self, k: &K) -> (r: (usize, bool))
        ensures
            r.0 <= self.entries().len(),
            forall|i: int| 0 <= i < r.0 ==> #[trigger] self.entries()[i].0.key_num() < k.key_num(),
            r.0 < self.entries().len() ==> k.key_num() <= self.entries()[r.0 as int].0.key_num(),
            r.1 <==> (r.0 < self.entries().len() && self.entries()[r.0 as int].0 == *k),
            r.1 <==> self@.contains_key(*k),
    {
        proof {
            use_type_invariant(self);
        }
        let n = self.entries.len();
        let kn = k.key();
        let mut p: usize = 0;
        while p < n && self.entries[p].0.key() < kn
            invariant
                n == self.entries@.len(),
                p <= n,
                kn == k.key_num(),
                keys_increasing(self.entries@),
                forall|i: int| 0 <= i < p ==> #[trigger] self.entries@[i].0.key_num() < k.key_num(),
            decreases n - p,
        {
            p = p + 1;
        }
        let found = p < n && self.entries[p].0.key() == kn;
        proof {
            let s = self.entries@;
            if found {
                lemma_has_key_num(s, *k, p as int);
            } else {
                if p < n {
                    assert(k.key_num() < s[p as int].0.key_num());
                }
                lemma_absent_between(s, *k, p as int);
                if p < n && s[p as int].0 == *k {
                    assert(false);
                }
            }
        }
        (p, found)
    }

    /// Whether `k` has an entry.
    pub fn contains_key(&self, k: &K) -> (r: bool)
        ensures
            r == self@.contains_key(*k),
    {
        self.position(k).1
    }

    /// The value under `k`, if any.
    pub fn get(&self, k: &K) -> (r: Option<&V>)
        ensures
            match r {
                Some(v) => self@.contains_key(*k) && *v == self@[*k],
                None => !self@.contains_key(*k),
            },
    {
        proof {
            use_type_invariant(self);
        }
        let (p, found) = self.position(k);
        if found {
            proof {
                lemma_entries_map_index(self.entries@, p as int);
            }
            Some(&self.entries[p].1)
        } else {
            None
        }
    }

    /// Puts `v` under `k`, handing back the value that was there.
    pub fn insert(&mut self, k: K, v: V) -> (r: Option<V>)
        ensures
            final(self)@ == old(self)@.insert(k, v),
            match r {
                Some(o) => old(self)@.contains_key(k) && o == old(self)@[k],
                None => !old(self)@.contains_key(k),
            },
    {
        proof {
            use_type_invariant(&*self);
        }
        let ghost s0 = self.entries@;
        let (p, found) = self.position(&k);
        if found {
            proof {
                lemma_entries_map_index(s0, p as int);
            }
            proof {
                lemma_update_increasing(s0, p as int, k, v);
            }
            let mut entries: Vec<(K, V)> = Vec::new();
            std::mem::swap(&mut entries, &mut self.entries);
            let mut entry = (k, v);
            std::mem::swap(&mut entries[p], &mut entry);
            self.entries = entries;
            proof {
                assert(self.entries@ =~= s0.update(p as int, (k, v)));
                lemma_entries_map_update(s0, p as int, k, v);
            }
            Some(entry.1)
        } else {
            proof {
                if p < s0.len() {
                    K::lemma_key_num_injective(s0[p as int].0, k);
                }
                lemma_insert_increasing(s0, p as int, k, v);
            }
            let mut entries: Vec<(K, V)> = Vec::new();
            std::mem::swap(&mut entries, &mut self.entries);
            entries.insert(p, (k, v));
            self.entries = entries;
            proof {
                Self::lemma_view_insert(s0, self.entries@, p as int, k, v);
            }
            None
        }
    }

    /// Takes the entry under `k` out of the map, handing back its value.
    pub fn remove(&mut self, k: &K) -> (r: Option<V>)
        ensures
            final(self)@ == old(self)@.remove(*k),
            match r {
                Some(o) => old(self)@.contains_key(*k) && o == old(self)@[*k],
                None => !old(self)@.contains_key(*k),
            },
    {
        proof {
            use_type_invariant(&*self);
        }
        let ghost s0 = self.entries@;
        let (p, found) = self.position(k);
        if found {
            proof {
                lemma_entries_map_index(s0, p as int);
                lemma_remove_increasing(s0, p as int);
            }
            let mut entries: Vec<(K, V)> = Vec::new();
            std::mem::swap(&mut entries, &mut self.entries);
            let entry = entries.remove(p);
            self.entries = entries;
            proof {
                lemma_entries_map_remove(s0, p as int);
            }
            Some(entry.1)
        } else {
            assert(old(self)@.remove(*k) =~= old(self)@);
            None
        }
    }

    /// Keeps only the entries whose key number is above that of `bound`.
    pub fn retain_greater(&mut self, bound: &K)
        ensures
            final(self)@ == old(self)@.restrict(Set::new(|j: K| j.key_num() > bound.key_num())),
    {
        proof {
            use_type_invariant(&*self);
        }
        let ghost s0 = self.entries@;
        let n = self.entries.len();
        let b = bound.key();
        let mut p: usize = 0;
        while p < n && self.entries[p].0.key() <= b
            invariant
                n == self.entries@.len(),
                self.entries@ == s0,
                p <= n,
                b == bound.key_num(),
                forall|i: int| 0 <= i < p ==> #[trigger] s0[i].0.key_num() <= bound.key_num(),
            decreases n - p,
        {
            p = p + 1;
        }
        proof {
            lemma_subrange_increasing(s0, p as int, n as int);
        }
        let mut entries: Vec<(K, V)> = Vec::new();
        std::mem::swap(&mut entries, &mut self.entries);
        let tail = entries.split_off(p);
        self.entries = tail;
        proof {
            let s1 = self.entries@;
            assert(s1 =~= s0.subrange(p as int, n as int));
            let m0 = entries_map(s0);
            let m1 = entries_map(s1);
            let keep = Set::new(|j: K| j.key_num() > bound.key_num());
            assert forall|x: K| #[trigger] m1.contains_key(x) == m0.restrict(keep).contains_key(x) by {
                if has_key(s1, x) {
                    let i = key_index(s1, x);
                    assert(s0[i + p].0 == x);
                    if p < n {
                        assert(s0[p as int].0.key_num() > bound.key_num());
                        if i > 0 {
                            assert(s0[p as int].0.key_num() < s0[i + p].0.key_num());
                        }
                    }
                }
                if has_key(s0, x) && keep.contains(x) {
                    let i = key_index(s0, x);
                    if i < p {
                        assert(s0[i].0.key_num() <= bound.key_num());
                    } else {
                        assert(s1[i - p].0 == x);
                    }
                }
            }
            assert forall|x: K| m1.contains_key(x) implies #[trigger] m1[x] == m0.restrict(keep)[x] by {
                let i = key_index(s1, x);
                lemma_entries_map_index(s1, i);
                lemma_entries_map_index(s0, i + p);
            }
            assert(m1 =~= m0.restrict(keep));
        }
    }

    /// The entry with the smallest key, if any.
    pub fn first(&self) -> (r: Option<&(K, V)>)
        ensures
            match r {
                Some(e) => {
                    &&& self.entries().len() > 0
                    &&& *e == self.entries()[0]
                    &&& self@.contains_key(e.0)
                    &&& self@[e.0] == e.1
                    &&& forall|j: K| #[trigger] self@.contains_key(j) ==> e.0.key_num() <= j.key_num()
                },
                None => self.entries().len() == 0 && self@ == Map::<K, V>::empty(),
            },
    {
        proof {
            use_type_invariant(self);
        }
        if self.entries.len() == 0 {
            assert(self@ =~= Map::<K, V>::empty());
            None
        } else {
            proof {
                let s = self.entries@;
                lemma_entries_map_index(s, 0);
                assert forall|j: K| #[trigger] self@.contains_key(j) implies s[0].0.key_num() <= j.key_num() by {
                    let i = key_index(s, j);
                    if i > 0 {
                        assert(s[0].0.key_num() < s[i].0.key_num());
                    }
                }
            }
            Some(&self.entries[0])
        }
    }

    /// The largest key, if any.
    pub fn last_key(&self) -> (r: Option<K>)
        ensures
            match r {
                Some(k) => {
                    &&& self.entries().len() > 0
                    &&& k == self.entries().last().0
                    &&& self@.contains_key(k)
                    &&& forall|j: K| #[trigger] self@.contains_key(j) ==> j.key_num() <= k.key_num()
                },
                None => self.entries().len() == 0 && self@ == Map::<K, V>::empty(),
            },
    {
        proof {
            use_type_invariant(self);
        }
        let n = self.entries.len();
        if n == 0 {
            assert(self@ =~= Map::<K, V>::empty());
            None
        } else {
            proof {
                let s = self.entries@;
                lemma_entries_map_index(s, n - 1);
                assert forall|j: K| #[trigger] self@.contains_key(j) implies j.key_num() <= s[n - 1].0.key_num() by {
                    let i = key_index(s, j);
                    if i < n - 1 {
                        assert(s[i].0.key_num() < s[n - 1].0.key_num());
                    }
                }
            }
            Some(self.entries[n - 1].0)
        }
    }

    /// Adds an entry whose key is above every key of the map; it becomes the
    /// last entry.
    pub fn push_last(&mut self, k: K, v: V)
        requires
            forall|j: K| #[trigger] old(self)@.contains_key(j) ==> j.key_num() < k.key_num(),
        ensures
            final(self).entries() == old(self).entries().push((k, v)),
            final(self)@ == old(self)@.insert(k, v),
    {
        proof {
            use_type_invariant(&*self);
        }
        let ghost s0 = self.entries@;
        proof {
            assert forall|i: int| 0 <= i < s0.len() implies #[trigger] s0[i].0.key_num() < k.key_num() by {
                lemma_entries_map_index(s0, i);
                assert(old(self)@.contains_key(s0[i].0));
            }
            lemma_insert_increasing(s0, s0.len() as int, k, v);
            s0.insert_ensures(s0.len() as int, (k, v));
            assert(s0.insert(s0.len() as int, (k, v)) =~= s0.push((k, v)));
            Self::lemma_view_insert(s0, s0.push((k, v)), s0.len() as int, k, v);
        }
        let mut entries: Vec<(K, V)> = Vec::new();
        std::mem::swap(&mut entries, &mut self.entries);
        entries.push((k, v));
        self.entries = entries;
    }

    /// The entries, in increasing key order, taken out of the map.
    pub fn into_entries(self) -> (r: Vec<(K, V)>)
        ensures
            r@ == self.entries(),
            keys_increasing(r@),
            entries_map(r@) == self@,
    {
        proof {
            use_type_invariant(&self);
        }
        let IdMap { entries } = self;
        entries
    }

    /// The entry at position `i` in key order.
    pub fn entry_at(&self, i: usize) -> (r: &(K, V))
        requires
            i < self.entries().len(),
        ensures
            *r == self.entries()[i as int],
            self@.contains_key(r.0),
            self@[r.0] == r.1,
    {
        proof {
            use_type_invariant(self);
            lemma_entries_map_index(self.entries@, i as int);
        }
        &self.entries[i]
    }

    /// Replaces the value of the entry at position `i` in key order.
    pub fn set_value_at(&mut self, i: usize, v: V)
        requires
            i < old(self).entries().len(),
        ensures
            final(self).entries() == old(self).entries().update(
                i as int,
                (old(self).entries()[i as int].0, v),
            ),
            final(self)@ == old(self)@.insert(old(self).entries()[i as int].0, v),
    {
        proof {
            use_type_invariant(&*self);
        }
        let ghost s0 = self.entries@;
        let k = self.entries[i].0;
        proof {
            lemma_update_increasing(s0, i as int, k, v);
        }
        let mut entries: Vec<(K, V)> = Vec::new();
        std::mem::swap(&mut entries, &mut self.entries);
        let mut entry = (k, v);
        std::mem::swap(&mut entries[i], &mut entry);
        self.entries = entries;
        proof {
            assert(self.entries@ =~= s0.update(i as int, (k, v)));
            lemma_entries_map_update(s0, i as int, k, v);
        }
    }

    proof fn lemma_view_insert(s0: Seq<(K, V)>, s1: Seq<(K, V)>, p: int, k: K, v: V)
        requires
            keys_increasing(s0),
            keys_increasing(s1),
            0 <= p <= s0.len(),
            s1 == s0.insert(p, (k, v)),
        ensures
            entries_map(s1) == entries_map(s0).insert(k, v),
    {
        s0.insert_ensures(p, (k, v));
        assert forall|j: int| p < j < s1.len() implies s1[j] == s0[j - 1] by {
            assert(s1[(j - 1) + 1] == s0[j - 1]);
        }
        let m0 = entries_map(s0);
        let m1 = entries_map(s1);
        assert forall|x: K| #[trigger] m1.contains_key(x) == m0.insert(k, v).contains_key(x) by {
            if x == k {
                assert(s1[p].0 == k);
            }
            if has_key(s1, x) {
                let i = key_index(s1, x);
                if i < p {
                    assert(s0[i].0 == x);
                } else if i > p {
                    assert(s0[i - 1].0 == x);
                }
            }
            if has_key(s0, x) {
                let i = key_index(s0, x);
                if i < p {
                    assert(s1[i].0 == x);
                } else {
                    assert(s1[i + 1].0 == x);
                }
            }
        }
        assert forall|x: K| m1.contains_key(x) implies #[trigger] m1[x] == m0.insert(k, v)[x] by {
            let i = key_index(s1, x);
            lemma_entries_map_index(s1, i);
            if i < p {
                lemma_entries_map_index(s0, i);
            } else if i > p {
                lemma_entries_map_index(s0, i - 1);
            }
        }
        assert(m1 =~= m0.insert(k, v));
    }
}

} // verus!
