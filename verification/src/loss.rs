use vstd::prelude::*;

use std::collections::BTreeSet;

verus! {

broadcast use vstd::std_specs::btree::group_btree_axioms, vstd::laws_cmp::group_laws_cmp;

/// How far back, in sequence numbers, received packets are remembered.
pub const NUM_KEEP_DURATION: usize = 100;

/// `other` is recent enough to be kept once `latest` has been received.
pub open spec fn is_kept(other: usize, latest: usize) -> bool {
    other + NUM_KEEP_DURATION >= latest
}

/// Estimates packet loss from the sequence numbers of received packets.
#[derive(Debug)]
pub struct LossEstimation {
    received: BTreeSet<usize>,
}

impl View for LossEstimation {
    type V = Set<usize>;

    closed spec fn view(&self) -> Set<usize> {
        self.received@
    }
}

impl LossEstimation {
    /// An estimation that has received nothing yet.
    pub fn new() -> (r: Self)
        ensures
            r@ == Set::<usize>::empty(),
    {
        LossEstimation { received: BTreeSet::new() }
    }

    /// Records that the packet numbered `sequence_num` arrived, forgetting
    /// the numbers that are more than `NUM_KEEP_DURATION` below it.
    pub fn record_received(&mut self, sequence_num: usize)
        ensures
            final(self)@ == old(self)@.filter(|n: usize| is_kept(n, sequence_num)).insert(
                sequence_num,
            ),
    {
        let mut kept: BTreeSet<usize> = BTreeSet::new();
        let ghost old_set = self.received@;
        for x in it: self.received.iter()
            invariant
                it.seq().unref().to_set() == old_set,
                forall|v: usize| #[trigger]
                    kept@.contains(v) ==> old_set.contains(v) && is_kept(v, sequence_num),
                forall|v: usize|
                    #[trigger] old_set.contains(v) && is_kept(v, sequence_num) ==> kept@.contains(v)
                        || exists|j: int|
                        it.index() <= j < it.seq().len() && #[trigger] it.seq().unref()[j] == v,
        {
            proof {
                assert(it.seq().unref()[it.index()] == *x);
            }
            let keep = if sequence_num <= NUM_KEEP_DURATION {
                true
            } else {
                *x >= sequence_num - NUM_KEEP_DURATION
            };
            if keep {
                kept.insert(*x);
            }
        }
        kept.insert(sequence_num);
        self.received = kept;
        proof {
            let target = old_set.filter(|n: usize| is_kept(n, sequence_num)).insert(sequence_num);
            assert(self.received@ =~= target);
        }
    }

    /// The number of remembered packets, and the smallest and largest
    /// remembered sequence numbers; `None` when nothing is remembered.
    pub fn received_range(&self) -> (r: Option<(usize, usize, usize)>)
        ensures
            match r {
                None => self@ == Set::<usize>::empty(),
                Some((count, first, last)) => {
                    &&& count == self@.len()
                    &&& 1 <= count <= last - first + 1
                    &&& self@.contains(first)
                    &&& self@.contains(last)
                    &&& forall|v: usize| #[trigger] self@.contains(v) ==> first <= v <= last
                },
            },
    {
        broadcast use vstd::seq_lib::seq_to_set_is_finite;

        let ghost set = self.received@;
        let mut bounds: Option<(usize, usize)> = None;
        for x in it: self.received.iter()
            invariant
                it.seq().unref().to_set() == set,
                set.finite(),
                match bounds {
                    None => true,
                    Some((lo, hi)) => set.contains(lo) && set.contains(hi),
                },
                forall|v: usize| #[trigger]
                    set.contains(v) ==> (match bounds {
                        None => false,
                        Some((lo, hi)) => lo <= v <= hi,
                    }) || exists|j: int|
                        it.index() <= j < it.seq().len() && #[trigger] it.seq().unref()[j] == v,
        {
            proof {
                assert(it.seq().unref()[it.index()] == *x);
                assert(it.seq().unref().contains(*x));
            }
            bounds = match bounds {
                None => Some((*x, *x)),
                Some((lo, hi)) => Some(
                    (if *x < lo {
                        *x
                    } else {
                        lo
                    }, if *x > hi {
                        *x
                    } else {
                        hi
                    }),
                ),
            };
        }
        match bounds {
            None => {
                assert(set =~= Set::<usize>::empty());
                None
            },
            Some((lo, hi)) => {
                proof {
                    lemma_count_within_bounds(set, lo, hi);
                }
                Some((self.received.len(), lo, hi))
            },
        }
    }
}

/// A finite set of numbers between `lo` and `hi`, holding `lo`, has at
/// least one and at most `hi - lo + 1` elements.
proof fn lemma_count_within_bounds(set: Set<usize>, lo: usize, hi: usize)
    requires
        set.finite(),
        set.contains(lo),
        forall|v: usize| #[trigger] set.contains(v) ==> lo <= v <= hi,
    ensures
        1 <= set.len() <= hi - lo + 1,
{
    let f = |v: usize| v as int;
    let img = set.map(f);
    assert(vstd::relations::injective_on(f, set));
    vstd::set_lib::lemma_map_size(set, img, f);
    vstd::set_lib::lemma_int_range(lo as int, hi + 1);
    assert(img.subset_of(vstd::set_lib::set_int_range(lo as int, hi + 1))) by {
        assert forall|i: int| #[trigger] img.contains(i) implies lo <= i < hi + 1 by {
            let v = choose|v: usize| set.contains(v) && f(v) == i;
        }
    }
    vstd::set_lib::lemma_len_subset(img, vstd::set_lib::set_int_range(lo as int, hi + 1));
    assert(set.remove(lo).len() == set.len() - 1);
}

impl Default for LossEstimation {
    fn default() -> (r: Self)
        ensures
            r@ == Set::<usize>::empty(),
    {
        LossEstimation::new()
    }
}

} // verus!
