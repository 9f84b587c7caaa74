use vstd::prelude::*;

use std::collections::VecDeque;

use crate::game::ReceivedPongError;
use crate::ids::SequenceNum;

verus! {

/// The pings of `s` with sequence numbers after `num`, in order.
pub open spec fn pings_after<T>(s: Seq<(SequenceNum, T)>, num: SequenceNum) -> Seq<(SequenceNum, T)> {
    s.filter(|e: (SequenceNum, T)| e.0.0 > num.0)
}

/// Some ping of `s` has the sequence number `num`.
pub open spec fn has_ping<T>(s: Seq<(SequenceNum, T)>, num: SequenceNum) -> bool {
    exists|i: int| 0 <= i < s.len() && #[trigger] s[i].0 == num
}

/// Matches a pong to the ping of the same sequence number among those still
/// waiting, and gives back what was noted when that ping was sent (the
/// first such ping, if several). The ping and all pings sent before it stop
/// waiting: over an unreliable connection some pings are never answered.
/// A pong that matches no waiting ping is an error and changes nothing.
pub fn match_pong<T: Copy>(waiting: &mut Vec<(SequenceNum, T)>, num: SequenceNum) -> (r: Result<
    T,
    ReceivedPongError,
>)
    ensures
        match r {
            Ok(t) => {
                &&& exists|i: int|
                    0 <= i < old(waiting)@.len() && old(waiting)@[i] == (num, t) && forall|j: int|
                        0 <= j < i ==> (#[trigger] old(waiting)@[j]).0 != num
                &&& final(waiting)@ == pings_after(old(waiting)@, num)
            },
            Err(e) => {
                &&& e == ReceivedPongError::InvalidSequenceNum
                &&& !has_ping(old(waiting)@, num)
                &&& final(waiting)@ == old(waiting)@
            },
        },
{
    let n = waiting.len();
    let mut i: usize = 0;
    while i < n && waiting[i].0.0 != num.0
        invariant
            n == waiting@.len(),
            i <= n,
            forall|j: int| 0 <= j < i ==> (#[trigger] waiting@[j]).0 != num,
        decreases n - i,
    {
        i = i + 1;
    }
    if i == n {
        return Err(ReceivedPongError::InvalidSequenceNum);
    }
    let t = waiting[i].1;
    let ghost s0 = waiting@;
    let mut kept: Vec<(SequenceNum, T)> = Vec::new();
    let mut j: usize = 0;
    while j < n
        invariant
            n == s0.len(),
            waiting@ == s0,
            j <= n,
            kept@ == s0.take(j as int).filter(|e: (SequenceNum, T)| e.0.0 > num.0),
        decreases n - j,
    {
        let e = waiting[j];
        proof {
            assert(s0.take(j + 1).drop_last() =~= s0.take(j as int));
            assert(s0.take(j + 1).last() == e);
            reveal(Seq::filter);
        }
        if e.0.0 > num.0 {
            kept.push(e);
        }
        j = j + 1;
    }
    proof {
        assert(s0.take(n as int) =~= s0);
    }
    *waiting = kept;
    Ok(t)
}

/// Appends `x` to the window `q`, then drops its oldest entries until at
/// most `max` remain.
pub fn push_bounded<T>(q: &mut VecDeque<T>, x: T, max: usize)
    ensures
        final(q)@ == if old(q)@.len() + 1 > max {
            old(q)@.push(x).subrange(old(q)@.len() + 1 - max, old(q)@.len() + 1 as int)
        } else {
            old(q)@.push(x)
        },
{
    let ghost s = old(q)@.push(x);
    q.push_back(x);
    while q.len() > max
        invariant
            s.len() >= q@.len(),
            q@ == s.subrange(s.len() - q@.len(), s.len() as int),
            q@.len() >= max || q@ == s,
        decreases q@.len(),
    {
        q.pop_front();
        proof {
            assert(q@ =~= s.subrange(s.len() - q@.len(), s.len() as int));
        }
    }
    proof {
        if s.len() > max {
            assert(q@.len() == max);
        } else {
            assert(q@ =~= s);
        }
    }
}

} // verus!
