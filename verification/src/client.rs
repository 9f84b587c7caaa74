use vstd::prelude::*;

use std::collections::VecDeque;

use crate::game::{Input, MAX_INPUTS_PER_MESSAGE};
use crate::idmap::IdMap;
use crate::ids::TickNum;
use crate::join::{reverse_vec, reversed};
use crate::ping::push_bounded;

verus! {

/// The most ticks that one client update runs; when more have passed, only
/// the last of them are run.
pub const MAX_TICKS_PER_UPDATE: u32 = 5;

/// How many ticks older than a delta encoding base the received states are
/// kept, for packets still in transit.
pub const KEEP_STATES_BUFFER: u32 = 5;

/// How many ticks ahead of the current one a received state may be to be
/// interpolated into.
pub const MAX_INTERP_AHEAD: u32 = 3;

/// The first tick that an update crossing from `prev` to `new` runs.
pub open spec fn first_crossed(prev: TickNum, new: TickNum) -> int {
    if new.0 >= prev.0 + 1 + MAX_TICKS_PER_UPDATE {
        new.0 - MAX_TICKS_PER_UPDATE + 1
    } else {
        prev.0 + 1
    }
}

/// The ticks crossed when playback moves from tick `prev` to tick `new`,
/// in order: all of `prev + 1 ..= new`, or, when those are more than
/// `MAX_TICKS_PER_UPDATE`, only the last `MAX_TICKS_PER_UPDATE` of them.
pub fn crossed_tick_nums(prev: TickNum, new: TickNum) -> (r: Vec<TickNum>)
    requires
        prev.0 < u32::MAX,
    ensures
        r@.len() == if new.0 >= first_crossed(prev, new) {
            new.0 - first_crossed(prev, new) + 1
        } else {
            0
        },
        forall|i: int| 0 <= i < r@.len() ==> (#[trigger] r@[i]).0 == first_crossed(prev, new) + i,
{
    let first = if new.0 >= prev.0 + 1 && new.0 - (prev.0 + 1) >= MAX_TICKS_PER_UPDATE {
        new.0 - MAX_TICKS_PER_UPDATE + 1
    } else {
        prev.0 + 1
    };
    let mut r: Vec<TickNum> = Vec::new();
    if new.0 < first {
        return r;
    }
    let count = new.0 - first + 1;
    let mut i: u32 = 0;
    while i < count
        invariant
            first == first_crossed(prev, new),
            first >= 1,
            count == new.0 - first + 1,
            i <= count,
            r@.len() == i,
            forall|j: int| 0 <= j < r@.len() ==> (#[trigger] r@[j]).0 == first + j,
        decreases count - i,
    {
        r.push(TickNum(first + i));
        i = i + 1;
    }
    r
}

/// The received tick to interpolate into next: the first received one
/// after `tick_num`, if it is at most `MAX_INTERP_AHEAD` ticks ahead.
pub fn next_interp_tick<S>(received_states: &IdMap<TickNum, S>, tick_num: TickNum) -> (r: Option<
    TickNum,
>)
    ensures
        match r {
            Some(t) => {
                &&& received_states@.contains_key(t)
                &&& tick_num.0 < t.0 <= tick_num.0 + MAX_INTERP_AHEAD
                &&& forall|k: TickNum| #[trigger]
                    received_states@.contains_key(k) && tick_num.0 < k.0 ==> t.0 <= k.0
            },
            None => forall|k: TickNum| #[trigger]
                received_states@.contains_key(k) ==> !(tick_num.0 < k.0 <= tick_num.0
                    + MAX_INTERP_AHEAD),
        },
{
    let s = received_states.as_slice();
    let n = s.len();
    let mut i: usize = 0;
    while i < n && s[i].0.0 <= tick_num.0
        invariant
            n == s@.len(),
            s@ == received_states.entries(),
            crate::idmap::keys_increasing(s@),
            i <= n,
            forall|j: int| 0 <= j < i ==> (#[trigger] s@[j]).0.0 <= tick_num.0,
        decreases n - i,
    {
        i = i + 1;
    }
    proof {
        assert forall|k: TickNum| #[trigger] received_states@.contains_key(k) && tick_num.0 < k.0 implies i < n
            && s@[i as int].0.0 <= k.0 by {
            let j = crate::idmap::key_index(s@, k);
            if j > i {
                assert(s@[i as int].0.0 < s@[j].0.0);
            }
        }
    }
    if i < n && (s[i].0.0 as u64) <= (tick_num.0 as u64) + (MAX_INTERP_AHEAD as u64) {
        proof {
            crate::idmap::lemma_entries_map_index(s@, i as int);
        }
        Some(s[i].0)
    } else {
        None
    }
}

/// Forgets the received states that are more than `KEEP_STATES_BUFFER`
/// ticks older than the delta encoding base `diff_base`.
pub fn forget_old_states<S>(received_states: &mut IdMap<TickNum, S>, diff_base: TickNum)
    ensures
        final(received_states)@ == old(received_states)@.restrict(
            Set::new(|k: TickNum| k.0 + KEEP_STATES_BUFFER >= diff_base.0),
        ),
{
    if diff_base.0 > KEEP_STATES_BUFFER {
        received_states.retain_greater(&TickNum(diff_base.0 - KEEP_STATES_BUFFER - 1));
        proof {
            assert(Set::new(|k: TickNum| k.0 + KEEP_STATES_BUFFER >= diff_base.0) =~= Set::new(
                |j: TickNum| j.0 > diff_base.0 - KEEP_STATES_BUFFER - 1,
            ));
        }
    } else {
        proof {
            let m = received_states@;
            assert(m.restrict(Set::new(|k: TickNum| k.0 + KEEP_STATES_BUFFER >= diff_base.0)) =~= m);
        }
    }
}

/// Forgets the received entries for ticks before `tick_num`.
pub fn forget_before<S>(received: &mut IdMap<TickNum, S>, tick_num: TickNum)
    ensures
        final(received)@ == old(received)@.restrict(Set::new(|k: TickNum| k.0 >= tick_num.0)),
{
    if tick_num.0 > 0 {
        received.retain_greater(&TickNum(tick_num.0 - 1));
        proof {
            assert(Set::new(|k: TickNum| k.0 >= tick_num.0) =~= Set::new(
                |j: TickNum| j.0 > tick_num.0 - 1,
            ));
        }
    } else {
        proof {
            let m = received@;
            assert(m.restrict(Set::new(|k: TickNum| k.0 >= tick_num.0)) =~= m);
        }
    }
}

/// The newest `MAX_INPUTS_PER_MESSAGE` entries of `s`, in order.
pub open spec fn newest_inputs(s: Seq<(TickNum, Input)>) -> Seq<(TickNum, Input)> {
    if s.len() > MAX_INPUTS_PER_MESSAGE {
        s.subrange(s.len() - MAX_INPUTS_PER_MESSAGE, s.len() as int)
    } else {
        s
    }
}

/// Adds the input made at tick `tick_num` to the inputs that every input
/// message repeats, which keep only the newest `MAX_INPUTS_PER_MESSAGE`, so
/// that a lost message costs no input. Returns what the next input message
/// carries: those inputs, oldest first.
pub fn push_last_input(
    last_inputs: &mut VecDeque<(TickNum, Input)>,
    tick_num: TickNum,
    input: Input,
) -> (r: Vec<(TickNum, Input)>)
    ensures
        final(last_inputs)@ == newest_inputs(old(last_inputs)@.push((tick_num, input))),
        r@ == final(last_inputs)@,
{
    push_bounded(last_inputs, (tick_num, input), MAX_INPUTS_PER_MESSAGE);
    let n = last_inputs.len();
    let mut r: Vec<(TickNum, Input)> = Vec::new();
    let mut i: usize = 0;
    while i < n
        invariant
            n == last_inputs@.len(),
            i <= n,
            r@ == last_inputs@.take(i as int),
        decreases n - i,
    {
        r.push(last_inputs[i]);
        i = i + 1;
        proof {
            assert(r@ =~= last_inputs@.take(i as int));
        }
    }
    proof {
        assert(r@ =~= last_inputs@);
    }
    r
}

/// The tick that playback may not pass: the newest of the last received
/// tick, the current tick and the tick being interpolated into, which
/// halts local time when the server falls silent.
pub fn max_playback_tick<S>(
    received_states: &IdMap<TickNum, S>,
    tick_num: TickNum,
    next_tick_num: Option<TickNum>,
) -> (r: TickNum)
    ensures
        r.0 >= tick_num.0,
        next_tick_num matches Some(t) ==> r.0 >= t.0,
        forall|k: TickNum| #[trigger] received_states@.contains_key(k) ==> k.0 <= r.0,
        r == tick_num || next_tick_num == Some(r) || received_states@.contains_key(r),
{
    let mut r = tick_num;
    match received_states.last_key() {
        Some(k) => {
            if k.0 > r.0 {
                r = k;
            }
        },
        None => {},
    }
    match next_tick_num {
        Some(t) => {
            if t.0 > r.0 {
                r = t;
            }
        },
        None => {},
    }
    r
}

/// The received tick that playback at `tick_num` interpolates into: the
/// current target while playback has not reached it, and otherwise the
/// next one that is ready.
pub fn interp_target<S>(
    received_states: &IdMap<TickNum, S>,
    next_tick_num: Option<TickNum>,
    tick_num: TickNum,
) -> (r: Option<TickNum>)
    ensures
        match next_tick_num {
            Some(t) if t.0 > tick_num.0 => r == next_tick_num,
            _ => match r {
                Some(t) => {
                    &&& received_states@.contains_key(t)
                    &&& tick_num.0 < t.0 <= tick_num.0 + MAX_INTERP_AHEAD
                    &&& forall|k: TickNum| #[trigger]
                        received_states@.contains_key(k) && tick_num.0 < k.0 ==> t.0 <= k.0
                },
                None => forall|k: TickNum| #[trigger]
                    received_states@.contains_key(k) ==> !(tick_num.0 < k.0 <= tick_num.0
                        + MAX_INTERP_AHEAD),
            },
        },
{
    match next_tick_num {
        Some(t) => {
            if t.0 > tick_num.0 {
                return next_tick_num;
            }
        },
        None => {},
    }
    next_interp_tick(received_states, tick_num)
}

/// The events kept after adding `events` to `m`: each event list for a
/// tick after `cur` is stored under its tick, a later one for the same tick
/// replacing an earlier one.
pub open spec fn with_future_events<E>(
    m: Map<TickNum, E>,
    events: Seq<(TickNum, E)>,
    cur: TickNum,
) -> Map<TickNum, E>
    decreases events.len(),
{
    if events.len() == 0 {
        m
    } else {
        let m1 = with_future_events(m, events.drop_last(), cur);
        let e = events.last();
        if e.0.0 > cur.0 {
            m1.insert(e.0, e.1)
        } else {
            m1
        }
    }
}

/// Stores the events that a tick message carries for the ticks after
/// `cur_tick`; those of ticks already played are dropped.
pub fn add_future_events<E>(
    received_events: &mut IdMap<TickNum, E>,
    events: Vec<(TickNum, E)>,
    cur_tick: TickNum,
)
    ensures
        final(received_events)@ == with_future_events(old(received_events)@, events@, cur_tick),
{
    let ghost m0 = received_events@;
    let ghost all = events@;
    let mut rest = reverse_vec(events);
    let ghost mut done: Seq<(TickNum, E)> = Seq::empty();
    while rest.len() > 0
        invariant
            all == done + reversed(rest@),
            received_events@ == with_future_events(m0, done, cur_tick),
        decreases rest.len(),
    {
        let ghost before = rest@;
        let e = rest.pop().unwrap();
        proof {
            assert(before == rest@.push(e));
            assert(reversed(before) =~= seq![e] + reversed(rest@));
            assert(done.push(e).drop_last() =~= done);
            assert(all =~= done.push(e) + reversed(rest@));
        }
        if e.0.0 > cur_tick.0 {
            received_events.insert(e.0, e.1);
        }
        proof {
            done = done.push(e);
        }
    }
    proof {
        assert(reversed(rest@) =~= Seq::<(TickNum, E)>::empty());
        assert(all =~= done);
    }
}

/// What becomes of a tick message that the client receives.
#[derive(Debug, Clone, Copy, PartialEq, Eq, Structural)]
pub enum TickReceipt {
    /// The tick lies before the current playback time, as the caller
    /// measured it: ignored.
    TooOld,
    /// The tick is delta encoded against a state that is no longer kept:
    /// ignored.
    MissingBase(TickNum),
    /// The tick is to be decoded from the kept state of this tick, and the
    /// states well before it are forgotten.
    FromBase(TickNum),
    /// The tick is to be decoded from the empty game.
    FromScratch,
}

/// Decides what becomes of a received tick message: ignored when it is too
/// old or its delta encoding base is not kept; otherwise the states more
/// than `KEEP_STATES_BUFFER` ticks older than its base are forgotten, since
/// the server will never again encode against them, and the events it
/// carries for ticks after `cur_tick` are stored. The caller then decodes
/// the state from the base or from scratch and, if that succeeds, stores it
/// and acknowledges the tick.
pub fn receive_tick<S, Ev>(
    received_states: &mut IdMap<TickNum, S>,
    received_events: &mut IdMap<TickNum, Ev>,
    events: Vec<(TickNum, Ev)>,
    cur_tick: TickNum,
    diff_base: Option<TickNum>,
    too_old: bool,
) -> (r: TickReceipt)
    ensures
        r == if too_old {
            TickReceipt::TooOld
        } else {
            match diff_base {
                Some(b) => if old(received_states)@.contains_key(b) {
                    TickReceipt::FromBase(b)
                } else {
                    TickReceipt::MissingBase(b)
                },
                None => TickReceipt::FromScratch,
            }
        },
        (r is TooOld || r is MissingBase) ==> final(received_states)@ == old(received_states)@
            && final(received_events)@ == old(received_events)@,
        r matches TickReceipt::FromBase(b) ==> final(received_states)@ == old(
            received_states,
        )@.restrict(Set::new(|k: TickNum| k.0 + KEEP_STATES_BUFFER >= b.0)),
        r is FromScratch ==> final(received_states)@ == old(received_states)@,
        (r is FromBase || r is FromScratch) ==> final(received_events)@ == with_future_events(
            old(received_events)@,
            events@,
            cur_tick,
        ),
{
    if too_old {
        return TickReceipt::TooOld;
    }
    let r = match diff_base {
        Some(b) => {
            if !received_states.contains_key(&b) {
                return TickReceipt::MissingBase(b);
            }
            forget_old_states(received_states, b);
            TickReceipt::FromBase(b)
        },
        None => TickReceipt::FromScratch,
    };
    add_future_events(received_events, events, cur_tick);
    r
}

/// What the client does for one tick that playback crosses.
pub struct CrossedTick<Ev> {
    /// The tick crossed.
    pub tick_num: TickNum,
    /// The server's events of the tick, to be started now.
    pub events: Option<Ev>,
    /// The input message to send: the newest inputs, ending with the one
    /// for this tick.
    pub inputs: Vec<(TickNum, Input)>,
}

/// The resent inputs after the input `input` is pushed for the `n` ticks
/// from `t0` on.
pub open spec fn pushed_inputs(q: Seq<(TickNum, Input)>, t0: int, n: nat, input: Input) -> Seq<
    (TickNum, Input),
>
    decreases n,
{
    if n == 0 {
        q
    } else {
        newest_inputs(
            pushed_inputs(q, t0, (n - 1) as nat, input).push((TickNum((t0 + n - 1) as u32), input)),
        )
    }
}

/// Playback moving from `prev` to `new` crosses tick `k`.
pub open spec fn is_crossed(k: TickNum, prev: TickNum, new: TickNum) -> bool {
    first_crossed(prev, new) <= k.0 <= new.0
}

/// The ticks crossed when playback moves from `prev_tick` to `new_tick`,
/// as `crossed_tick_nums` gives them, each with the server events to start
/// (taken out of `received_events`) and the input message to send after
/// `input` is added to the resent inputs for it. Afterwards the events of
/// the ticks before `new_tick` are forgotten.
pub fn update_ticks<Ev>(
    last_inputs: &mut VecDeque<(TickNum, Input)>,
    received_events: &mut IdMap<TickNum, Ev>,
    prev_tick: TickNum,
    new_tick: TickNum,
    input: Input,
) -> (r: Vec<CrossedTick<Ev>>)
    requires
        prev_tick.0 < u32::MAX,
    ensures
        r@.len() == if new_tick.0 >= first_crossed(prev_tick, new_tick) {
            new_tick.0 - first_crossed(prev_tick, new_tick) + 1
        } else {
            0
        },
        forall|i: int|
            0 <= i < r@.len() ==> (#[trigger] r@[i]).tick_num.0 == first_crossed(prev_tick, new_tick)
                + i,
        forall|i: int|
            0 <= i < r@.len() ==> (#[trigger] r@[i]).events == if old(received_events)@.contains_key(
                r@[i].tick_num,
            ) {
                Some(old(received_events)@[r@[i].tick_num])
            } else {
                None
            },
        forall|i: int|
            0 <= i < r@.len() ==> (#[trigger] r@[i]).inputs@ == pushed_inputs(
                old(last_inputs)@,
                first_crossed(prev_tick, new_tick),
                (i + 1) as nat,
                input,
            ),
        final(last_inputs)@ == pushed_inputs(
            old(last_inputs)@,
            first_crossed(prev_tick, new_tick),
            r@.len(),
            input,
        ),
        final(received_events)@ == old(received_events)@.restrict(
            Set::new(|k: TickNum| k.0 >= new_tick.0 && !is_crossed(k, prev_tick, new_tick)),
        ),
{
    let ghost q0 = last_inputs@;
    let ghost e0 = received_events@;
    let ghost first = first_crossed(prev_tick, new_tick);
    let ticks = crossed_tick_nums(prev_tick, new_tick);
    let n = ticks.len();
    let mut r: Vec<CrossedTick<Ev>> = Vec::new();
    let mut i: usize = 0;
    while i < n
        invariant
            n == ticks@.len(),
            i <= n,
            first == first_crossed(prev_tick, new_tick),
            forall|j: int| 0 <= j < n ==> (#[trigger] ticks@[j]).0 == first + j,
            n == (if new_tick.0 >= first {
                new_tick.0 - first + 1
            } else {
                0
            }),
            r@.len() == i,
            forall|j: int| 0 <= j < i ==> (#[trigger] r@[j]).tick_num == ticks@[j],
            forall|j: int|
                0 <= j < i ==> (#[trigger] r@[j]).events == if e0.contains_key(r@[j].tick_num) {
                    Some(e0[r@[j].tick_num])
                } else {
                    None
                },
            forall|j: int|
                0 <= j < i ==> (#[trigger] r@[j]).inputs@ == pushed_inputs(
                    q0,
                    first,
                    (j + 1) as nat,
                    input,
                ),
            last_inputs@ == pushed_inputs(q0, first, i as nat, input),
            received_events@ == e0.restrict(
                Set::new(|k: TickNum| !(first <= k.0 < first + i)),
            ),
        decreases n - i,
    {
        let t = ticks[i];
        let ghost before = received_events@;
        let events = received_events.remove(&t);
        let inputs = push_last_input(last_inputs, t, input);
        proof {
            assert(t == TickNum((first + i) as u32));
            assert(received_events@ =~= e0.restrict(
                Set::new(|k: TickNum| !(first <= k.0 < first + i + 1)),
            ));
        }
        r.push(CrossedTick { tick_num: t, events, inputs });
        i = i + 1;
    }
    forget_before(received_events, new_tick);
    proof {
        assert(received_events@ =~= e0.restrict(
            Set::new(|k: TickNum| k.0 >= new_tick.0 && !is_crossed(k, prev_tick, new_tick)),
        ));
    }
    r
}

} // verus!
